//! The generic record-to-unresolved-value decoder: arity checking for
//! sequence-form records, tag checking for keyed-form records, variant
//! dispatch for tagged unions, and field-by-field decoding driven by the
//! schema descriptor.  A pure mapping: no side effects.

use crate::error::Error;
use crate::record::{value_size, values_size, KeyedRecord, Record, Scalar, Value};
use crate::resolve::{uval_wt, uvals_view, uvals_wt, SpecUval, UnresolvedValue};
use crate::schema::{kind_size, kind_wf, type_wf, FieldKind, Schema, TypeDef, UnionDef, VariantDef};
use vstd::prelude::*;

verus! {

/// The model of a decode result: the decoded value's model, or the error
/// unchanged.
pub open spec fn res_view(r: Result<UnresolvedValue, Error>) -> Result<SpecUval, Error> {
    match r {
        Result::Ok(u) => Result::Ok(u@),
        Result::Err(e) => Result::Err(e),
    }
}

/// The first variant of `vars` whose tag has the characters `tag`, if any.
pub open spec fn s_find_variant(vars: Seq<VariantDef>, tag: Seq<char>) -> Option<int>
    decreases vars.len(),
{
    if vars.len() == 0 {
        Option::None
    } else if vars[0].tag@ == tag {
        Option::Some(0int)
    } else {
        match s_find_variant(vars.skip(1), tag) {
            Option::Some(j) => Option::Some(j + 1),
            Option::None => Option::None,
        }
    }
}

/// What `s_find_variant` finds: the first match in declared order, or
/// nothing when no variant's tag matches.
pub proof fn lemma_find_variant(vars: Seq<VariantDef>, tag: Seq<char>)
    ensures
        match s_find_variant(vars, tag) {
            Option::Some(j) => 0 <= j < vars.len() && vars[j].tag@ == tag && forall|i: int|
                0 <= i < j ==> #[trigger] vars[i].tag@ != tag,
            Option::None => forall|i: int| 0 <= i < vars.len() ==> #[trigger] vars[i].tag@ != tag,
        },
    decreases vars.len(),
{
    if vars.len() > 0 && vars[0].tag@ != tag {
        lemma_find_variant(vars.skip(1), tag);
        assert(forall|i: int| 0 <= i < vars.len() - 1 ==> #[trigger] vars.skip(1)[i] == vars[i + 1]);
        match s_find_variant(vars.skip(1), tag) {
            Option::Some(j) => {
                assert(vars[j + 1].tag@ == tag);
                assert forall|i: int| 0 <= i < j + 1 implies #[trigger] vars[i].tag@ != tag by {
                    if i > 0 {
                        assert(vars.skip(1)[i - 1].tag@ != tag);
                    }
                }
            },
            Option::None => {
                assert forall|i: int| 0 <= i < vars.len() implies #[trigger] vars[i].tag@ != tag by {
                    if i > 0 {
                        assert(vars.skip(1)[i - 1].tag@ != tag);
                    }
                }
            },
        }
    }
}

/// Decode one tagged record against the type at index `t`: an entity
/// checks the tag against its name and decodes the parameters in sequence
/// form; a union dispatches on the tag to its first matching variant, in
/// declared order.
pub open spec fn s_decode_record(s: Schema, t: int, rec: Record) -> Result<SpecUval, Error>
    recommends
        0 <= t < s.len(),
    decreases values_size(rec.params@), 5nat, 0nat,
{
    match s.at(t) {
        TypeDef::EntityType(e) => if rec.tag@ != e.name@ {
            Result::Err(Error::UnexpectedTag(e.name, rec.tag))
        } else {
            s_decode_seq(s, t, rec.params@)
        },
        TypeDef::UnionType(u) => match s_find_variant(u.variants@, rec.tag@) {
            Option::Some(j) => match s_decode_variant(s, u.variants@[j].kind, rec.params@) {
                Result::Ok(p) => Result::Ok(SpecUval::Case(j, Box::new(p))),
                Result::Err(e) => Result::Err(e),
            },
            Option::None => Result::Err(Error::UnknownVariant(rec.tag)),
        },
    }
}

/// Decode a matched variant's payload: an entity variant takes the whole
/// parameter list in sequence form; any other variant takes exactly one
/// parameter, decoded by the variant's kind.
pub open spec fn s_decode_variant(s: Schema, k: FieldKind, params: Seq<Value>) -> Result<
    SpecUval,
    Error,
>
    decreases values_size(params), 4nat, 0nat,
{
    if k is Inline && s.is_entity(k->Inline_0 as int) {
        s_decode_seq(s, k->Inline_0 as int, params)
    } else if params.len() != 1 {
        Result::Err(Error::ArityMismatch(1, params.len() as usize))
    } else {
        s_decode_value(s, k, params[0])
    }
}

/// Decode a sequence-form parameter list against the entity at index `t`:
/// the length must equal the declared field count, and each parameter is
/// decoded positionally by its field's kind.
pub open spec fn s_decode_seq(s: Schema, t: int, params: Seq<Value>) -> Result<SpecUval, Error>
    recommends
        s.is_entity(t),
    decreases values_size(params), 3nat, 0nat,
{
    if params.len() != s.spec_attr_len(t) {
        Result::Err(
            Error::ArityMismatch(s.spec_attr_len(t) as usize, params.len() as usize),
        )
    } else {
        match s_decode_fields(s, s.fields_of(t), params) {
            Result::Ok(us) => Result::Ok(SpecUval::Fields(us)),
            Result::Err(e) => Result::Err(e),
        }
    }
}

/// Decode parameters positionally, left to right, stopping at the first
/// failure.
pub open spec fn s_decode_fields(s: Schema, ks: Seq<FieldKind>, params: Seq<Value>) -> Result<
    Seq<SpecUval>,
    Error,
>
    recommends
        ks.len() == params.len(),
    decreases values_size(params), 2nat, 0nat,
{
    if params.len() == 0 {
        Result::Ok(Seq::empty())
    } else {
        match s_decode_value(s, ks[0], params[0]) {
            Result::Ok(u) => match s_decode_fields(s, ks.skip(1), params.skip(1)) {
                Result::Ok(us) => Result::Ok(seq![u] + us),
                Result::Err(e) => Result::Err(e),
            },
            Result::Err(e) => Result::Err(e),
        }
    }
}

/// Decode the elements of a list field, in order, stopping at the first
/// failure.
pub open spec fn s_decode_items(s: Schema, k: FieldKind, items: Seq<Value>) -> Result<
    Seq<SpecUval>,
    Error,
>
    decreases values_size(items), 2nat, 0nat,
{
    if items.len() == 0 {
        Result::Ok(Seq::empty())
    } else {
        match s_decode_value(s, k, items[0]) {
            Result::Ok(u) => match s_decode_items(s, k, items.skip(1)) {
                Result::Ok(us) => Result::Ok(seq![u] + us),
                Result::Err(e) => Result::Err(e),
            },
            Result::Err(e) => Result::Err(e),
        }
    }
}

/// Decode one parameter by its declared kind: scalar pass-through,
/// reference capture, recursive nested decode, or element-wise aggregate
/// decode.
pub open spec fn s_decode_value(s: Schema, k: FieldKind, v: Value) -> Result<SpecUval, Error>
    decreases value_size(v), 1nat, kind_size(k),
{
    match k {
        FieldKind::Plain => match v {
            Value::Simple(sc) => Result::Ok(SpecUval::Scal(sc)),
            _ => Result::Err(Error::UnexpectedValue),
        },
        FieldKind::RefTo(_) => match v {
            Value::Ref(id) => Result::Ok(SpecUval::Ref(id)),
            _ => Result::Err(Error::UnexpectedValue),
        },
        FieldKind::Inline(t) => match v {
            Value::Nested(rec) => s_decode_record(s, t as int, *rec),
            _ => Result::Err(Error::UnexpectedValue),
        },
        FieldKind::ListOf(inner) => match v {
            Value::ListOf(items) => match s_decode_items(s, *inner, items@) {
                Result::Ok(us) => Result::Ok(SpecUval::Items(us)),
                Result::Err(e) => Result::Err(e),
            },
            _ => Result::Err(Error::UnexpectedValue),
        },
        FieldKind::OptionalOf(inner) => match v {
            Value::Unset => Result::Ok(SpecUval::Maybe(Option::None)),
            _ => match s_decode_value(s, *inner, v) {
                Result::Ok(u) => Result::Ok(SpecUval::Maybe(Option::Some(Box::new(u)))),
                Result::Err(e) => Result::Err(e),
            },
        },
    }
}

/// Decode a keyed-form record against the type at index `t`: the single
/// entry's tag and payload, or `EmptyRecord` when there is no entry.
pub open spec fn s_decode_keyed(s: Schema, t: int, kr: KeyedRecord) -> Result<SpecUval, Error>
    recommends
        0 <= t < s.len(),
{
    match kr.entry {
        Option::Some(rec) => s_decode_record(s, t, rec),
        Option::None => Result::Err(Error::EmptyRecord),
    }
}

/// Keyed-form decode against an entity: a missing entry fails with
/// `EmptyRecord`; a tag other than the type's name always fails with
/// `UnexpectedTag`, carrying the expected name and the actual tag; with
/// the right tag, the decode is exactly the wrapped sequence-form decode.
pub proof fn lemma_keyed_decode(s: Schema, t: int, kr: KeyedRecord)
    requires
        s.is_entity(t),
    ensures
        kr.entry is None ==> s_decode_keyed(s, t, kr) == Result::Err::<SpecUval, Error>(
            Error::EmptyRecord,
        ),
        kr.entry matches Option::Some(rec) ==> ((rec.tag@ != s.name_of(t) ==> s_decode_keyed(
            s,
            t,
            kr,
        ) == Result::Err::<SpecUval, Error>(
            Error::UnexpectedTag(s.at(t)->EntityType_0.name, rec.tag),
        )) && (rec.tag@ == s.name_of(t) ==> s_decode_keyed(s, t, kr) == s_decode_seq(
            s,
            t,
            rec.params@,
        ))),
{
}

/// Positional decoding succeeds exactly when every parameter decodes
/// under its own field kind, and then yields the decoded parameters in
/// order, losing none of them.
pub proof fn lemma_decode_fields_ok(s: Schema, ks: Seq<FieldKind>, params: Seq<Value>)
    requires
        ks.len() == params.len(),
    ensures
        s_decode_fields(s, ks, params) is Ok <==> (forall|i: int|
            0 <= i < params.len() ==> s_decode_value(s, ks[i], #[trigger] params[i]) is Ok),
        s_decode_fields(s, ks, params) matches Result::Ok(us) ==> us.len() == params.len() && (
        forall|i: int|
            0 <= i < params.len() ==> us[i] == s_decode_value(
                s,
                ks[i],
                #[trigger] params[i],
            )->Ok_0),
    decreases params.len(),
{
    if params.len() > 0 {
        lemma_decode_fields_ok(s, ks.skip(1), params.skip(1));
        assert(forall|i: int|
            0 <= i < params.len() - 1 ==> #[trigger] params.skip(1)[i] == params[i + 1]);
        assert(forall|i: int| 0 <= i < ks.len() - 1 ==> #[trigger] ks.skip(1)[i] == ks[i + 1]);
        if s_decode_fields(s, ks, params) is Ok {
            assert forall|i: int| 0 <= i < params.len() implies s_decode_value(
                s,
                ks[i],
                #[trigger] params[i],
            ) is Ok by {
                if i > 0 {
                    assert(params.skip(1)[i - 1] == params[i]);
                }
            }
        }
        if forall|i: int|
            0 <= i < params.len() ==> s_decode_value(s, ks[i], #[trigger] params[i]) is Ok {
            assert(s_decode_value(s, ks[0], params[0]) is Ok);
            assert forall|i: int| 0 <= i < params.len() - 1 implies s_decode_value(
                s,
                ks.skip(1)[i],
                #[trigger] params.skip(1)[i],
            ) is Ok by {
                assert(params.skip(1)[i] == params[i + 1]);
            }
        }
        match s_decode_fields(s, ks, params) {
            Result::Ok(us) => {
                let tail = s_decode_fields(s, ks.skip(1), params.skip(1))->Ok_0;
                assert(us == seq![s_decode_value(s, ks[0], params[0])->Ok_0] + tail);
                assert forall|i: int| 0 <= i < params.len() implies us[i] == s_decode_value(
                    s,
                    ks[i],
                    #[trigger] params[i],
                )->Ok_0 by {
                    if i > 0 {
                        assert(params.skip(1)[i - 1] == params[i]);
                        assert(tail[i - 1] == s_decode_value(s, ks.skip(1)[i - 1], params.skip(
                            1,
                        )[i - 1])->Ok_0);
                    }
                }
            },
            Result::Err(_) => {},
        }
    }
}

/// List decoding succeeds exactly when every element decodes, and then
/// yields the decoded elements in order.
pub proof fn lemma_decode_items_ok(s: Schema, k: FieldKind, items: Seq<Value>)
    ensures
        s_decode_items(s, k, items) is Ok <==> (forall|i: int|
            0 <= i < items.len() ==> s_decode_value(s, k, #[trigger] items[i]) is Ok),
        s_decode_items(s, k, items) matches Result::Ok(us) ==> us.len() == items.len() && (forall|
            i: int,
        |
            0 <= i < items.len() ==> us[i] == s_decode_value(s, k, #[trigger] items[i])->Ok_0),
    decreases items.len(),
{
    if items.len() > 0 {
        lemma_decode_items_ok(s, k, items.skip(1));
        assert(forall|i: int|
            0 <= i < items.len() - 1 ==> #[trigger] items.skip(1)[i] == items[i + 1]);
        if s_decode_items(s, k, items) is Ok {
            assert forall|i: int| 0 <= i < items.len() implies s_decode_value(
                s,
                k,
                #[trigger] items[i],
            ) is Ok by {
                if i > 0 {
                    assert(items.skip(1)[i - 1] == items[i]);
                }
            }
        }
        if forall|i: int| 0 <= i < items.len() ==> s_decode_value(s, k, #[trigger] items[i]) is Ok {
            assert(s_decode_value(s, k, items[0]) is Ok);
        }
        match s_decode_items(s, k, items) {
            Result::Ok(us) => {
                let tail = s_decode_items(s, k, items.skip(1))->Ok_0;
                assert(us == seq![s_decode_value(s, k, items[0])->Ok_0] + tail);
                assert forall|i: int| 0 <= i < items.len() implies us[i] == s_decode_value(
                    s,
                    k,
                    #[trigger] items[i],
                )->Ok_0 by {
                    if i > 0 {
                        assert(items.skip(1)[i - 1] == items[i]);
                        assert(tail[i - 1] == s_decode_value(s, k, items.skip(1)[i - 1])->Ok_0);
                    }
                }
            },
            Result::Err(_) => {},
        }
    }
}

/// Every well-formed sequence-form parameter list whose length equals the
/// declared field count decodes successfully, to the field-by-field
/// decoded values in declared order.
pub proof fn lemma_decode_seq_ok(s: Schema, t: int, params: Seq<Value>)
    requires
        s.is_entity(t),
        params.len() == s.spec_attr_len(t),
        forall|i: int|
            0 <= i < params.len() ==> s_decode_value(s, s.fields_of(t)[i], #[trigger] params[i])
                is Ok,
    ensures
        s_decode_seq(s, t, params) is Ok,
        s_decode_seq(s, t, params)->Ok_0 is Fields,
        s_decode_seq(s, t, params)->Ok_0->Fields_0.len() == params.len(),
        forall|i: int|
            0 <= i < params.len() ==> s_decode_seq(s, t, params)->Ok_0->Fields_0[i]
                == s_decode_value(s, s.fields_of(t)[i], #[trigger] params[i])->Ok_0,
{
    lemma_decode_fields_ok(s, s.fields_of(t), params);
}

/// A decoded tagged record fits the shape its type declares.
pub proof fn lemma_decode_record_wt(s: Schema, t: usize, rec: Record)
    requires
        s.wf(),
        t < s.len(),
    ensures
        s_decode_record(s, t as int, rec) matches Result::Ok(u) ==> uval_wt(
            s,
            FieldKind::Inline(t),
            u,
        ),
    decreases values_size(rec.params@), 5nat, 0nat,
{
    let n = s.len() as int;
    assert(type_wf(s.at(t as int), n, t as int));
    match s.at(t as int) {
        TypeDef::EntityType(e) => {
            lemma_decode_seq_wt(s, t, rec.params@);
        },
        TypeDef::UnionType(u) => {
            match s_find_variant(u.variants@, rec.tag@) {
                Option::Some(j) => {
                    lemma_find_variant(u.variants@, rec.tag@);
                    crate::schema::lemma_kind_wf_widen(u.variants@[j].kind, n, t as int, n);
                    lemma_decode_variant_wt(s, u.variants@[j].kind, rec.params@);
                },
                Option::None => {},
            }
        },
    }
}

/// A decoded variant payload fits the shape the variant's kind declares.
pub proof fn lemma_decode_variant_wt(s: Schema, k: FieldKind, params: Seq<Value>)
    requires
        s.wf(),
        kind_wf(k, s.len() as int, s.len() as int),
    ensures
        s_decode_variant(s, k, params) matches Result::Ok(u) ==> uval_wt(s, k, u),
    decreases values_size(params), 4nat, 0nat,
{
    if k is Inline && s.is_entity(k->Inline_0 as int) {
        lemma_decode_seq_wt(s, k->Inline_0, params);
    } else if params.len() == 1 {
        lemma_decode_value_wt(s, k, params[0]);
    }
}

/// A decoded sequence-form parameter list fits the entity's declared
/// fields, one value per field, in declared order.
pub proof fn lemma_decode_seq_wt(s: Schema, t: usize, params: Seq<Value>)
    requires
        s.wf(),
        s.is_entity(t as int),
    ensures
        s_decode_seq(s, t as int, params) matches Result::Ok(u) ==> u matches SpecUval::Fields(us)
            && uvals_wt(s, s.fields_of(t as int), us),
    decreases values_size(params), 3nat, 0nat,
{
    let n = s.len() as int;
    if params.len() == s.spec_attr_len(t as int) {
        assert(type_wf(s.at(t as int), n, t as int));
        assert forall|i: int| 0 <= i < s.fields_of(t as int).len() implies kind_wf(
            #[trigger] s.fields_of(t as int)[i],
            n,
            n,
        ) by {
            crate::schema::lemma_kind_wf_widen(s.fields_of(t as int)[i], n, t as int, n);
        }
        lemma_decode_fields_wt(s, s.fields_of(t as int), params);
    }
}

/// Positionally decoded fields fit their declared kinds.
pub proof fn lemma_decode_fields_wt(s: Schema, ks: Seq<FieldKind>, params: Seq<Value>)
    requires
        s.wf(),
        ks.len() == params.len(),
        forall|i: int| 0 <= i < ks.len() ==> kind_wf(#[trigger] ks[i], s.len() as int, s.len() as int),
    ensures
        s_decode_fields(s, ks, params) matches Result::Ok(us) ==> uvals_wt(s, ks, us),
    decreases values_size(params), 2nat, 0nat,
{
    if params.len() > 0 {
        lemma_decode_value_wt(s, ks[0], params[0]);
        assert(forall|i: int| 0 <= i < ks.len() - 1 ==> #[trigger] ks.skip(1)[i] == ks[i + 1]);
        lemma_decode_fields_wt(s, ks.skip(1), params.skip(1));
        match s_decode_fields(s, ks, params) {
            Result::Ok(us) => {
                let u0 = s_decode_value(s, ks[0], params[0])->Ok_0;
                let tail = s_decode_fields(s, ks.skip(1), params.skip(1))->Ok_0;
                assert(us == seq![u0] + tail);
                assert forall|i: int| 0 <= i < us.len() implies uval_wt(
                    s,
                    ks[i],
                    #[trigger] us[i],
                ) by {
                    if i > 0 {
                        assert(us[i] == tail[i - 1]);
                        assert(uval_wt(s, ks.skip(1)[i - 1], tail[i - 1]));
                    }
                }
            },
            Result::Err(_) => {},
        }
    }
}

/// Decoded list elements each fit the declared element kind.
pub proof fn lemma_decode_items_wt(s: Schema, k: FieldKind, items: Seq<Value>)
    requires
        s.wf(),
        kind_wf(k, s.len() as int, s.len() as int),
    ensures
        s_decode_items(s, k, items) matches Result::Ok(us) ==> forall|i: int|
            0 <= i < us.len() ==> uval_wt(s, k, #[trigger] us[i]),
    decreases values_size(items), 2nat, 0nat,
{
    if items.len() > 0 {
        lemma_decode_value_wt(s, k, items[0]);
        lemma_decode_items_wt(s, k, items.skip(1));
        match s_decode_items(s, k, items) {
            Result::Ok(us) => {
                let u0 = s_decode_value(s, k, items[0])->Ok_0;
                let tail = s_decode_items(s, k, items.skip(1))->Ok_0;
                assert(us == seq![u0] + tail);
                assert forall|i: int| 0 <= i < us.len() implies uval_wt(s, k, #[trigger] us[i]) by {
                    if i > 0 {
                        assert(us[i] == tail[i - 1]);
                    }
                }
            },
            Result::Err(_) => {},
        }
    }
}

/// A decoded parameter fits the shape its field kind declares.
pub proof fn lemma_decode_value_wt(s: Schema, k: FieldKind, v: Value)
    requires
        s.wf(),
        kind_wf(k, s.len() as int, s.len() as int),
    ensures
        s_decode_value(s, k, v) matches Result::Ok(u) ==> uval_wt(s, k, u),
    decreases value_size(v), 1nat, kind_size(k),
{
    match k {
        FieldKind::Plain => {},
        FieldKind::RefTo(_) => {},
        FieldKind::Inline(t) => {
            match v {
                Value::Nested(rec) => {
                    lemma_decode_record_wt(s, t, *rec);
                },
                _ => {},
            }
        },
        FieldKind::ListOf(inner) => {
            match v {
                Value::ListOf(items) => {
                    lemma_decode_items_wt(s, *inner, items@);
                },
                _ => {},
            }
        },
        FieldKind::OptionalOf(inner) => {
            if !(v is Unset) {
                lemma_decode_value_wt(s, *inner, v);
            }
        },
    }
}

/// Scalars equal themselves under content equality.
proof fn lemma_scalar_eqv_refl(sc: Scalar)
    ensures
        crate::record::scalar_eqv(sc, sc),
{
}

/// Tagged-record decoding is injective: two records that decode, under
/// one type, to the same unresolved value hold the same content.
pub proof fn lemma_decode_record_injective(s: Schema, t: int, r1: Record, r2: Record)
    requires
        s_decode_record(s, t, r1) is Ok,
        s_decode_record(s, t, r2) == s_decode_record(s, t, r1),
    ensures
        crate::record::record_eqv(r1, r2),
    decreases values_size(r1.params@), 5nat, 0nat,
{
    match s.at(t) {
        TypeDef::EntityType(e) => {
            lemma_decode_seq_injective(s, t, r1.params@, r2.params@);
        },
        TypeDef::UnionType(u) => {
            lemma_find_variant(u.variants@, r1.tag@);
            lemma_find_variant(u.variants@, r2.tag@);
            let j1 = s_find_variant(u.variants@, r1.tag@)->Some_0;
            let j2 = s_find_variant(u.variants@, r2.tag@)->Some_0;
            assert(j1 == j2);
            lemma_decode_variant_injective(s, u.variants@[j1].kind, r1.params@, r2.params@);
        },
    }
}

/// Variant-payload decoding is injective.
pub proof fn lemma_decode_variant_injective(s: Schema, k: FieldKind, p1: Seq<Value>, p2: Seq<Value>)
    requires
        s_decode_variant(s, k, p1) is Ok,
        s_decode_variant(s, k, p2) == s_decode_variant(s, k, p1),
    ensures
        crate::record::values_eqv(p1, p2),
    decreases values_size(p1), 4nat, 0nat,
{
    if k is Inline && s.is_entity(k->Inline_0 as int) {
        lemma_decode_seq_injective(s, k->Inline_0 as int, p1, p2);
    } else {
        lemma_decode_value_injective(s, k, p1[0], p2[0]);
        assert(p1.skip(1).len() == 0);
        assert(crate::record::values_eqv(p1.skip(1), p2.skip(1)));
    }
}

/// Sequence-form decoding is injective.
pub proof fn lemma_decode_seq_injective(s: Schema, t: int, p1: Seq<Value>, p2: Seq<Value>)
    requires
        s_decode_seq(s, t, p1) is Ok,
        s_decode_seq(s, t, p2) == s_decode_seq(s, t, p1),
    ensures
        crate::record::values_eqv(p1, p2),
    decreases values_size(p1), 3nat, 0nat,
{
    lemma_decode_fields_injective(s, s.fields_of(t), p1, p2);
}

/// Positional field decoding is injective.
pub proof fn lemma_decode_fields_injective(
    s: Schema,
    ks: Seq<FieldKind>,
    p1: Seq<Value>,
    p2: Seq<Value>,
)
    requires
        ks.len() == p1.len(),
        ks.len() == p2.len(),
        s_decode_fields(s, ks, p1) is Ok,
        s_decode_fields(s, ks, p2) == s_decode_fields(s, ks, p1),
    ensures
        crate::record::values_eqv(p1, p2),
    decreases values_size(p1), 2nat, 0nat,
{
    if p1.len() > 0 {
        let u1 = s_decode_value(s, ks[0], p1[0])->Ok_0;
        let u2 = s_decode_value(s, ks[0], p2[0])->Ok_0;
        let us1 = s_decode_fields(s, ks.skip(1), p1.skip(1))->Ok_0;
        let us2 = s_decode_fields(s, ks.skip(1), p2.skip(1))->Ok_0;
        assert((seq![u1] + us1)[0] == u1);
        assert((seq![u2] + us2)[0] == u2);
        assert(u1 == u2);
        lemma_decode_value_injective(s, ks[0], p1[0], p2[0]);
        assert((seq![u1] + us1).skip(1) =~= us1);
        assert((seq![u2] + us2).skip(1) =~= us2);
        lemma_decode_fields_injective(s, ks.skip(1), p1.skip(1), p2.skip(1));
    }
}

/// List-element decoding is injective.
pub proof fn lemma_decode_items_injective(s: Schema, k: FieldKind, i1: Seq<Value>, i2: Seq<Value>)
    requires
        s_decode_items(s, k, i1) is Ok,
        s_decode_items(s, k, i2) == s_decode_items(s, k, i1),
    ensures
        crate::record::values_eqv(i1, i2),
    decreases values_size(i1), 2nat, 0nat,
{
    lemma_decode_items_len(s, k, i1);
    lemma_decode_items_len(s, k, i2);
    if i1.len() > 0 {
        let u1 = s_decode_value(s, k, i1[0])->Ok_0;
        let u2 = s_decode_value(s, k, i2[0])->Ok_0;
        let us1 = s_decode_items(s, k, i1.skip(1))->Ok_0;
        let us2 = s_decode_items(s, k, i2.skip(1))->Ok_0;
        assert((seq![u1] + us1)[0] == u1);
        assert((seq![u2] + us2)[0] == u2);
        lemma_decode_value_injective(s, k, i1[0], i2[0]);
        assert((seq![u1] + us1).skip(1) =~= us1);
        assert((seq![u2] + us2).skip(1) =~= us2);
        lemma_decode_items_injective(s, k, i1.skip(1), i2.skip(1));
    }
}

/// A successful list decode yields one value per element.
pub proof fn lemma_decode_items_len(s: Schema, k: FieldKind, items: Seq<Value>)
    requires
        s_decode_items(s, k, items) is Ok,
    ensures
        s_decode_items(s, k, items)->Ok_0.len() == items.len(),
    decreases items.len(),
{
    if items.len() > 0 {
        lemma_decode_items_len(s, k, items.skip(1));
    }
}

/// Single-parameter decoding is injective: no information of a
/// well-formed parameter is lost in its unresolved form.
pub proof fn lemma_decode_value_injective(s: Schema, k: FieldKind, v1: Value, v2: Value)
    requires
        s_decode_value(s, k, v1) is Ok,
        s_decode_value(s, k, v2) == s_decode_value(s, k, v1),
    ensures
        crate::record::value_eqv(v1, v2),
    decreases value_size(v1), 1nat, kind_size(k),
{
    match k {
        FieldKind::Plain => {
            let sc = v1->Simple_0;
            lemma_scalar_eqv_refl(sc);
        },
        FieldKind::RefTo(_) => {},
        FieldKind::Inline(t) => {
            lemma_decode_record_injective(s, t as int, *v1->Nested_0, *v2->Nested_0);
        },
        FieldKind::ListOf(inner) => {
            lemma_decode_items_injective(s, *inner, v1->ListOf_0@, v2->ListOf_0@);
        },
        FieldKind::OptionalOf(inner) => {
            if v1 is Unset {
            } else {
                lemma_decode_value_injective(s, *inner, v1, v2);
            }
        },
    }
}

/// Find the first variant of `u` whose tag equals `tag`, in declared
/// order.
fn find_variant(u: &UnionDef, tag: &String) -> (r: Option<usize>)
    ensures
        match r {
            Option::Some(j) => s_find_variant(u.variants@, tag@) == Option::Some(j as int),
            Option::None => s_find_variant(u.variants@, tag@) is None,
        },
{
    proof {
        lemma_find_variant(u.variants@, tag@);
    }
    let n = u.variants.len();
    let mut j: usize = 0;
    while j < n
        invariant
            n == u.variants@.len(),
            j <= n,
            forall|i: int| 0 <= i < j ==> #[trigger] u.variants@[i].tag@ != tag@,
        decreases n - j,
    {
        if u.variants[j].tag == *tag {
            proof {
                lemma_find_variant(u.variants@, tag@);
            }
            return Some(j);
        }
        j += 1;
    }
    proof {
        lemma_find_variant(u.variants@, tag@);
    }
    None
}

/// Decode one tagged record against the type at index `t`.
pub fn decode_record(s: &Schema, t: usize, rec: &Record) -> (r: Result<UnresolvedValue, Error>)
    requires
        s.wf(),
        t < s.len(),
    ensures
        res_view(r) == s_decode_record(*s, t as int, *rec),
    decreases values_size(rec.params@), 5nat, 0nat,
{
    let ghost n = s.len() as int;
    match &s.types[t] {
        TypeDef::EntityType(e) => {
            if !(rec.tag == e.name) {
                Err(Error::UnexpectedTag(e.name.clone(), rec.tag.clone()))
            } else {
                decode_seq(s, t, &rec.params)
            }
        },
        TypeDef::UnionType(u) => {
            match find_variant(u, &rec.tag) {
                Some(j) => {
                    proof {
                        lemma_find_variant(u.variants@, rec.tag@);
                        assert(type_wf(s.at(t as int), n, t as int));
                        crate::schema::lemma_kind_wf_widen(u.variants@[j as int].kind, n, t as int, n);
                    }
                    match decode_variant(s, &u.variants[j].kind, &rec.params) {
                        Ok(p) => Ok(UnresolvedValue::Case(j, Box::new(p))),
                        Err(e) => Err(e),
                    }
                },
                None => Err(Error::UnknownVariant(rec.tag.clone())),
            }
        },
    }
}

/// Decode a matched variant's payload.
fn decode_variant(s: &Schema, k: &FieldKind, params: &Vec<Value>) -> (r: Result<
    UnresolvedValue,
    Error,
>)
    requires
        s.wf(),
        kind_wf(*k, s.len() as int, s.len() as int),
    ensures
        res_view(r) == s_decode_variant(*s, *k, params@),
    decreases values_size(params@), 4nat, 0nat,
{
    match k {
        FieldKind::Inline(t) => {
            match &s.types[*t] {
                TypeDef::EntityType(_) => {
                    return decode_seq(s, *t, params);
                },
                TypeDef::UnionType(_) => {},
            }
        },
        _ => {},
    }
    if params.len() != 1 {
        Err(Error::ArityMismatch(1, params.len()))
    } else {
        proof {
            crate::record::lemma_values_size_elem(params@, 0);
        }
        decode_value(s, k, &params[0])
    }
}

/// Decode a sequence-form parameter list against the entity at index `t`.
#[verifier::loop_isolation(false)]
pub fn decode_seq(s: &Schema, t: usize, params: &Vec<Value>) -> (r: Result<UnresolvedValue, Error>)
    requires
        s.wf(),
        s.is_entity(t as int),
    ensures
        res_view(r) == s_decode_seq(*s, t as int, params@),
    decreases values_size(params@), 3nat, 0nat,
{
    let ghost n = s.len() as int;
    let e = match &s.types[t] {
        TypeDef::EntityType(e) => e,
        TypeDef::UnionType(_) => vstd::pervasive::unreached(),
    };
    if params.len() != e.fields.len() {
        return Err(Error::ArityMismatch(e.fields.len(), params.len()));
    }
    let ghost ks = e.fields@;
    let ghost ps = params@;
    let mut out: Vec<UnresolvedValue> = Vec::new();
    let mut i: usize = 0;
    proof {
        assert(ks.skip(0) =~= ks);
        assert(ps.skip(0) =~= ps);
        assert(uvals_view(out@) =~= Seq::<SpecUval>::empty());
    }
    while i < params.len()
        invariant
            s.wf(),
            s.is_entity(t as int),
            *e == s.at(t as int)->EntityType_0,
            n == s.len() as int,
            ks == e.fields@,
            ps == params@,
            ps.len() == ks.len(),
            i <= ps.len(),
            out@.len() == i,
            match s_decode_fields(*s, ks.skip(i as int), ps.skip(i as int)) {
                Result::Ok(us) => s_decode_fields(*s, ks, ps) == Result::Ok::<Seq<SpecUval>, Error>(
                    uvals_view(out@) + us,
                ),
                Result::Err(er) => s_decode_fields(*s, ks, ps) == Result::Err::<
                    Seq<SpecUval>,
                    Error,
                >(er),
            },
        decreases ps.len() - i,
    {
        proof {
            assert(type_wf(s.at(t as int), n, t as int));
            assert(kind_wf(ks[i as int], n, t as int));
            crate::schema::lemma_kind_wf_widen(ks[i as int], n, t as int, n);
            crate::record::lemma_values_size_elem(ps, i as int);
        }
        let dv = decode_value(s, &e.fields[i], &params[i]);
        proof {
            assert(ks.skip(i as int)[0] == ks[i as int]);
            assert(ps.skip(i as int)[0] == ps[i as int]);
            assert(ks.skip(i as int).skip(1) =~= ks.skip(i as int + 1));
            assert(ps.skip(i as int).skip(1) =~= ps.skip(i as int + 1));
        }
        match dv {
            Ok(u) => {
                let ghost old_out = out@;
                out.push(u);
                proof {
                    crate::resolve::lemma_uvals_view_push(old_out, u);
                    match s_decode_fields(*s, ks.skip(i as int + 1), ps.skip(i as int + 1)) {
                        Result::Ok(us) => {
                            assert(s_decode_fields(*s, ks.skip(i as int), ps.skip(i as int))
                                == Result::Ok::<Seq<SpecUval>, Error>(seq![u@] + us));
                            assert(uvals_view(old_out) + (seq![u@] + us) =~= uvals_view(out@) + us);
                        },
                        Result::Err(_) => {},
                    }
                }
            },
            Err(e2) => {
                return Err(e2);
            },
        }
        i += 1;
    }
    proof {
        assert(ks.skip(i as int) =~= Seq::<FieldKind>::empty());
        assert(ps.skip(i as int) =~= Seq::<Value>::empty());
        assert(uvals_view(out@) + Seq::<SpecUval>::empty() =~= uvals_view(out@));
    }
    Ok(UnresolvedValue::Fields(out))
}

/// Decode one parameter by its declared kind.
#[verifier::loop_isolation(false)]
fn decode_value(s: &Schema, k: &FieldKind, v: &Value) -> (r: Result<UnresolvedValue, Error>)
    requires
        s.wf(),
        kind_wf(*k, s.len() as int, s.len() as int),
    ensures
        res_view(r) == s_decode_value(*s, *k, *v),
    decreases value_size(*v), 1nat, kind_size(*k),
{
    match k {
        FieldKind::Plain => match v {
            Value::Simple(sc) => Ok(UnresolvedValue::Scal(sc.dup())),
            _ => Err(Error::UnexpectedValue),
        },
        FieldKind::RefTo(_) => match v {
            Value::Ref(id) => Ok(UnresolvedValue::Ref(*id)),
            _ => Err(Error::UnexpectedValue),
        },
        FieldKind::Inline(t) => match v {
            Value::Nested(rec) => decode_record(s, *t, rec),
            _ => Err(Error::UnexpectedValue),
        },
        FieldKind::ListOf(inner) => match v {
            Value::ListOf(items) => {
                let ghost is = items@;
                let mut out: Vec<UnresolvedValue> = Vec::new();
                let mut i: usize = 0;
                proof {
                    assert(is.skip(0) =~= is);
                    assert(uvals_view(out@) =~= Seq::<SpecUval>::empty());
                }
                while i < items.len()
                    invariant
                        s.wf(),
                        kind_wf(FieldKind::ListOf(*inner), s.len() as int, s.len() as int),
                        is == items@,
                        i <= is.len(),
                        out@.len() == i,
                        match s_decode_items(*s, **inner, is.skip(i as int)) {
                            Result::Ok(us) => s_decode_items(*s, **inner, is) == Result::Ok::<
                                Seq<SpecUval>,
                                Error,
                            >(uvals_view(out@) + us),
                            Result::Err(er) => s_decode_items(*s, **inner, is) == Result::Err::<
                                Seq<SpecUval>,
                                Error,
                            >(er),
                        },
                    decreases is.len() - i,
                {
                    proof {
                        crate::record::lemma_values_size_elem(is, i as int);
                    }
                    let dv = decode_value(s, inner, &items[i]);
                    proof {
                        assert(is.skip(i as int)[0] == is[i as int]);
                        assert(is.skip(i as int).skip(1) =~= is.skip(i as int + 1));
                    }
                    match dv {
                        Ok(u) => {
                            let ghost old_out = out@;
                            out.push(u);
                            proof {
                                crate::resolve::lemma_uvals_view_push(old_out, u);
                                match s_decode_items(*s, **inner, is.skip(i as int + 1)) {
                                    Result::Ok(us) => {
                                        assert(s_decode_items(*s, **inner, is.skip(i as int))
                                            == Result::Ok::<Seq<SpecUval>, Error>(
                                            seq![u@] + us,
                                        ));
                                        assert(uvals_view(old_out) + (seq![u@] + us)
                                            =~= uvals_view(out@) + us);
                                    },
                                    Result::Err(_) => {},
                                }
                            }
                        },
                        Err(e2) => {
                            return Err(e2);
                        },
                    }
                    i += 1;
                }
                proof {
                    assert(is.skip(i as int) =~= Seq::<Value>::empty());
                    assert(uvals_view(out@) + Seq::<SpecUval>::empty() =~= uvals_view(out@));
                }
                Ok(UnresolvedValue::Items(out))
            },
            _ => Err(Error::UnexpectedValue),
        },
        FieldKind::OptionalOf(inner) => match v {
            Value::Unset => Ok(UnresolvedValue::Maybe(None)),
            _ => match decode_value(s, inner, v) {
                Ok(u) => Ok(UnresolvedValue::Maybe(Some(Box::new(u)))),
                Err(e) => Err(e),
            },
        },
    }
}

/// Decode a keyed-form record against the type at index `t`: check the
/// single entry's tag, then decode its payload; fail with `EmptyRecord`
/// when there is no entry.
pub fn decode_keyed(s: &Schema, t: usize, kr: &KeyedRecord) -> (r: Result<UnresolvedValue, Error>)
    requires
        s.wf(),
        t < s.len(),
    ensures
        res_view(r) == s_decode_keyed(*s, t as int, *kr),
{
    match &kr.entry {
        Some(rec) => decode_record(s, t, rec),
        None => Err(Error::EmptyRecord),
    }
}

} // verus!
