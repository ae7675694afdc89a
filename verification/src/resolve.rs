//! Unresolved and owned values, their mathematical models, and the
//! conversion of the former into the latter by resolving every reference
//! through the entity table.

use crate::error::Error;
use crate::record::{EntityId, Scalar};
use crate::schema::{kind_size, FieldKind, Schema, TypeDef};
use vstd::prelude::*;

verus! {

/// The unresolved representation of a decoded value: structurally the
/// owned value, except that every cross-reference is held as an
/// identifier.
#[derive(Debug, PartialEq, Eq)]
pub enum UnresolvedValue {
    /// A scalar, as decoded.
    Scal(Scalar),
    /// A captured reference, not yet looked up.
    Ref(EntityId),
    /// The fields of a nested entity, in declared order.
    Fields(Vec<UnresolvedValue>),
    /// The elements of a list field, in order.
    Items(Vec<UnresolvedValue>),
    /// An optional field, present or absent.
    Maybe(Option<Box<UnresolvedValue>>),
    /// A union value: the index of the matched variant and its payload.
    Case(usize, Box<UnresolvedValue>),
}

/// A fully resolved, reference-free value: the end product.
#[derive(Debug, PartialEq, Eq)]
pub enum OwnedValue {
    /// A scalar, unchanged from decoding.
    Scal(Scalar),
    /// The fields of a resolved entity, in declared order.
    Fields(Vec<OwnedValue>),
    /// The elements of a list field, in order.
    Items(Vec<OwnedValue>),
    /// An optional field, present or absent.
    Maybe(Option<Box<OwnedValue>>),
    /// A union value: the index of the claimed variant and its payload.
    Case(usize, Box<OwnedValue>),
}

/// The mathematical model of an unresolved value.
pub ghost enum SpecUval {
    Scal(Scalar),
    Ref(EntityId),
    Fields(Seq<SpecUval>),
    Items(Seq<SpecUval>),
    Maybe(Option<Box<SpecUval>>),
    Case(int, Box<SpecUval>),
}

/// The mathematical model of an owned value.
pub ghost enum SpecOval {
    Scal(Scalar),
    Fields(Seq<SpecOval>),
    Items(Seq<SpecOval>),
    Maybe(Option<Box<SpecOval>>),
    Case(int, Box<SpecOval>),
}

/// Structural size of a modelled unresolved value; a termination measure.
pub open spec fn suval_size(v: SpecUval) -> nat
    decreases v,
{
    match v {
        SpecUval::Scal(_) => 1,
        SpecUval::Ref(_) => 1,
        SpecUval::Fields(vs) => 1 + suvals_size(vs),
        SpecUval::Items(vs) => 1 + suvals_size(vs),
        SpecUval::Maybe(o) => match o {
            Option::Some(b) => 1 + suval_size(*b),
            Option::None => 1,
        },
        SpecUval::Case(_, b) => 1 + suval_size(*b),
    }
}

/// Structural size of a modelled value list.
pub open spec fn suvals_size(vs: Seq<SpecUval>) -> nat
    decreases vs,
{
    if vs.len() == 0 {
        0
    } else {
        1 + suval_size(vs[0]) + suvals_size(vs.skip(1))
    }
}

/// A list bounds each of its elements' sizes.
pub proof fn lemma_suvals_size_elem(vs: Seq<SpecUval>, i: int)
    requires
        0 <= i < vs.len(),
    ensures
        suval_size(vs[i]) < suvals_size(vs),
    decreases vs.len(),
{
    if i > 0 {
        lemma_suvals_size_elem(vs.skip(1), i - 1);
        assert(vs.skip(1)[i - 1] == vs[i]);
    }
}

/// The model of an unresolved value.
pub open spec fn uval_view(v: UnresolvedValue) -> SpecUval
    decreases v, 0nat,
{
    match v {
        UnresolvedValue::Scal(sc) => SpecUval::Scal(sc),
        UnresolvedValue::Ref(id) => SpecUval::Ref(id),
        UnresolvedValue::Fields(vs) => SpecUval::Fields(uvals_view(vs@)),
        UnresolvedValue::Items(vs) => SpecUval::Items(uvals_view(vs@)),
        UnresolvedValue::Maybe(o) => SpecUval::Maybe(
            match o {
                Option::Some(b) => Option::Some(Box::new(uval_view(*b))),
                Option::None => Option::None,
            },
        ),
        UnresolvedValue::Case(j, b) => SpecUval::Case(j as int, Box::new(uval_view(*b))),
    }
}

/// The model of a list of unresolved values, element by element.
pub open spec fn uvals_view(vs: Seq<UnresolvedValue>) -> Seq<SpecUval>
    decreases vs, 1nat,
{
    if vs.len() == 0 {
        Seq::empty()
    } else {
        seq![uval_view(vs[0])] + uvals_view(vs.skip(1))
    }
}

impl View for UnresolvedValue {
    type V = SpecUval;

    open spec fn view(&self) -> SpecUval {
        uval_view(*self)
    }
}

/// The modelled list keeps its length and models each element.
pub proof fn lemma_uvals_view_index(vs: Seq<UnresolvedValue>)
    ensures
        uvals_view(vs).len() == vs.len(),
        forall|i: int| 0 <= i < vs.len() ==> uvals_view(vs)[i] == uval_view(#[trigger] vs[i]),
    decreases vs.len(),
{
    if vs.len() > 0 {
        lemma_uvals_view_index(vs.skip(1));
        assert forall|i: int| 0 <= i < vs.len() implies uvals_view(vs)[i] == uval_view(
            #[trigger] vs[i],
        ) by {
            if i > 0 {
                assert(vs.skip(1)[i - 1] == vs[i]);
            }
        }
    }
}

/// Appending one value to a list appends its model.
pub proof fn lemma_uvals_view_push(vs: Seq<UnresolvedValue>, u: UnresolvedValue)
    ensures
        uvals_view(vs.push(u)) == uvals_view(vs) + seq![uval_view(u)],
{
    lemma_uvals_view_index(vs.push(u));
    lemma_uvals_view_index(vs);
    assert forall|i: int| 0 <= i < vs.len() + 1 implies uvals_view(vs.push(u))[i] == (uvals_view(
        vs,
    ) + seq![uval_view(u)])[i] by {
        if i < vs.len() {
            assert(vs.push(u)[i] == vs[i]);
        } else {
            assert(vs.push(u)[i] == u);
        }
    }
    assert(uvals_view(vs.push(u)) =~= uvals_view(vs) + seq![uval_view(u)]);
}

/// The model of an owned value.
pub open spec fn oval_view(v: OwnedValue) -> SpecOval
    decreases v, 0nat,
{
    match v {
        OwnedValue::Scal(sc) => SpecOval::Scal(sc),
        OwnedValue::Fields(vs) => SpecOval::Fields(ovals_view(vs@)),
        OwnedValue::Items(vs) => SpecOval::Items(ovals_view(vs@)),
        OwnedValue::Maybe(o) => SpecOval::Maybe(
            match o {
                Option::Some(b) => Option::Some(Box::new(oval_view(*b))),
                Option::None => Option::None,
            },
        ),
        OwnedValue::Case(j, b) => SpecOval::Case(j as int, Box::new(oval_view(*b))),
    }
}

/// The model of a list of owned values, element by element.
pub open spec fn ovals_view(vs: Seq<OwnedValue>) -> Seq<SpecOval>
    decreases vs, 1nat,
{
    if vs.len() == 0 {
        Seq::empty()
    } else {
        seq![oval_view(vs[0])] + ovals_view(vs.skip(1))
    }
}

impl View for OwnedValue {
    type V = SpecOval;

    open spec fn view(&self) -> SpecOval {
        oval_view(*self)
    }
}

/// The modelled list keeps its length and models each element.
pub proof fn lemma_ovals_view_index(vs: Seq<OwnedValue>)
    ensures
        ovals_view(vs).len() == vs.len(),
        forall|i: int| 0 <= i < vs.len() ==> ovals_view(vs)[i] == oval_view(#[trigger] vs[i]),
    decreases vs.len(),
{
    if vs.len() > 0 {
        lemma_ovals_view_index(vs.skip(1));
        assert forall|i: int| 0 <= i < vs.len() implies ovals_view(vs)[i] == oval_view(
            #[trigger] vs[i],
        ) by {
            if i > 0 {
                assert(vs.skip(1)[i - 1] == vs[i]);
            }
        }
    }
}

/// Whether a modelled unresolved value fits the shape a field kind
/// declares: the shape decoding guarantees and resolution expects.
pub open spec fn uval_wt(s: Schema, k: FieldKind, v: SpecUval) -> bool
    decreases suval_size(v), kind_size(k),
        via uval_wt_decreases
{
    match k {
        FieldKind::Plain => v is Scal,
        FieldKind::RefTo(t) => t < s.len() && v is Ref,
        FieldKind::Inline(t) => t < s.len() && match s.at(t as int) {
            TypeDef::EntityType(_) => match v {
                SpecUval::Fields(vs) => uvals_wt(s, s.fields_of(t as int), vs),
                _ => false,
            },
            TypeDef::UnionType(u) => match v {
                SpecUval::Case(j, payload) => 0 <= j < u.variants@.len() && uval_wt(
                    s,
                    u.variants@[j].kind,
                    *payload,
                ),
                _ => false,
            },
        },
        FieldKind::ListOf(inner) => match v {
            SpecUval::Items(vs) => forall|i: int|
                0 <= i < vs.len() ==> uval_wt(s, *inner, #[trigger] vs[i]),
            _ => false,
        },
        FieldKind::OptionalOf(inner) => match v {
            SpecUval::Maybe(o) => match o {
                Option::Some(b) => uval_wt(s, *inner, *b),
                Option::None => true,
            },
            _ => false,
        },
    }
}

/// Whether a modelled field list fits the declared kinds, position by
/// position.
pub open spec fn uvals_wt(s: Schema, ks: Seq<FieldKind>, vs: Seq<SpecUval>) -> bool
    decreases suvals_size(vs), 0nat,
        via uvals_wt_decreases
{
    ks.len() == vs.len() && forall|i: int|
        0 <= i < vs.len() ==> uval_wt(s, ks[i], #[trigger] vs[i])
}

/// The model of an entity table's contents: per type, the stored records
/// in insertion order, each an identifier with its modelled field list.
pub type SpecSlots = Seq<Seq<(EntityId, Seq<SpecUval>)>>;

/// The first stored record with identifier `id` in one slot, if any.
pub open spec fn s_slot_find(slot: Seq<(EntityId, Seq<SpecUval>)>, id: EntityId) -> Option<
    Seq<SpecUval>,
>
    decreases slot.len(),
{
    if slot.len() == 0 {
        Option::None
    } else if slot[0].0 == id {
        Option::Some(slot[0].1)
    } else {
        s_slot_find(slot.skip(1), id)
    }
}

/// Whether one slot stores a record with identifier `id`.
pub open spec fn s_slot_contains(slot: Seq<(EntityId, Seq<SpecUval>)>, id: EntityId) -> bool {
    s_slot_find(slot, id) is Some
}

/// Whether the type at index `t` claims identifier `id`: an entity claims
/// it when its slot stores it; a union claims it when any variant's
/// target type does.
pub open spec fn s_claims(s: Schema, tbl: SpecSlots, t: int, id: EntityId) -> bool
    recommends
        0 <= t < s.len(),
    decreases t, 2nat, 0nat,
{
    match s.at(t) {
        TypeDef::EntityType(_) => 0 <= t < tbl.len() && s_slot_contains(tbl[t], id),
        TypeDef::UnionType(_) => s_first_claim(s, tbl, t, 0, id) is Some,
    }
}

/// Whether the variant at index `j` of the union at index `t` claims
/// identifier `id` through its target type's slot.
pub open spec fn s_variant_claims(s: Schema, tbl: SpecSlots, t: int, j: int, id: EntityId) -> bool
    recommends
        s.is_union(t),
        0 <= j < s.variants_of(t).len(),
    decreases t, 0nat, 0nat,
{
    match crate::schema::variant_target(s.variants_of(t)[j].kind) {
        Option::Some(tt) => tt < t && 0 <= tt < s.len() && s_claims(s, tbl, tt as int, id),
        Option::None => false,
    }
}

/// The first variant of the union at index `t`, at or after `j` in
/// declared order, that claims identifier `id`: first claim wins.
pub open spec fn s_first_claim(s: Schema, tbl: SpecSlots, t: int, j: int, id: EntityId) -> Option<
    int,
>
    recommends
        s.is_union(t),
    decreases t, 1nat, s.variants_of(t).len() - j,
{
    if j < 0 || j >= s.variants_of(t).len() {
        Option::None
    } else if s_variant_claims(s, tbl, t, j, id) {
        Option::Some(j)
    } else {
        s_first_claim(s, tbl, t, j + 1, id)
    }
}

/// What `s_first_claim` finds: the first claiming variant in declared
/// order, or nothing when no variant claims the identifier.
pub proof fn lemma_first_claim(s: Schema, tbl: SpecSlots, t: int, j: int, id: EntityId)
    requires
        0 <= j,
    ensures
        match s_first_claim(s, tbl, t, j, id) {
            Option::Some(p) => j <= p < s.variants_of(t).len() && s_variant_claims(s, tbl, t, p, id)
                && forall|i: int| j <= i < p ==> !s_variant_claims(s, tbl, t, i, id),
            Option::None => forall|i: int|
                j <= i < s.variants_of(t).len() ==> !s_variant_claims(s, tbl, t, i, id),
        },
    decreases s.variants_of(t).len() - j,
{
    if j < s.variants_of(t).len() && !s_variant_claims(s, tbl, t, j, id) {
        lemma_first_claim(s, tbl, t, j + 1, id);
    }
}

/// Resolve one unresolved value against the declared kind: scalars pass
/// through, references are looked up in the table, aggregates and nested
/// values resolve element by element, in order, stopping at the first
/// failure.  Each reference hop spends one unit of `fuel`; a value whose
/// reference chain is deeper than `fuel` resolves to `DepthLimit`, the
/// guard that makes resolution of a cyclic graph fail fast instead of
/// recursing without bound.
pub open spec fn s_resolve(s: Schema, tbl: SpecSlots, k: FieldKind, v: SpecUval, fuel: nat) -> Result<
    SpecOval,
    Error,
>
    decreases fuel, 0nat, suval_size(v), 0nat,
{
    match k {
        FieldKind::Plain => match v {
            SpecUval::Scal(sc) => Result::Ok(SpecOval::Scal(sc)),
            _ => Result::Err(Error::UnexpectedValue),
        },
        FieldKind::RefTo(t) => match v {
            SpecUval::Ref(id) => if fuel == 0 {
                Result::Err(Error::DepthLimit)
            } else {
                s_get_owned(s, tbl, t as int, id, (fuel - 1) as nat)
            },
            _ => Result::Err(Error::UnexpectedValue),
        },
        FieldKind::Inline(t) => if t >= s.len() {
            Result::Err(Error::UnexpectedValue)
        } else {
            match s.at(t as int) {
                TypeDef::EntityType(e) => match v {
                    SpecUval::Fields(vs) => match s_resolve_fields(s, tbl, e.fields@, vs, fuel) {
                        Result::Ok(os) => Result::Ok(SpecOval::Fields(os)),
                        Result::Err(er) => Result::Err(er),
                    },
                    _ => Result::Err(Error::UnexpectedValue),
                },
                TypeDef::UnionType(u) => match v {
                    SpecUval::Case(j, payload) => if 0 <= j < u.variants@.len() {
                        match s_resolve(s, tbl, u.variants@[j].kind, *payload, fuel) {
                            Result::Ok(o) => Result::Ok(SpecOval::Case(j, Box::new(o))),
                            Result::Err(er) => Result::Err(er),
                        }
                    } else {
                        Result::Err(Error::UnexpectedValue)
                    },
                    _ => Result::Err(Error::UnexpectedValue),
                },
            }
        },
        FieldKind::ListOf(inner) => match v {
            SpecUval::Items(vs) => match s_resolve_items(s, tbl, *inner, vs, fuel) {
                Result::Ok(os) => Result::Ok(SpecOval::Items(os)),
                Result::Err(er) => Result::Err(er),
            },
            _ => Result::Err(Error::UnexpectedValue),
        },
        FieldKind::OptionalOf(inner) => match v {
            SpecUval::Maybe(o) => match o {
                Option::Some(b) => match s_resolve(s, tbl, *inner, *b, fuel) {
                    Result::Ok(ov) => Result::Ok(SpecOval::Maybe(Option::Some(Box::new(ov)))),
                    Result::Err(er) => Result::Err(er),
                },
                Option::None => Result::Ok(SpecOval::Maybe(Option::None)),
            },
            _ => Result::Err(Error::UnexpectedValue),
        },
    }
}

/// Resolve a field list positionally, left to right, stopping at the
/// first failure.
pub open spec fn s_resolve_fields(
    s: Schema,
    tbl: SpecSlots,
    ks: Seq<FieldKind>,
    vs: Seq<SpecUval>,
    fuel: nat,
) -> Result<Seq<SpecOval>, Error>
    decreases fuel, 0nat, suvals_size(vs), 1nat,
{
    if ks.len() != vs.len() {
        Result::Err(Error::UnexpectedValue)
    } else if vs.len() == 0 {
        Result::Ok(Seq::empty())
    } else {
        match s_resolve(s, tbl, ks[0], vs[0], fuel) {
            Result::Ok(o) => match s_resolve_fields(s, tbl, ks.skip(1), vs.skip(1), fuel) {
                Result::Ok(os) => Result::Ok(seq![o] + os),
                Result::Err(er) => Result::Err(er),
            },
            Result::Err(er) => Result::Err(er),
        }
    }
}

/// Resolve the elements of a list field, in order, stopping at the first
/// failure.
pub open spec fn s_resolve_items(
    s: Schema,
    tbl: SpecSlots,
    k: FieldKind,
    vs: Seq<SpecUval>,
    fuel: nat,
) -> Result<Seq<SpecOval>, Error>
    decreases fuel, 0nat, suvals_size(vs), 1nat,
{
    if vs.len() == 0 {
        Result::Ok(Seq::empty())
    } else {
        match s_resolve(s, tbl, k, vs[0], fuel) {
            Result::Ok(o) => match s_resolve_items(s, tbl, k, vs.skip(1), fuel) {
                Result::Ok(os) => Result::Ok(seq![o] + os),
                Result::Err(er) => Result::Err(er),
            },
            Result::Err(er) => Result::Err(er),
        }
    }
}

/// Resolve the record with identifier `id` as the type at index `t`: an
/// entity looks the identifier up in its slot and resolves the stored
/// fields; a union tries each variant's table slot in declared order and
/// resolves through the first that claims the identifier.  An identifier
/// stored nowhere fails with `UnknownEntity`.
pub open spec fn s_get_owned(s: Schema, tbl: SpecSlots, t: int, id: EntityId, fuel: nat) -> Result<
    SpecOval,
    Error,
>
    recommends
        0 <= t < s.len(),
    decreases fuel, 1nat, t, 0nat,
        via s_get_owned_decreases
{
    if !(0 <= t < s.len() && 0 <= t < tbl.len()) {
        Result::Err(Error::UnexpectedValue)
    } else {
        match s.at(t) {
            TypeDef::EntityType(e) => match s_slot_find(tbl[t], id) {
                Option::Some(vals) => match s_resolve_fields(s, tbl, e.fields@, vals, fuel) {
                    Result::Ok(os) => Result::Ok(SpecOval::Fields(os)),
                    Result::Err(er) => Result::Err(er),
                },
                Option::None => Result::Err(Error::UnknownEntity(id)),
            },
            TypeDef::UnionType(u) => match s_first_claim(s, tbl, t, 0, id) {
                Option::Some(j) => match crate::schema::variant_target(u.variants@[j].kind) {
                    Option::Some(tt) => match s_get_owned(s, tbl, tt as int, id, fuel) {
                        Result::Ok(o) => Result::Ok(SpecOval::Case(j, Box::new(o))),
                        Result::Err(er) => Result::Err(er),
                    },
                    Option::None => Result::Err(Error::UnknownEntity(id)),
                },
                Option::None => Result::Err(Error::UnknownEntity(id)),
            },
        }
    }
}

/// The model of a resolution result: the resolved value's model, or the
/// error unchanged.
pub open spec fn ores_view(r: Result<OwnedValue, Error>) -> Result<SpecOval, Error> {
    match r {
        Result::Ok(o) => Result::Ok(o@),
        Result::Err(e) => Result::Err(e),
    }
}

/// Appending one owned value to a list appends its model.
pub proof fn lemma_ovals_view_push(vs: Seq<OwnedValue>, o: OwnedValue)
    ensures
        ovals_view(vs.push(o)) == ovals_view(vs) + seq![oval_view(o)],
{
    lemma_ovals_view_index(vs.push(o));
    lemma_ovals_view_index(vs);
    assert forall|i: int| 0 <= i < vs.len() + 1 implies ovals_view(vs.push(o))[i] == (ovals_view(
        vs,
    ) + seq![oval_view(o)])[i] by {
        if i < vs.len() {
            assert(vs.push(o)[i] == vs[i]);
        } else {
            assert(vs.push(o)[i] == o);
        }
    }
    assert(ovals_view(vs.push(o)) =~= ovals_view(vs) + seq![oval_view(o)]);
}

/// Resolve every record stored for the type at index `t`, one result per
/// record, in insertion order; a union chains its variants' slots in
/// declared order.  One failing record does not disturb the others'
/// results.
pub open spec fn s_owned_iter(s: Schema, tbl: SpecSlots, t: int, fuel: nat) -> Seq<
    Result<SpecOval, Error>,
>
    recommends
        0 <= t < s.len(),
    decreases fuel, t + 1, 2nat, 0nat,
{
    if !(0 <= t < s.len() && 0 <= t < tbl.len()) {
        Seq::empty()
    } else {
        match s.at(t) {
            TypeDef::EntityType(e) => s_iter_entries(s, tbl, e.fields@, tbl[t], fuel),
            TypeDef::UnionType(_) => s_iter_variants(s, tbl, t, 0, fuel),
        }
    }
}

/// Resolve stored records one after another, each independently.
pub open spec fn s_iter_entries(
    s: Schema,
    tbl: SpecSlots,
    ks: Seq<FieldKind>,
    entries: Seq<(EntityId, Seq<SpecUval>)>,
    fuel: nat,
) -> Seq<Result<SpecOval, Error>>
    decreases fuel, 1nat, 1nat, entries.len(),
{
    if entries.len() == 0 {
        Seq::empty()
    } else {
        let head = match s_resolve_fields(s, tbl, ks, entries[0].1, fuel) {
            Result::Ok(os) => Result::Ok(SpecOval::Fields(os)),
            Result::Err(er) => Result::Err(er),
        };
        seq![head] + s_iter_entries(s, tbl, ks, entries.skip(1), fuel)
    }
}

/// Chain the iteration of each variant's target type, in declared order,
/// wrapping each result in the variant's case.
pub open spec fn s_iter_variants(s: Schema, tbl: SpecSlots, t: int, j: int, fuel: nat) -> Seq<
    Result<SpecOval, Error>,
>
    recommends
        s.is_union(t),
    decreases fuel, t + 1, 1nat, s.variants_of(t).len() - j,
{
    if j < 0 || j >= s.variants_of(t).len() {
        Seq::empty()
    } else {
        let here = match crate::schema::variant_target(s.variants_of(t)[j].kind) {
            Option::Some(tt) => if tt < t {
                s_owned_iter(s, tbl, tt as int, fuel).map_values(
                    |r: Result<SpecOval, Error>| wrap_case(j, r),
                )
            } else {
                Seq::empty()
            },
            Option::None => Seq::empty(),
        };
        here + s_iter_variants(s, tbl, t, j + 1, fuel)
    }
}

/// An identifier absent from every slot of the requested type always
/// fails with `UnknownEntity`, whatever the table holds otherwise and
/// whatever fuel resolution starts from.
pub proof fn lemma_get_owned_unknown(s: Schema, tbl: SpecSlots, t: int, id: EntityId, fuel: nat)
    requires
        0 <= t < s.len(),
        0 <= t < tbl.len(),
        !s_claims(s, tbl, t, id),
    ensures
        s_get_owned(s, tbl, t, id, fuel) == Result::Err::<SpecOval, Error>(
            Error::UnknownEntity(id),
        ),
{
}

/// Ordered short-circuit: when the element at index `j` of a list fails
/// to resolve and every earlier element succeeds, the list resolves to
/// exactly that element's failure, never a later one's.
pub proof fn lemma_resolve_items_first_failure(
    s: Schema,
    tbl: SpecSlots,
    k: FieldKind,
    vs: Seq<SpecUval>,
    fuel: nat,
    j: int,
)
    requires
        0 <= j < vs.len(),
        s_resolve(s, tbl, k, vs[j], fuel) is Err,
        forall|i: int| 0 <= i < j ==> s_resolve(s, tbl, k, #[trigger] vs[i], fuel) is Ok,
    ensures
        s_resolve_items(s, tbl, k, vs, fuel) == Result::Err::<Seq<SpecOval>, Error>(
            s_resolve(s, tbl, k, vs[j], fuel)->Err_0,
        ),
        s_resolve(s, tbl, FieldKind::ListOf(Box::new(k)), SpecUval::Items(vs), fuel)
            == Result::Err::<SpecOval, Error>(s_resolve(s, tbl, k, vs[j], fuel)->Err_0),
    decreases j,
{
    if j > 0 {
        lemma_resolve_items_first_failure(s, tbl, k, vs.skip(1), fuel, j - 1);
        assert(vs.skip(1)[j - 1] == vs[j]);
        assert forall|i: int| 0 <= i < j - 1 implies s_resolve(
            s,
            tbl,
            k,
            #[trigger] vs.skip(1)[i],
            fuel,
        ) is Ok by {
            assert(vs.skip(1)[i] == vs[i + 1]);
        }
        assert(s_resolve(s, tbl, k, vs[0], fuel) is Ok);
    }
}

/// The owned value reproduces the unresolved value on every position
/// that is not a cross-reference: scalars are unchanged, aggregates keep
/// their length, order and presence, nested values and union cases keep
/// their shape; only reference positions are replaced by looked-up
/// values.
pub open spec fn preserves_plain(s: Schema, k: FieldKind, u: SpecUval, o: SpecOval) -> bool
    decreases suval_size(u), 0nat,
        via preserves_plain_decreases
{
    match k {
        FieldKind::Plain => u matches SpecUval::Scal(sc) && o == SpecOval::Scal(sc),
        FieldKind::RefTo(_) => u is Ref,
        FieldKind::Inline(t) => 0 <= t < s.len() && match s.at(t as int) {
            TypeDef::EntityType(e) => u matches SpecUval::Fields(uvs) && o matches SpecOval::Fields(
                ovs,
            ) && preserves_fields(s, e.fields@, uvs, ovs),
            TypeDef::UnionType(un) => u matches SpecUval::Case(j, up) && o matches SpecOval::Case(
                j2,
                op,
            ) && j == j2 && 0 <= j < un.variants@.len() && preserves_plain(
                s,
                un.variants@[j].kind,
                *up,
                *op,
            ),
        },
        FieldKind::ListOf(inner) => u matches SpecUval::Items(uvs) && o matches SpecOval::Items(ovs)
            && uvs.len() == ovs.len() && forall|i: int|
            0 <= i < uvs.len() ==> preserves_plain(s, *inner, #[trigger] uvs[i], ovs[i]),
        FieldKind::OptionalOf(inner) => u matches SpecUval::Maybe(uo) && o matches SpecOval::Maybe(
            oo,
        ) && match (uo, oo) {
            (Option::Some(ub), Option::Some(ob)) => preserves_plain(s, *inner, *ub, *ob),
            (Option::None, Option::None) => true,
            _ => false,
        },
    }
}

/// Field lists preserve their non-reference positions pointwise.
pub open spec fn preserves_fields(
    s: Schema,
    ks: Seq<FieldKind>,
    uvs: Seq<SpecUval>,
    ovs: Seq<SpecOval>,
) -> bool
    decreases suvals_size(uvs), 1nat,
        via preserves_fields_decreases
{
    ks.len() == uvs.len() && uvs.len() == ovs.len() && forall|i: int|
        0 <= i < uvs.len() ==> preserves_plain(s, ks[i], #[trigger] uvs[i], ovs[i])
}

#[via_fn]
proof fn preserves_plain_decreases(s: Schema, k: FieldKind, u: SpecUval, o: SpecOval) {
    match u {
        SpecUval::Items(vs) => {
            assert forall|i: int| 0 <= i < vs.len() implies suval_size(#[trigger] vs[i])
                < suval_size(u) by {
                lemma_suvals_size_elem(vs, i);
            }
        },
        _ => {},
    }
}

#[via_fn]
proof fn preserves_fields_decreases(
    s: Schema,
    ks: Seq<FieldKind>,
    uvs: Seq<SpecUval>,
    ovs: Seq<SpecOval>,
) {
    assert forall|i: int| 0 <= i < uvs.len() implies suval_size(#[trigger] uvs[i]) < suvals_size(
        uvs,
    ) by {
        lemma_suvals_size_elem(uvs, i);
    }
}

/// Whatever the table holds and whatever fuel resolution starts from, a
/// successful resolution reproduces the unresolved value's non-reference
/// positions exactly.
pub proof fn lemma_resolve_preserves(s: Schema, tbl: SpecSlots, k: FieldKind, u: SpecUval, fuel: nat)
    requires
        s_resolve(s, tbl, k, u, fuel) is Ok,
    ensures
        preserves_plain(s, k, u, s_resolve(s, tbl, k, u, fuel)->Ok_0),
    decreases fuel, 0nat, suval_size(u), 0nat,
{
    match k {
        FieldKind::Plain => {},
        FieldKind::RefTo(_) => {},
        FieldKind::Inline(t) => {
            match s.at(t as int) {
                TypeDef::EntityType(e) => {
                    lemma_resolve_fields_preserves(s, tbl, e.fields@, u->Fields_0, fuel);
                },
                TypeDef::UnionType(un) => {
                    let j = u->Case_0;
                    lemma_resolve_preserves(s, tbl, un.variants@[j].kind, *u->Case_1, fuel);
                },
            }
        },
        FieldKind::ListOf(inner) => {
            lemma_resolve_items_preserves(s, tbl, *inner, u->Items_0, fuel);
        },
        FieldKind::OptionalOf(inner) => {
            match u {
                SpecUval::Maybe(uo) => match uo {
                    Option::Some(ub) => {
                        lemma_resolve_preserves(s, tbl, *inner, *ub, fuel);
                    },
                    Option::None => {},
                },
                _ => {},
            }
        },
    }
}

/// Helper for `lemma_resolve_preserves` over field lists.
pub proof fn lemma_resolve_fields_preserves(
    s: Schema,
    tbl: SpecSlots,
    ks: Seq<FieldKind>,
    uvs: Seq<SpecUval>,
    fuel: nat,
)
    requires
        s_resolve_fields(s, tbl, ks, uvs, fuel) is Ok,
    ensures
        preserves_fields(s, ks, uvs, s_resolve_fields(s, tbl, ks, uvs, fuel)->Ok_0),
    decreases fuel, 0nat, suvals_size(uvs), 1nat,
{
    if uvs.len() > 0 {
        lemma_resolve_preserves(s, tbl, ks[0], uvs[0], fuel);
        lemma_resolve_fields_preserves(s, tbl, ks.skip(1), uvs.skip(1), fuel);
        let o0 = s_resolve(s, tbl, ks[0], uvs[0], fuel)->Ok_0;
        let os = s_resolve_fields(s, tbl, ks.skip(1), uvs.skip(1), fuel)->Ok_0;
        assert forall|i: int| 0 <= i < uvs.len() implies preserves_plain(
            s,
            ks[i],
            #[trigger] uvs[i],
            (seq![o0] + os)[i],
        ) by {
            if i > 0 {
                assert(uvs.skip(1)[i - 1] == uvs[i]);
                assert(ks.skip(1)[i - 1] == ks[i]);
                assert((seq![o0] + os)[i] == os[i - 1]);
            }
        }
    }
}

/// Helper for `lemma_resolve_preserves` over list elements.
pub proof fn lemma_resolve_items_preserves(
    s: Schema,
    tbl: SpecSlots,
    k: FieldKind,
    uvs: Seq<SpecUval>,
    fuel: nat,
)
    requires
        s_resolve_items(s, tbl, k, uvs, fuel) is Ok,
    ensures
        s_resolve_items(s, tbl, k, uvs, fuel)->Ok_0.len() == uvs.len(),
        forall|i: int|
            0 <= i < uvs.len() ==> preserves_plain(
                s,
                k,
                #[trigger] uvs[i],
                s_resolve_items(s, tbl, k, uvs, fuel)->Ok_0[i],
            ),
    decreases fuel, 0nat, suvals_size(uvs), 1nat,
{
    if uvs.len() > 0 {
        lemma_resolve_preserves(s, tbl, k, uvs[0], fuel);
        lemma_resolve_items_preserves(s, tbl, k, uvs.skip(1), fuel);
        let o0 = s_resolve(s, tbl, k, uvs[0], fuel)->Ok_0;
        let os = s_resolve_items(s, tbl, k, uvs.skip(1), fuel)->Ok_0;
        assert forall|i: int| 0 <= i < uvs.len() implies preserves_plain(
            s,
            k,
            #[trigger] uvs[i],
            (seq![o0] + os)[i],
        ) by {
            if i > 0 {
                assert(uvs.skip(1)[i - 1] == uvs[i]);
                assert((seq![o0] + os)[i] == os[i - 1]);
            }
        }
    }
}

/// Wrap one iteration result in the union case at index `j`, leaving
/// failures unchanged.
pub open spec fn wrap_case(j: int, r: Result<SpecOval, Error>) -> Result<SpecOval, Error> {
    match r {
        Result::Ok(o) => Result::Ok(SpecOval::Case(j, Box::new(o))),
        Result::Err(er) => Result::Err(er),
    }
}

/// The model of a vector of resolution results, element by element.
pub open spec fn rvec_view(v: Seq<Result<OwnedValue, Error>>) -> Seq<Result<SpecOval, Error>> {
    Seq::new(v.len(), |i: int| ores_view(v[i]))
}

#[via_fn]
proof fn s_get_owned_decreases(s: Schema, tbl: SpecSlots, t: int, id: EntityId, fuel: nat) {
    if 0 <= t < s.len() && 0 <= t < tbl.len() {
        match s.at(t) {
            TypeDef::UnionType(u) => {
                lemma_first_claim(s, tbl, t, 0, id);
            },
            _ => {},
        }
    }
}

#[via_fn]
proof fn uval_wt_decreases(s: Schema, k: FieldKind, v: SpecUval) {
    match v {
        SpecUval::Items(vs) => {
            assert forall|i: int| 0 <= i < vs.len() implies suval_size(#[trigger] vs[i])
                < suval_size(v) by {
                lemma_suvals_size_elem(vs, i);
            }
        },
        _ => {},
    }
}

#[via_fn]
proof fn uvals_wt_decreases(s: Schema, ks: Seq<FieldKind>, vs: Seq<SpecUval>) {
    assert forall|i: int| 0 <= i < vs.len() implies suval_size(#[trigger] vs[i]) < suvals_size(
        vs,
    ) by {
        lemma_suvals_size_elem(vs, i);
    }
}

} // verus!
