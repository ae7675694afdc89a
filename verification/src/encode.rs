//! The inverse of decoding: build, from a well-shaped unresolved value,
//! the tagged record it decodes from.  Decoding the built record gives
//! the value back exactly, which together with resolution's preservation
//! of non-reference positions shows that a decoded and resolved entity
//! reproduces its record's plain content.

use crate::decode::{
    lemma_decode_fields_ok, lemma_decode_items_ok, lemma_find_variant, s_decode_record,
    s_decode_value, s_decode_variant, s_find_variant,
};
use crate::error::Error;
use crate::record::{Record, Value};
use crate::resolve::{
    lemma_suvals_size_elem, lemma_uvals_view_index, suval_size, suvals_size, uval_wt, uvals_view,
    uvals_wt, SpecUval, UnresolvedValue,
};
use crate::schema::{kind_size, kind_wf, type_wf, FieldKind, Schema, TypeDef};
use vstd::prelude::*;

verus! {

/// Build the tagged record that decodes, against the type at index `t`,
/// to exactly this unresolved value.
pub fn record_of(s: &Schema, t: usize, u: &UnresolvedValue) -> (r: Record)
    requires
        s.wf(),
        t < s.len(),
        uval_wt(*s, FieldKind::Inline(t), u@),
    ensures
        s_decode_record(*s, t as int, r) == Result::Ok::<SpecUval, Error>(u@),
    decreases suval_size(u@), 3nat, 0nat,
{
    let ghost n = s.len() as int;
    match &s.types[t] {
        TypeDef::EntityType(e) => {
            let vals = match u {
                UnresolvedValue::Fields(vals) => vals,
                _ => vstd::pervasive::unreached(),
            };
            proof {
                lemma_uvals_view_index(vals@);
                assert(u@ == SpecUval::Fields(uvals_view(vals@)));
                assert(e.fields@ == s.fields_of(t as int));
                assert(uvals_wt(*s, e.fields@, uvals_view(vals@)));
                assert(e.fields@.len() == vals@.len());
                assert(type_wf(s.at(t as int), n, t as int));
                assert forall|i: int| 0 <= i < e.fields@.len() implies kind_wf(
                    #[trigger] e.fields@[i],
                    n,
                    n,
                ) by {
                    crate::schema::lemma_kind_wf_widen(e.fields@[i], n, t as int, n);
                }
            }
            let params = encode_fields(s, &e.fields, vals);
            let tag = e.name.clone();
            let r = Record { tag, params };
            proof {
                lemma_decode_fields_ok(*s, e.fields@, r.params@);
                let us = crate::decode::s_decode_fields(*s, e.fields@, r.params@)->Ok_0;
                assert forall|i: int| 0 <= i < us.len() implies us[i] == uvals_view(vals@)[i] by {
                    assert(s_decode_value(*s, e.fields@[i], r.params@[i])
                        == Result::Ok::<SpecUval, Error>(vals@[i]@));
                }
                assert(us =~= uvals_view(vals@));
            }
            r
        },
        TypeDef::UnionType(un) => {
            let (j, payload) = match u {
                UnresolvedValue::Case(j, payload) => (*j, payload),
                _ => vstd::pervasive::unreached(),
            };
            proof {
                assert(type_wf(s.at(t as int), n, t as int));
                crate::schema::lemma_kind_wf_widen(un.variants@[j as int].kind, n, t as int, n);
            }
            let tag = un.variants[j].tag.clone();
            let params = encode_variant(s, &un.variants[j].kind, payload);
            let r = Record { tag, params };
            proof {
                assert(type_wf(s.at(t as int), n, t as int));
                lemma_find_variant(un.variants@, r.tag@);
                match s_find_variant(un.variants@, r.tag@) {
                    Option::Some(j2) => {
                        if j2 < j as int {
                            assert(un.variants@[j2].tag@ != un.variants@[j as int].tag@);
                        }
                        assert(j2 == j as int);
                    },
                    Option::None => {
                        assert(un.variants@[j as int].tag@ == r.tag@);
                    },
                }
            }
            r
        },
    }
}

/// Build the parameter list that decodes, under a matched variant of the
/// given kind, to exactly this payload.
fn encode_variant(s: &Schema, k: &FieldKind, u: &UnresolvedValue) -> (r: Vec<Value>)
    requires
        s.wf(),
        kind_wf(*k, s.len() as int, s.len() as int),
        uval_wt(*s, *k, u@),
    ensures
        s_decode_variant(*s, *k, r@) == Result::Ok::<SpecUval, Error>(u@),
    decreases suval_size(u@), 5nat, 0nat,
{
    match k {
        FieldKind::Inline(t) => {
            match &s.types[*t] {
                TypeDef::EntityType(e) => {
                    let vals = match u {
                        UnresolvedValue::Fields(vals) => vals,
                        _ => vstd::pervasive::unreached(),
                    };
                    proof {
                        lemma_uvals_view_index(vals@);
                        let ghost n = s.len() as int;
                        assert(u@ == SpecUval::Fields(uvals_view(vals@)));
                        assert(e.fields@ == s.fields_of(*t as int));
                        assert(uvals_wt(*s, e.fields@, uvals_view(vals@)));
                        assert(e.fields@.len() == vals@.len());
                        assert(type_wf(s.at(*t as int), n, *t as int));
                        assert forall|i: int| 0 <= i < e.fields@.len() implies kind_wf(
                            #[trigger] e.fields@[i],
                            n,
                            n,
                        ) by {
                            crate::schema::lemma_kind_wf_widen(e.fields@[i], n, *t as int, n);
                        }
                    }
                    let params = encode_fields(s, &e.fields, vals);
                    proof {
                        lemma_decode_fields_ok(*s, e.fields@, params@);
                        let us = crate::decode::s_decode_fields(*s, e.fields@, params@)->Ok_0;
                        assert forall|i: int| 0 <= i < us.len() implies us[i] == uvals_view(
                            vals@,
                        )[i] by {
                            assert(s_decode_value(*s, e.fields@[i], params@[i])
                                == Result::Ok::<SpecUval, Error>(vals@[i]@));
                        }
                        assert(us =~= uvals_view(vals@));
                    }
                    return params;
                },
                TypeDef::UnionType(_) => {},
            }
        },
        _ => {},
    }
    let v = encode_value(s, k, u);
    let mut params: Vec<Value> = Vec::new();
    params.push(v);
    proof {
        assert(params@[0] == v);
    }
    params
}

/// Build the parameters that decode, field by field, to exactly these
/// unresolved values.
fn encode_fields(s: &Schema, ks: &Vec<FieldKind>, vals: &Vec<UnresolvedValue>) -> (r: Vec<Value>)
    requires
        s.wf(),
        forall|i: int| 0 <= i < ks@.len() ==> kind_wf(#[trigger] ks@[i], s.len() as int, s.len() as int),
        uvals_wt(*s, ks@, uvals_view(vals@)),
    ensures
        r@.len() == vals@.len(),
        forall|i: int|
            0 <= i < vals@.len() ==> s_decode_value(*s, ks@[i], #[trigger] r@[i])
                == Result::Ok::<SpecUval, Error>(vals@[i]@),
    decreases suvals_size(uvals_view(vals@)), 2nat, 0nat,
{
    let ghost uvs = uvals_view(vals@);
    proof {
        lemma_uvals_view_index(vals@);
    }
    let mut out: Vec<Value> = Vec::new();
    let mut i: usize = 0;
    while i < vals.len()
        invariant
            s.wf(),
            forall|q: int|
                0 <= q < ks@.len() ==> kind_wf(#[trigger] ks@[q], s.len() as int, s.len() as int),
            uvals_wt(*s, ks@, uvs),
            uvs == uvals_view(vals@),
            uvs.len() == vals@.len(),
            ks@.len() == vals@.len(),
            forall|q: int| 0 <= q < vals@.len() ==> #[trigger] uvs[q] == vals@[q]@,
            i <= vals@.len(),
            out@.len() == i,
            forall|q: int|
                0 <= q < i ==> s_decode_value(*s, ks@[q], #[trigger] out@[q])
                    == Result::Ok::<SpecUval, Error>(vals@[q]@),
        decreases vals@.len() - i,
    {
        proof {
            lemma_suvals_size_elem(uvs, i as int);
            assert(uval_wt(*s, ks@[i as int], uvs[i as int]));
        }
        let v = encode_value(s, &ks[i], &vals[i]);
        out.push(v);
        i += 1;
    }
    out
}

/// Build the single parameter that decodes, under the given kind, to
/// exactly this unresolved value.
#[verifier::loop_isolation(false)]
fn encode_value(s: &Schema, k: &FieldKind, u: &UnresolvedValue) -> (r: Value)
    requires
        s.wf(),
        kind_wf(*k, s.len() as int, s.len() as int),
        uval_wt(*s, *k, u@),
    ensures
        s_decode_value(*s, *k, r) == Result::Ok::<SpecUval, Error>(u@),
    decreases suval_size(u@), 4nat, kind_size(*k),
{
    match k {
        FieldKind::Plain => match u {
            UnresolvedValue::Scal(sc) => Value::Simple(sc.dup()),
            _ => vstd::pervasive::unreached(),
        },
        FieldKind::RefTo(_) => match u {
            UnresolvedValue::Ref(id) => Value::Ref(*id),
            _ => vstd::pervasive::unreached(),
        },
        FieldKind::Inline(t) => Value::Nested(Box::new(record_of(s, *t, u))),
        FieldKind::ListOf(inner) => match u {
            UnresolvedValue::Items(vs) => {
                let ghost uvs = uvals_view(vs@);
                proof {
                    lemma_uvals_view_index(vs@);
                }
                let mut out: Vec<Value> = Vec::new();
                let mut i: usize = 0;
                while i < vs.len()
                    invariant
                        s.wf(),
                        uvs == uvals_view(vs@),
                        uvs.len() == vs@.len(),
                        forall|q: int| 0 <= q < vs@.len() ==> #[trigger] uvs[q] == vs@[q]@,
                        forall|q: int| 0 <= q < vs@.len() ==> uval_wt(*s, **inner, #[trigger] uvs[q]),
                        i <= vs@.len(),
                        out@.len() == i,
                        forall|q: int|
                            0 <= q < i ==> s_decode_value(*s, **inner, #[trigger] out@[q])
                                == Result::Ok::<SpecUval, Error>(vs@[q]@),
                    decreases vs@.len() - i,
                {
                    proof {
                        lemma_suvals_size_elem(uvs, i as int);
                    }
                    let v = encode_value(s, inner, &vs[i]);
                    out.push(v);
                    i += 1;
                }
                let r = Value::ListOf(out);
                proof {
                    lemma_decode_items_ok(*s, **inner, r->ListOf_0@);
                    let us = crate::decode::s_decode_items(*s, **inner, r->ListOf_0@)->Ok_0;
                    assert forall|i: int| 0 <= i < us.len() implies us[i] == uvals_view(vs@)[i] by {
                        assert(s_decode_value(*s, **inner, r->ListOf_0@[i])
                            == Result::Ok::<SpecUval, Error>(vs@[i]@));
                    }
                    assert(us =~= uvals_view(vs@));
                }
                r
            },
            _ => vstd::pervasive::unreached(),
        },
        FieldKind::OptionalOf(inner) => match u {
            UnresolvedValue::Maybe(o) => match o {
                Some(b) => {
                    let v = encode_value(s, inner, b);
                    proof {
                        if v is Unset {
                            match **inner {
                                FieldKind::Plain => {},
                                FieldKind::RefTo(_) => {},
                                FieldKind::Inline(_) => {},
                                FieldKind::ListOf(_) => {},
                                FieldKind::OptionalOf(_) => {},
                            }
                            assert(false);
                        }
                    }
                    v
                },
                None => Value::Unset,
            },
            _ => vstd::pervasive::unreached(),
        },
    }
}

} // verus!
