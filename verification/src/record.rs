//! The record model: the abstract input unit handed in by an external
//! tokenizer.  A record is a type tag plus an ordered parameter list; a
//! keyed record is a single tagged entry wrapping one such parameter list.

use vstd::prelude::*;

verus! {

/// Identifier of one record within one type's table slot.  Unique within
/// (type, table), not globally.
pub type EntityId = u64;

/// A scalar parameter, carried through decoding and resolution unchanged.
#[derive(Debug, PartialEq, Eq)]
pub enum Scalar {
    /// An integer parameter.
    Integer(i64),
    /// A real parameter, carried as the caller's 64-bit encoding of it.
    Real(u64),
    /// A string parameter.
    Text(String),
    /// A logical parameter.
    Logical(bool),
}

/// One parameter of a record.
#[derive(Debug, PartialEq, Eq)]
pub enum Value {
    /// A plain scalar.
    Simple(Scalar),
    /// A reference to another record, by identifier.
    Ref(EntityId),
    /// A nested, tagged record appearing inline.
    Nested(Box<Record>),
    /// An ordered aggregate of parameters.
    ListOf(Vec<Value>),
    /// An optional parameter that is absent.
    Unset,
}

/// One sequence-form record: a type tag and an ordered parameter list.
#[derive(Debug, PartialEq, Eq)]
pub struct Record {
    pub tag: String,
    pub params: Vec<Value>,
}

/// A keyed-form record: at most one (tag, payload) entry.  An empty keyed
/// record (no entry at all) is a decode failure, never a success.
#[derive(Debug, PartialEq, Eq)]
pub struct KeyedRecord {
    pub entry: Option<Record>,
}

/// Structural size of a parameter; the termination measure for every
/// function that walks parameters.
pub open spec fn value_size(v: Value) -> nat
    decreases v,
{
    match v {
        Value::Simple(_) => 1,
        Value::Ref(_) => 1,
        Value::Nested(r) => 1 + values_size(r.params@),
        Value::ListOf(items) => 1 + values_size(items@),
        Value::Unset => 1,
    }
}

/// Structural size of a parameter list.
pub open spec fn values_size(vs: Seq<Value>) -> nat
    decreases vs,
{
    if vs.len() == 0 {
        0
    } else {
        1 + value_size(vs[0]) + values_size(vs.skip(1))
    }
}

/// Every parameter has positive size, and a list bounds each of its
/// elements.
pub proof fn lemma_values_size_elem(vs: Seq<Value>, i: int)
    requires
        0 <= i < vs.len(),
    ensures
        value_size(vs[i]) <= values_size(vs),
        value_size(vs[i]) >= 1,
    decreases vs.len(),
{
    assert(value_size(vs[i]) >= 1) by {
        match vs[i] {
            Value::Simple(_) => {}
            Value::Ref(_) => {}
            Value::Nested(_) => {}
            Value::ListOf(_) => {}
            Value::Unset => {}
        }
    }
    if i == 0 {
    } else {
        lemma_values_size_elem(vs.skip(1), i - 1);
        assert(vs.skip(1)[i - 1] == vs[i]);
    }
}

impl Scalar {
    /// A copy of this scalar, equal to it.
    pub fn dup(&self) -> (r: Scalar)
        ensures
            r == *self,
    {
        match self {
            Scalar::Integer(x) => Scalar::Integer(*x),
            Scalar::Real(x) => Scalar::Real(*x),
            Scalar::Text(s) => Scalar::Text(s.clone()),
            Scalar::Logical(b) => Scalar::Logical(*b),
        }
    }
}

/// Scalars compare by their carried content; two texts are the same scalar
/// exactly when they hold the same characters.
pub open spec fn scalar_eqv(a: Scalar, b: Scalar) -> bool {
    match (a, b) {
        (Scalar::Integer(x), Scalar::Integer(y)) => x == y,
        (Scalar::Real(x), Scalar::Real(y)) => x == y,
        (Scalar::Text(x), Scalar::Text(y)) => x@ == y@,
        (Scalar::Logical(x), Scalar::Logical(y)) => x == y,
        _ => false,
    }
}

/// Content equality of parameters: structural, with strings compared by
/// their characters.
pub open spec fn value_eqv(a: Value, b: Value) -> bool
    decreases value_size(a), 0nat,
{
    match (a, b) {
        (Value::Simple(x), Value::Simple(y)) => scalar_eqv(x, y),
        (Value::Ref(x), Value::Ref(y)) => x == y,
        (Value::Nested(x), Value::Nested(y)) => record_eqv(*x, *y),
        (Value::ListOf(x), Value::ListOf(y)) => values_eqv(x@, y@),
        (Value::Unset, Value::Unset) => true,
        _ => false,
    }
}

/// Content equality of parameter lists, element by element.
pub open spec fn values_eqv(a: Seq<Value>, b: Seq<Value>) -> bool
    decreases values_size(a), 1nat,
{
    a.len() == b.len() && (a.len() == 0 || (value_eqv(a[0], b[0]) && values_eqv(
        a.skip(1),
        b.skip(1),
    )))
}

/// Content equality of records: same tag characters, equal parameters.
pub open spec fn record_eqv(a: Record, b: Record) -> bool
    decreases values_size(a.params@), 2nat,
{
    a.tag@ == b.tag@ && values_eqv(a.params@, b.params@)
}

} // verus!
