//! The decode and resolve error taxonomy.  Every variant is a recoverable
//! outcome, propagated by returning a failure result up the call chain.

use crate::record::EntityId;
use vstd::prelude::*;

verus! {

/// Why a decode or a resolution failed.
#[derive(Debug, PartialEq, Eq)]
pub enum Error {
    /// A sequence-form parameter list had the wrong length: expected, then
    /// actual count.
    ArityMismatch(usize, usize),
    /// A keyed record's tag did not match the expected type name: expected,
    /// then actual tag.
    UnexpectedTag(String, String),
    /// A keyed record held no entry at all.
    EmptyRecord,
    /// A keyed record's tag matched no variant of the expected union.
    UnknownVariant(String),
    /// No record of the requested type carries this identifier.
    UnknownEntity(EntityId),
    /// A parameter's shape did not fit its declared field: a scalar where a
    /// reference was declared, a reference where a list was declared, and
    /// the like.
    UnexpectedValue,
    /// Resolution followed more references than the table could justify;
    /// only a reference cycle reaches this depth guard.
    DepthLimit,
}

impl Error {
    /// A short stable name for the failed sub-check, for reporting.
    pub fn describe(&self) -> (r: String)
        ensures
            r@ == self.spec_describe(),
    {
        match self {
            Error::ArityMismatch(_, _) => "arity mismatch".to_owned(),
            Error::UnexpectedTag(_, _) => "unexpected tag".to_owned(),
            Error::EmptyRecord => "empty record".to_owned(),
            Error::UnknownVariant(_) => "unknown variant".to_owned(),
            Error::UnknownEntity(_) => "unknown entity".to_owned(),
            Error::UnexpectedValue => "unexpected value".to_owned(),
            Error::DepthLimit => "depth limit".to_owned(),
        }
    }

    /// The characters `describe` returns for each variant.
    pub open spec fn spec_describe(&self) -> Seq<char> {
        match self {
            Error::ArityMismatch(_, _) => "arity mismatch"@,
            Error::UnexpectedTag(_, _) => "unexpected tag"@,
            Error::EmptyRecord => "empty record"@,
            Error::UnknownVariant(_) => "unknown variant"@,
            Error::UnknownEntity(_) => "unknown entity"@,
            Error::UnexpectedValue => "unexpected value"@,
            Error::DepthLimit => "depth limit"@,
        }
    }
}

/// Content equality of errors, with strings compared by their characters.
pub open spec fn error_eqv(a: Error, b: Error) -> bool {
    match (a, b) {
        (Error::ArityMismatch(e1, a1), Error::ArityMismatch(e2, a2)) => e1 == e2 && a1 == a2,
        (Error::UnexpectedTag(e1, a1), Error::UnexpectedTag(e2, a2)) => e1@ == e2@ && a1@ == a2@,
        (Error::EmptyRecord, Error::EmptyRecord) => true,
        (Error::UnknownVariant(t1), Error::UnknownVariant(t2)) => t1@ == t2@,
        (Error::UnknownEntity(i1), Error::UnknownEntity(i2)) => i1 == i2,
        (Error::UnexpectedValue, Error::UnexpectedValue) => true,
        (Error::DepthLimit, Error::DepthLimit) => true,
        _ => false,
    }
}

} // verus!
