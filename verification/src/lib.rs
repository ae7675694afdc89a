//! Decoding and resolution of STEP-style interchange records.
//!
//! An interchange file is a stream of records, each a type tag plus a
//! parameter list.  Records refer to one another by integer identifiers.
//! This crate decodes such records, against a schema built at run time,
//! into unresolved values (references left as identifiers), stores them
//! in a per-type entity table, and resolves them on demand into owned,
//! reference-free values.
//!
//! The crate consumes records already produced by a tokenizer; it does no
//! parsing of raw text and no I/O.

pub mod decode;
pub mod encode;
pub mod error;
pub mod record;
pub mod resolve;
pub mod schema;
pub mod table;
