//! Storage core of an embedded, single-file, append-only key-value
//! persistence engine: a typed record codec, an append log with a
//! fixed-width length header over a growable byte region, and the
//! replay/lookup/compaction logic that turns the raw log into a
//! key-value store.

use vstd::prelude::*;

pub mod buffer;
pub mod bytes;
pub mod log;
pub mod store;

verus! {

/// Every failure a public operation of this crate can report.
#[derive(Debug, PartialEq)]
pub enum Error {
    KeyNotFound,
    DecodeFailed(String),
    TypeMissMatch,
    DataInvalid,
    InstanceClosed,
    EncodeFailed(String),
    IOError(String),
    LockError(String),
}

} // verus!
