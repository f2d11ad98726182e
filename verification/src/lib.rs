//! A verified device-update synchronizer.
//!
//! Given the bytes of a downloaded ustar archive and an image of the
//! files on a removable device volume, the library reconciles the two:
//! it parses the archive (`archive`), classifies every entry by the
//! merge policy its extension selects (`policy`), takes each merge
//! decision against the target file's current bytes (`engine`), runs
//! whole updates with per-entry progress — or, for a one-entry archive,
//! chunked byte-level progress (`sync`, `extract`) — and reads the
//! device's own identity out of its info file (`info`, `device`).
//! `laws` proves the properties the design rests on, idempotence of a
//! whole run first among them. All filesystem and network traffic
//! stays with the caller, who hands in bytes and carries decisions
//! out.

pub mod archive;
pub mod device;
pub mod engine;
pub mod extract;
pub mod info;
pub mod laws;
pub mod num;
pub mod policy;
pub mod sync;

use vstd::prelude::*;

verus! {

/// Outcome handed to the caller of a fallible query: either an error
/// message, or a result value, never both meaningfully at once.
pub struct FrontendResult<T> {
    pub error: String,
    pub result: Option<T>,
}

impl<T> FrontendResult<T> {
    /// Wraps an error message; the result slot stays empty.
    pub fn error(error: String) -> (r: Self)
        ensures
            r.error == error,
            r.result is None,
    {
        FrontendResult { error, result: None }
    }

    /// Wraps a successful value; the error message is empty.
    pub fn result(result: T) -> (r: Self)
        ensures
            r.error@ == Seq::<char>::empty(),
            r.result == Some(result),
    {
        FrontendResult { error: String::new(), result: Some(result) }
    }
}

} // verus!
