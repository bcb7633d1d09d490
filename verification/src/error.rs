//! The error taxonomy of the dictionary engine.

use vstd::prelude::*;

verus! {

/// Every failure the engine can report.
///
/// `MalformedEntry` carries the offending line and aborts a build: a partial
/// dictionary is considered worse than none. `NotFound` means no source or
/// cache file was present. `IOFailure` stands for a file-system failure at
/// the boundary. `EncodeFailure` and `DecodeFailure` are raised by the
/// persistence codec on serialization failures or corrupted cache bytes.
#[derive(Debug, PartialEq, Eq)]
pub enum DictError {
    MalformedEntry(String),
    NotFound,
    IOFailure,
    EncodeFailure,
    DecodeFailure,
}

} // verus!
