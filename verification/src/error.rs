//! The error taxonomy of a reconciliation run.

use vstd::prelude::*;

verus! {

/// What can go wrong while reconciling the document source with the store.
///
/// A `ParseError` is attributable to a single document and never aborts the
/// run; the remaining documents are still processed. `NotFound` and
/// `ConstraintViolation` report a mutation against an absent or an already
/// present essay identifier. `DictionaryConflict` reports a duplicate
/// dictionary name raced in by a concurrent writer, and `StoreUnavailable` a
/// store that cannot be reached at all; both arise only at the boundary that
/// drives a remote store, never inside this crate's own catalogue model.
#[derive(Debug, Clone, Copy, PartialEq, Eq, Structural)]
pub enum Error {
    ParseError,
    NotFound,
    ConstraintViolation,
    DictionaryConflict,
    StoreUnavailable,
}

} // verus!
