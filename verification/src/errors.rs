//! The closed error vocabulary of the core.
//!
//! Every failure a component surfaces carries one of these kinds; nothing is
//! swallowed inside the core, and no storage-specific text is the sole
//! signal.

use vstd::prelude::*;

verus! {

/// What went wrong, in the protocol's closed vocabulary.
///
/// `NotFound` is a normal negative result for an unknown identifier (except
/// where an operation's contract specifies a sentinel response instead).
/// `StorageFailure` is a rejected or failed write. `MalformedPayload` marks
/// stored bytes that no longer decode — corruption, not absence.
/// `InvariantViolation` marks a caller bug or corrupted data, such as a leaf
/// missing from its own batch's tree. `ExternalTimeout` is reserved for the
/// relayer boundary: a confirmation wait that exceeded its bound.
#[derive(Clone, Copy, Debug, PartialEq, Eq, Structural)]
pub enum AggregationError {
    NotFound,
    StorageFailure,
    MalformedPayload,
    InvariantViolation,
    ExternalTimeout,
}

} // verus!
