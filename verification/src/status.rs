//! The closed status vocabulary of the aggregation lifecycle.
//!
//! A proof request moves through `Pending -> Aggregated -> Verified` and
//! never regresses. The response vocabulary adds a `NotFound` sentinel that
//! is only ever reported to callers, never stored.

use vstd::prelude::*;

verus! {

/// Stored lifecycle state of one proof request.
#[derive(Clone, Copy, Debug, PartialEq, Eq, Structural)]
pub enum AggregationStatus {
    Pending,
    Aggregated,
    Verified,
}

/// Status reported to a polling client; `NotFound` is a response-only
/// sentinel for identifiers that were never submitted.
#[derive(Clone, Copy, Debug, PartialEq, Eq, Structural)]
pub enum AggregationStatusResponse {
    AggregationPending,
    AggregationComplete,
    AggregationVerified,
    NotFound,
}

/// Position of a stored status in the lifecycle order
/// `Pending < Aggregated < Verified`.
pub open spec fn status_rank(s: AggregationStatus) -> int {
    match s {
        AggregationStatus::Pending => 0,
        AggregationStatus::Aggregated => 1,
        AggregationStatus::Verified => 2,
    }
}

/// `b` is the same stage as `a` or a later one: the only direction a stored
/// status is ever allowed to move.
pub open spec fn status_le(a: AggregationStatus, b: AggregationStatus) -> bool {
    status_rank(a) <= status_rank(b)
}

/// The response that reports a stored status.
pub open spec fn response_of(s: AggregationStatus) -> AggregationStatusResponse {
    match s {
        AggregationStatus::Pending => AggregationStatusResponse::AggregationPending,
        AggregationStatus::Aggregated => AggregationStatusResponse::AggregationComplete,
        AggregationStatus::Verified => AggregationStatusResponse::AggregationVerified,
    }
}

/// Maps a stored status to the response vocabulary.
pub fn status_response(s: AggregationStatus) -> (r: AggregationStatusResponse)
    ensures
        r == response_of(s),
{
    match s {
        AggregationStatus::Pending => AggregationStatusResponse::AggregationPending,
        AggregationStatus::Aggregated => AggregationStatusResponse::AggregationComplete,
        AggregationStatus::Verified => AggregationStatusResponse::AggregationVerified,
    }
}

/// The small-integer encoding of a stored status, for persistence and wire
/// adapters. The encoding stays at this boundary: the core itself only works
/// with the enumeration.
pub open spec fn spec_status_code(s: AggregationStatus) -> i32 {
    status_rank(s) as i32
}

/// Encodes a stored status as its small integer.
pub fn status_code(s: AggregationStatus) -> (r: i32)
    ensures
        r == spec_status_code(s),
{
    match s {
        AggregationStatus::Pending => 0,
        AggregationStatus::Aggregated => 1,
        AggregationStatus::Verified => 2,
    }
}

/// The integer encoding respects the lifecycle order exactly.
pub proof fn lemma_status_code_order(a: AggregationStatus, b: AggregationStatus)
    ensures
        (spec_status_code(a) <= spec_status_code(b)) <==> status_le(a, b),
{
    match a {
        AggregationStatus::Pending => {},
        AggregationStatus::Aggregated => {},
        AggregationStatus::Verified => {},
    }
    match b {
        AggregationStatus::Pending => {},
        AggregationStatus::Aggregated => {},
        AggregationStatus::Verified => {},
    }
}

/// Decodes a small integer back into a stored status; integers outside the
/// closed vocabulary are rejected.
pub fn status_from_code(code: i32) -> (r: Option<AggregationStatus>)
    ensures
        match r {
            Some(s) => spec_status_code(s) == code,
            None => forall|s: AggregationStatus| spec_status_code(s) != code,
        },
{
    if code == 0 {
        Some(AggregationStatus::Pending)
    } else if code == 1 {
        Some(AggregationStatus::Aggregated)
    } else if code == 2 {
        Some(AggregationStatus::Verified)
    } else {
        assert forall|s: AggregationStatus| spec_status_code(s) != code by {
            match s {
                AggregationStatus::Pending => {},
                AggregationStatus::Aggregated => {},
                AggregationStatus::Verified => {},
            }
        }
        None
    }
}

} // verus!
