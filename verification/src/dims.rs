//! Boundary validation of a call's shape.
//!
//! The search itself trusts its inputs; a caller validates once, up
//! front, and fails fast instead of letting mismatched lengths produce
//! silently truncated or out-of-range iteration.

use vstd::prelude::*;

verus! {

/// Why a call is rejected before any search runs.
#[derive(PartialEq, Eq, Structural, Debug, Clone, Copy)]
pub enum EstimateError {
    /// The two item-parameter sequences and every response vector must
    /// share one length, at least 1.
    DimensionMismatch,
    /// The scaling constant must be finite and nonzero.
    InvalidScale,
}

/// The shape rules: both item-parameter sequences have the same length
/// `n >= 1`, and every response vector has length `n` too.
pub open spec fn dims_ok(
    item_count: usize,
    location_count: usize,
    response_lengths: Seq<usize>,
) -> bool {
    &&& item_count == location_count
    &&& item_count >= 1
    &&& forall|i: int|
        0 <= i < response_lengths.len() ==> #[trigger] response_lengths[i] == item_count
}

/// Checks the shape rules, given the length of the slope sequence, the
/// length of the location sequence, and the length of each response
/// vector: accepts exactly the calls `dims_ok` allows, and rejects the
/// rest as a dimension mismatch.
pub fn check_dimensions(
    item_count: usize,
    location_count: usize,
    response_lengths: &Vec<usize>,
) -> (r: Result<(), EstimateError>)
    ensures
        r == Ok::<(), EstimateError>(()) <==> dims_ok(
            item_count,
            location_count,
            response_lengths@,
        ),
        r == Ok::<(), EstimateError>(()) || r == Err::<(), EstimateError>(
            EstimateError::DimensionMismatch,
        ),
{
    if item_count != location_count || item_count == 0 {
        return Err(EstimateError::DimensionMismatch);
    }
    let mut i: usize = 0;
    while i < response_lengths.len()
        invariant
            i <= response_lengths.len(),
            forall|t: int| 0 <= t < i ==> #[trigger] response_lengths@[t] == item_count,
        decreases response_lengths.len() - i,
    {
        if response_lengths[i] != item_count {
            return Err(EstimateError::DimensionMismatch);
        }
        i = i + 1;
    }
    Ok(())
}

} // verus!
