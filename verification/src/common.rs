use vstd::prelude::*;

use crate::sma::div_trunc;
use crate::sma::lemma_div_trunc_bounds;

verus! {

/// Divides a window sum by a positive sample count, truncating toward
/// zero exactly as `i64` division does. The sum of up to `divisor`
/// samples always stays within `divisor` times the sample range, so the
/// quotient fits the sample type again.
pub fn divide_sum_by_count(sum: i128, divisor: i64) -> (average: i64)
    requires
        divisor >= 1,
        divisor as int * (i64::MIN as int) <= sum as int <= divisor as int * (i64::MAX as int),
    ensures
        average as int == div_trunc(sum as int, divisor as int),
{
    proof {
        lemma_div_trunc_bounds(sum as int, divisor as int, i64::MIN as int, i64::MAX as int);
    }
    if sum >= 0 {
        let quotient = (sum as u128) / (divisor as u128);
        quotient as i64
    } else {
        let magnitude = (-sum) as u128;
        let quotient = magnitude / (divisor as u128);
        let negated = -(quotient as i128);
        negated as i64
    }
}

/// Converts a non-negative sample count into the divisor used when a
/// window sum is divided to produce an average.
///
/// Relies on `num_traits::FromPrimitive::from_usize` for `i64`, which
/// returns `Some(count as i64)` exactly when the count is at most
/// `i64::MAX` and `None` otherwise. A count that the divisor type cannot
/// represent is a fatal configuration error and panics here, so such
/// counts are excluded by precondition.
#[verifier::external_body]
pub fn cast_to_divisor_type(divisor: usize) -> (cast: i64)
    requires
        divisor as int <= i64::MAX as int,
    ensures
        cast as int == divisor as int,
{
    <i64 as num_traits::FromPrimitive>::from_usize(divisor).unwrap()
}

} // verus!
