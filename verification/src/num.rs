//! Saturating arithmetic on non-negative layout units.
//!
//! Layout units are `i64` values; geometry produced by the engine is always
//! non-negative, and sums that would exceed `i64::MAX` clamp there, the
//! integer analogue of an unbounded coordinate.

use vstd::prelude::*;

verus! {

/// The sum of two non-negative units, clamped at `i64::MAX`.
pub open spec fn spec_sat_add(a: i64, b: i64) -> i64 {
    if a + b > i64::MAX {
        i64::MAX
    } else {
        (a + b) as i64
    }
}

/// Add two non-negative layout units, clamping at `i64::MAX`.
pub fn sat_add(a: i64, b: i64) -> (r: i64)
    requires
        a >= 0,
        b >= 0,
    ensures
        r == spec_sat_add(a, b),
{
    match a.checked_add(b) {
        Some(s) => s,
        None => i64::MAX,
    }
}

/// Clamped addition of non-negative units is associative.
pub proof fn lemma_sat_add_assoc(a: i64, b: i64, c: i64)
    requires
        a >= 0,
        b >= 0,
        c >= 0,
    ensures
        spec_sat_add(a, spec_sat_add(b, c)) == spec_sat_add(spec_sat_add(a, b), c),
{
}

/// Clamped addition never loses the lower bound: the sum is at least
/// either operand (for non-negative operands).
pub proof fn lemma_sat_add_bounds(a: i64, b: i64)
    requires
        a >= 0,
        b >= 0,
    ensures
        spec_sat_add(a, b) >= a,
        spec_sat_add(a, b) >= b,
        spec_sat_add(a, b) <= a + b,
        a + b <= i64::MAX ==> spec_sat_add(a, b) == a + b,
{
}

} // verus!
