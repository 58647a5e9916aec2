//! Quantities: 128-bit integers that stay at their bounds.

use vstd::prelude::*;

verus! {

/// The number nearest to `v` that a quantity can hold.
pub open spec fn bounded(v: int) -> int {
    if v > i128::MAX {
        i128::MAX as int
    } else if v < i128::MIN {
        i128::MIN as int
    } else {
        v
    }
}

/// `a + b`, or the bound that it would leave.
pub fn saturating_plus(a: i128, b: i128) -> (r: i128)
    ensures
        r == bounded(a + b),
{
    match a.checked_add(b) {
        Some(v) => v,
        None => if a > 0 {
            i128::MAX
        } else {
            i128::MIN
        },
    }
}

/// `a - b`, or the bound that it would leave.
pub fn saturating_minus(a: i128, b: i128) -> (r: i128)
    ensures
        r == bounded(a - b),
{
    match a.checked_sub(b) {
        Some(v) => v,
        None => if b < 0 {
            i128::MAX
        } else {
            i128::MIN
        },
    }
}

/// A sum that fits is what it is; one that does not is the bound on its side of zero.
pub proof fn law_sums_stop_at_the_bounds(v: int)
    ensures
        -0x8000_0000_0000_0000_0000_0000_0000_0000 <= v
            <= 0x7fff_ffff_ffff_ffff_ffff_ffff_ffff_ffff ==> bounded(v) == v,
        v > 0x7fff_ffff_ffff_ffff_ffff_ffff_ffff_ffff ==> bounded(v)
            == 0x7fff_ffff_ffff_ffff_ffff_ffff_ffff_ffff,
        v < -0x8000_0000_0000_0000_0000_0000_0000_0000 ==> bounded(v)
            == -0x8000_0000_0000_0000_0000_0000_0000_0000,
{
}

} // verus!
