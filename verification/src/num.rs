//! Integer arithmetic shared by the formulas.

use vstd::prelude::*;

verus! {

/// `x` held at the largest value a `u64` can carry.
pub open spec fn capped(x: int) -> int {
    if x > u64::MAX {
        u64::MAX as int
    } else {
        x
    }
}

/// The larger of two integers.
pub open spec fn larger(a: int, b: int) -> int {
    if a >= b {
        a
    } else {
        b
    }
}

/// The smaller of two integers.
pub open spec fn smaller(a: int, b: int) -> int {
    if a <= b {
        a
    } else {
        b
    }
}

/// `d` brought into `floor ..= ceil`; the floor wins where the two cross.
pub open spec fn within(d: int, floor: int, ceil: int) -> int {
    if d < floor {
        floor
    } else if d > ceil {
        ceil
    } else {
        d
    }
}

/// How far `a` lies above `b`; zero where it does not.
pub open spec fn above(a: int, b: int) -> int {
    if a > b {
        a - b
    } else {
        0
    }
}

pub fn max_u64(a: u64, b: u64) -> (r: u64)
    ensures
        r == larger(a as int, b as int),
{
    if a >= b {
        a
    } else {
        b
    }
}

pub fn min_u64(a: u64, b: u64) -> (r: u64)
    ensures
        r == smaller(a as int, b as int),
{
    if a <= b {
        a
    } else {
        b
    }
}

/// `a * b`, held at `u64::MAX`.
pub fn mul_capped(a: u64, b: u64) -> (r: u64)
    ensures
        r == capped(a * b),
{
    assert(0 <= a * b <= u64::MAX * u64::MAX) by (nonlinear_arith);
    let wide: u128 = a as u128 * b as u128;
    if wide > u64::MAX as u128 {
        u64::MAX
    } else {
        wide as u64
    }
}

} // verus!
