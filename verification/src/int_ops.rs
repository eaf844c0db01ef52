//! Contracts for the integer operations of the standard library that the
//! solvers call and that come without one.

use vstd::prelude::*;
use vstd::arithmetic::power::pow;

verus! {

/// The base-10 logarithm of a positive number, rounded down.
pub open spec fn floor_log10(n: nat) -> nat
    decreases n,
{
    if n < 10 {
        0
    } else {
        1 + floor_log10(n / 10)
    }
}

/// `u64::abs_diff`: the distance between the two numbers.
pub assume_specification[ <u64>::abs_diff ](a: u64, b: u64) -> (d: u64)
    ensures
        d == (if a < b { b - a } else { a - b }),
;

/// `u64::ilog10`: the base-10 logarithm rounded down. The standard library
/// panics on zero, which the precondition rules out.
pub assume_specification[ <u64>::ilog10 ](x: u64) -> (r: u32)
    requires
        x > 0,
    ensures
        r == floor_log10(x as nat),
;

/// `u64::pow`: the power `base`^`exp`, for arguments whose power fits the
/// type (the standard library panics or wraps on overflow).
pub assume_specification[ <u64>::pow ](base: u64, exp: u32) -> (r: u64)
    requires
        pow(base as int, exp as nat) <= u64::MAX,
    ensures
        r == pow(base as int, exp as nat),
;

/// `isize::abs`: the absolute value. The standard library overflows on the
/// least value of the type, which the precondition rules out.
pub assume_specification[ <isize>::abs ](x: isize) -> (r: isize)
    requires
        x != isize::MIN,
    ensures
        r == (if x < 0 { -x } else { x as int }),
;

} // verus!
