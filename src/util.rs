//! Small scalar helpers.
use vstd::prelude::*;

use crate::fixed::{bounded, div_spec, mul_spec, ONE};
use crate::fixed;

verus! {

/// Pi as a scalar.
pub const PI: i64 = 3_141_593;

/// Degrees to radians: `degrees * PI / 180`.
pub fn degrees_to_radians(degrees: i64) -> (r: i64)
    requires
        bounded(degrees as int),
    ensures
        r == div_spec(mul_spec(degrees as int, PI as int), 180 * ONE),
{
    fixed::div(fixed::mul(degrees, PI), 180 * ONE)
}

/// `x` held within `[min, max]`: `min` below it, `max` above it.
pub fn clamp(x: i64, min: i64, max: i64) -> (r: i64)
    ensures
        r == if x < min {
            min
        } else if x > max {
            max
        } else {
            x
        },
{
    if x < min {
        return min;
    }
    if x > max {
        return max;
    }
    x
}

} // verus!
