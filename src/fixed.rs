//! Fixed-point scalars.
//!
//! A scalar is an `i64` that stands for the real number `raw / SCALE`.
//! Every value handled by the tracer stays within `[-LIMIT, LIMIT]`; the
//! arithmetic saturates at those bounds, which play the part of the
//! infinities of floating point.
use vstd::prelude::*;

verus! {

/// Number of raw units in one unit of length (six decimal places).
pub const SCALE: i64 = 1_000_000;

/// Largest magnitude of a scalar, in raw units.
pub const LIMIT: i64 = 1_000_000_000_000_000;

/// The scalar `1`.
pub const ONE: i64 = 1_000_000;

/// A raw value is representable.
pub open spec fn bounded(v: int) -> bool {
    -LIMIT <= v <= LIMIT
}

/// Saturate a mathematical value into the representable range.
pub open spec fn clamp(v: int) -> int {
    if v > LIMIT {
        LIMIT as int
    } else if v < -LIMIT {
        -LIMIT
    } else {
        v
    }
}

/// Division rounding toward zero (the rounding of Rust's integer `/`).
pub open spec fn quot(n: int, d: int) -> int {
    if n >= 0 {
        n / d
    } else {
        -((-n) / d)
    }
}

/// Fixed-point product.
pub open spec fn mul_spec(a: int, b: int) -> int {
    clamp(quot(a * b, SCALE as int))
}

/// Fixed-point quotient; `b` is nonzero.
pub open spec fn div_spec(a: int, b: int) -> int {
    if b > 0 {
        clamp(quot(a * SCALE, b))
    } else {
        clamp(quot(-a * SCALE, -b))
    }
}

/// `r` is the integer square root of `n`, rounded down.
pub open spec fn is_isqrt(r: int, n: int) -> bool {
    0 <= r && r * r <= n && n < (r + 1) * (r + 1)
}

/// The integer square root of `n`, rounded down.
pub open spec fn floor_sqrt(n: int) -> int {
    choose|r: int| is_isqrt(r, n)
}

/// Fixed-point square root of a nonnegative scalar.
pub open spec fn sqrt_spec(a: int) -> int {
    floor_sqrt(a * SCALE)
}

pub proof fn lemma_isqrt_unique(r1: int, r2: int, n: int)
    requires
        is_isqrt(r1, n),
        is_isqrt(r2, n),
    ensures
        r1 == r2,
{
    if r1 < r2 {
        assert((r1 + 1) * (r1 + 1) <= r2 * r2) by (nonlinear_arith)
            requires
                0 <= r1 < r2,
        ;
    } else if r2 < r1 {
        assert((r2 + 1) * (r2 + 1) <= r1 * r1) by (nonlinear_arith)
            requires
                0 <= r2 < r1,
        ;
    }
}

pub proof fn lemma_floor_sqrt(r: int, n: int)
    requires
        is_isqrt(r, n),
    ensures
        floor_sqrt(n) == r,
{
    let c = floor_sqrt(n);
    assert(is_isqrt(c, n));
    lemma_isqrt_unique(c, r, n);
}

pub proof fn lemma_mul_bound(a: int, b: int, la: int, lb: int)
    requires
        -la <= a <= la,
        -lb <= b <= lb,
        la >= 0,
        lb >= 0,
    ensures
        -(la * lb) <= a * b <= la * lb,
{
    assert(-(la * lb) <= a * b <= la * lb) by (nonlinear_arith)
        requires
            -la <= a <= la,
            -lb <= b <= lb,
            la >= 0,
            lb >= 0,
    ;
}

/// A factor in `[0, 1]` scales a nonnegative scalar down, and 1 keeps it.
pub proof fn lemma_mul_by_fraction(a: int, b: int)
    requires
        0 <= a <= ONE,
        0 <= b <= LIMIT,
    ensures
        0 <= mul_spec(a, b) <= b,
        a == ONE ==> mul_spec(a, b) == b,
{
    assert(0 <= a * b <= ONE * b) by (nonlinear_arith)
        requires
            0 <= a <= ONE,
            0 <= b,
    ;
    assert(0 <= (a * b) / 1_000_000 <= (1_000_000 * b) / 1_000_000) by (nonlinear_arith)
        requires
            0 <= a * b <= 1_000_000 * b,
    ;
    assert((1_000_000 * b) / 1_000_000 == b) by (nonlinear_arith);
    if a == ONE {
        assert(a * b == 1_000_000 * b);
    }
}

/// Truncating division of a wide value by a positive divisor.
pub fn quot_wide(n: i128, d: i128) -> (r: i128)
    requires
        d > 0,
        n > i128::MIN,
    ensures
        r == quot(n as int, d as int),
{
    if n >= 0 {
        n / d
    } else {
        -((-n) / d)
    }
}

/// Saturate a wide value into the representable range.
pub fn clamp_wide(v: i128) -> (r: i64)
    ensures
        r == clamp(v as int),
        bounded(r as int),
{
    if v > LIMIT as i128 {
        LIMIT
    } else if v < -(LIMIT as i128) {
        -LIMIT
    } else {
        v as i64
    }
}

/// Saturating sum.
pub fn add(a: i64, b: i64) -> (r: i64)
    requires
        bounded(a as int),
        bounded(b as int),
    ensures
        r == clamp(a + b),
        bounded(r as int),
{
    clamp_wide(a as i128 + b as i128)
}

/// Saturating difference.
pub fn sub(a: i64, b: i64) -> (r: i64)
    requires
        bounded(a as int),
        bounded(b as int),
    ensures
        r == clamp(a - b),
        bounded(r as int),
{
    clamp_wide(a as i128 - b as i128)
}

/// Saturating fixed-point product.
pub fn mul(a: i64, b: i64) -> (r: i64)
    requires
        bounded(a as int),
        bounded(b as int),
    ensures
        r == mul_spec(a as int, b as int),
        bounded(r as int),
{
    proof {
        lemma_mul_bound(a as int, b as int, LIMIT as int, LIMIT as int);
    }
    let p = a as i128 * b as i128;
    clamp_wide(quot_wide(p, SCALE as i128))
}

/// Saturating fixed-point quotient.
pub fn div(a: i64, b: i64) -> (r: i64)
    requires
        bounded(a as int),
        bounded(b as int),
        b != 0,
    ensures
        r == div_spec(a as int, b as int),
        bounded(r as int),
{
    let n = a as i128 * SCALE as i128;
    if b > 0 {
        clamp_wide(quot_wide(n, b as i128))
    } else {
        clamp_wide(quot_wide(-n, -(b as i128)))
    }
}

/// The smaller of two scalars.
pub fn min(a: i64, b: i64) -> (r: i64)
    ensures
        r == if a <= b { a } else { b },
{
    if a <= b {
        a
    } else {
        b
    }
}

/// The larger of two scalars.
pub fn max(a: i64, b: i64) -> (r: i64)
    ensures
        r == if a >= b { a } else { b },
{
    if a >= b {
        a
    } else {
        b
    }
}

/// Integer square root, rounded down, by bisection.
pub fn isqrt(n: u128) -> (r: u128)
    requires
        n < 0x4000_0000_0000_0000_0000_0000_0000_0000,
    ensures
        is_isqrt(r as int, n as int),
{
    let mut lo: u128 = 0;
    let mut hi: u128 = 0x8000_0000_0000_0000;
    assert(n < hi * hi) by (nonlinear_arith)
        requires
            hi == 0x8000_0000_0000_0000u128,
            n < 0x4000_0000_0000_0000_0000_0000_0000_0000,
    ;
    while hi - lo > 1
        invariant
            lo < hi <= 0x8000_0000_0000_0000,
            lo * lo <= n,
            n < hi * hi,
        decreases hi - lo,
    {
        let mid = lo + (hi - lo) / 2;
        assert(mid * mid <= 0x4000_0000_0000_0000_0000_0000_0000_0000) by (nonlinear_arith)
            requires
                mid <= 0x8000_0000_0000_0000u128,
        ;
        if mid * mid <= n {
            lo = mid;
        } else {
            hi = mid;
        }
    }
    assert(hi == lo + 1);
    lo
}

/// Square root of a nonnegative scalar.
pub fn sqrt(a: i64) -> (r: i64)
    requires
        0 <= a <= LIMIT,
    ensures
        r == sqrt_spec(a as int),
        is_isqrt(r as int, a * SCALE),
        0 <= r <= LIMIT,
{
    let n = a as u128 * SCALE as u128;
    let s = isqrt(n);
    assert(s <= 1_000_000_000_000) by (nonlinear_arith)
        requires
            s * s <= n,
            n <= 1_000_000_000_000_000_000_000u128,
    ;
    proof {
        lemma_floor_sqrt(s as int, n as int);
    }
    s as i64
}

} // verus!
