//! Three-component fixed-point vectors, used as points, directions and colors.
use vstd::prelude::*;

use crate::fixed::{
    bounded, clamp, quot, mul_spec, div_spec, sqrt_spec, floor_sqrt, is_isqrt, lemma_mul_bound, SCALE, LIMIT, ONE,
};
use crate::fixed;

verus! {

#[derive(Clone, Copy, Debug, PartialEq, Eq, Structural)]
pub struct Vec3 {
    pub x: i64,
    pub y: i64,
    pub z: i64,
}

pub type Point3 = Vec3;

pub type Color = Vec3;

/// The vector with the three given (mathematical) components.
pub open spec fn v3(x: int, y: int, z: int) -> Vec3 {
    Vec3 { x: x as i64, y: y as i64, z: z as i64 }
}

/// Negating one side negates the exact dot product.
pub proof fn lemma_dot_neg(d: Vec3, n: Vec3)
    requires
        n.wf(),
    ensures
        d.dot_exact(n.neg_spec()) == -d.dot_exact(n),
{
    let m = n.neg_spec();
    assert(m.x == -n.x && m.y == -n.y && m.z == -n.z);
    let (a, b, c) = (d.x as int, d.y as int, d.z as int);
    let (x, y, z) = (n.x as int, n.y as int, n.z as int);
    assert(a * (-x) + b * (-y) + c * (-z) == -(a * x + b * y + c * z)) by (nonlinear_arith);
}

/// Squared lengths (raw units squared) up to which the length of a vector
/// is taken with six more decimals.
pub const FINE_SQ: i128 = 10_000_000_000_000_000_000_000_000;

/// The extra scale with which the length of a vector of squared length `d`
/// is taken.
pub open spec fn unit_q(d: int) -> int {
    if d <= FINE_SQ {
        SCALE as int
    } else {
        1
    }
}

/// Of unit length up to rounding: each component at most 1 in magnitude, the
/// squared length at most `(1 + 10^-6)^2`.
pub open spec fn is_unit(u: Vec3) -> bool {
    &&& -ONE <= u.x <= ONE
    &&& -ONE <= u.y <= ONE
    &&& -ONE <= u.z <= ONE
    &&& u.dot_exact(u) <= (ONE + 1) * (ONE + 1)
}

pub proof fn lemma_dot_self_nonneg(v: Vec3)
    ensures
        v.dot_exact(v) >= 0,
        v.x * v.x <= v.dot_exact(v),
        v.y * v.y <= v.dot_exact(v),
        v.z * v.z <= v.dot_exact(v),
{
    let (a, b, c) = (v.x as int, v.y as int, v.z as int);
    assert(a * a >= 0 && b * b >= 0 && c * c >= 0) by (nonlinear_arith);
}

pub open spec fn abs_i(x: int) -> int {
    if x < 0 {
        -x
    } else {
        x
    }
}

proof fn lemma_quot_abs(n: int, m: int)
    requires
        m > 0,
    ensures
        abs_i(quot(n, m)) == abs_i(n) / m,
        abs_i(quot(n, m)) * m <= abs_i(n),
{
    let a = abs_i(n);
    assert((a / m) * m <= a) by (nonlinear_arith)
        requires
            a >= 0,
            m > 0,
    ;
    assert(a / m >= 0) by (nonlinear_arith)
        requires
            a >= 0,
            m > 0,
    ;
}

/// One component of the unit vector: at most 1 in magnitude, and its
/// square times `m^2` at most the square of its numerator.
proof fn lemma_unit_component(x: int, q: int, m: int, n: int)
    requires
        q >= 1,
        m >= SCALE,
        x * x * q * q <= n,
        n < (m + 1) * (m + 1),
    ensures
        abs_i(quot(x * q * SCALE, m)) <= ONE,
        quot(x * q * SCALE, m) * quot(x * q * SCALE, m) * (m * m) <= x * x * q * q * SCALE * SCALE,
{
    let ax = abs_i(x);
    if x < 0 {
        assert((-x) * (-x) == x * x) by (nonlinear_arith);
    }
    assert(ax * ax == x * x);
    assert(ax * q <= m) by (nonlinear_arith)
        requires
            ax >= 0,
            q >= 1,
            ax * ax * q * q <= n,
            n < (m + 1) * (m + 1),
            m >= 0,
    ;
    let num = x * q * SCALE;
    assert(abs_i(num) == ax * q * SCALE) by (nonlinear_arith)
        requires
            ax == abs_i(x),
            q >= 1,
            num == x * q * SCALE,
    ;
    lemma_quot_abs(num, m);
    let u = abs_i(quot(num, m));
    assert(u <= ONE) by (nonlinear_arith)
        requires
            u * m <= ax * q * SCALE,
            ax * q <= m,
            m > 0,
            u >= 0,
            SCALE == ONE,
    ;
    let w = quot(num, m);
    assert(w * w == u * u) by (nonlinear_arith)
        requires
            u == abs_i(w),
    ;
    assert(u * u * (m * m) <= (ax * q * SCALE) * (ax * q * SCALE)) by (nonlinear_arith)
        requires
            0 <= u * m <= ax * q * SCALE,
            u >= 0,
            m > 0,
    ;
    assert((ax * q * SCALE) * (ax * q * SCALE) == x * x * q * q * SCALE * SCALE) by (nonlinear_arith)
        requires
            ax * ax == x * x,
    ;
}

/// A nonzero vector scales to one of unit length, up to rounding.
pub proof fn lemma_unit_bounds(v: Vec3)
    requires
        v.wf(),
        v.dot_exact(v) > 0,
    ensures
        is_unit(v.unit_spec()),
        v.dot_exact(v) * unit_q(v.dot_exact(v)) * unit_q(v.dot_exact(v)) < 0x4000_0000_0000_0000_0000_0000_0000_0000,
        v.dot_exact(v) * unit_q(v.dot_exact(v)) * unit_q(v.dot_exact(v)) >= SCALE * SCALE,
        ({
            let d = v.dot_exact(v);
            let q = unit_q(d);
            let m = floor_sqrt(d * q * q);
            &&& abs_i(quot(v.x * q * SCALE, m)) <= ONE
            &&& abs_i(quot(v.y * q * SCALE, m)) <= ONE
            &&& abs_i(quot(v.z * q * SCALE, m)) <= ONE
            &&& SCALE <= m < 0x8000_0000_0000_0000
        }),
{
    let d = v.dot_exact(v);
    lemma_dot_self_nonneg(v);
    lemma_mul_bound(v.x as int, v.x as int, LIMIT as int, LIMIT as int);
    lemma_mul_bound(v.y as int, v.y as int, LIMIT as int, LIMIT as int);
    lemma_mul_bound(v.z as int, v.z as int, LIMIT as int, LIMIT as int);
    let q = unit_q(d);
    let n = d * q * q;
    if d <= FINE_SQ {
        assert(n <= FINE_SQ * (SCALE * SCALE) && n >= SCALE * SCALE) by (nonlinear_arith)
            requires
                1 <= d <= FINE_SQ,
                q == SCALE,
                n == d * q * q,
        ;
    } else {
        assert(q == 1);
        assert(n == d * 1 * 1);
        assert(d * 1 * 1 == d);
    }
    let m = floor_sqrt(n);
    assert(exists|r: int| is_isqrt(r, n)) by {
        let r = isqrt_witness(n);
    }
    assert(is_isqrt(m, n));
    assert(m >= SCALE) by (nonlinear_arith)
        requires
            n >= SCALE * SCALE,
            n < (m + 1) * (m + 1),
            m >= 0,
    ;
    assert(v.x * v.x * q * q <= n && v.y * v.y * q * q <= n && v.z * v.z * q * q <= n) by (nonlinear_arith)
        requires
            v.x * v.x <= d,
            v.y * v.y <= d,
            v.z * v.z <= d,
            q >= 1,
            n == d * q * q,
    ;
    lemma_unit_component(v.x as int, q, m, n);
    lemma_unit_component(v.y as int, q, m, n);
    lemma_unit_component(v.z as int, q, m, n);
    let u = v.unit_spec();
    let (a, b, c) = (u.x as int, u.y as int, u.z as int);
    assert(a == quot(v.x * q * SCALE, m));
    assert(b == quot(v.y * q * SCALE, m));
    assert(c == quot(v.z * q * SCALE, m));
    let aa = a * a + b * b + c * c;
    assert(aa >= 0) by (nonlinear_arith)
        requires
            aa == a * a + b * b + c * c,
    ;
    assert(m < 0x8000_0000_0000_0000) by (nonlinear_arith)
        requires
            m * m <= n,
            n < 0x4000_0000_0000_0000_0000_0000_0000_0000,
            m >= 0,
    ;
    assert(aa * (m * m) <= d * q * q * SCALE * SCALE) by (nonlinear_arith)
        requires
            a * a * (m * m) <= v.x * v.x * q * q * SCALE * SCALE,
            b * b * (m * m) <= v.y * v.y * q * q * SCALE * SCALE,
            c * c * (m * m) <= v.z * v.z * q * q * SCALE * SCALE,
            d == v.x * v.x + v.y * v.y + v.z * v.z,
            aa == a * a + b * b + c * c,
    ;
    assert(aa <= (ONE + 1) * (ONE + 1)) by (nonlinear_arith)
        requires
            aa * (m * m) <= n * (SCALE * SCALE),
            n < (m + 1) * (m + 1),
            m >= SCALE,
            SCALE == ONE,
            SCALE > 0,
            aa >= 0,
    ;
}

/// Some integer square root of a nonnegative number exists.
proof fn isqrt_witness(n: int) -> (r: int)
    requires
        n >= 0,
    ensures
        is_isqrt(r, n),
    decreases n,
{
    if n == 0 {
        assert(is_isqrt(0, 0));
        0
    } else {
        let p = isqrt_witness(n - 1);
        assert(p >= 0 && p * p <= n - 1 && n - 1 < (p + 1) * (p + 1));
        if (p + 1) * (p + 1) <= n {
            assert((p + 1) * (p + 1) == n) by (nonlinear_arith)
                requires
                    (p + 1) * (p + 1) <= n,
                    n - 1 < (p + 1) * (p + 1),
            ;
            assert(n < (p + 2) * (p + 2)) by (nonlinear_arith)
                requires
                    (p + 1) * (p + 1) == n,
                    p >= 0,
            ;
            assert(is_isqrt(p + 1, n));
            p + 1
        } else {
            assert(is_isqrt(p, n));
            p
        }
    }
}

impl Vec3 {
    /// Every component is representable.
    pub open spec fn wf(self) -> bool {
        bounded(self.x as int) && bounded(self.y as int) && bounded(self.z as int)
    }

    /// Component `i` (0, 1 or 2).
    pub open spec fn comp(self, i: int) -> int {
        if i == 0 {
            self.x as int
        } else if i == 1 {
            self.y as int
        } else {
            self.z as int
        }
    }

    /// The exact dot product, in raw units squared.
    pub open spec fn dot_exact(self, o: Vec3) -> int {
        self.x * o.x + self.y * o.y + self.z * o.z
    }

    pub open spec fn plus_spec(self, o: Vec3) -> Vec3 {
        v3(clamp(self.x + o.x), clamp(self.y + o.y), clamp(self.z + o.z))
    }

    pub open spec fn minus_spec(self, o: Vec3) -> Vec3 {
        v3(clamp(self.x - o.x), clamp(self.y - o.y), clamp(self.z - o.z))
    }

    pub open spec fn neg_spec(self) -> Vec3 {
        v3(-self.x, -self.y, -self.z)
    }

    pub open spec fn scale_spec(self, s: int) -> Vec3 {
        v3(mul_spec(self.x as int, s), mul_spec(self.y as int, s), mul_spec(self.z as int, s))
    }

    pub open spec fn mul_elem_spec(self, o: Vec3) -> Vec3 {
        v3(
            mul_spec(self.x as int, o.x as int),
            mul_spec(self.y as int, o.y as int),
            mul_spec(self.z as int, o.z as int),
        )
    }

    pub open spec fn div_spec(self, s: int) -> Vec3 {
        v3(div_spec(self.x as int, s), div_spec(self.y as int, s), div_spec(self.z as int, s))
    }

    /// The fixed-point dot product.
    pub open spec fn dot_spec(self, o: Vec3) -> int {
        clamp(quot(self.dot_exact(o), SCALE as int))
    }

    pub open spec fn cross_spec(self, o: Vec3) -> Vec3 {
        v3(
            clamp(quot(self.y * o.z - self.z * o.y, SCALE as int)),
            clamp(quot(self.z * o.x - self.x * o.z, SCALE as int)),
            clamp(quot(self.x * o.y - self.y * o.x, SCALE as int)),
        )
    }

    /// `self - 2 (self . n) n`: the mirror image of `self` about the plane with normal `n`.
    pub open spec fn reflect_spec(self, n: Vec3) -> Vec3 {
        let d = self.dot_spec(n);
        self.minus_spec(n.scale_spec(clamp(d + d)))
    }

    /// The vector divided by its length, the length being taken from the
    /// exact squared length (with six more decimals while they fit); a zero
    /// vector has no direction and is kept.
    pub open spec fn unit_spec(self) -> Vec3 {
        let d = self.dot_exact(self);
        if d == 0 {
            self
        } else {
            let q = unit_q(d);
            let m = floor_sqrt(d * q * q);
            v3(
                quot(self.x * q * SCALE, m),
                quot(self.y * q * SCALE, m),
                quot(self.z * q * SCALE, m),
            )
        }
    }

    pub fn new(x: i64, y: i64, z: i64) -> (r: Vec3)
        ensures
            r == (Vec3 { x, y, z }),
    {
        Vec3 { x, y, z }
    }

    pub fn zero() -> (r: Vec3)
        ensures
            r == v3(0, 0, 0),
            r.wf(),
    {
        Vec3 { x: 0, y: 0, z: 0 }
    }

    pub fn x(&self) -> (r: i64)
        ensures
            r == self.x,
    {
        self.x
    }

    pub fn y(&self) -> (r: i64)
        ensures
            r == self.y,
    {
        self.y
    }

    pub fn z(&self) -> (r: i64)
        ensures
            r == self.z,
    {
        self.z
    }

    /// Component by axis number.
    pub fn index(&self, axis: usize) -> (r: i64)
        requires
            axis < 3,
        ensures
            r == self.comp(axis as int),
    {
        if axis == 0 {
            self.x
        } else if axis == 1 {
            self.y
        } else {
            self.z
        }
    }

    pub fn plus(&self, o: &Vec3) -> (r: Vec3)
        requires
            self.wf(),
            o.wf(),
        ensures
            r == self.plus_spec(*o),
            r.wf(),
    {
        Vec3 { x: fixed::add(self.x, o.x), y: fixed::add(self.y, o.y), z: fixed::add(self.z, o.z) }
    }

    pub fn minus(&self, o: &Vec3) -> (r: Vec3)
        requires
            self.wf(),
            o.wf(),
        ensures
            r == self.minus_spec(*o),
            r.wf(),
    {
        Vec3 { x: fixed::sub(self.x, o.x), y: fixed::sub(self.y, o.y), z: fixed::sub(self.z, o.z) }
    }

    pub fn negate(&self) -> (r: Vec3)
        requires
            self.wf(),
        ensures
            r == self.neg_spec(),
            r.wf(),
    {
        Vec3 { x: -self.x, y: -self.y, z: -self.z }
    }

    /// Multiply each component by the scalar `s`.
    pub fn scale(&self, s: i64) -> (r: Vec3)
        requires
            self.wf(),
            bounded(s as int),
        ensures
            r == self.scale_spec(s as int),
            r.wf(),
    {
        Vec3 { x: fixed::mul(self.x, s), y: fixed::mul(self.y, s), z: fixed::mul(self.z, s) }
    }

    /// Component-wise product (used to attenuate colors).
    pub fn mul_elem(&self, o: &Vec3) -> (r: Vec3)
        requires
            self.wf(),
            o.wf(),
        ensures
            r == self.mul_elem_spec(*o),
            r.wf(),
    {
        Vec3 { x: fixed::mul(self.x, o.x), y: fixed::mul(self.y, o.y), z: fixed::mul(self.z, o.z) }
    }

    /// Divide each component by the nonzero scalar `s`.
    pub fn div(&self, s: i64) -> (r: Vec3)
        requires
            self.wf(),
            bounded(s as int),
            s != 0,
        ensures
            r == self.div_spec(s as int),
            r.wf(),
    {
        Vec3 { x: fixed::div(self.x, s), y: fixed::div(self.y, s), z: fixed::div(self.z, s) }
    }

    /// The exact dot product, in raw units squared; its sign is exact.
    pub fn dot_wide(a: &Vec3, b: &Vec3) -> (r: i128)
        requires
            a.wf(),
            b.wf(),
        ensures
            r == a.dot_exact(*b),
            -3 * (LIMIT * LIMIT) <= r <= 3 * (LIMIT * LIMIT),
    {
        proof {
            lemma_mul_bound(a.x as int, b.x as int, LIMIT as int, LIMIT as int);
            lemma_mul_bound(a.y as int, b.y as int, LIMIT as int, LIMIT as int);
            lemma_mul_bound(a.z as int, b.z as int, LIMIT as int, LIMIT as int);
        }
        a.x as i128 * b.x as i128 + a.y as i128 * b.y as i128 + a.z as i128 * b.z as i128
    }

    pub fn dot(a: &Vec3, b: &Vec3) -> (r: i64)
        requires
            a.wf(),
            b.wf(),
        ensures
            r == a.dot_spec(*b),
            bounded(r as int),
    {
        let d = Vec3::dot_wide(a, b);
        fixed::clamp_wide(fixed::quot_wide(d, SCALE as i128))
    }

    pub fn cross(a: &Vec3, b: &Vec3) -> (r: Vec3)
        requires
            a.wf(),
            b.wf(),
        ensures
            r == a.cross_spec(*b),
            r.wf(),
    {
        proof {
            lemma_mul_bound(a.y as int, b.z as int, LIMIT as int, LIMIT as int);
            lemma_mul_bound(a.z as int, b.y as int, LIMIT as int, LIMIT as int);
            lemma_mul_bound(a.z as int, b.x as int, LIMIT as int, LIMIT as int);
            lemma_mul_bound(a.x as int, b.z as int, LIMIT as int, LIMIT as int);
            lemma_mul_bound(a.x as int, b.y as int, LIMIT as int, LIMIT as int);
            lemma_mul_bound(a.y as int, b.x as int, LIMIT as int, LIMIT as int);
        }
        let s = SCALE as i128;
        let cx = a.y as i128 * b.z as i128 - a.z as i128 * b.y as i128;
        let cy = a.z as i128 * b.x as i128 - a.x as i128 * b.z as i128;
        let cz = a.x as i128 * b.y as i128 - a.y as i128 * b.x as i128;
        Vec3 {
            x: fixed::clamp_wide(fixed::quot_wide(cx, s)),
            y: fixed::clamp_wide(fixed::quot_wide(cy, s)),
            z: fixed::clamp_wide(fixed::quot_wide(cz, s)),
        }
    }

    pub fn length_squared(&self) -> (r: i64)
        requires
            self.wf(),
        ensures
            r == self.dot_spec(*self),
            0 <= r <= LIMIT,
    {
        proof {
            assert(self.dot_exact(*self) >= 0) by (nonlinear_arith);
        }
        Vec3::dot(self, self)
    }

    pub fn length(&self) -> (r: i64)
        requires
            self.wf(),
        ensures
            r == sqrt_spec(self.dot_spec(*self)),
            0 <= r <= LIMIT,
    {
        fixed::sqrt(self.length_squared())
    }

    /// The vector divided by its length; a vector of length zero has no
    /// direction and is returned unchanged.
    pub fn unit_vector(v: &Vec3) -> (r: Vec3)
        requires
            v.wf(),
        ensures
            r.wf(),
            r == v.unit_spec(),
            v.dot_exact(*v) > 0 ==> is_unit(r),
    {
        let d = Vec3::dot_wide(v, v);
        proof {
            lemma_dot_self_nonneg(*v);
        }
        if d == 0 {
            return *v;
        }
        proof {
            lemma_unit_bounds(*v);
        }
        let q: i128 = if d <= FINE_SQ { SCALE as i128 } else { 1 };
        assert(q == unit_q(d as int));
        proof {
            assert(0 <= d * q <= d * q * q) by (nonlinear_arith)
                requires
                    d >= 0,
                    q >= 1,
            ;
        }
        let n = d * q * q;
        let m0 = fixed::isqrt(n as u128);
        proof {
            fixed::lemma_floor_sqrt(m0 as int, n as int);
        }
        let m = m0 as i128;
        proof {
            lemma_mul_bound(v.x as int, q * SCALE, LIMIT as int, 1_000_000_000_000);
            lemma_mul_bound(v.y as int, q * SCALE, LIMIT as int, 1_000_000_000_000);
            lemma_mul_bound(v.z as int, q * SCALE, LIMIT as int, 1_000_000_000_000);
        }
        let s = q * SCALE as i128;
        let x = fixed::quot_wide(v.x as i128 * s, m);
        let y = fixed::quot_wide(v.y as i128 * s, m);
        let z = fixed::quot_wide(v.z as i128 * s, m);
        proof {
            assert(v.x as int * q * SCALE == (v.x as int) * (q * SCALE)) by (nonlinear_arith);
            assert(v.y as int * q * SCALE == (v.y as int) * (q * SCALE)) by (nonlinear_arith);
            assert(v.z as int * q * SCALE == (v.z as int) * (q * SCALE)) by (nonlinear_arith);
        }
        Vec3 { x: x as i64, y: y as i64, z: z as i64 }
    }

    /// Every component is within one raw unit of zero.
    pub fn near_zero(&self) -> (r: bool)
        ensures
            r == (-1 <= self.x <= 1 && -1 <= self.y <= 1 && -1 <= self.z <= 1),
    {
        -1 <= self.x && self.x <= 1 && -1 <= self.y && self.y <= 1 && -1 <= self.z && self.z <= 1
    }

    /// Mirror `v` about the plane with normal `n`.
    pub fn reflect(v: &Vec3, n: &Vec3) -> (r: Vec3)
        requires
            v.wf(),
            n.wf(),
        ensures
            r == v.reflect_spec(*n),
            r.wf(),
    {
        let d = Vec3::dot(v, n);
        v.minus(&n.scale(fixed::add(d, d)))
    }

    /// Refract the unit direction `uv` through a surface with normal `n`,
    /// `eta` being the ratio of the refractive indices.
    pub fn refract(uv: &Vec3, n: &Vec3, eta: i64) -> (r: Vec3)
        requires
            uv.wf(),
            n.wf(),
            bounded(eta as int),
        ensures
            r.wf(),
            ({
                let cos_theta = if uv.neg_spec().dot_spec(*n) <= ONE {
                    uv.neg_spec().dot_spec(*n)
                } else {
                    ONE as int
                };
                let perp = uv.plus_spec(n.scale_spec(cos_theta)).scale_spec(eta as int);
                let k = clamp(ONE - perp.dot_spec(perp));
                let k_abs = if k < 0 { -k } else { k };
                r == perp.plus_spec(n.scale_spec(-sqrt_spec(k_abs)))
            }),
    {
        let cos_theta = fixed::min(Vec3::dot(&uv.negate(), n), ONE);
        let perp = uv.plus(&n.scale(cos_theta)).scale(eta);
        let k = fixed::sub(ONE, perp.length_squared());
        let k_abs = if k < 0 { -k } else { k };
        let s = fixed::sqrt(k_abs);
        perp.plus(&n.scale(-s))
    }
}

} // verus!
