//! Axis-aligned bounding boxes and the slab test.
use vstd::prelude::*;

use crate::fixed::{bounded, SCALE, LIMIT, lemma_mul_bound};
use crate::fixed;
use crate::ray::Ray;
use crate::vec3::{Point3, Vec3, v3};

verus! {

#[derive(Clone, Copy, Debug, PartialEq, Eq, Structural)]
pub struct AABB {
    pub minimum: Point3,
    pub maximum: Point3,
}

/// Numerator of the ray parameter at which the ray enters the slab
/// `[lo, hi]` of one axis; the denominator is `|d|`.
pub open spec fn entry_num(lo: int, hi: int, o: int, d: int) -> int {
    if d > 0 {
        lo - o
    } else {
        o - hi
    }
}

/// Numerator of the ray parameter at which the ray leaves the slab.
pub open spec fn exit_num(lo: int, hi: int, o: int, d: int) -> int {
    if d > 0 {
        hi - o
    } else {
        o - lo
    }
}

pub open spec fn abs(d: int) -> int {
    if d < 0 {
        -d
    } else {
        d
    }
}

/// One axis lets some parameter of the open interval `(tmin, tmax)` through:
/// a ray parallel to the slab passes exactly when its origin lies in it.
pub open spec fn slab_admits(lo: int, hi: int, o: int, d: int, tmin: int, tmax: int) -> bool {
    if d == 0 {
        lo <= o <= hi
    } else {
        &&& entry_num(lo, hi, o, d) < exit_num(lo, hi, o, d)
        &&& entry_num(lo, hi, o, d) * SCALE < tmax * abs(d)
        &&& tmin * abs(d) < exit_num(lo, hi, o, d) * SCALE
    }
}

/// The ray enters the first slab before it leaves the second.
pub open spec fn slabs_overlap(
    lo1: int,
    hi1: int,
    o1: int,
    d1: int,
    lo2: int,
    hi2: int,
    o2: int,
    d2: int,
) -> bool {
    d1 == 0 || d2 == 0 || entry_num(lo1, hi1, o1, d1) * abs(d2) < exit_num(lo2, hi2, o2, d2)
        * abs(d1)
}

impl AABB {
    pub open spec fn wf(self) -> bool {
        &&& self.minimum.wf()
        &&& self.maximum.wf()
        &&& self.minimum.x <= self.maximum.x
        &&& self.minimum.y <= self.maximum.y
        &&& self.minimum.z <= self.maximum.z
    }

    pub open spec fn admits(self, r: Ray, a: int, tmin: int, tmax: int) -> bool {
        slab_admits(
            self.minimum.comp(a),
            self.maximum.comp(a),
            r.orig.comp(a),
            r.dir.comp(a),
            tmin,
            tmax,
        )
    }

    pub open spec fn overlap(self, r: Ray, a: int, b: int) -> bool {
        slabs_overlap(
            self.minimum.comp(a),
            self.maximum.comp(a),
            r.orig.comp(a),
            r.dir.comp(a),
            self.minimum.comp(b),
            self.maximum.comp(b),
            r.orig.comp(b),
            r.dir.comp(b),
        )
    }

    /// Some parameter `t` with `tmin < t < tmax` puts the ray inside all
    /// three slabs: every lower bound on `t` lies below every upper bound.
    pub open spec fn hit_spec(self, r: Ray, tmin: int, tmax: int) -> bool {
        &&& tmin < tmax
        &&& self.admits(r, 0, tmin, tmax)
        &&& self.admits(r, 1, tmin, tmax)
        &&& self.admits(r, 2, tmin, tmax)
        &&& self.overlap(r, 0, 1)
        &&& self.overlap(r, 1, 0)
        &&& self.overlap(r, 0, 2)
        &&& self.overlap(r, 2, 0)
        &&& self.overlap(r, 1, 2)
        &&& self.overlap(r, 2, 1)
    }

    /// The smallest box holding both boxes.
    pub open spec fn surrounding_spec(b0: AABB, b1: AABB) -> AABB {
        AABB {
            minimum: v3(
                min_i(b0.minimum.x as int, b1.minimum.x as int),
                min_i(b0.minimum.y as int, b1.minimum.y as int),
                min_i(b0.minimum.z as int, b1.minimum.z as int),
            ),
            maximum: v3(
                max_i(b0.maximum.x as int, b1.maximum.x as int),
                max_i(b0.maximum.y as int, b1.maximum.y as int),
                max_i(b0.maximum.z as int, b1.maximum.z as int),
            ),
        }
    }

    /// `self` contains the box `o`.
    pub open spec fn encloses(self, o: AABB) -> bool {
        &&& self.minimum.x <= o.minimum.x
        &&& self.minimum.y <= o.minimum.y
        &&& self.minimum.z <= o.minimum.z
        &&& o.maximum.x <= self.maximum.x
        &&& o.maximum.y <= self.maximum.y
        &&& o.maximum.z <= self.maximum.z
    }

    /// Surround box0 and box1 with an AABB.
    pub fn surrounding_box(box0: &AABB, box1: &AABB) -> (r: AABB)
        ensures
            r == AABB::surrounding_spec(*box0, *box1),
            box0.wf() && box1.wf() ==> r.wf(),
    {
        let small = Vec3::new(
            fixed::min(box0.minimum.x, box1.minimum.x),
            fixed::min(box0.minimum.y, box1.minimum.y),
            fixed::min(box0.minimum.z, box1.minimum.z),
        );
        let big = Vec3::new(
            fixed::max(box0.maximum.x, box1.maximum.x),
            fixed::max(box0.maximum.y, box1.maximum.y),
            fixed::max(box0.maximum.z, box1.maximum.z),
        );
        AABB { minimum: small, maximum: big }
    }

    /// The slab test: does the ray pass through the box for some parameter
    /// strictly between `t_min` and `t_max`?  Parameters are compared exactly,
    /// as fractions, so no rounding decides the answer.
    pub fn hit(&self, ray: &Ray, t_min: i64, t_max: i64) -> (r: bool)
        requires
            self.wf(),
            ray.wf(),
            bounded(t_min as int),
            bounded(t_max as int),
        ensures
            r == self.hit_spec(*ray, t_min as int, t_max as int),
    {
        if t_max <= t_min {
            return false;
        }
        let mut a: usize = 0;
        while a < 3
            invariant
                a <= 3,
                self.wf(),
                ray.wf(),
                bounded(t_min as int),
                bounded(t_max as int),
                forall|i: int| 0 <= i < a ==> self.admits(*ray, i, t_min as int, t_max as int),
            decreases 3 - a,
        {
            if !slab_admits_exec(
                self.minimum.index(a),
                self.maximum.index(a),
                ray.orig.index(a),
                ray.dir.index(a),
                t_min,
                t_max,
            ) {
                return false;
            }
            a += 1;
        }
        let mut p: usize = 0;
        while p < 3
            invariant
                p <= 3,
                self.wf(),
                ray.wf(),
                forall|i: int, j: int|
                    0 <= i < p && 0 <= j < 3 && i != j ==> #[trigger] self.overlap(*ray, i, j),
            decreases 3 - p,
        {
            let mut q: usize = 0;
            while q < 3
                invariant
                    p < 3,
                    q <= 3,
                    self.wf(),
                    ray.wf(),
                    forall|i: int, j: int|
                        0 <= i < p && 0 <= j < 3 && i != j ==> #[trigger] self.overlap(*ray, i, j),
                    forall|j: int| 0 <= j < q && p != j ==> #[trigger] self.overlap(*ray, p as int, j),
                decreases 3 - q,
            {
                if p != q && !slabs_overlap_exec(
                    self.minimum.index(p),
                    self.maximum.index(p),
                    ray.orig.index(p),
                    ray.dir.index(p),
                    self.minimum.index(q),
                    self.maximum.index(q),
                    ray.orig.index(q),
                    ray.dir.index(q),
                ) {
                    return false;
                }
                q += 1;
            }
            p += 1;
        }
        assert(self.overlap(*ray, 0, 1));
        assert(self.overlap(*ray, 1, 0));
        assert(self.overlap(*ray, 0, 2));
        assert(self.overlap(*ray, 2, 0));
        assert(self.overlap(*ray, 1, 2));
        assert(self.overlap(*ray, 2, 1));
        true
    }
}

/// Inside a slab, a ray enters at a negative parameter and leaves at a
/// positive one.
proof fn lemma_slab_from_inside(lo: int, hi: int, o: int, d: int, tmin: int, tmax: int)
    requires
        lo < o < hi,
        tmin <= 0 < tmax,
    ensures
        slab_admits(lo, hi, o, d, tmin, tmax),
        d != 0 ==> entry_num(lo, hi, o, d) < 0 < exit_num(lo, hi, o, d),
{
    if d != 0 {
        let en = entry_num(lo, hi, o, d);
        let ex = exit_num(lo, hi, o, d);
        let ad = abs(d);
        assert(en * SCALE < 0) by (nonlinear_arith)
            requires
                en < 0,
        ;
        assert(0 < tmax * ad) by (nonlinear_arith)
            requires
                tmax > 0,
                ad > 0,
        ;
        assert(tmin * ad <= 0) by (nonlinear_arith)
            requires
                tmin <= 0,
                ad > 0,
        ;
        assert(0 < ex * SCALE) by (nonlinear_arith)
            requires
                ex > 0,
        ;
    }
}

proof fn lemma_overlap_from_inside(
    lo1: int,
    hi1: int,
    o1: int,
    d1: int,
    lo2: int,
    hi2: int,
    o2: int,
    d2: int,
)
    requires
        lo1 < o1 < hi1,
        lo2 < o2 < hi2,
    ensures
        slabs_overlap(lo1, hi1, o1, d1, lo2, hi2, o2, d2),
{
    if d1 != 0 && d2 != 0 {
        let en = entry_num(lo1, hi1, o1, d1);
        let ex = exit_num(lo2, hi2, o2, d2);
        let a1 = abs(d1);
        let a2 = abs(d2);
        assert(en * a2 < 0) by (nonlinear_arith)
            requires
                en < 0,
                a2 > 0,
        ;
        assert(0 < ex * a1) by (nonlinear_arith)
            requires
                ex > 0,
                a1 > 0,
        ;
    }
}

/// The origin lies strictly inside the box on every axis.
pub open spec fn strictly_inside(b: AABB, p: Point3) -> bool {
    &&& b.minimum.x < p.x < b.maximum.x
    &&& b.minimum.y < p.y < b.maximum.y
    &&& b.minimum.z < p.z < b.maximum.z
}

/// A box is hit by every ray whose origin lies strictly inside it, whatever
/// the ray's direction, over any parameter interval that holds the origin's
/// own parameter 0.
pub proof fn lemma_hit_from_inside(b: AABB, r: Ray, tmin: int, tmax: int)
    requires
        b.wf(),
        r.wf(),
        strictly_inside(b, r.orig),
        tmin <= 0 < tmax,
    ensures
        b.hit_spec(r, tmin, tmax),
{
    lemma_slab_from_inside(b.minimum.x as int, b.maximum.x as int, r.orig.x as int, r.dir.x as int, tmin, tmax);
    lemma_slab_from_inside(b.minimum.y as int, b.maximum.y as int, r.orig.y as int, r.dir.y as int, tmin, tmax);
    lemma_slab_from_inside(b.minimum.z as int, b.maximum.z as int, r.orig.z as int, r.dir.z as int, tmin, tmax);
    assert forall|i: int, j: int| 0 <= i < 3 && 0 <= j < 3 implies #[trigger] b.overlap(r, i, j) by {
        lemma_overlap_from_inside(
            b.minimum.comp(i),
            b.maximum.comp(i),
            r.orig.comp(i),
            r.dir.comp(i),
            b.minimum.comp(j),
            b.maximum.comp(j),
            r.orig.comp(j),
            r.dir.comp(j),
        );
    }
}

/// `v` with component `a` replaced by `x`.
pub open spec fn with_comp(v: Vec3, a: int, x: int) -> Vec3 {
    v3(
        if a == 0 { x } else { v.x as int },
        if a == 1 { x } else { v.y as int },
        if a == 2 { x } else { v.z as int },
    )
}

/// The box reflected in the plane through the origin across axis `a`.
pub open spec fn mirror_box(b: AABB, a: int) -> AABB {
    AABB {
        minimum: with_comp(b.minimum, a, -b.maximum.comp(a)),
        maximum: with_comp(b.maximum, a, -b.minimum.comp(a)),
    }
}

/// The ray reflected in the plane through the origin across axis `a`.
pub open spec fn mirror_ray(r: Ray, a: int) -> Ray {
    Ray {
        orig: with_comp(r.orig, a, -r.orig.comp(a)),
        dir: with_comp(r.dir, a, -r.dir.comp(a)),
        time: r.time,
    }
}

/// The axis that takes the place of axis `i` when axes `a` and `b` swap.
pub open spec fn swapped(a: int, b: int, i: int) -> int {
    if i == a {
        b
    } else if i == b {
        a
    } else {
        i
    }
}

pub open spec fn swap_vec(v: Vec3, a: int, b: int) -> Vec3 {
    v3(v.comp(swapped(a, b, 0)), v.comp(swapped(a, b, 1)), v.comp(swapped(a, b, 2)))
}

pub open spec fn swap_box(bx: AABB, a: int, b: int) -> AABB {
    AABB { minimum: swap_vec(bx.minimum, a, b), maximum: swap_vec(bx.maximum, a, b) }
}

pub open spec fn swap_ray(r: Ray, a: int, b: int) -> Ray {
    Ray { orig: swap_vec(r.orig, a, b), dir: swap_vec(r.dir, a, b), time: r.time }
}

proof fn lemma_mirror_slab(lo: int, hi: int, o: int, d: int)
    ensures
        d != 0 ==> entry_num(-hi, -lo, -o, -d) == entry_num(lo, hi, o, d),
        d != 0 ==> exit_num(-hi, -lo, -o, -d) == exit_num(lo, hi, o, d),
        abs(-d) == abs(d),
        (-d == 0) == (d == 0),
        (-hi <= -o <= -lo) == (lo <= o <= hi),
{
}

/// The slab test does not change when box and ray are both reflected across
/// one axis.
pub proof fn lemma_hit_mirror(b: AABB, r: Ray, a: int, tmin: int, tmax: int)
    requires
        b.wf(),
        r.wf(),
        0 <= a < 3,
    ensures
        mirror_box(b, a).hit_spec(mirror_ray(r, a), tmin, tmax) == b.hit_spec(r, tmin, tmax),
{
    let b2 = mirror_box(b, a);
    let r2 = mirror_ray(r, a);
    lemma_mirror_slab(b.minimum.comp(a), b.maximum.comp(a), r.orig.comp(a), r.dir.comp(a));
    assert forall|i: int| 0 <= i < 3 implies {
        &&& #[trigger] b2.minimum.comp(i) == (if i == a { -b.maximum.comp(a) } else { b.minimum.comp(i) })
        &&& b2.maximum.comp(i) == (if i == a { -b.minimum.comp(a) } else { b.maximum.comp(i) })
        &&& r2.orig.comp(i) == (if i == a { -r.orig.comp(a) } else { r.orig.comp(i) })
        &&& r2.dir.comp(i) == (if i == a { -r.dir.comp(a) } else { r.dir.comp(i) })
    } by {}
    assert forall|i: int| 0 <= i < 3 implies #[trigger] b2.admits(r2, i, tmin, tmax) == b.admits(r, i, tmin, tmax) by {
        assert(b2.minimum.comp(i) == (if i == a { -b.maximum.comp(a) } else { b.minimum.comp(i) }));
    }
    assert forall|i: int, j: int| 0 <= i < 3 && 0 <= j < 3 implies #[trigger] b2.overlap(r2, i, j) == b.overlap(r, i, j) by {
        assert(b2.minimum.comp(i) == (if i == a { -b.maximum.comp(a) } else { b.minimum.comp(i) }));
        assert(b2.minimum.comp(j) == (if j == a { -b.maximum.comp(a) } else { b.minimum.comp(j) }));
    }
}

/// The slab test does not change when the same two axes are swapped in the
/// box and in the ray.
pub proof fn lemma_hit_swap(bx: AABB, r: Ray, a: int, b: int, tmin: int, tmax: int)
    requires
        bx.wf(),
        r.wf(),
        0 <= a < 3,
        0 <= b < 3,
    ensures
        swap_box(bx, a, b).hit_spec(swap_ray(r, a, b), tmin, tmax) == bx.hit_spec(r, tmin, tmax),
{
    let b2 = swap_box(bx, a, b);
    let r2 = swap_ray(r, a, b);
    assert forall|i: int| 0 <= i < 3 implies {
        &&& #[trigger] b2.minimum.comp(i) == bx.minimum.comp(swapped(a, b, i))
        &&& b2.maximum.comp(i) == bx.maximum.comp(swapped(a, b, i))
        &&& r2.orig.comp(i) == r.orig.comp(swapped(a, b, i))
        &&& r2.dir.comp(i) == r.dir.comp(swapped(a, b, i))
    } by {}
    assert forall|i: int| 0 <= i < 3 implies #[trigger] b2.admits(r2, i, tmin, tmax) == bx.admits(
        r,
        swapped(a, b, i),
        tmin,
        tmax,
    ) by {
        assert(b2.minimum.comp(i) == bx.minimum.comp(swapped(a, b, i)));
    }
    assert forall|i: int, j: int| 0 <= i < 3 && 0 <= j < 3 implies #[trigger] b2.overlap(r2, i, j)
        == bx.overlap(r, swapped(a, b, i), swapped(a, b, j)) by {
        assert(b2.minimum.comp(i) == bx.minimum.comp(swapped(a, b, i)));
        assert(b2.minimum.comp(j) == bx.minimum.comp(swapped(a, b, j)));
    }
    assert(b2.admits(r2, 0, tmin, tmax) == bx.admits(r, swapped(a, b, 0), tmin, tmax));
    assert(b2.admits(r2, 1, tmin, tmax) == bx.admits(r, swapped(a, b, 1), tmin, tmax));
    assert(b2.admits(r2, 2, tmin, tmax) == bx.admits(r, swapped(a, b, 2), tmin, tmax));
    assert(b2.overlap(r2, 0, 1) == bx.overlap(r, swapped(a, b, 0), swapped(a, b, 1)));
    assert(b2.overlap(r2, 1, 0) == bx.overlap(r, swapped(a, b, 1), swapped(a, b, 0)));
    assert(b2.overlap(r2, 0, 2) == bx.overlap(r, swapped(a, b, 0), swapped(a, b, 2)));
    assert(b2.overlap(r2, 2, 0) == bx.overlap(r, swapped(a, b, 2), swapped(a, b, 0)));
    assert(b2.overlap(r2, 1, 2) == bx.overlap(r, swapped(a, b, 1), swapped(a, b, 2)));
    assert(b2.overlap(r2, 2, 1) == bx.overlap(r, swapped(a, b, 2), swapped(a, b, 1)));
}

/// Surrounding is commutative.
pub proof fn lemma_surrounding_commutative(b0: AABB, b1: AABB)
    ensures
        AABB::surrounding_spec(b0, b1) == AABB::surrounding_spec(b1, b0),
{
}

/// Surrounding is associative.
pub proof fn lemma_surrounding_associative(b0: AABB, b1: AABB, b2: AABB)
    ensures
        AABB::surrounding_spec(AABB::surrounding_spec(b0, b1), b2) == AABB::surrounding_spec(
            b0,
            AABB::surrounding_spec(b1, b2),
        ),
{
}

/// The surrounding box holds both boxes.
pub proof fn lemma_surrounding_encloses(b0: AABB, b1: AABB)
    requires
        b0.wf(),
        b1.wf(),
    ensures
        AABB::surrounding_spec(b0, b1).encloses(b0),
        AABB::surrounding_spec(b0, b1).encloses(b1),
{
}

pub open spec fn min_i(a: int, b: int) -> int {
    if a <= b {
        a
    } else {
        b
    }
}

pub open spec fn max_i(a: int, b: int) -> int {
    if a >= b {
        a
    } else {
        b
    }
}

fn slab_admits_exec(lo: i64, hi: i64, o: i64, d: i64, tmin: i64, tmax: i64) -> (r: bool)
    requires
        bounded(lo as int),
        bounded(hi as int),
        bounded(o as int),
        bounded(d as int),
        bounded(tmin as int),
        bounded(tmax as int),
    ensures
        r == slab_admits(lo as int, hi as int, o as int, d as int, tmin as int, tmax as int),
{
    if d == 0 {
        return lo <= o && o <= hi;
    }
    let en: i128 = if d > 0 { lo as i128 - o as i128 } else { o as i128 - hi as i128 };
    let ex: i128 = if d > 0 { hi as i128 - o as i128 } else { o as i128 - lo as i128 };
    let den: i128 = if d < 0 { -(d as i128) } else { d as i128 };
    proof {
        lemma_mul_bound(en as int, SCALE as int, 2 * LIMIT, SCALE as int);
        lemma_mul_bound(ex as int, SCALE as int, 2 * LIMIT, SCALE as int);
        lemma_mul_bound(tmax as int, den as int, LIMIT as int, LIMIT as int);
        lemma_mul_bound(tmin as int, den as int, LIMIT as int, LIMIT as int);
    }
    en < ex && en * (SCALE as i128) < tmax as i128 * den && (tmin as i128) * den < ex * (
    SCALE as i128)
}

fn slabs_overlap_exec(
    lo1: i64,
    hi1: i64,
    o1: i64,
    d1: i64,
    lo2: i64,
    hi2: i64,
    o2: i64,
    d2: i64,
) -> (r: bool)
    requires
        bounded(lo1 as int),
        bounded(hi1 as int),
        bounded(o1 as int),
        bounded(d1 as int),
        bounded(lo2 as int),
        bounded(hi2 as int),
        bounded(o2 as int),
        bounded(d2 as int),
    ensures
        r == slabs_overlap(
            lo1 as int,
            hi1 as int,
            o1 as int,
            d1 as int,
            lo2 as int,
            hi2 as int,
            o2 as int,
            d2 as int,
        ),
{
    if d1 == 0 || d2 == 0 {
        return true;
    }
    let en: i128 = if d1 > 0 { lo1 as i128 - o1 as i128 } else { o1 as i128 - hi1 as i128 };
    let ex: i128 = if d2 > 0 { hi2 as i128 - o2 as i128 } else { o2 as i128 - lo2 as i128 };
    let den1: i128 = if d1 < 0 { -(d1 as i128) } else { d1 as i128 };
    let den2: i128 = if d2 < 0 { -(d2 as i128) } else { d2 as i128 };
    proof {
        lemma_mul_bound(en as int, den2 as int, 2 * LIMIT, LIMIT as int);
        lemma_mul_bound(ex as int, den1 as int, 2 * LIMIT, LIMIT as int);
    }
    en * den2 < ex * den1
}

} // verus!
