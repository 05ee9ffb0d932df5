//! Scene primitives, the bounding volume hierarchy node, and ray hits.
use vstd::prelude::*;

use crate::aabb::AABB;
use crate::fixed::{bounded, clamp, quot, mul_spec, floor_sqrt, SCALE, LIMIT, lemma_mul_bound};
use crate::fixed;
use crate::material::Material;
use crate::ray::Ray;
use crate::vec3::{Point3, Vec3, v3};

verus! {

/// Where a ray met a surface.
#[derive(Clone, Copy, Debug, PartialEq, Eq, Structural)]
pub struct HitRecord {
    /// The point where the ray hit.
    pub p: Point3,
    /// Unit normal, turned to face the incoming ray.
    pub normal: Vec3,
    /// Ray parameter of the hit.
    pub t: i64,
    /// The ray hit the outer side of the surface.
    pub front_face: bool,
    pub material: Material,
}

impl HitRecord {
    pub open spec fn wf(self) -> bool {
        self.p.wf() && self.normal.wf() && bounded(self.t as int) && self.material.wf()
    }
}

#[derive(Clone, Copy, Debug, PartialEq, Eq, Structural)]
pub struct Sphere {
    pub center: Point3,
    pub radius: i64,
    pub material: Material,
}

/// A sphere whose center moves linearly from `center0` at `time0` to
/// `center1` at `time1`.
#[derive(Clone, Copy, Debug, PartialEq, Eq, Structural)]
pub struct MovingSphere {
    pub center0: Point3,
    pub center1: Point3,
    pub time0: i64,
    pub time1: i64,
    pub radius: i64,
    pub material: Material,
}

/// A node of the bounding volume hierarchy: two subtrees and the box that
/// holds them both.
#[derive(Debug)]
pub struct BVHNode {
    pub left: Box<Hittable>,
    pub right: Box<Hittable>,
    pub aabb_box: AABB,
}

#[derive(Debug)]
pub enum Hittable {
    Sphere(Sphere),
    MovingSphere(MovingSphere),
    BVHNode(BVHNode),
}

/// `half_b` of the quadratic for a ray against a sphere centred at `c`.
pub open spec fn half_b_of(c: Point3, r: Ray) -> int {
    r.orig.minus_spec(c).dot_spec(r.dir)
}

/// `c` of the quadratic: squared distance of the origin from the centre
/// minus the squared radius.
pub open spec fn c_of(c: Point3, radius: int, r: Ray) -> int {
    let oc = r.orig.minus_spec(c);
    clamp(oc.dot_spec(oc) - mul_spec(radius, radius))
}

/// Discriminant `half_b^2 - a c`, exact, in raw units squared.
pub open spec fn disc_of(c: Point3, radius: int, r: Ray) -> int {
    let hb = half_b_of(c, r);
    hb * hb - r.dir.dot_spec(r.dir) * c_of(c, radius, r)
}

/// The smaller (`sign == -1`) or larger (`sign == 1`) root of the quadratic.
pub open spec fn root_of(c: Point3, radius: int, r: Ray, sign: int) -> int {
    clamp(
        quot(
            (-half_b_of(c, r) + sign * floor_sqrt(disc_of(c, radius, r))) * SCALE,
            r.dir.dot_spec(r.dir),
        ),
    )
}

/// The outward normal at `p`: `(p - c) / radius`.
pub open spec fn outward_normal(c: Point3, radius: int, p: Point3) -> Vec3 {
    p.minus_spec(c).div_spec(radius)
}

/// The record of a hit at parameter `t`, its normal turned against the ray.
pub open spec fn record_at(c: Point3, radius: int, m: Material, r: Ray, t: int) -> HitRecord {
    let p = r.at_spec(t);
    let n = outward_normal(c, radius, p);
    let front = r.dir.dot_exact(n) < 0;
    HitRecord { p, normal: if front { n } else { n.neg_spec() }, t: t as i64, front_face: front, material: m }
}

/// Nearest intersection of a ray with a sphere within `[tmin, tmax]`: the
/// smaller root if it lies in range, else the larger one.  A ray with a
/// zero direction meets nothing.
pub open spec fn sphere_hit_spec(
    c: Point3,
    radius: int,
    m: Material,
    r: Ray,
    tmin: int,
    tmax: int,
) -> Option<HitRecord> {
    if r.dir.dot_spec(r.dir) == 0 || disc_of(c, radius, r) < 0 {
        None
    } else {
        let t1 = root_of(c, radius, r, -1);
        let t2 = root_of(c, radius, r, 1);
        if tmin <= t1 <= tmax {
            Some(record_at(c, radius, m, r, t1))
        } else if tmin <= t2 <= tmax {
            Some(record_at(c, radius, m, r, t2))
        } else {
            None
        }
    }
}

/// The box of a sphere of the given radius around `c`.
pub open spec fn sphere_box(c: Point3, radius: int) -> AABB {
    AABB {
        minimum: v3(clamp(c.x - radius), clamp(c.y - radius), clamp(c.z - radius)),
        maximum: v3(clamp(c.x + radius), clamp(c.y + radius), clamp(c.z + radius)),
    }
}

/// What every reported hit satisfies: its parameter lies in the interval
/// and its normal does not face along the ray.
pub open spec fn hit_is_sound(h: Option<HitRecord>, r: Ray, tmin: int, tmax: int) -> bool {
    match h {
        Some(rec) => {
            &&& tmin <= rec.t <= tmax
            &&& r.dir.dot_exact(rec.normal) <= 0
            &&& rec.wf()
        },
        None => true,
    }
}

impl Clone for Hittable {
    fn clone(&self) -> (r: Self)
        ensures
            r == *self,
        decreases self,
    {
        match self {
            Hittable::Sphere(s) => Hittable::Sphere(*s),
            Hittable::MovingSphere(m) => Hittable::MovingSphere(*m),
            Hittable::BVHNode(n) => Hittable::BVHNode(
                BVHNode {
                    left: Box::new((*n.left).clone()),
                    right: Box::new((*n.right).clone()),
                    aabb_box: n.aabb_box,
                },
            ),
        }
    }
}

impl Clone for BVHNode {
    fn clone(&self) -> (r: Self)
        ensures
            r == *self,
    {
        BVHNode {
            left: Box::new((*self.left).clone()),
            right: Box::new((*self.right).clone()),
            aabb_box: self.aabb_box,
        }
    }
}

fn hit_sphere(
    center: &Point3,
    radius: i64,
    material: Material,
    r: &Ray,
    t_min: i64,
    t_max: i64,
) -> (res: Option<HitRecord>)
    requires
        center.wf(),
        0 < radius <= LIMIT,
        material.wf(),
        r.wf(),
        bounded(t_min as int),
        bounded(t_max as int),
    ensures
        res == sphere_hit_spec(*center, radius as int, material, *r, t_min as int, t_max as int),
        hit_is_sound(res, *r, t_min as int, t_max as int),
{
    let oc = r.orig.minus(center);
    let a = r.dir.length_squared();
    let half_b = Vec3::dot(&oc, &r.dir);
    let c = fixed::sub(oc.length_squared(), fixed::mul(radius, radius));
    proof {
        lemma_mul_bound(half_b as int, half_b as int, LIMIT as int, LIMIT as int);
        lemma_mul_bound(a as int, c as int, LIMIT as int, LIMIT as int);
    }
    let disc: i128 = half_b as i128 * half_b as i128 - a as i128 * c as i128;
    if a == 0 || disc < 0 {
        return None;
    }
    let sq = fixed::isqrt(disc as u128);
    assert(sq <= 2_000_000_000_000_000) by (nonlinear_arith)
        requires
            sq * sq <= disc,
            disc <= 2_000_000_000_000_000_000_000_000_000_000u128,
    ;
    proof {
        fixed::lemma_floor_sqrt(sq as int, disc as int);
    }
    let sq = sq as i128;
    let s = SCALE as i128;
    let mut root = fixed::clamp_wide(fixed::quot_wide((-(half_b as i128) - sq) * s, a as i128));
    if root < t_min || t_max < root {
        root = fixed::clamp_wide(fixed::quot_wide((-(half_b as i128) + sq) * s, a as i128));
        if root < t_min || t_max < root {
            return None;
        }
    }
    let p = r.at(root);
    let outward = p.minus(center).div(radius);
    let front_face = Vec3::dot_wide(&r.dir, &outward) < 0;
    let normal = if front_face {
        outward
    } else {
        outward.negate()
    };
    proof {
        crate::vec3::lemma_dot_neg(r.dir, outward);
    }
    Some(HitRecord { p, normal, t: root, front_face, material })
}

fn sphere_bounds(center: &Point3, radius: i64) -> (b: AABB)
    requires
        center.wf(),
        0 < radius <= LIMIT,
    ensures
        b == sphere_box(*center, radius as int),
        b.wf(),
{
    let rv = Vec3::new(radius, radius, radius);
    AABB { minimum: center.minus(&rv), maximum: center.plus(&rv) }
}

impl Sphere {
    pub open spec fn wf(self) -> bool {
        self.center.wf() && 0 < self.radius <= LIMIT && self.material.wf()
    }

    pub fn hit(&self, r: &Ray, t_min: i64, t_max: i64) -> (res: Option<HitRecord>)
        requires
            self.wf(),
            r.wf(),
            bounded(t_min as int),
            bounded(t_max as int),
        ensures
            res == sphere_hit_spec(
                self.center,
                self.radius as int,
                self.material,
                *r,
                t_min as int,
                t_max as int,
            ),
            hit_is_sound(res, *r, t_min as int, t_max as int),
            res is Some ==> res.unwrap().material == self.material,
    {
        hit_sphere(&self.center, self.radius, self.material, r, t_min, t_max)
    }

    pub fn bounding_box(&self, time0: i64, time1: i64) -> (b: Option<AABB>)
        requires
            self.wf(),
        ensures
            b == Some(sphere_box(self.center, self.radius as int)),
            b.unwrap().wf(),
    {
        Some(sphere_bounds(&self.center, self.radius))
    }
}

impl MovingSphere {
    pub open spec fn wf(self) -> bool {
        &&& self.center0.wf()
        &&& self.center1.wf()
        &&& bounded(self.time0 as int)
        &&& bounded(self.time1 as int)
        &&& self.time0 < self.time1
        &&& 0 < self.radius <= LIMIT
        &&& self.material.wf()
    }

    /// The centre at `time`: `center0 + (time - time0) / (time1 - time0) (center1 - center0)`,
    /// not clamped to the interval.
    pub open spec fn center_spec(self, time: int) -> Point3 {
        let frac = fixed::div_spec(clamp(time - self.time0), clamp(self.time1 - self.time0));
        self.center0.plus_spec(self.center1.minus_spec(self.center0).scale_spec(frac))
    }

    pub fn center(&self, time: i64) -> (c: Point3)
        requires
            self.wf(),
            bounded(time as int),
        ensures
            c == self.center_spec(time as int),
            c.wf(),
    {
        let frac = fixed::div(fixed::sub(time, self.time0), fixed::sub(self.time1, self.time0));
        self.center0.plus(&self.center1.minus(&self.center0).scale(frac))
    }

    pub fn hit(&self, r: &Ray, t_min: i64, t_max: i64) -> (res: Option<HitRecord>)
        requires
            self.wf(),
            r.wf(),
            bounded(t_min as int),
            bounded(t_max as int),
        ensures
            res == sphere_hit_spec(
                self.center_spec(r.time as int),
                self.radius as int,
                self.material,
                *r,
                t_min as int,
                t_max as int,
            ),
            hit_is_sound(res, *r, t_min as int, t_max as int),
            res is Some ==> res.unwrap().material == self.material,
    {
        let c = self.center(r.time);
        hit_sphere(&c, self.radius, self.material, r, t_min, t_max)
    }

    /// The union of the boxes at the two ends of the time interval.
    pub fn bounding_box(&self, time0: i64, time1: i64) -> (b: Option<AABB>)
        requires
            self.wf(),
            bounded(time0 as int),
            bounded(time1 as int),
        ensures
            b == Some(
                AABB::surrounding_spec(
                    sphere_box(self.center_spec(time0 as int), self.radius as int),
                    sphere_box(self.center_spec(time1 as int), self.radius as int),
                ),
            ),
            b.unwrap().wf(),
    {
        let box0 = sphere_bounds(&self.center(time0), self.radius);
        let box1 = sphere_bounds(&self.center(time1), self.radius);
        Some(AABB::surrounding_box(&box0, &box1))
    }
}

} // verus!

verus! {

/// `h` holds a primitive made of material `m`.
pub open spec fn carries(h: Hittable, m: Material) -> bool
    decreases h,
{
    match h {
        Hittable::Sphere(s) => s.material == m,
        Hittable::MovingSphere(ms) => ms.material == m,
        Hittable::BVHNode(n) => carries(*n.left, m) || carries(*n.right, m),
    }
}

/// The parameter of a hit, or `tmax` when there is none.
pub open spec fn closest_t(h: Option<HitRecord>, tmax: int) -> int {
    match h {
        Some(rec) => rec.t as int,
        None => tmax,
    }
}

impl Hittable {
    pub open spec fn wf(self) -> bool
        decreases self,
    {
        match self {
            Hittable::Sphere(s) => s.wf(),
            Hittable::MovingSphere(m) => m.wf(),
            Hittable::BVHNode(n) => n.aabb_box.wf() && n.left.wf() && n.right.wf(),
        }
    }

    /// The hit reported for a ray within `[tmin, tmax]`.  A node prunes on
    /// its box, probes the left subtree, then the right one over the
    /// interval cut down to the left hit, and prefers the right result.
    pub open spec fn hit_spec(self, r: Ray, tmin: int, tmax: int) -> Option<HitRecord>
        decreases self,
    {
        match self {
            Hittable::Sphere(s) => sphere_hit_spec(
                s.center,
                s.radius as int,
                s.material,
                r,
                tmin,
                tmax,
            ),
            Hittable::MovingSphere(m) => sphere_hit_spec(
                m.center_spec(r.time as int),
                m.radius as int,
                m.material,
                r,
                tmin,
                tmax,
            ),
            Hittable::BVHNode(n) => {
                if !n.aabb_box.hit_spec(r, tmin, tmax) {
                    None
                } else {
                    let left = n.left.hit_spec(r, tmin, tmax);
                    let right = n.right.hit_spec(r, tmin, closest_t(left, tmax));
                    if right is Some {
                        right
                    } else {
                        left
                    }
                }
            },
        }
    }

    /// The box reported for the time interval `[time0, time1]`.
    pub open spec fn bbox_spec(self, time0: int, time1: int) -> AABB {
        match self {
            Hittable::Sphere(s) => sphere_box(s.center, s.radius as int),
            Hittable::MovingSphere(m) => AABB::surrounding_spec(
                sphere_box(m.center_spec(time0), m.radius as int),
                sphere_box(m.center_spec(time1), m.radius as int),
            ),
            Hittable::BVHNode(n) => n.aabb_box,
        }
    }

    pub fn hit(&self, r: &Ray, t_min: i64, t_max: i64) -> (res: Option<HitRecord>)
        requires
            self.wf(),
            r.wf(),
            bounded(t_min as int),
            bounded(t_max as int),
        ensures
            res == self.hit_spec(*r, t_min as int, t_max as int),
            hit_is_sound(res, *r, t_min as int, t_max as int),
            res is Some ==> carries(*self, res.unwrap().material),
        decreases self,
    {
        match self {
            Hittable::Sphere(s) => s.hit(r, t_min, t_max),
            Hittable::MovingSphere(m) => m.hit(r, t_min, t_max),
            Hittable::BVHNode(n) => {
                if !n.aabb_box.hit(r, t_min, t_max) {
                    return None;
                }
                let hit_left = n.left.hit(r, t_min, t_max);
                let right_max = match hit_left {
                    Some(rec) => rec.t,
                    None => t_max,
                };
                let hit_right = n.right.hit(r, t_min, right_max);
                if hit_right.is_some() {
                    hit_right
                } else {
                    hit_left
                }
            },
        }
    }

    pub fn bounding_box(&self, time0: i64, time1: i64) -> (b: Option<AABB>)
        requires
            self.wf(),
            bounded(time0 as int),
            bounded(time1 as int),
        ensures
            b == Some(self.bbox_spec(time0 as int, time1 as int)),
            b.unwrap().wf(),
    {
        match self {
            Hittable::Sphere(s) => s.bounding_box(time0, time1),
            Hittable::MovingSphere(m) => m.bounding_box(time0, time1),
            Hittable::BVHNode(n) => n.bounding_box(time0, time1),
        }
    }
}

impl BVHNode {
    pub open spec fn wf(self) -> bool {
        Hittable::BVHNode(self).wf()
    }

    pub fn hit(&self, r: &Ray, t_min: i64, t_max: i64) -> (res: Option<HitRecord>)
        requires
            self.wf(),
            r.wf(),
            bounded(t_min as int),
            bounded(t_max as int),
        ensures
            res == Hittable::BVHNode(*self).hit_spec(*r, t_min as int, t_max as int),
            hit_is_sound(res, *r, t_min as int, t_max as int),
            res is Some ==> carries(Hittable::BVHNode(*self), res.unwrap().material),
    {
        if !self.aabb_box.hit(r, t_min, t_max) {
            return None;
        }
        let hit_left = self.left.hit(r, t_min, t_max);
        let right_max = match hit_left {
            Some(rec) => rec.t,
            None => t_max,
        };
        let hit_right = self.right.hit(r, t_min, right_max);
        if hit_right.is_some() {
            hit_right
        } else {
            hit_left
        }
    }

    pub fn bounding_box(&self, time0: i64, time1: i64) -> (b: Option<AABB>)
        requires
            self.wf(),
        ensures
            b == Some(self.aabb_box),
            b.unwrap().wf(),
    {
        Some(self.aabb_box)
    }
}

/// The nearest hit over a list, testing each object in turn over the
/// interval cut down to the closest hit found so far; on a tie the later
/// object wins.
pub open spec fn scan_hit(s: Seq<Hittable>, r: Ray, tmin: int, tmax: int) -> Option<HitRecord>
    decreases s.len(),
{
    if s.len() == 0 {
        None
    } else {
        let prev = scan_hit(s.drop_last(), r, tmin, tmax);
        match s.last().hit_spec(r, tmin, closest_t(prev, tmax)) {
            Some(rec) => Some(rec),
            None => prev,
        }
    }
}

pub open spec fn all_wf(s: Seq<Hittable>) -> bool {
    forall|i: int| 0 <= i < s.len() ==> #[trigger] s[i].wf()
}

/// The nearest hit of the ray over all the objects of the list.
pub fn hit_list(hittables: &Vec<Hittable>, r: &Ray, t_min: i64, t_max: i64) -> (res: Option<
    HitRecord,
>)
    requires
        all_wf(hittables@),
        r.wf(),
        bounded(t_min as int),
        bounded(t_max as int),
    ensures
        res == scan_hit(hittables@, *r, t_min as int, t_max as int),
        hit_is_sound(res, *r, t_min as int, t_max as int),
        res is Some ==> exists|k: int|
            0 <= k < hittables@.len() && #[trigger] carries(hittables@[k], res.unwrap().material),
{
    let mut hit_rec: Option<HitRecord> = None;
    let mut closest_so_far = t_max;
    let mut i: usize = 0;
    while i < hittables.len()
        invariant
            i <= hittables@.len(),
            all_wf(hittables@),
            r.wf(),
            bounded(t_min as int),
            bounded(t_max as int),
            hit_rec == scan_hit(hittables@.take(i as int), *r, t_min as int, t_max as int),
            closest_so_far == closest_t(hit_rec, t_max as int),
            hit_is_sound(hit_rec, *r, t_min as int, t_max as int),
            hit_rec is Some ==> exists|k: int|
                0 <= k < i && #[trigger] carries(hittables@[k], hit_rec.unwrap().material),
        decreases hittables@.len() - i,
    {
        assert(hittables@.take(i + 1).drop_last() == hittables@.take(i as int));
        assert(hittables@.take(i + 1).last() == hittables@[i as int]);
        match hittables[i].hit(r, t_min, closest_so_far) {
            Some(rec) => {
                closest_so_far = rec.t;
                hit_rec = Some(rec);
            },
            None => {},
        }
        i += 1;
    }
    assert(hittables@.take(i as int) == hittables@);
    hit_rec
}

} // verus!

verus! {

proof fn lemma_grid_square(k: int)
    requires
        -1_000_000 <= k <= 1_000_000,
    ensures
        (1000 * k) * (1000 * k) == SCALE * (k * k),
        quot((1000 * k) * (1000 * k), SCALE as int) == k * k,
        0 <= k * k <= 1_000_000_000_000,
{
    assert((1000 * k) * (1000 * k) == 1_000_000 * (k * k)) by (nonlinear_arith);
    assert(0 <= k * k <= 1_000_000_000_000) by (nonlinear_arith)
        requires
            -1_000_000 <= k <= 1_000_000,
    ;
    assert((1_000_000 * (k * k)) / 1_000_000 == k * k) by (nonlinear_arith);
}

/// Fired along the x axis straight at a sphere's centre from a distance
/// `d`, a ray meets the sphere at `t = d - radius`, where it hits the front
/// face.  (Stated for lengths on the 0.001 grid, on which the fixed-point
/// arithmetic involved is exact.)
pub proof fn lemma_sphere_head_on(
    c: Point3,
    radius: int,
    m: Material,
    r: Ray,
    kd: int,
    kr: int,
    tmin: int,
    tmax: int,
)
    requires
        r.wf(),
        c.wf(),
        r.dir == v3(SCALE as int, 0, 0),
        radius == 1000 * kr,
        c == v3(r.orig.x + 1000 * kd, r.orig.y as int, r.orig.z as int),
        0 < kr < kd <= 1_000_000,
        tmin <= 1000 * (kd - kr) <= tmax,
    ensures
        sphere_hit_spec(c, radius, m, r, tmin, tmax) == Some(
            record_at(c, radius, m, r, 1000 * (kd - kr)),
        ),
{
    let d = 1000 * kd;
    let oc = r.orig.minus_spec(c);
    assert(oc == v3(-d, 0, 0));
    lemma_grid_square(kd);
    lemma_grid_square(kr);
    assert(r.dir.dot_exact(r.dir) == SCALE * SCALE);
    assert(r.dir.dot_spec(r.dir) == SCALE);
    assert(oc.dot_exact(r.dir) == -d * SCALE);
    assert(half_b_of(c, r) == -d);
    assert(oc.x == -d && oc.y == 0 && oc.z == 0);
    assert((-d) * (-d) == d * d) by (nonlinear_arith);
    assert(oc.dot_exact(oc) == d * d);
    assert(mul_spec(radius, radius) == kr * kr);
    assert(c_of(c, radius, r) == kd * kd - kr * kr);
    assert(disc_of(c, radius, r) == radius * radius) by (nonlinear_arith)
        requires
            disc_of(c, radius, r) == (-d) * (-d) - SCALE * (kd * kd - kr * kr),
            d == 1000 * kd,
            radius == 1000 * kr,
            SCALE == 1_000_000,
    ;
    assert(radius * radius < (radius + 1) * (radius + 1)) by (nonlinear_arith)
        requires
            radius > 0,
    ;
    fixed::lemma_floor_sqrt(radius, radius * radius);
    assert((-half_b_of(c, r) + (-1) * floor_sqrt(disc_of(c, radius, r))) * SCALE == (d - radius)
        * SCALE);
    assert(quot((d - radius) * SCALE, SCALE as int) == d - radius) by (nonlinear_arith)
        requires
            d - radius > 0,
    ;
    assert(root_of(c, radius, r, -1) == d - radius);
}

/// Fired along the x axis past a sphere whose centre is off the ray's line
/// by more than the radius, a ray meets nothing.  (Lengths on the 0.001
/// grid, as above.)
pub proof fn lemma_sphere_miss(
    c: Point3,
    radius: int,
    m: Material,
    r: Ray,
    kd: int,
    kp: int,
    kr: int,
    tmin: int,
    tmax: int,
)
    requires
        r.wf(),
        c.wf(),
        r.dir == v3(SCALE as int, 0, 0),
        radius == 1000 * kr,
        c == v3(r.orig.x + 1000 * kd, r.orig.y + 1000 * kp, r.orig.z as int),
        0 < kr,
        kr * kr < kp * kp,
        -1_000_000 <= kd <= 1_000_000,
        -1_000_000 <= kp <= 1_000_000,
        kr <= 1_000_000,
    ensures
        sphere_hit_spec(c, radius, m, r, tmin, tmax) is None,
{
    let d = 1000 * kd;
    let p = 1000 * kp;
    let oc = r.orig.minus_spec(c);
    assert(oc == v3(-d, -p, 0));
    lemma_grid_square(kd);
    lemma_grid_square(kp);
    lemma_grid_square(kr);
    assert(r.dir.dot_spec(r.dir) == SCALE);
    assert(oc.dot_exact(r.dir) == -d * SCALE);
    assert(half_b_of(c, r) == -d);
    assert(oc.x == -d && oc.y == -p && oc.z == 0);
    assert((-d) * (-d) + (-p) * (-p) == d * d + p * p) by (nonlinear_arith);
    assert(oc.dot_exact(oc) == d * d + p * p);
    assert(d * d + p * p == SCALE * (kd * kd + kp * kp));
    assert(quot(d * d + p * p, SCALE as int) == kd * kd + kp * kp) by (nonlinear_arith)
        requires
            d * d + p * p == 1_000_000 * (kd * kd + kp * kp),
            d * d + p * p >= 0,
            SCALE == 1_000_000,
    ;
    assert(c_of(c, radius, r) == kd * kd + kp * kp - kr * kr);
    assert(disc_of(c, radius, r) < 0) by (nonlinear_arith)
        requires
            disc_of(c, radius, r) == (-d) * (-d) - SCALE * (kd * kd + kp * kp - kr * kr),
            d == 1000 * kd,
            kr * kr < kp * kp,
            SCALE == 1_000_000,
    ;
}

} // verus!
