//! Rays: an origin, a direction and a moment within the shutter interval.
use vstd::prelude::*;

use rand::rngs::StdRng;

use crate::fixed::{bounded, mul_spec, clamp, LIMIT, ONE};
use crate::fixed;
use crate::hit::{all_wf, carries, hit_list, scan_hit, HitRecord, Hittable};
use crate::material::{in_unit_range, scatter_spec, valid_draw, Draw, Material};
use crate::vec3::{Color, Point3, Vec3, v3};

verus! {

#[derive(Clone, Copy, Debug, PartialEq, Eq, Structural)]
pub struct Ray {
    pub orig: Point3,
    pub dir: Vec3,
    pub time: i64,
}

impl Ray {
    pub open spec fn wf(self) -> bool {
        self.orig.wf() && self.dir.wf() && bounded(self.time as int)
    }

    /// The point `orig + t dir`.
    pub open spec fn at_spec(self, t: int) -> Point3 {
        self.orig.plus_spec(self.dir.scale_spec(t))
    }

    pub fn new(orig: Point3, dir: Vec3, time: i64) -> (r: Ray)
        ensures
            r == (Ray { orig, dir, time }),
    {
        Ray { orig, dir, time }
    }

    pub fn at(&self, t: i64) -> (r: Point3)
        requires
            self.wf(),
            bounded(t as int),
        ensures
            r == self.at_spec(t as int),
            r.wf(),
    {
        self.orig.plus(&self.dir.scale(t))
    }
}

/// Smallest accepted ray parameter for a hit: keeps a scattered ray from
/// meeting the surface it leaves through rounding.
pub const T_MIN: i64 = 1000;

/// The sky: a blend from white to light blue by the height of the unit direction.
pub open spec fn sky_spec(dir: Vec3) -> Color {
    let t = mul_spec(ONE / 2, clamp(dir.unit_spec().y + ONE));
    v3(ONE as int, ONE as int, ONE as int).scale_spec(clamp(ONE - t)).plus_spec(
        v3(500_000, 700_000, ONE as int).scale_spec(t),
    )
}

/// Every primitive of `h` attenuates by factors in `[0, 1]`.
pub open spec fn unit_albedos(h: Hittable) -> bool
    decreases h,
{
    match h {
        Hittable::Sphere(s) => in_unit_range(s.material.attenuation_spec()),
        Hittable::MovingSphere(m) => in_unit_range(m.material.attenuation_spec()),
        Hittable::BVHNode(n) => unit_albedos(*n.left) && unit_albedos(*n.right),
    }
}

pub open spec fn all_unit_albedos(s: Seq<Hittable>) -> bool {
    forall|i: int| 0 <= i < s.len() ==> unit_albedos(#[trigger] s[i])
}

proof fn lemma_carried_albedo(h: Hittable, m: Material)
    requires
        unit_albedos(h),
        carries(h, m),
    ensures
        in_unit_range(m.attenuation_spec()),
    decreases h,
{
    match h {
        Hittable::BVHNode(n) => {
            if carries(*n.left, m) {
                lemma_carried_albedo(*n.left, m);
            } else {
                lemma_carried_albedo(*n.right, m);
            }
        },
        _ => {},
    }
}

/// Attenuating a color in `[0, 1]` by factors in `[0, 1]` stays in `[0, 1]`.
pub proof fn lemma_attenuate_in_unit_range(a: Color, c: Color)
    requires
        in_unit_range(a),
        in_unit_range(c),
    ensures
        in_unit_range(a.mul_elem_spec(c)),
{
    fixed::lemma_mul_by_fraction(a.x as int, c.x as int);
    fixed::lemma_mul_by_fraction(a.y as int, c.y as int);
    fixed::lemma_mul_by_fraction(a.z as int, c.z as int);
}

/// The sky is never brighter than white nor darker than black.
pub proof fn lemma_sky_in_unit_range(dir: Vec3)
    requires
        dir.wf(),
    ensures
        in_unit_range(sky_spec(dir)),
{
    let d = dir.dot_exact(dir);
    crate::vec3::lemma_dot_self_nonneg(dir);
    if d > 0 {
        crate::vec3::lemma_unit_bounds(dir);
    } else {
        assert(dir.y * dir.y <= 0);
        assert(dir.y == 0) by (nonlinear_arith)
            requires
                dir.y * dir.y <= 0,
        ;
    }
    let u = dir.unit_spec();
    assert(-ONE <= u.y <= ONE);
    let w = clamp(u.y + ONE);
    assert(0 <= w <= 2 * ONE);
    fixed::lemma_mul_by_fraction(ONE / 2, w);
    let t = mul_spec(ONE / 2, w);
    assert(t <= ONE) by (nonlinear_arith)
        requires
            t == crate::fixed::clamp(crate::fixed::quot((ONE / 2) * w, 1_000_000)),
            0 <= w <= 2 * ONE,
            ONE == 1_000_000,
    {
        assert((ONE / 2) * w <= 1_000_000 * 1_000_000) by (nonlinear_arith)
            requires
                0 <= w <= 2 * ONE,
                ONE == 1_000_000,
        ;
        assert(((ONE / 2) * w) / 1_000_000 <= 1_000_000) by (nonlinear_arith)
            requires
                0 <= (ONE / 2) * w <= 1_000_000 * 1_000_000,
        ;
    }
    fixed::lemma_mul_by_fraction(ONE as int, clamp(ONE - t));
    fixed::lemma_mul_by_fraction(500_000, t);
    fixed::lemma_mul_by_fraction(700_000, t);
    fixed::lemma_mul_by_fraction(ONE as int, t);
}

/// The color of the sky seen along `dir`.
pub fn background(dir: &Vec3) -> (c: Color)
    requires
        dir.wf(),
    ensures
        c == sky_spec(*dir),
        c.wf(),
        in_unit_range(c),
{
    proof {
        lemma_sky_in_unit_range(*dir);
    }
    let unit_direction = Vec3::unit_vector(dir);
    let t = fixed::mul(ONE / 2, fixed::add(unit_direction.y, ONE));
    let white = Vec3::new(ONE, ONE, ONE);
    let blue = Vec3::new(500_000, 700_000, ONE);
    white.scale(fixed::sub(ONE, t)).plus(&blue.scale(t))
}

/// The nearest hit of a ray over the scene, beyond the self-intersection guard.
#[verifier::opaque]
pub open spec fn nearest(world: Seq<Hittable>, r: Ray) -> Option<HitRecord> {
    scan_hit(world, r, T_MIN as int, LIMIT as int)
}

/// The color the estimator returns for `r` with `depth` bounces left when
/// the `k`-th bounce uses the draw `ds[k]`: black once the bounces run out;
/// the sky where the ray meets nothing; where it meets a surface, black if
/// the surface absorbs the ray, else the surface's attenuation times the
/// color along the scattered ray with one bounce fewer.
pub open spec fn color_with(world: Seq<Hittable>, r: Ray, depth: int, ds: Seq<Draw>) -> Color
    decreases depth,
{
    if depth <= 0 {
        v3(0, 0, 0)
    } else {
        match nearest(world, r) {
            None => sky_spec(r.dir),
            Some(rec) => match scatter_spec(rec.material, r, rec, ds[0]) {
                None => v3(0, 0, 0),
                Some(sr) => rec.material.attenuation_spec().mul_elem_spec(
                    color_with(world, sr, depth - 1, ds.drop_first()),
                ),
            },
        }
    }
}

/// One draw for each of `depth` bounces, each one the samplers can produce.
pub open spec fn valid_draws(ds: Seq<Draw>, depth: int) -> bool {
    &&& ds.len() == if depth > 0 {
        depth
    } else {
        0
    }
    &&& forall|k: int| 0 <= k < ds.len() ==> valid_draw(#[trigger] ds[k])
}

/// `c` is a color the estimator can return for `r` with `depth` bounces left.
pub open spec fn color_outcome(world: Seq<Hittable>, r: Ray, depth: int, c: Color) -> bool {
    exists|ds: Seq<Draw>| valid_draws(ds, depth) && c == #[trigger] color_with(world, r, depth, ds)
}

/// Estimate the light arriving along `r`, following at most `depth` bounces.
pub fn ray_color(r: &Ray, hittables: &Vec<Hittable>, depth: i32, rng: &mut StdRng) -> (c: Color)
    requires
        r.wf(),
        all_wf(hittables@),
    ensures
        c.wf(),
        color_outcome(hittables@, *r, depth as int, c),
        depth <= 0 ==> c == v3(0, 0, 0),
        depth > 0 && scan_hit(hittables@, *r, T_MIN as int, LIMIT as int) is None ==> c == sky_spec(r.dir),
        all_unit_albedos(hittables@) ==> in_unit_range(c),
    decreases depth,
{
    proof {
        reveal(nearest);
    }
    if depth <= 0 {
        proof {
            assert(v3(0, 0, 0) == color_with(hittables@, *r, depth as int, Seq::empty()));
        }
        return Vec3::zero();
    }
    match hit_list(hittables, r, T_MIN, LIMIT) {
        Some(rec) => {
            let (scattered, attenuation) = rec.material.scatter(r, &rec, rng);
            match scattered {
                Some(scattered_ray) => {
                    let rest = ray_color(&scattered_ray, hittables, depth - 1, rng);
                    proof {
                        assert(rec.material.wf());
                    }
                    let c = attenuation.mul_elem(&rest);
                    proof {
                        if all_unit_albedos(hittables@) {
                            let k = choose|k: int|
                                0 <= k < hittables@.len() && #[trigger] carries(hittables@[k], rec.material);
                            lemma_carried_albedo(hittables@[k], rec.material);
                            lemma_attenuate_in_unit_range(attenuation, rest);
                        }
                        let d = choose|d: Draw| valid_draw(d) && scattered == #[trigger] scatter_spec(rec.material, *r, rec, d);
                        let tail = choose|ds: Seq<Draw>| valid_draws(ds, depth - 1) && rest == #[trigger] color_with(hittables@, scattered_ray, depth - 1, ds);
                        let ds = seq![d] + tail;
                        assert(ds.drop_first() == tail);
                        assert(ds[0] == d);
                        assert(valid_draws(ds, depth as int)) by {
                            assert forall|k: int| 0 <= k < ds.len() implies valid_draw(#[trigger] ds[k]) by {
                                if k > 0 {
                                    assert(ds[k] == tail[k - 1]);
                                }
                            }
                        }
                        assert(c == color_with(hittables@, *r, depth as int, ds));
                    }
                    c
                },
                None => {
                    proof {
                        let d = choose|d: Draw| valid_draw(d) && scattered == #[trigger] scatter_spec(rec.material, *r, rec, d);
                        let ds = Seq::new(depth as nat, |k: int| d);
                        assert(ds[0] == d);
                        assert(v3(0, 0, 0) == color_with(hittables@, *r, depth as int, ds));
                    }
                    Vec3::zero()
                },
            }
        },
        None => {
            let c = background(&r.dir);
            proof {
                let d = Draw { point: v3(0, 0, 0), u: 0 };
                let ds = Seq::new(depth as nat, |k: int| d);
                assert(valid_draw(d));
                assert(c == color_with(hittables@, *r, depth as int, ds));
            }
            c
        },
    }
}

} // verus!
