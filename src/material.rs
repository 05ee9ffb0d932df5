//! Surface materials and how they scatter light.
use vstd::prelude::*;

use rand::rngs::StdRng;

use crate::fixed::{bounded, clamp, mul_spec, div_spec, sqrt_spec, LIMIT, ONE};
use crate::fixed;
use crate::hit::HitRecord;
use crate::ray::Ray;
use crate::vec3::{Color, Vec3, v3};

verus! {

/// Ideal diffuse surface.
#[derive(Clone, Copy, Debug, PartialEq, Eq, Structural)]
pub struct Lambertian {
    pub albedo: Color,
}

/// Specular surface; `fuzz` roughens the reflection.
#[derive(Clone, Copy, Debug, PartialEq, Eq, Structural)]
pub struct Metal {
    pub albedo: Color,
    pub fuzz: i64,
}

/// Clear refractive medium such as glass.
#[derive(Clone, Copy, Debug, PartialEq, Eq, Structural)]
pub struct Dialectric {
    pub index_of_refraction: i64,
}

#[derive(Clone, Copy, Debug, PartialEq, Eq, Structural)]
pub enum Material {
    Lambertian(Lambertian),
    Metal(Metal),
    Dialectric(Dialectric),
}

impl Material {
    pub open spec fn wf(self) -> bool {
        match self {
            Material::Lambertian(l) => l.albedo.wf(),
            Material::Metal(m) => m.albedo.wf() && bounded(m.fuzz as int),
            Material::Dialectric(d) => 0 < d.index_of_refraction <= LIMIT,
        }
    }
}

/// Schlick's approximation of the reflectance at a given cosine:
/// `r0 + (1 - r0) (1 - cosine)^5` with `r0 = ((1 - idx) / (1 + idx))^2`.
pub open spec fn reflectance_spec(cosine: int, ref_idx: int) -> int {
    let q = div_spec(clamp(ONE - ref_idx), clamp(ONE + ref_idx));
    let r0 = mul_spec(q, q);
    let m = clamp(ONE - cosine);
    let m2 = mul_spec(m, m);
    let m4 = mul_spec(m2, m2);
    let m5 = mul_spec(m4, m);
    clamp(r0 + mul_spec(clamp(ONE - r0), m5))
}

/// Ratio of refractive indices on the way through the surface.
pub open spec fn refraction_ratio(ior: int, front_face: bool) -> int {
    if front_face {
        div_spec(ONE as int, ior)
    } else {
        ior
    }
}

/// Cosine of the angle between the reversed unit direction and the normal, at most 1.
pub open spec fn cos_theta_spec(unit: Vec3, normal: Vec3) -> int {
    let c = unit.neg_spec().dot_spec(normal);
    if c <= ONE {
        c
    } else {
        ONE as int
    }
}

/// `sqrt(1 - cos^2)`; taken as zero where rounding makes `1 - cos^2` negative.
pub open spec fn sin_theta_spec(cos_theta: int) -> int {
    let k = clamp(ONE - mul_spec(cos_theta, cos_theta));
    if k < 0 {
        0
    } else {
        sqrt_spec(k)
    }
}

/// Snell's law has no solution: the ray is reflected whatever the draw.
pub open spec fn cannot_refract_spec(ior: int, ray: Ray, rec: HitRecord) -> bool {
    let ratio = refraction_ratio(ior, rec.front_face);
    let cos_theta = cos_theta_spec(ray.dir.unit_spec(), rec.normal);
    mul_spec(ratio, sin_theta_spec(cos_theta)) > ONE
}

/// The direction a dielectric sends the ray, given the uniform draw `u`.
pub open spec fn dielectric_direction(ior: int, ray: Ray, rec: HitRecord, u: int) -> Vec3 {
    let ratio = refraction_ratio(ior, rec.front_face);
    let unit = ray.dir.unit_spec();
    let cos_theta = cos_theta_spec(unit, rec.normal);
    if cannot_refract_spec(ior, ray, rec) || reflectance_spec(cos_theta, ratio) > u {
        unit.reflect_spec(rec.normal)
    } else {
        refract_spec(unit, rec.normal, ratio)
    }
}

/// The refracted direction of `uv` through a surface with normal `n`.
pub open spec fn refract_spec(uv: Vec3, n: Vec3, eta: int) -> Vec3 {
    let cos_theta = cos_theta_spec(uv, n);
    let perp = uv.plus_spec(n.scale_spec(cos_theta)).scale_spec(eta);
    let k = clamp(ONE - perp.dot_spec(perp));
    let k_abs = if k < 0 {
        -k
    } else {
        k
    };
    perp.plus_spec(n.scale_spec(-sqrt_spec(k_abs)))
}

/// The color `(1, 1, 1)`.
pub open spec fn white() -> Color {
    v3(ONE as int, ONE as int, ONE as int)
}

/// Schlick's approximation of the reflectance.
pub fn reflectance(cosine: i64, ref_idx: i64) -> (r: i64)
    requires
        bounded(cosine as int),
        0 <= ref_idx <= LIMIT,
    ensures
        r == reflectance_spec(cosine as int, ref_idx as int),
        bounded(r as int),
{
    let q = fixed::div(fixed::sub(ONE, ref_idx), fixed::add(ONE, ref_idx));
    let r0 = fixed::mul(q, q);
    let m = fixed::sub(ONE, cosine);
    let m2 = fixed::mul(m, m);
    let m4 = fixed::mul(m2, m2);
    let m5 = fixed::mul(m4, m);
    fixed::add(r0, fixed::mul(fixed::sub(ONE, r0), m5))
}

/// A point strictly inside the unit sphere.
pub open spec fn in_unit_ball(p: Vec3) -> bool {
    p.wf() && p.dot_spec(p) < ONE
}

/// The ray a diffuse surface sends toward `normal + unit`, falling back to
/// the normal where that sum cancels.
pub open spec fn lambert_ray(ray: Ray, rec: HitRecord, unit: Vec3) -> Ray {
    let d = rec.normal.plus_spec(unit);
    Ray { orig: rec.p, dir: if is_near_zero(d) { rec.normal } else { d }, time: ray.time }
}

/// The ray a metal surface sends: the mirror image of the unit incoming
/// direction perturbed by `fuzz` times `jitter`, absorbed if it points into
/// the surface.
pub open spec fn metal_ray(m: Metal, ray: Ray, rec: HitRecord, jitter: Vec3) -> Option<Ray> {
    let dir = ray.dir.unit_spec().reflect_spec(rec.normal).plus_spec(
        jitter.scale_spec(m.fuzz as int),
    );
    if dir.dot_exact(rec.normal) > 0 {
        Some(Ray { orig: rec.p, dir, time: ray.time })
    } else {
        None
    }
}

/// The ray a dielectric sends for the uniform draw `u`.
pub open spec fn dielectric_ray(d: Dialectric, ray: Ray, rec: HitRecord, u: int) -> Ray {
    Ray {
        orig: rec.p,
        dir: dielectric_direction(d.index_of_refraction as int, ray, rec, u),
        time: ray.time,
    }
}

/// The random input of one scattering: a point of the unit ball (whose
/// direction a diffuse surface uses, and which perturbs a metal one) and a
/// uniform number (which a dielectric compares with its reflectance).
#[derive(Clone, Copy, Debug, PartialEq, Eq, Structural)]
pub struct Draw {
    pub point: Vec3,
    pub u: i64,
}

/// A draw the samplers can produce.
pub open spec fn valid_draw(d: Draw) -> bool {
    in_unit_ball(d.point) && 0 <= d.u < ONE
}

/// What the material sends on for the draw `d`.
pub open spec fn scatter_spec(m: Material, ray: Ray, rec: HitRecord, d: Draw) -> Option<Ray> {
    match m {
        Material::Lambertian(_) => Some(lambert_ray(ray, rec, d.point.unit_spec())),
        Material::Metal(mm) => metal_ray(mm, ray, rec, d.point),
        Material::Dialectric(dd) => Some(dielectric_ray(dd, ray, rec, d.u as int)),
    }
}

/// `s` is what the material sends on for some draw the samplers can produce.
pub open spec fn scatter_outcome(m: Material, ray: Ray, rec: HitRecord, s: Option<Ray>) -> bool {
    exists|d: Draw| valid_draw(d) && s == #[trigger] scatter_spec(m, ray, rec, d)
}

impl Lambertian {
    /// Scatter toward `normal + unit`, `unit` being a random unit vector;
    /// a sum that cancels to (nearly) zero falls back to the normal.
    pub fn scatter_with(&self, ray: &Ray, rec: &HitRecord, unit: &Vec3) -> (r: (Option<Ray>, Color))
        requires
            ray.wf(),
            rec.wf(),
            unit.wf(),
        ensures
            r.1 == self.albedo,
            r.0 == Some(lambert_ray(*ray, *rec, *unit)),
    {
        let mut scatter_direction = rec.normal.plus(unit);
        if scatter_direction.near_zero() {
            scatter_direction = rec.normal;
        }
        (Some(Ray::new(rec.p, scatter_direction, ray.time)), self.albedo)
    }

    pub fn scatter(&self, ray: &Ray, rec: &HitRecord, rng: &mut StdRng) -> (r: (Option<Ray>, Color))
        requires
            ray.wf(),
            rec.wf(),
        ensures
            r.1 == self.albedo,
            r.0 is Some,
            r.0.unwrap().wf(),
            scatter_outcome(Material::Lambertian(*self), *ray, *rec, r.0),
    {
        let unit = Vec3::random_unit_vector(rng);
        let r = self.scatter_with(ray, rec, &unit);
        proof {
            let p = choose|p: Vec3| p.wf() && p.dot_spec(p) < ONE && unit == p.unit_spec();
            let d = Draw { point: p, u: 0 };
            assert(valid_draw(d) && r.0 == scatter_spec(Material::Lambertian(*self), *ray, *rec, d));
        }
        r
    }
}

/// Every component lies within one raw unit of zero.
pub open spec fn is_near_zero(v: Vec3) -> bool {
    -1 <= v.x <= 1 && -1 <= v.y <= 1 && -1 <= v.z <= 1
}

impl Metal {
    /// The mirror direction of the incoming unit direction, perturbed by
    /// `fuzz` times `jitter` (a random point of the unit sphere); a result
    /// that points into the surface is absorbed.
    pub fn scatter_with(&self, ray: &Ray, rec: &HitRecord, jitter: &Vec3) -> (r: (Option<Ray>, Color))
        requires
            ray.wf(),
            rec.wf(),
            jitter.wf(),
            self.albedo.wf(),
            bounded(self.fuzz as int),
        ensures
            r.1 == self.albedo,
            r.0 == metal_ray(*self, *ray, *rec, *jitter),
    {
        let reflected = Vec3::reflect(&Vec3::unit_vector(&ray.dir), &rec.normal);
        let scattered = Ray::new(rec.p, reflected.plus(&jitter.scale(self.fuzz)), ray.time);
        if Vec3::dot_wide(&scattered.dir, &rec.normal) > 0 {
            (Some(scattered), self.albedo)
        } else {
            (None, self.albedo)
        }
    }

    pub fn scatter(&self, ray: &Ray, rec: &HitRecord, rng: &mut StdRng) -> (r: (Option<Ray>, Color))
        requires
            ray.wf(),
            rec.wf(),
            self.albedo.wf(),
            bounded(self.fuzz as int),
        ensures
            r.1 == self.albedo,
            r.0 is Some ==> r.0.unwrap().wf(),
            scatter_outcome(Material::Metal(*self), *ray, *rec, r.0),
    {
        let jitter = Vec3::random_in_unit_sphere(rng);
        let r = self.scatter_with(ray, rec, &jitter);
        proof {
            let d = Draw { point: jitter, u: 0 };
            assert(valid_draw(d) && r.0 == scatter_spec(Material::Metal(*self), *ray, *rec, d));
        }
        r
    }
}

impl Dialectric {
    /// Reflect when Snell's law has no solution or when the draw `u` falls
    /// below Schlick's reflectance; refract otherwise.  The medium absorbs
    /// nothing.
    pub fn scatter_with(&self, ray: &Ray, rec: &HitRecord, u: i64) -> (r: (Option<Ray>, Color))
        requires
            ray.wf(),
            rec.wf(),
            0 < self.index_of_refraction <= LIMIT,
            bounded(u as int),
        ensures
            r.1 == white(),
            r.0 == Some(dielectric_ray(*self, *ray, *rec, u as int)),
    {
        let attenuation = Vec3::new(ONE, ONE, ONE);
        let ratio = if rec.front_face {
            fixed::div(ONE, self.index_of_refraction)
        } else {
            self.index_of_refraction
        };
        let unit_direction = Vec3::unit_vector(&ray.dir);
        let cos_theta = fixed::min(Vec3::dot(&unit_direction.negate(), &rec.normal), ONE);
        let k = fixed::sub(ONE, fixed::mul(cos_theta, cos_theta));
        let sin_theta = if k < 0 {
            0
        } else {
            fixed::sqrt(k)
        };
        let cannot_refract = fixed::mul(ratio, sin_theta) > ONE;
        let direction = if cannot_refract || reflectance(cos_theta, ratio) > u {
            Vec3::reflect(&unit_direction, &rec.normal)
        } else {
            Vec3::refract(&unit_direction, &rec.normal, ratio)
        };
        (Some(Ray::new(rec.p, direction, ray.time)), attenuation)
    }

    pub fn scatter(&self, ray: &Ray, rec: &HitRecord, rng: &mut StdRng) -> (r: (Option<Ray>, Color))
        requires
            ray.wf(),
            rec.wf(),
            0 < self.index_of_refraction <= LIMIT,
        ensures
            r.1 == white(),
            r.0 is Some,
            r.0.unwrap().wf(),
            r.0.unwrap().orig == rec.p,
            r.0.unwrap().time == ray.time,
            scatter_outcome(Material::Dialectric(*self), *ray, *rec, r.0),
    {
        let u = crate::random::random_f32(rng);
        let r = self.scatter_with(ray, rec, u);
        proof {
            let d = Draw { point: v3(0, 0, 0), u };
            assert(valid_draw(d) && r.0 == scatter_spec(Material::Dialectric(*self), *ray, *rec, d));
        }
        r
    }
}

impl Material {
    /// The attenuation a material applies, whether or not it scatters.
    pub open spec fn attenuation_spec(self) -> Color {
        match self {
            Material::Lambertian(l) => l.albedo,
            Material::Metal(m) => m.albedo,
            Material::Dialectric(_) => white(),
        }
    }

    pub fn scatter(&self, ray: &Ray, rec: &HitRecord, rng: &mut StdRng) -> (r: (Option<Ray>, Color))
        requires
            self.wf(),
            ray.wf(),
            rec.wf(),
        ensures
            r.1 == self.attenuation_spec(),
            r.0 is Some ==> r.0.unwrap().wf(),
            scatter_outcome(*self, *ray, *rec, r.0),
    {
        match self {
            Material::Lambertian(l) => l.scatter(ray, rec, rng),
            Material::Metal(m) => m.scatter(ray, rec, rng),
            Material::Dialectric(d) => d.scatter(ray, rec, rng),
        }
    }
}

/// Under total internal reflection every outcome of a dielectric is the
/// same ray: from the hit point along the mirrored unit direction, at the
/// ray's time.
pub proof fn lemma_total_internal_reflection_outcome(
    d: Dialectric,
    ray: Ray,
    rec: HitRecord,
    s: Option<Ray>,
)
    requires
        cannot_refract_spec(d.index_of_refraction as int, ray, rec),
        scatter_outcome(Material::Dialectric(d), ray, rec, s),
    ensures
        s == Some(
            Ray { orig: rec.p, dir: ray.dir.unit_spec().reflect_spec(rec.normal), time: ray.time },
        ),
{
    let dr = choose|dr: Draw| valid_draw(dr) && s == #[trigger] scatter_spec(Material::Dialectric(d), ray, rec, dr);
    lemma_total_internal_reflection(d.index_of_refraction as int, ray, rec, dr.u as int);
}

/// A metal without fuzz is a perfect mirror: every outcome is the one for
/// no jitter at all.
pub proof fn lemma_mirror_metal(m: Metal, ray: Ray, rec: HitRecord, s: Option<Ray>)
    requires
        m.fuzz == 0,
        scatter_outcome(Material::Metal(m), ray, rec, s),
    ensures
        s == metal_ray(m, ray, rec, v3(0, 0, 0)),
{
    let d = choose|d: Draw| valid_draw(d) && s == #[trigger] scatter_spec(Material::Metal(m), ray, rec, d);
    assert(d.point.scale_spec(0) == v3(0, 0, 0).scale_spec(0));
}

/// Each component of a color lies in `[0, 1]`.
pub open spec fn in_unit_range(c: Color) -> bool {
    0 <= c.x <= ONE && 0 <= c.y <= ONE && 0 <= c.z <= ONE
}

/// A diffuse or metal surface whose albedo lies in `[0, 1]` never
/// amplifies light: no component of its attenuation exceeds 1.
pub proof fn lemma_attenuation_at_most_one(m: Material)
    requires
        match m {
            Material::Lambertian(l) => in_unit_range(l.albedo),
            Material::Metal(mm) => in_unit_range(mm.albedo),
            Material::Dialectric(_) => false,
        },
    ensures
        in_unit_range(m.attenuation_spec()),
{
}

/// When Snell's law has no solution the dielectric reflects, whatever the
/// random draw.
pub proof fn lemma_total_internal_reflection(ior: int, ray: Ray, rec: HitRecord, u: int)
    requires
        cannot_refract_spec(ior, ray, rec),
    ensures
        dielectric_direction(ior, ray, rec, u) == ray.dir.unit_spec().reflect_spec(rec.normal),
{
}

} // verus!
