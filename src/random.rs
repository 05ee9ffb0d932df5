//! Random sampling, drawn from an explicit generator owned by the caller.
use vstd::prelude::*;

use rand::rngs::StdRng;
use rand::Rng;

use crate::fixed::{bounded, ONE};
use crate::vec3::{v3, Vec3};

verus! {

/// rand's `StdRng`, carried through opaquely: only `gen_below` reads it.
#[verifier::external_type_specification]
#[verifier::external_body]
pub struct ExStdRng(StdRng);

/// Rejection sampling gives up after this many draws and falls back to
/// the centre, which lies inside every shape sampled here.
pub const MAX_TRIES: u32 = 64;

/// Relies on rand's `Rng::gen_range` on `0..n`: a value below `n`; it panics
/// only on an empty range, which `n > 0` rules out.
#[verifier::external_body]
fn gen_below(rng: &mut StdRng, n: u64) -> (r: u64)
    requires
        n > 0,
    ensures
        r < n,
{
    rng.gen_range(0..n)
}

/// A scalar in `[0, 1)`.
pub fn random_f32(rng: &mut StdRng) -> (r: i64)
    ensures
        0 <= r < ONE,
{
    gen_below(rng, ONE as u64) as i64
}

/// A scalar in `[min, max)`.
pub fn random_f32_range(rng: &mut StdRng, min: i64, max: i64) -> (r: i64)
    requires
        bounded(min as int),
        bounded(max as int),
        min < max,
    ensures
        min <= r < max,
{
    let span = (max - min) as u64;
    min + gen_below(rng, span) as i64
}

/// An index in `[min, max)`.
pub fn random_usize(rng: &mut StdRng, min: usize, max: usize) -> (r: usize)
    requires
        min < max,
    ensures
        min <= r < max,
{
    min + gen_below(rng, (max - min) as u64) as usize
}

impl Vec3 {
    /// A vector with each component in `[0, 1)`.
    pub fn random(rng: &mut StdRng) -> (r: Vec3)
        ensures
            r.wf(),
            0 <= r.x < ONE && 0 <= r.y < ONE && 0 <= r.z < ONE,
    {
        let x = random_f32(rng);
        let y = random_f32(rng);
        let z = random_f32(rng);
        Vec3::new(x, y, z)
    }

    /// A vector with each component in `[min, max)`.
    pub fn random_range(rng: &mut StdRng, min: i64, max: i64) -> (r: Vec3)
        requires
            bounded(min as int),
            bounded(max as int),
            min < max,
        ensures
            r.wf(),
            min <= r.x < max && min <= r.y < max && min <= r.z < max,
    {
        let x = random_f32_range(rng, min, max);
        let y = random_f32_range(rng, min, max);
        let z = random_f32_range(rng, min, max);
        Vec3::new(x, y, z)
    }

    /// A point strictly inside the unit sphere.
    pub fn random_in_unit_sphere(rng: &mut StdRng) -> (r: Vec3)
        ensures
            r.wf(),
            r.dot_spec(r) < ONE,
            -ONE <= r.x <= ONE && -ONE <= r.y <= ONE && -ONE <= r.z <= ONE,
    {
        let mut tries: u32 = 0;
        while tries < MAX_TRIES
            decreases MAX_TRIES - tries,
        {
            let p = Vec3::random_range(rng, -ONE, ONE);
            if p.length_squared() < ONE {
                return p;
            }
            tries += 1;
        }
        Vec3::zero()
    }

    /// A point strictly inside the unit disk of the `z = 0` plane.
    pub fn random_in_unit_disk(rng: &mut StdRng) -> (r: Vec3)
        ensures
            r.wf(),
            r.z == 0,
            r.dot_spec(r) < ONE,
            -ONE <= r.x <= ONE && -ONE <= r.y <= ONE,
    {
        let mut tries: u32 = 0;
        while tries < MAX_TRIES
            decreases MAX_TRIES - tries,
        {
            let x = random_f32_range(rng, -ONE, ONE);
            let y = random_f32_range(rng, -ONE, ONE);
            let p = Vec3::new(x, y, 0);
            if p.length_squared() < ONE {
                return p;
            }
            tries += 1;
        }
        Vec3::zero()
    }

    /// A random direction: a point of the unit sphere scaled to unit length.
    pub fn random_unit_vector(rng: &mut StdRng) -> (r: Vec3)
        ensures
            r.wf(),
            exists|p: Vec3| p.wf() && p.dot_spec(p) < ONE && r == p.unit_spec(),
            r == v3(0, 0, 0) || crate::vec3::is_unit(r),
    {
        let p = Vec3::random_in_unit_sphere(rng);
        proof {
            crate::vec3::lemma_dot_self_nonneg(p);
            if p.dot_exact(p) == 0 {
                assert(p.x * p.x <= 0 && p.y * p.y <= 0 && p.z * p.z <= 0);
                assert(p.x == 0 && p.y == 0 && p.z == 0) by (nonlinear_arith)
                    requires
                        p.x * p.x <= 0,
                        p.y * p.y <= 0,
                        p.z * p.z <= 0,
                ;
            }
        }
        Vec3::unit_vector(&p)
    }
}

} // verus!
