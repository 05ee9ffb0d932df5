//! The showcase scene: a field of small random spheres around three large
//! ones, on a huge ground sphere.
use vstd::prelude::*;

use rand::rngs::StdRng;

use crate::bvh::{all_fit, children_built};
use crate::fixed::ONE;
use crate::hit::{all_wf, BVHNode, Hittable, MovingSphere, Sphere};
use crate::material::{Dialectric, Lambertian, Material, Metal};
use crate::random::{random_f32, random_f32_range};
use crate::vec3::{Color, Point3, Vec3, v3};

verus! {

/// The ground: a huge grey sphere.
pub open spec fn ground() -> Hittable {
    Hittable::Sphere(
        Sphere {
            center: v3(0, -1_000_000_000, 0),
            radius: 1_000_000_000,
            material: Material::Lambertian(
                Lambertian { albedo: v3(500_000, 500_000, 500_000) },
            ),
        },
    )
}

/// The large glass sphere in the middle.
pub open spec fn glass_ball() -> Hittable {
    Hittable::Sphere(
        Sphere {
            center: v3(0, 1_000_000, 0),
            radius: 1_000_000,
            material: Material::Dialectric(Dialectric { index_of_refraction: 1_500_000 }),
        },
    )
}

/// The large diffuse sphere.
pub open spec fn matte_ball() -> Hittable {
    Hittable::Sphere(
        Sphere {
            center: v3(-4_000_000, 1_000_000, 0),
            radius: 1_000_000,
            material: Material::Lambertian(
                Lambertian { albedo: v3(400_000, 200_000, 100_000) },
            ),
        },
    )
}

/// The large mirror sphere.
pub open spec fn mirror_ball() -> Hittable {
    Hittable::Sphere(
        Sphere {
            center: v3(4_000_000, 1_000_000, 0),
            radius: 1_000_000,
            material: Material::Metal(
                Metal { albedo: v3(700_000, 600_000, 500_000), fuzz: 0 },
            ),
        },
    )
}

/// A color with every component in `[lo, hi)`.
pub open spec fn color_in(c: Color, lo: int, hi: int) -> bool {
    lo <= c.x < hi && lo <= c.y < hi && lo <= c.z < hi
}

/// `x` lies in `[a, a + 0.9)`.
pub open spec fn x_in_cell(x: int, a: int) -> bool {
    a * ONE <= x < a * ONE + 900_000
}

/// `z` lies in `[b + 0.9, b + 1.9)`.
pub open spec fn z_in_cell(z: int, b: int) -> bool {
    b * ONE + 900_000 <= z < b * ONE + 1_900_000
}

/// The centre of a small sphere: at height 0.2, in the cell of some
/// `(a, b)` of `[-11, 11)^2` (`x` in `[a, a + 0.9)`, `z` in
/// `[b + 0.9, b + 1.9)`), and more than 0.9 from `(4, 0.2, 0)`.
pub open spec fn small_center(c: Point3) -> bool {
    &&& c.y == 200_000
    &&& exists|a: int| -11 <= a < 11 && #[trigger] x_in_cell(c.x as int, a)
    &&& exists|b: int| -11 <= b < 11 && #[trigger] z_in_cell(c.z as int, b)
    &&& crate::fixed::sqrt_spec(
        ({
            let d = c.minus_spec(v3(4_000_000, 200_000, 0));
            d.dot_spec(d)
        }),
    ) > 900_000
}

/// One of the small spheres: radius 0.2 around a `small_center`; a diffuse
/// one rises by less than 0.5 over the shutter interval `[0, 1]`, a metal
/// one has albedo in `[0.5, 1)` and fuzz in `[0, 0.5)`, a glass one index 1.5.
pub open spec fn small_sphere(h: Hittable) -> bool {
    match h {
        Hittable::MovingSphere(m) => {
            &&& m.radius == 200_000
            &&& small_center(m.center0)
            &&& -11 * ONE <= m.center0.x < 11 * ONE
            &&& -11 * ONE + 900_000 <= m.center0.z < 11 * ONE + 900_000
            &&& m.center1.x == m.center0.x
            &&& m.center1.z == m.center0.z
            &&& 200_000 <= m.center1.y < 700_000
            &&& m.time0 == 0
            &&& m.time1 == ONE
            &&& match m.material {
                Material::Lambertian(l) => color_in(l.albedo, 0, ONE as int),
                _ => false,
            }
        },
        Hittable::Sphere(s) => {
            &&& s.radius == 200_000
            &&& small_center(s.center)
            &&& -11 * ONE <= s.center.x < 11 * ONE
            &&& -11 * ONE + 900_000 <= s.center.z < 11 * ONE + 900_000
            &&& match s.material {
                Material::Metal(m) => color_in(m.albedo, 500_000, ONE as int) && 0 <= m.fuzz
                    < 500_000,
                Material::Dialectric(d) => d.index_of_refraction == 1_500_000,
                _ => false,
            }
        },
        _ => false,
    }
}

/// An object of the scene: the ground, a small sphere or a large one.
pub open spec fn scene_object(h: Hittable) -> bool {
    h == ground() || small_sphere(h) || h == glass_ball() || h == matte_ball() || h
        == mirror_ball()
}

/// The objects the hierarchy is built over: the ground, then between 0 and
/// 484 small spheres (at most one per cell), then the glass, matte and
/// mirror balls.
pub open spec fn scene_list(s: Seq<Hittable>) -> bool {
    &&& 4 <= s.len() <= 488
    &&& s[0] == ground()
    &&& forall|i: int| 1 <= i < s.len() - 3 ==> small_sphere(#[trigger] s[i])
    &&& s[s.len() - 3] == glass_ball()
    &&& s[s.len() - 2] == matte_ball()
    &&& s[s.len() - 1] == mirror_ball()
}

pub open spec fn all_scene(s: Seq<Hittable>) -> bool {
    forall|i: int| 0 <= i < s.len() ==> scene_object(#[trigger] s[i])
}

/// A scalar of `[0, 1)` scales a nonnegative scalar down.
proof fn lemma_mul_fraction(a: int, b: int)
    requires
        0 <= a <= crate::fixed::LIMIT,
        0 <= b < ONE,
    ensures
        0 <= crate::fixed::mul_spec(a, b) <= a,
        a > 0 ==> crate::fixed::mul_spec(a, b) < a,
{
    assert(0 <= a * b <= a * (ONE - 1)) by (nonlinear_arith)
        requires
            0 <= a,
            0 <= b < ONE,
    ;
    assert((a * b) / 1_000_000 <= a * b / 1_000_000);
    assert(a > 0 ==> (a * b) / 1_000_000 < a) by (nonlinear_arith)
        requires
            0 <= a * b <= a * (ONE - 1),
    ;
    assert(0 <= (a * b) / 1_000_000) by (nonlinear_arith)
        requires
            0 <= a * b,
    ;
    assert((a * b) / 1_000_000 <= a) by (nonlinear_arith)
        requires
            0 <= a * b <= a * (ONE - 1),
            0 <= a,
    ;
}

fn push_object(world: &mut Vec<Hittable>, h: Hittable)
    requires
        all_wf(old(world)@),
        all_fit(old(world)@, 0, ONE as int),
        all_scene(old(world)@),
        h.wf(),
        !(h is BVHNode),
        scene_object(h),
    ensures
        final(world)@ == old(world)@.push(h),
        all_wf(final(world)@),
        all_fit(final(world)@, 0, ONE as int),
        all_scene(final(world)@),
{
    world.push(h);
    proof {
        assert(final(world)@.last() == h);
        assert(forall|i: int| 0 <= i < old(world)@.len() ==> final(world)@[i] == old(world)@[i]);
    }
}

/// Build the scene: the ground, up to 484 small spheres (diffuse ones
/// moving upward during the shutter interval, metal and glass ones still)
/// and three large spheres, all under one hierarchy for the shutter
/// interval `[0, 1]`.
pub fn raytracing_weekend_scene(rng: &mut StdRng) -> (world: Vec<Hittable>)
    ensures
        world@.len() == 1,
        all_wf(world@),
        world@[0] is BVHNode,
        world@[0].boxes_fit(0, ONE as int),
        world@[0].leaves().contains(ground()),
        world@[0].leaves().contains(glass_ball()),
        world@[0].leaves().contains(matte_ball()),
        world@[0].leaves().contains(mirror_ball()),
        forall|x: Hittable| #[trigger] world@[0].leaves().contains(x) ==> scene_object(x),
        exists|objects: Seq<Hittable>|
            #[trigger] scene_list(objects) && match world@[0] {
                Hittable::BVHNode(n) => children_built(*n.left, *n.right, objects),
                _ => false,
            },
{
    let mut world: Vec<Hittable> = Vec::new();
    let ground_material = Material::Lambertian(
        Lambertian { albedo: Color::new(500_000, 500_000, 500_000) },
    );
    push_object(
        &mut world,
        Hittable::Sphere(
            Sphere {
                center: Point3::new(0, -1_000_000_000, 0),
                radius: 1_000_000_000,
                material: ground_material,
            },
        ),
    );
    let mut a: i64 = -11;
    while a < 11
        invariant
            -11 <= a <= 11,
            world@.len() >= 1,
            world@[0] == ground(),
            all_wf(world@),
            all_fit(world@, 0, ONE as int),
            all_scene(world@),
            forall|i: int| 1 <= i < world@.len() ==> small_sphere(#[trigger] world@[i]),
            world@.len() <= 1 + 22 * (a + 11),
        decreases 11 - a,
    {
        let mut b: i64 = -11;
        while b < 11
            invariant
                -11 <= a < 11,
                -11 <= b <= 11,
                world@.len() >= 1,
                world@[0] == ground(),
                all_wf(world@),
                all_fit(world@, 0, ONE as int),
                all_scene(world@),
                forall|i: int| 1 <= i < world@.len() ==> small_sphere(#[trigger] world@[i]),
                world@.len() <= 1 + 22 * (a + 11) + (b + 11),
            decreases 11 - b,
        {
            let choose_mat = random_f32(rng);
            let dx = random_f32(rng);
            let dz = random_f32(rng);
            proof {
                lemma_mul_fraction(900_000, dx as int);
            }
            let center = Point3::new(
                a * ONE + crate::fixed::mul(900_000, dx),
                200_000,
                b * ONE + 900_000 + dz,
            );
            proof {
                assert(x_in_cell(center.x as int, a as int));
                assert(z_in_cell(center.z as int, b as int));
            }
            let radius: i64 = 200_000;
            if center.minus(&Point3::new(4_000_000, 200_000, 0)).length() > 900_000 {
                if choose_mat < 800_000 {
                    let c1 = Color::random(rng);
                    let c2 = Color::random(rng);
                    let albedo = c1.mul_elem(&c2);
                    proof {
                        lemma_mul_fraction(c1.x as int, c2.x as int);
                        lemma_mul_fraction(c1.y as int, c2.y as int);
                        lemma_mul_fraction(c1.z as int, c2.z as int);
                    }
                    let center1 = center.plus(
                        &Vec3::new(0, random_f32_range(rng, 0, 500_000), 0),
                    );
                    push_object(
                        &mut world,
                        Hittable::MovingSphere(
                            MovingSphere {
                                center0: center,
                                center1,
                                time0: 0,
                                time1: ONE,
                                radius,
                                material: Material::Lambertian(Lambertian { albedo }),
                            },
                        ),
                    );
                } else if choose_mat < 950_000 {
                    let albedo = Color::random_range(rng, 500_000, ONE);
                    let fuzz = random_f32_range(rng, 0, 500_000);
                    push_object(
                        &mut world,
                        Hittable::Sphere(
                            Sphere { center, radius, material: Material::Metal(Metal { albedo, fuzz }) },
                        ),
                    );
                } else {
                    push_object(
                        &mut world,
                        Hittable::Sphere(
                            Sphere {
                                center,
                                radius,
                                material: Material::Dialectric(
                                    Dialectric { index_of_refraction: 1_500_000 },
                                ),
                            },
                        ),
                    );
                }
            }
            b += 1;
        }
        a += 1;
    }
    push_object(
        &mut world,
        Hittable::Sphere(
            Sphere {
                center: Point3::new(0, 1_000_000, 0),
                radius: 1_000_000,
                material: Material::Dialectric(Dialectric { index_of_refraction: 1_500_000 }),
            },
        ),
    );
    let glass_at = world.len() - 1;
    push_object(
        &mut world,
        Hittable::Sphere(
            Sphere {
                center: Point3::new(-4_000_000, 1_000_000, 0),
                radius: 1_000_000,
                material: Material::Lambertian(
                    Lambertian { albedo: Color::new(400_000, 200_000, 100_000) },
                ),
            },
        ),
    );
    push_object(
        &mut world,
        Hittable::Sphere(
            Sphere {
                center: Point3::new(4_000_000, 1_000_000, 0),
                radius: 1_000_000,
                material: Material::Metal(
                    Metal { albedo: Color::new(700_000, 600_000, 500_000), fuzz: 0 },
                ),
            },
        ),
    );
    let n = world.len();
    proof {
        assert(scene_list(world@));
        assert(world@[glass_at as int] == glass_ball());
        assert(world@[n - 2] == matte_ball());
        assert(world@[n - 1] == mirror_ball());
        assert(world@[0].leaves() == seq![ground()]);
        assert(world@[0].leaves()[0] == ground());
        assert(world@[glass_at as int].leaves()[0] == glass_ball());
        assert(world@[n - 2].leaves()[0] == matte_ball());
        assert(world@[n - 1].leaves()[0] == mirror_ball());
    }
    let root = BVHNode::new(&world, 0, ONE, rng);
    proof {
        assert forall|x: Hittable| #[trigger] Hittable::BVHNode(root).leaves().contains(x) implies scene_object(x) by {
            let i = choose|i: int| 0 <= i < n && (#[trigger] world@[i]).leaves().contains(x);
            assert(scene_object(world@[i]));
            assert(world@[i].leaves() == seq![world@[i]]);
        }
    }
    proof {
        assert(crate::bvh::leaf_of_range(world@, 0, n as int, ground()));
        assert(crate::bvh::leaf_of_range(world@, 0, n as int, glass_ball()));
        assert(crate::bvh::leaf_of_range(world@, 0, n as int, matte_ball()));
        assert(crate::bvh::leaf_of_range(world@, 0, n as int, mirror_ball()));
    }
    let out = vec![Hittable::BVHNode(root)];
    proof {
        assert(out@[0] == Hittable::BVHNode(root));
    }
    out
}

} // verus!
