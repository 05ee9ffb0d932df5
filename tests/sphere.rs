use rand::rngs::StdRng;
use rand::SeedableRng;
use raytracer::fixed::{LIMIT, ONE};
use raytracer::hit::{hit_list, BVHNode, Hittable, MovingSphere, Sphere};
use raytracer::material::{Lambertian, Material};
use raytracer::ray::Ray;
use raytracer::vec3::Vec3;

fn grey() -> Material {
    Material::Lambertian(Lambertian { albedo: Vec3::new(500_000, 500_000, 500_000) })
}

fn sphere(x: i64, y: i64, z: i64, radius: i64) -> Sphere {
    Sphere { center: Vec3::new(x, y, z), radius, material: grey() }
}

#[test]
fn sphere_ahead_is_hit_at_half() {
    let s = sphere(0, 0, -ONE, 500_000);
    let r = Ray::new(Vec3::zero(), Vec3::new(0, 0, -ONE), 0);
    let rec = s.hit(&r, 0, LIMIT).unwrap();
    assert_eq!(rec.t, 500_000);
    assert_eq!(rec.p, Vec3::new(0, 0, -500_000));
    assert_eq!(rec.normal, Vec3::new(0, 0, ONE));
    assert!(rec.front_face);
}

#[test]
fn sphere_hit_at_distance_minus_radius() {
    let s = sphere(7 * ONE, 0, 0, 2 * ONE);
    let r = Ray::new(Vec3::zero(), Vec3::new(ONE, 0, 0), 0);
    assert_eq!(s.hit(&r, 0, LIMIT).unwrap().t, 5 * ONE);
}

#[test]
fn sphere_offset_ray_misses() {
    let s = sphere(7 * ONE, 2_100_000, 0, 2 * ONE);
    let r = Ray::new(Vec3::zero(), Vec3::new(ONE, 0, 0), 0);
    assert!(s.hit(&r, 0, LIMIT).is_none());
}

#[test]
fn sphere_hit_from_inside_faces_ray() {
    let s = sphere(0, 0, 0, ONE);
    let r = Ray::new(Vec3::zero(), Vec3::new(0, ONE, 0), 0);
    let rec = s.hit(&r, 1000, LIMIT).unwrap();
    assert_eq!(rec.t, ONE);
    assert!(!rec.front_face);
    assert_eq!(rec.normal, Vec3::new(0, -ONE, 0));
    assert!(Vec3::dot(&r.dir, &rec.normal) <= 0);
}

#[test]
fn sphere_behind_interval_misses() {
    let s = sphere(0, 0, -ONE, 500_000);
    let r = Ray::new(Vec3::zero(), Vec3::new(0, 0, -ONE), 0);
    assert!(s.hit(&r, 0, 400_000).is_none());
    assert_eq!(s.hit(&r, 600_000, LIMIT).unwrap().t, 1_500_000);
}

#[test]
fn zero_direction_meets_nothing() {
    let s = sphere(0, 0, 0, ONE);
    let r = Ray::new(Vec3::zero(), Vec3::zero(), 0);
    assert!(s.hit(&r, 0, LIMIT).is_none());
}

#[test]
fn moving_sphere_center_interpolates() {
    let m = MovingSphere {
        center0: Vec3::new(0, 0, 0),
        center1: Vec3::new(0, 2 * ONE, 0),
        time0: 0,
        time1: ONE,
        radius: 500_000,
        material: grey(),
    };
    assert_eq!(m.center(500_000), Vec3::new(0, ONE, 0));
    assert_eq!(m.center(2 * ONE), Vec3::new(0, 4 * ONE, 0));
    let b = m.bounding_box(0, ONE).unwrap();
    assert_eq!(b.minimum, Vec3::new(-500_000, -500_000, -500_000));
    assert_eq!(b.maximum, Vec3::new(500_000, 2_500_000, 500_000));
    let r = Ray::new(Vec3::new(0, ONE, 5 * ONE), Vec3::new(0, 0, -ONE), 500_000);
    assert_eq!(m.hit(&r, 0, LIMIT).unwrap().t, 4_500_000);
}

#[test]
fn nearest_of_two_spheres_wins() {
    let far = Hittable::Sphere(sphere(0, 0, -5 * ONE, ONE));
    let near = Hittable::Sphere(sphere(0, 0, -2 * ONE, 500_000));
    let objects = vec![far, near];
    let r = Ray::new(Vec3::zero(), Vec3::new(0, 0, -ONE), 0);
    let rec = hit_list(&objects, &r, 0, LIMIT).unwrap();
    assert_eq!(rec.t, 1_500_000);
    let mut rng = StdRng::seed_from_u64(1);
    let root = BVHNode::new(&objects, 0, ONE, &mut rng);
    assert_eq!(root.hit(&r, 0, LIMIT).unwrap().t, 1_500_000);
}

#[test]
fn bvh_agrees_with_linear_scan() {
    let mut objects = Vec::new();
    for i in 0..9i64 {
        for j in 0..3i64 {
            objects.push(Hittable::Sphere(sphere(i * ONE - 4 * ONE, j * ONE - ONE, -(i + j + 3) * ONE, 400_000)));
        }
    }
    let mut rng = StdRng::seed_from_u64(42);
    let root = Hittable::BVHNode(BVHNode::new(&objects, 0, ONE, &mut rng));
    for k in 0..40i64 {
        let dir = Vec3::new(k * 50_000 - ONE, (k % 7) * 100_000 - 300_000, -ONE);
        let r = Ray::new(Vec3::zero(), dir, 0);
        let a = root.hit(&r, 1000, LIMIT).map(|h| h.t);
        let b = hit_list(&objects, &r, 1000, LIMIT).map(|h| h.t);
        assert_eq!(a, b);
    }
}

#[test]
fn bvh_of_one_object() {
    let s = Hittable::Sphere(sphere(0, 0, -ONE, 500_000));
    let mut rng = StdRng::seed_from_u64(3);
    let root = BVHNode::new(&vec![s], 0, ONE, &mut rng);
    let b = root.bounding_box(0, ONE).unwrap();
    assert_eq!(b.minimum, Vec3::new(-500_000, -500_000, -1_500_000));
    assert_eq!(b.maximum, Vec3::new(500_000, 500_000, -500_000));
    let r = Ray::new(Vec3::zero(), Vec3::new(0, 0, -ONE), 0);
    assert_eq!(root.hit(&r, 0, LIMIT).unwrap().t, 500_000);
}

#[test]
fn empty_list_meets_nothing() {
    let r = Ray::new(Vec3::zero(), Vec3::new(0, 0, -ONE), 0);
    assert!(hit_list(&Vec::new(), &r, 0, LIMIT).is_none());
}

#[test]
fn ray_at_parameter() {
    let r = Ray::new(Vec3::new(ONE, 0, 0), Vec3::new(0, 2 * ONE, -ONE), 0);
    assert_eq!(r.at(1_500_000), Vec3::new(ONE, 3 * ONE, -1_500_000));
}
