use raytracer::aabb::AABB;
use raytracer::fixed::{LIMIT, ONE};
use raytracer::ray::Ray;
use raytracer::vec3::Vec3;

fn unit_box() -> AABB {
    AABB { minimum: Vec3::new(-ONE, -ONE, -ONE), maximum: Vec3::new(ONE, ONE, ONE) }
}

#[test]
fn surrounding_box_takes_extremes() {
    let a = AABB { minimum: Vec3::new(0, -ONE, 2 * ONE), maximum: Vec3::new(ONE, 0, 3 * ONE) };
    let b = AABB { minimum: Vec3::new(-ONE, 0, 0), maximum: Vec3::new(0, 2 * ONE, ONE) };
    let s = AABB::surrounding_box(&a, &b);
    assert_eq!(s.minimum, Vec3::new(-ONE, -ONE, 0));
    assert_eq!(s.maximum, Vec3::new(ONE, 2 * ONE, 3 * ONE));
    assert_eq!(AABB::surrounding_box(&b, &a), s);
}

#[test]
fn box_hit_from_inside_any_direction() {
    let b = unit_box();
    let dirs = [
        Vec3::new(ONE, 0, 0),
        Vec3::new(-ONE, 0, 0),
        Vec3::new(0, 0, -3),
        Vec3::new(ONE, -2 * ONE, 5),
        Vec3::new(0, 0, 0),
    ];
    for d in dirs.iter() {
        let r = Ray::new(Vec3::new(100_000, -200_000, 300_000), *d, 0);
        assert!(b.hit(&r, 0, LIMIT));
    }
}

#[test]
fn box_missed_from_outside() {
    let b = unit_box();
    let away = Ray::new(Vec3::new(0, 0, 5 * ONE), Vec3::new(0, 0, ONE), 0);
    assert!(!b.hit(&away, 0, LIMIT));
    let toward = Ray::new(Vec3::new(0, 0, 5 * ONE), Vec3::new(0, 0, -ONE), 0);
    assert!(toward.dir.z < 0);
    assert!(b.hit(&toward, 0, LIMIT));
    assert!(!b.hit(&toward, 0, 3 * ONE));
    let beside = Ray::new(Vec3::new(2 * ONE, 0, 5 * ONE), Vec3::new(0, 0, -ONE), 0);
    assert!(!b.hit(&beside, 0, LIMIT));
}

#[test]
fn box_parallel_ray_on_face_passes() {
    let b = unit_box();
    let r = Ray::new(Vec3::new(ONE, 0, 5 * ONE), Vec3::new(0, 0, -ONE), 0);
    assert!(b.hit(&r, 0, LIMIT));
}

#[test]
fn box_empty_interval_misses() {
    let b = unit_box();
    let r = Ray::new(Vec3::new(0, 0, 0), Vec3::new(ONE, 0, 0), 0);
    assert!(!b.hit(&r, ONE, ONE));
}
