use raytracer::fixed::{self, LIMIT, ONE};
use raytracer::util::{clamp, degrees_to_radians, PI};
use raytracer::vec3::Vec3;

#[test]
fn vec3_it_works() {
    assert_eq!(2 + 2, 4);
}

#[test]
fn not_simd_it_works() {
    assert_eq!(2 + 2, 4);
}

#[test]
fn simd_it_works() {
    assert_eq!(2 + 2, 4);
}

#[test]
fn fixed_point_arithmetic() {
    assert_eq!(fixed::mul(1_500_000, 2 * ONE), 3 * ONE);
    assert_eq!(fixed::mul(-1_500_000, 500_000), -750_000);
    assert_eq!(fixed::div(ONE, 4 * ONE), 250_000);
    assert_eq!(fixed::div(-ONE, 3 * ONE), -333_333);
    assert_eq!(fixed::sqrt(4 * ONE), 2 * ONE);
    assert_eq!(fixed::sqrt(2 * ONE), 1_414_213);
    assert_eq!(fixed::isqrt(99), 9);
}

#[test]
fn fixed_point_saturates() {
    assert_eq!(fixed::add(LIMIT, ONE), LIMIT);
    assert_eq!(fixed::sub(-LIMIT, ONE), -LIMIT);
    assert_eq!(fixed::mul(LIMIT, LIMIT), LIMIT);
    assert_eq!(fixed::div(LIMIT, 1), LIMIT);
}

#[test]
fn dot_cross_length() {
    let a = Vec3::new(ONE, 2 * ONE, 3 * ONE);
    let b = Vec3::new(4 * ONE, -5 * ONE, 6 * ONE);
    assert_eq!(Vec3::dot(&a, &b), 12 * ONE);
    assert_eq!(Vec3::cross(&a, &b), Vec3::new(27 * ONE, 6 * ONE, -13 * ONE));
    let c = Vec3::new(3 * ONE, 4 * ONE, 0);
    assert_eq!(c.length_squared(), 25 * ONE);
    assert_eq!(c.length(), 5 * ONE);
    assert_eq!(a.plus(&b), Vec3::new(5 * ONE, -3 * ONE, 9 * ONE));
    assert_eq!(a.minus(&b), Vec3::new(-3 * ONE, 7 * ONE, -3 * ONE));
    assert_eq!(a.scale(500_000), Vec3::new(500_000, ONE, 1_500_000));
    assert_eq!(a.index(2), 3 * ONE);
}

#[test]
fn unit_vector_divides_by_length() {
    let c = Vec3::new(3 * ONE, 4 * ONE, 0);
    assert_eq!(Vec3::unit_vector(&c), Vec3::new(600_000, 800_000, 0));
    let z = Vec3::zero();
    assert_eq!(Vec3::unit_vector(&z), z);
}

#[test]
fn reflect_mirrors_about_normal() {
    let v = Vec3::new(ONE, -ONE, 0);
    let n = Vec3::new(0, ONE, 0);
    assert_eq!(Vec3::reflect(&v, &n), Vec3::new(ONE, ONE, 0));
}

#[test]
fn refract_straight_through() {
    let v = Vec3::new(0, -ONE, 0);
    let n = Vec3::new(0, ONE, 0);
    assert_eq!(Vec3::refract(&v, &n, ONE), Vec3::new(0, -ONE, 0));
}

#[test]
fn near_zero_within_one_unit() {
    assert!(Vec3::new(1, -1, 0).near_zero());
    assert!(!Vec3::new(2, 0, 0).near_zero());
}

#[test]
fn degrees_and_clamp() {
    assert_eq!(degrees_to_radians(180 * ONE), PI);
    assert_eq!(degrees_to_radians(90 * ONE), 1_570_796);
    assert_eq!(clamp(5, 0, 3), 3);
    assert_eq!(clamp(-5, 0, 3), 0);
    assert_eq!(clamp(2, 0, 3), 2);
}

#[test]
fn unit_vector_of_short_vectors() {
    assert_eq!(Vec3::unit_vector(&Vec3::new(1, 1, 0)), Vec3::new(707_107, 707_107, 0));
    assert_eq!(Vec3::unit_vector(&Vec3::new(0, -1414, 0)), Vec3::new(0, -ONE, 0));
    assert_eq!(Vec3::unit_vector(&Vec3::new(0, 0, 3)), Vec3::new(0, 0, ONE));
    let u = Vec3::unit_vector(&Vec3::new(LIMIT, -LIMIT, LIMIT));
    assert_eq!(u, Vec3::new(577_350, -577_350, 577_350));
}
