use rand::rngs::StdRng;
use rand::SeedableRng;
use raytracer::aspect::parse_aspect_ratio;
use raytracer::camera::Camera;
use raytracer::fixed::ONE;
use raytracer::hit::{Hittable, Sphere};
use raytracer::material::{Lambertian, Material};
use raytracer::random::{random_f32, random_f32_range, random_usize};
use raytracer::ray::{background, ray_color, Ray};
use raytracer::render::{assemble, pixel_color, post_process, render_row};
use raytracer::scenes::raytracing_weekend_scene;
use raytracer::vec3::Vec3;

fn one_sphere() -> Vec<Hittable> {
    vec![Hittable::Sphere(Sphere {
        center: Vec3::new(0, 0, -ONE),
        radius: 500_000,
        material: Material::Lambertian(Lambertian { albedo: Vec3::new(500_000, 500_000, 500_000) }),
    })]
}

fn camera() -> Camera {
    Camera::new(
        Vec3::zero(),
        Vec3::new(0, 0, -ONE),
        Vec3::new(0, ONE, 0),
        ONE,
        ONE,
        0,
        ONE,
        0,
        ONE,
    )
}

#[test]
fn depth_zero_is_black() {
    let mut rng = StdRng::seed_from_u64(5);
    let world = one_sphere();
    let r = Ray::new(Vec3::zero(), Vec3::new(0, 0, -ONE), 0);
    assert_eq!(ray_color(&r, &world, 0, &mut rng), Vec3::zero());
    assert_eq!(ray_color(&r, &world, -3, &mut rng), Vec3::zero());
}

#[test]
fn sky_gradient() {
    assert_eq!(background(&Vec3::new(0, ONE, 0)), Vec3::new(500_000, 700_000, ONE));
    assert_eq!(background(&Vec3::new(0, -ONE, 0)), Vec3::new(ONE, ONE, ONE));
    assert_eq!(background(&Vec3::new(0, -1414, 0)), Vec3::new(ONE, ONE, ONE));
    let tiny = background(&Vec3::new(1, -1, 0));
    assert!(tiny.x >= 0 && tiny.x <= ONE && tiny.y >= 0 && tiny.y <= ONE && tiny.z >= 0 && tiny.z <= ONE);
    let mut rng = StdRng::seed_from_u64(5);
    let r = Ray::new(Vec3::zero(), Vec3::new(0, 3 * ONE, 0), 0);
    assert_eq!(ray_color(&r, &one_sphere(), 5, &mut rng), Vec3::new(500_000, 700_000, ONE));
}

#[test]
fn diffuse_hit_darkens() {
    let mut rng = StdRng::seed_from_u64(11);
    let r = Ray::new(Vec3::zero(), Vec3::new(0, 0, -ONE), 0);
    let c = ray_color(&r, &one_sphere(), 10, &mut rng);
    assert!(c.x >= 0 && c.x <= 500_000);
    assert!(c.z >= 0 && c.z <= 500_000);
}

#[test]
fn post_process_gamma_and_cap() {
    assert_eq!(post_process(&Vec3::new(ONE, 0, 250_000), 1), vec![255, 0, 128]);
    assert_eq!(post_process(&Vec3::new(4 * ONE, -ONE, ONE), 4), vec![255, 0, 128]);
}

#[test]
fn camera_centre_ray_looks_ahead() {
    let c = camera();
    let r = c.get_ray_with(500_000, 500_000, &Vec3::zero(), 0);
    assert_eq!(r.orig, Vec3::zero());
    assert_eq!(r.dir, Vec3::new(0, 0, -ONE));
    let corner = c.get_ray_with(0, 0, &Vec3::zero(), 0);
    assert_eq!(corner.dir, Vec3::new(-ONE, -ONE, -ONE));
    let mut rng = StdRng::seed_from_u64(2);
    let g = c.get_ray(500_000, 500_000, &mut rng);
    assert!(g.time >= 0 && g.time < ONE);
    assert_eq!(g.dir, Vec3::new(0, 0, -ONE));
}

#[test]
fn random_draws_stay_in_range() {
    let mut rng = StdRng::seed_from_u64(8);
    for _ in 0..200 {
        let f = random_f32(&mut rng);
        assert!(f >= 0 && f < ONE);
        let g = random_f32_range(&mut rng, -3, 4);
        assert!(g >= -3 && g < 4);
        assert!(random_usize(&mut rng, 0, 3) < 3);
        let p = Vec3::random_in_unit_sphere(&mut rng);
        assert!(p.length_squared() < ONE);
        let d = Vec3::random_in_unit_disk(&mut rng);
        assert!(d.z == 0 && d.length_squared() < ONE);
    }
}

#[test]
fn rows_and_assembly() {
    let mut rng = StdRng::seed_from_u64(4);
    let world = one_sphere();
    let cam = camera();
    let row = render_row(&world, &cam, 1, 4, 3, 2, 5, &mut rng);
    assert_eq!(row.len(), 12);
    let p = pixel_color(&world, &cam, 0, 0, 4, 3, 0, 5, &mut rng);
    assert_eq!(p, Vec3::zero());
    let single = render_row(&world, &cam, 0, 1, 1, 1, 3, &mut rng);
    assert_eq!(single.len(), 3);
    let black = pixel_color(&world, &cam, 1, 1, 4, 3, 5, 0, &mut rng);
    assert_eq!(black, Vec3::zero());
    let rows = vec![vec![1u8, 2], vec![], vec![3]];
    assert_eq!(assemble(&rows), vec![1, 2, 3]);
}

#[test]
fn aspect_ratio_parsing() {
    assert_eq!(parse_aspect_ratio("3:2".as_bytes()), Some(1_500_000));
    assert_eq!(parse_aspect_ratio("16:9".as_bytes()), Some(1_777_777));
    assert_eq!(parse_aspect_ratio("3:0".as_bytes()), None);
    assert_eq!(parse_aspect_ratio("a:2".as_bytes()), None);
    assert_eq!(parse_aspect_ratio("32".as_bytes()), None);
    assert_eq!(parse_aspect_ratio(":2".as_bytes()), None);
    assert_eq!(parse_aspect_ratio("1234567:1".as_bytes()), None);
    assert_eq!(parse_aspect_ratio("1.85:1".as_bytes()), Some(1_850_000));
    assert_eq!(parse_aspect_ratio("2.35:1.0".as_bytes()), Some(2_350_000));
    assert_eq!(parse_aspect_ratio("1.:1".as_bytes()), None);
    assert_eq!(parse_aspect_ratio("1.2.3:1".as_bytes()), None);
    assert_eq!(parse_aspect_ratio("0.000:1".as_bytes()), Some(0));
}

#[test]
fn weekend_scene_renders() {
    let mut rng = StdRng::seed_from_u64(2024);
    let world = raytracing_weekend_scene(&mut rng);
    assert_eq!(world.len(), 1);
    assert!(matches!(world[0], Hittable::BVHNode(_)));
    let r = Ray::new(Vec3::new(13 * ONE, 2 * ONE, 3 * ONE), Vec3::new(-13 * ONE, -2 * ONE, -3 * ONE), 0);
    let hit = world[0].hit(&r, 1000, raytracer::fixed::LIMIT);
    assert!(hit.is_some());
    let c = ray_color(&r, &world, 8, &mut rng);
    assert!(c.x >= 0 && c.y >= 0 && c.z >= 0);
    // Straight down onto the glass ball: the small spheres stay below it.
    let down = Ray::new(Vec3::new(0, 100 * ONE, 0), Vec3::new(0, -ONE, 0), 500_000);
    let top = world[0].hit(&down, 1000, raytracer::fixed::LIMIT).unwrap();
    assert_eq!(top.t, 98 * ONE);
    assert_eq!(top.p, Vec3::new(0, 2 * ONE, 0));
    assert_eq!(top.normal, Vec3::new(0, ONE, 0));
    assert!(top.front_face);
    assert!(matches!(top.material, Material::Dialectric(_)));
}
