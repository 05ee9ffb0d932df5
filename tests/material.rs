use rand::rngs::StdRng;
use rand::SeedableRng;
use raytracer::fixed::ONE;
use raytracer::hit::HitRecord;
use raytracer::material::{reflectance, Dialectric, Lambertian, Material, Metal};
use raytracer::ray::Ray;
use raytracer::vec3::Vec3;

fn record(front_face: bool, material: Material) -> HitRecord {
    HitRecord { p: Vec3::new(0, 0, 0), normal: Vec3::new(0, ONE, 0), t: ONE, front_face, material }
}

#[test]
fn schlick_reflectance_at_normal_incidence() {
    assert_eq!(reflectance(ONE, 1_500_000), 40_000);
    assert_eq!(reflectance(0, ONE), ONE);
}

#[test]
fn lambertian_scatters_around_normal() {
    let albedo = Vec3::new(500_000, 400_000, 300_000);
    let l = Lambertian { albedo };
    let rec = record(true, Material::Lambertian(l));
    let ray = Ray::new(Vec3::new(0, ONE, 0), Vec3::new(0, -ONE, 0), 250_000);
    let (scattered, att) = l.scatter_with(&ray, &rec, &Vec3::new(ONE, 0, 0));
    assert_eq!(att, albedo);
    let s = scattered.unwrap();
    assert_eq!(s.dir, Vec3::new(ONE, ONE, 0));
    assert_eq!(s.orig, rec.p);
    assert_eq!(s.time, 250_000);
}

#[test]
fn lambertian_cancelled_direction_falls_back_to_normal() {
    let l = Lambertian { albedo: Vec3::new(ONE, ONE, ONE) };
    let rec = record(true, Material::Lambertian(l));
    let ray = Ray::new(Vec3::new(0, ONE, 0), Vec3::new(0, -ONE, 0), 0);
    let (scattered, _) = l.scatter_with(&ray, &rec, &Vec3::new(0, -ONE, 0));
    assert_eq!(scattered.unwrap().dir, Vec3::new(0, ONE, 0));
}

#[test]
fn metal_reflects_and_absorbs_into_surface() {
    let albedo = Vec3::new(700_000, 600_000, 500_000);
    let m = Metal { albedo, fuzz: 0 };
    let rec = record(true, Material::Metal(m));
    let ray = Ray::new(Vec3::new(-ONE, ONE, 0), Vec3::new(3 * ONE, -4 * ONE, 0), 0);
    let (scattered, att) = m.scatter_with(&ray, &rec, &Vec3::zero());
    assert_eq!(att, albedo);
    assert_eq!(scattered.unwrap().dir, Vec3::new(600_000, 800_000, 0));
    let rough = Metal { albedo, fuzz: ONE };
    let (absorbed, att2) = rough.scatter_with(&ray, &rec, &Vec3::new(0, -ONE, 0));
    assert!(absorbed.is_none());
    assert_eq!(att2, albedo);
}

#[test]
fn attenuation_never_exceeds_one() {
    let mut rng = StdRng::seed_from_u64(9);
    let ray = Ray::new(Vec3::new(0, ONE, 0), Vec3::new(0, -ONE, 0), 0);
    for m in [
        Material::Lambertian(Lambertian { albedo: Vec3::new(ONE, 0, 999_999) }),
        Material::Metal(Metal { albedo: Vec3::new(ONE, ONE, 0), fuzz: 300_000 }),
    ] {
        let rec = record(true, m);
        for _ in 0..20 {
            let (_, att) = m.scatter(&ray, &rec, &mut rng);
            assert!(att.x <= ONE && att.y <= ONE && att.z <= ONE);
        }
    }
}

#[test]
fn dielectric_total_internal_reflection() {
    let d = Dialectric { index_of_refraction: 1_500_000 };
    // Leaving the glass (back face) at a grazing angle.
    let rec = record(false, Material::Dialectric(d));
    let ray = Ray::new(Vec3::new(-ONE, 100_000, 0), Vec3::new(ONE, -100_000, 0), 0);
    let (low, att) = d.scatter_with(&ray, &rec, 0);
    let (high, _) = d.scatter_with(&ray, &rec, ONE - 1);
    assert_eq!(att, Vec3::new(ONE, ONE, ONE));
    let low = low.unwrap();
    assert_eq!(low, high.unwrap());
    let unit = Vec3::unit_vector(&ray.dir);
    assert_eq!(low.dir, Vec3::reflect(&unit, &rec.normal));
    assert!(low.dir.y > 0);
}

#[test]
fn dielectric_refracts_head_on() {
    let d = Dialectric { index_of_refraction: 1_500_000 };
    let rec = record(true, Material::Dialectric(d));
    let ray = Ray::new(Vec3::new(0, ONE, 0), Vec3::new(0, -ONE, 0), 0);
    // Schlick gives 0.04 head on: a draw above it refracts straight through.
    let (through, _) = d.scatter_with(&ray, &rec, 500_000);
    assert_eq!(through.unwrap().dir, Vec3::new(0, -ONE, 0));
    let (back, _) = d.scatter_with(&ray, &rec, 0);
    assert_eq!(back.unwrap().dir, Vec3::new(0, ONE, 0));
}

#[test]
fn dielectric_reflects_under_critical_angle_whatever_the_draw() {
    let d = Dialectric { index_of_refraction: 1_500_000 };
    let rec = record(false, Material::Dialectric(d));
    let ray = Ray::new(Vec3::zero(), Vec3::new(4 * ONE, -3 * ONE, 0), 0);
    let mut rng = StdRng::seed_from_u64(21);
    for _ in 0..10 {
        let (s, att) = d.scatter(&ray, &rec, &mut rng);
        assert_eq!(att, Vec3::new(ONE, ONE, ONE));
        let s = s.unwrap();
        assert_eq!(s.orig, rec.p);
        assert_eq!(s.dir, Vec3::new(800_000, 600_000, 0));
        assert_eq!(s.time, 0);
    }
}

#[test]
fn polished_metal_is_a_mirror() {
    let m = Metal { albedo: Vec3::new(800_000, 800_000, 800_000), fuzz: 0 };
    let rec = record(true, Material::Metal(m));
    let ray = Ray::new(Vec3::zero(), Vec3::new(3 * ONE, -4 * ONE, 0), 0);
    let mut rng = StdRng::seed_from_u64(22);
    for _ in 0..10 {
        let (s, att) = m.scatter(&ray, &rec, &mut rng);
        assert_eq!(att, m.albedo);
        assert_eq!(s.unwrap().dir, Vec3::new(600_000, 800_000, 0));
    }
}
