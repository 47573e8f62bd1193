use raytrace::camera::Camera;
use raytrace::hittable::HitRecord;
use raytrace::hittable::HittableList;
use raytrace::hittable::Sphere;
use raytrace::material::Fuzz;
use raytrace::material::Lambertian;
use raytrace::material::Material;
use raytrace::material::Metal;
use raytrace::ray::Ray;
use raytrace::render::ray_color;
use raytrace::render::render;
use rand::rngs::StdRng;
use rand::SeedableRng;
use raytrace::vec3::Vec3;
use raytrace::SCALE;

fn v(x: i64, y: i64, z: i64) -> Vec3 {
    Vec3 { x, y, z }
}

fn gray() -> Material {
    Material::Lambertian(Lambertian::new(v(500_000, 500_000, 500_000)))
}

fn two_sphere_world() -> HittableList {
    // the ground sphere and the foreground sphere
    HittableList::new(vec![
        Sphere::new(v(0, -100_500_000, -SCALE), 100_000_000, gray()),
        Sphere::new(v(0, 0, -SCALE), 500_000, gray()),
    ])
}

#[test]
fn ray_color_at_depth_zero_is_black() {
    let mut rng = StdRng::seed_from_u64(1);
    let world = two_sphere_world();
    let rays = [
        Ray::new(v(0, 0, 0), v(0, 0, -SCALE)),
        Ray::new(v(SCALE, SCALE, SCALE), v(0, SCALE, 0)),
        Ray::new(v(0, 0, 0), v(123, -456, 789)),
    ];
    for ray in rays {
        assert_eq!(ray_color(&ray, &world, 0, &mut rng), v(0, 0, 0));
    }
    let empty = HittableList::new(vec![]);
    assert_eq!(ray_color(&rays[0], &empty, 0, &mut rng), v(0, 0, 0));
}

#[test]
fn missing_ray_returns_background_gradient() {
    let mut rng = StdRng::seed_from_u64(2);
    // straight up: the gradient's sky end, exactly
    let up = Ray::new(v(0, 0, 0), v(0, SCALE, 0));
    let expected_sky = v(500_000, 700_000, SCALE);
    let world = two_sphere_world();
    assert_eq!(ray_color(&up, &world, 5, &mut rng), expected_sky);
    // the same color whatever the scene, as long as the ray misses it
    let empty = HittableList::new(vec![]);
    assert_eq!(ray_color(&up, &empty, 5, &mut rng), expected_sky);
    let other = HittableList::new(vec![Sphere::new(v(0, 0, 9 * SCALE), SCALE, gray())]);
    assert_eq!(ray_color(&up, &other, 5, &mut rng), expected_sky);
    // straight down: the gradient's white end, exactly
    let down = Ray::new(v(0, 10 * SCALE, 0), v(0, -SCALE, 0));
    assert_eq!(ray_color(&down, &empty, 5, &mut rng), v(SCALE, SCALE, SCALE));
}

#[test]
fn lambertian_scatter_never_returns_zero_direction() {
    let mut rng = StdRng::seed_from_u64(5);
    let material = Lambertian::new(v(700_000, 300_000, 300_000));
    let rec = HitRecord {
        position: v(0, 0, -500_000),
        normal: v(0, 0, SCALE),
        material: gray(),
        t: 500_000,
        front_face: true,
    };
    let ray = Ray::new(v(0, 0, 0), v(0, 0, -SCALE));
    for _ in 0..300 {
        let s = material.scatter(&ray, &rec, &mut rng).expect("always scatters");
        assert_ne!(s.scattered.direction, v(0, 0, 0));
        assert_eq!(s.scattered.origin, rec.position);
        assert_eq!(s.attenuation, v(700_000, 300_000, 300_000));
    }
}

#[test]
fn metal_without_fuzz_reflects_exactly() {
    let mut rng = StdRng::seed_from_u64(6);
    let material = Metal::new(v(800_000, 800_000, 800_000), Fuzz::new(0));
    let rec = HitRecord {
        position: v(0, 0, -500_000),
        normal: v(0, 0, SCALE),
        material: gray(),
        t: 500_000,
        front_face: true,
    };
    // head-on: reflected straight back
    let ray = Ray::new(v(0, 0, 0), v(0, 0, -SCALE));
    let s = material.scatter(&ray, &rec, &mut rng).expect("reflects");
    assert_eq!(s.scattered.direction, v(0, 0, SCALE));
    // from behind the surface: the reflection points inward and is absorbed
    let inward = Ray::new(v(0, 0, -SCALE), v(0, 0, SCALE));
    assert!(material.scatter(&inward, &rec, &mut rng).is_none());
}

#[test]
fn metal_fuzz_is_clamped() {
    assert_eq!(Fuzz::new(3 * SCALE).value(), SCALE);
    assert_eq!(Fuzz::new(-5).value(), 0);
    assert_eq!(Fuzz::new(300_000).value(), 300_000);
}

#[test]
fn format_color_averages_gamma_corrects_and_clamps() {
    // one sample of a quarter: sqrt(0.25) = 0.5, then 256 * 0.5 = 128
    // a full channel clamps just under one and lands on 255
    let c = v(250_000, SCALE, 0);
    assert_eq!(c.format_color(1), (128, 255, 0));
    // four samples averaging to a quarter
    let acc = v(1_000_000, 4_000_000, 0);
    assert_eq!(acc.format_color(4), (128, 255, 0));
    // negative accumulations clamp to black
    assert_eq!(v(-SCALE, 0, 0).format_color(1), (0, 0, 0));
}

#[test]
fn camera_default_matches_reference_viewport() {
    let c = Camera::default();
    assert_eq!(c.origin, v(0, 0, 0));
    // width = 16/9 * 2 in micro-units
    assert_eq!(c.horizontal, v(3_555_554, 0, 0));
    assert_eq!(c.vertical, v(0, 2_000_000, 0));
    assert_eq!(c.lower_left_corner, v(-1_777_777, -1_000_000, -1_000_000));
}

#[test]
fn camera_ray_through_center_of_viewport() {
    let c = Camera::default();
    let r = c.get_ray(500_000, 500_000);
    assert_eq!(r.origin, v(0, 0, 0));
    assert_eq!(r.direction, v(0, 0, -1_000_000));
}

#[test]
fn render_of_empty_scene_is_pure_background() {
    // with nothing to hit, every sample is the gradient; its blue channel is
    // a full unit for every jitter, which quantizes to 255 in every pixel
    let empty = HittableList::new(vec![]);
    let camera = Camera::default();
    let mut rng = StdRng::seed_from_u64(9);
    let pixels = render(&empty, &camera, 6, 4, 2, 5, &mut rng);
    assert_eq!(pixels.len(), 24);
    for (_r, _g, b) in pixels {
        assert_eq!(b, 255);
    }
}

#[test]
fn render_is_reproducible_for_a_fixed_seed() {
    let world = two_sphere_world();
    let camera = Camera::default();
    let mut rng1 = StdRng::seed_from_u64(42);
    let first = render(&world, &camera, 8, 4, 1, 5, &mut rng1);
    let mut rng2 = StdRng::seed_from_u64(42);
    let second = render(&world, &camera, 8, 4, 1, 5, &mut rng2);
    assert_eq!(first.len(), 32);
    assert_eq!(first, second);
    // a different seed draws different jitter somewhere
    let mut rng3 = StdRng::seed_from_u64(43);
    let third = render(&world, &camera, 8, 4, 1, 5, &mut rng3);
    assert_eq!(third.len(), 32);
}
