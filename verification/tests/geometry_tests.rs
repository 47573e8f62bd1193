use raytrace::hittable::HitRecord;
use raytrace::hittable::HittableList;
use raytrace::hittable::Sphere;
use raytrace::hittable::T_MAX;
use raytrace::material::Lambertian;
use raytrace::material::Material;
use raytrace::ray::Ray;
use raytrace::vec3::Vec3;
use raytrace::SCALE;

fn v(x: i64, y: i64, z: i64) -> Vec3 {
    Vec3 { x, y, z }
}

fn gray() -> Material {
    Material::Lambertian(Lambertian::new(v(500_000, 500_000, 500_000)))
}

#[test]
fn sphere_hit_head_on() {
    // a ray from the origin toward -z against a half-unit sphere one unit
    // away hits at t = 0.5, on the front face, with the +z outward normal
    let sphere = Sphere::new(v(0, 0, -SCALE), 500_000, gray());
    let ray = Ray::new(v(0, 0, 0), v(0, 0, -SCALE));
    let rec = sphere.hit(&ray, 0, T_MAX).expect("must hit");
    assert_eq!(rec.t, 500_000);
    assert_eq!(rec.position, v(0, 0, -500_000));
    assert_eq!(rec.normal, v(0, 0, SCALE));
    assert!(rec.front_face);
}

#[test]
fn sphere_hit_from_inside_flips_normal() {
    // from the center of a sphere, the far root is taken and the stored
    // normal is turned against the ray
    let sphere = Sphere::new(v(0, 0, 0), SCALE, gray());
    let ray = Ray::new(v(0, 0, 0), v(0, 0, -SCALE));
    let rec = sphere.hit(&ray, 0, T_MAX).expect("must hit");
    assert_eq!(rec.t, SCALE);
    assert_eq!(rec.position, v(0, 0, -SCALE));
    assert_eq!(rec.normal, v(0, 0, SCALE));
    assert!(!rec.front_face);
}

#[test]
fn sphere_miss_reports_none() {
    let sphere = Sphere::new(v(0, 0, -SCALE), 500_000, gray());
    let up = Ray::new(v(0, 0, 0), v(0, SCALE, 0));
    assert!(sphere.hit(&up, 0, T_MAX).is_none());
    // in range but behind the near edge
    let toward = Ray::new(v(0, 0, 0), v(0, 0, -SCALE));
    assert!(sphere.hit(&toward, 2 * SCALE, T_MAX).is_none());
}

#[test]
fn sphere_hit_window_prunes_far_hits() {
    let sphere = Sphere::new(v(0, 0, -4 * SCALE), 500_000, gray());
    let ray = Ray::new(v(0, 0, 0), v(0, 0, -SCALE));
    // the hit sits at t = 3.5
    let rec = sphere.hit(&ray, 0, T_MAX).expect("must hit");
    assert_eq!(rec.t, 3_500_000);
    assert!(sphere.hit(&ray, 0, 3 * SCALE).is_none());
}

#[test]
fn list_returns_nearest_hit() {
    let near = Sphere::new(v(0, 0, -2 * SCALE), 500_000, gray());
    let far = Sphere::new(v(0, 0, -4 * SCALE), 500_000, gray());
    let ray = Ray::new(v(0, 0, 0), v(0, 0, -SCALE));
    let world = HittableList::new(vec![near, far]);
    let rec = world.hit(&ray, 0, T_MAX).expect("must hit");
    assert_eq!(rec.t, 1_500_000);
    assert_eq!(rec.position, v(0, 0, -1_500_000));
}

#[test]
fn list_hit_independent_of_insertion_order() {
    let a = Sphere::new(v(0, 0, -2 * SCALE), 500_000, gray());
    let b = Sphere::new(v(0, 0, -4 * SCALE), 500_000, gray());
    let c = Sphere::new(v(0, 3 * SCALE, -3 * SCALE), SCALE, gray());
    let ray = Ray::new(v(0, 0, 0), v(0, 0, -SCALE));
    let orders = [
        vec![a, b, c],
        vec![a, c, b],
        vec![b, a, c],
        vec![b, c, a],
        vec![c, a, b],
        vec![c, b, a],
    ];
    let reference: Option<HitRecord> = HittableList::new(vec![a, b, c]).hit(&ray, 0, T_MAX);
    for order in orders {
        let got = HittableList::new(order).hit(&ray, 0, T_MAX);
        assert_eq!(got, reference);
    }
    assert_eq!(reference.expect("must hit").t, 1_500_000);
}

#[test]
fn empty_list_never_hits() {
    let world = HittableList::new(vec![]);
    let ray = Ray::new(v(0, 0, 0), v(0, 0, -SCALE));
    assert!(world.hit(&ray, 0, T_MAX).is_none());
}

#[test]
fn hit_record_orientation_rule() {
    let ray_out = Ray::new(v(0, 0, 0), v(0, 0, -SCALE));
    let outward = v(0, 0, SCALE);
    let rec = HitRecord::new(gray(), v(0, 0, -500_000), 500_000, &ray_out, &outward);
    assert!(rec.front_face);
    assert_eq!(rec.normal, outward);

    let ray_in = Ray::new(v(0, 0, 0), v(0, 0, SCALE));
    let rec2 = HitRecord::new(gray(), v(0, 0, 500_000), 500_000, &ray_in, &outward);
    assert!(!rec2.front_face);
    assert_eq!(rec2.normal, v(0, 0, -SCALE));
}

#[test]
fn ray_at_walks_the_parameter() {
    let ray = Ray::new(v(SCALE, 0, 0), v(0, 0, -SCALE));
    assert_eq!(ray.at(0), v(SCALE, 0, 0));
    assert_eq!(ray.at(500_000), v(SCALE, 0, -500_000));
    assert_eq!(ray.at(2 * SCALE), v(SCALE, 0, -2 * SCALE));
}
