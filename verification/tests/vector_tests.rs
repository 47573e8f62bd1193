use raytrace::material::reflect;
use rand::rngs::StdRng;
use rand::SeedableRng;
use raytrace::vec3::Vec3;
use raytrace::SCALE;

fn v(x: i64, y: i64, z: i64) -> Vec3 {
    Vec3 { x, y, z }
}

#[test]
fn dot_equals_length_squared() {
    let samples = [
        v(0, 0, 0),
        v(SCALE, 0, 0),
        v(1, -2, 3),
        v(3_000_000, 4_000_000, 0),
        v(-123_456, 654_321, -999_999),
        v(1_000_000_000, -1_000_000_000, 500_000_000),
    ];
    for a in samples {
        assert_eq!(a.dot(&a), a.length_squared());
    }
}

#[test]
fn normalize_exact_on_pythagorean_vector() {
    let a = v(3_000_000, 4_000_000, 0);
    let u = a.normalized();
    assert_eq!(u, v(600_000, 800_000, 0));
    assert_eq!(u.length(), SCALE);
}

#[test]
fn normalize_unit_length_within_tolerance() {
    // at micro-unit resolution the unit length is met to about 1e-5
    let samples = [
        v(SCALE, SCALE, 0),
        v(-SCALE, 2 * SCALE, 3 * SCALE),
        v(10_000_000, -20_000_000, 15_000_000),
        v(123_456_789, 987_654_321, -555_555_555),
    ];
    for a in samples {
        let len = a.normalized().length();
        assert!((len - SCALE).abs() <= 10, "length {} off unit", len);
    }
}

#[test]
fn reflect_preserves_length_for_axis_normal() {
    let a = v(1_234_567, -765_432, 2_000_001);
    let n = v(0, 0, SCALE);
    let r = reflect(&a, &n);
    assert_eq!(r, v(1_234_567, -765_432, -2_000_001));
    assert_eq!(r.length(), a.length());
}

#[test]
fn reflect_preserves_length_within_tolerance_for_unit_normal() {
    let n = v(SCALE, SCALE, 0).normalized();
    let a = v(SCALE, 0, 0);
    let r = reflect(&a, &n);
    assert!((r.length() - a.length()).abs() <= 100);
}

#[test]
fn cross_of_axes_gives_third_axis() {
    let x = v(SCALE, 0, 0);
    let y = v(0, SCALE, 0);
    assert_eq!(x.cross(&y), v(0, 0, SCALE));
    assert_eq!(y.cross(&x), v(0, 0, -SCALE));
}

#[test]
fn near_zero_only_below_one_micro_unit() {
    assert!(v(0, 0, 0).near_zero());
    assert!(!v(1, 0, 0).near_zero());
    assert!(!v(0, -1, 0).near_zero());
    assert!(!v(SCALE, SCALE, SCALE).near_zero());
}

#[test]
fn zero_and_one_constants() {
    assert_eq!(Vec3::zero(), v(0, 0, 0));
    assert_eq!(Vec3::one(), v(SCALE, SCALE, SCALE));
}

#[test]
fn elementwise_arithmetic() {
    let a = v(2_000_000, -3_000_000, 500_000);
    let b = v(1_000_000, 1_000_000, 2_000_000);
    assert_eq!(a.add(b), v(3_000_000, -2_000_000, 2_500_000));
    assert_eq!(a.sub(b), v(1_000_000, -4_000_000, -1_500_000));
    assert_eq!(a.neg(), v(-2_000_000, 3_000_000, -500_000));
    assert_eq!(a.mul(b), v(2_000_000, -3_000_000, 1_000_000));
    assert_eq!(a.scale(500_000), v(1_000_000, -1_500_000, 250_000));
    assert_eq!(a.div_scalar(2_000_000), v(1_000_000, -1_500_000, 250_000));
}

#[test]
fn dot_truncates_once() {
    // 0.5*0.5 + 0.5*0.5 + 0 = 0.5 exactly
    let a = v(500_000, 500_000, 0);
    assert_eq!(a.dot(&a), 500_000);
    // truncation happens on the summed product, toward zero
    let b = v(1, 1, 1);
    assert_eq!(b.dot(&b), 0);
    let c = v(-1_000, 0, 0);
    assert_eq!(c.dot(&c), 1);
}

#[test]
fn random_in_unit_sphere_stays_inside() {
    let mut rng = StdRng::seed_from_u64(7);
    for _ in 0..200 {
        let s = Vec3::random_in_unit_sphere(&mut rng);
        assert!(s.length_squared() < SCALE);
        assert!(s.x.abs() <= SCALE && s.y.abs() <= SCALE && s.z.abs() <= SCALE);
    }
}

#[test]
fn random_unit_vector_has_unit_length() {
    // the contract brackets the length within [-7, +4] micro-units of one
    let mut rng = StdRng::seed_from_u64(11);
    for _ in 0..200 {
        let u = Vec3::random_unit_vector(&mut rng);
        let len = u.length();
        assert!(SCALE - 7 <= len && len <= SCALE + 4);
    }
}

#[test]
fn random_range_is_not_identity() {
    // a one-step range pins the sample down: the generator call must
    // actually draw from the range it is given
    let mut rng = StdRng::seed_from_u64(3);
    let s = Vec3::random(5, 6, &mut rng);
    assert_eq!(s, v(5, 5, 5));
    let t = Vec3::random(-2, 7, &mut rng);
    assert!(-2 <= t.x && t.x < 7);
    assert!(-2 <= t.y && t.y < 7);
    assert!(-2 <= t.z && t.z < 7);
}
