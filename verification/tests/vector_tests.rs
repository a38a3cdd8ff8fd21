use raytrace::fixed::{fclamp, fdiv, fmul, fsqrt, ONE};
use raytrace::rng::Rng;
use raytrace::vec3::{
    cross, dot, random_in_hemisphere, random_in_unit_disk, random_in_unit_sphere,
    random_unit_vector, reflect, refract, unit_vector, Vec3,
};

#[test]
fn fixed_multiplication_is_exact() {
    assert_eq!(fmul(3 * ONE, 2 * ONE), 6 * ONE);
    assert_eq!(fmul(ONE / 2, ONE / 2), ONE / 4);
    // truncation is toward zero on negative products: -1.5 becomes -1
    assert_eq!(fmul(-ONE / 2, 3), -1);
    assert_eq!(fmul(0, 12345), 0);
}

#[test]
fn fixed_division_is_exact() {
    assert_eq!(fdiv(ONE, 2 * ONE), ONE / 2);
    assert_eq!(fdiv(ONE, 3 * ONE), 21845);
    assert_eq!(fdiv(-3 * ONE, 2 * ONE), -3 * ONE / 2);
}

#[test]
fn fixed_square_root_is_exact() {
    assert_eq!(fsqrt(0), 0);
    assert_eq!(fsqrt(ONE), ONE);
    assert_eq!(fsqrt(4 * ONE), 2 * ONE);
    // sqrt(2) in 16.16 fixed point, rounded down
    assert_eq!(fsqrt(2 * ONE), 92681);
}

#[test]
fn fixed_clamp() {
    assert_eq!(fclamp(-5, 0, ONE), 0);
    assert_eq!(fclamp(70000, 0, ONE), ONE);
    assert_eq!(fclamp(123, 0, ONE), 123);
}

#[test]
fn vector_arithmetic_componentwise() {
    let a = Vec3::new(ONE, 2 * ONE, -ONE);
    let b = Vec3::new(ONE, -ONE, 3 * ONE);
    assert_eq!(a.add(b), Vec3::new(2 * ONE, ONE, 2 * ONE));
    assert_eq!(a.sub(b), Vec3::new(0, 3 * ONE, -4 * ONE));
    assert_eq!(a.neg(), Vec3::new(-ONE, -2 * ONE, ONE));
    assert_eq!(a.mul(b), Vec3::new(ONE, -2 * ONE, -3 * ONE));
    assert_eq!(a.scale(ONE / 2), Vec3::new(ONE / 2, ONE, -ONE / 2));
    assert_eq!(a.div_by(2 * ONE), Vec3::new(ONE / 2, ONE, -ONE / 2));
}

#[test]
fn vector_accessors_and_from_slice() {
    let a = Vec3::from_slice(&[1, 2, 3]);
    assert_eq!(a.x(), 1);
    assert_eq!(a.y(), 2);
    assert_eq!(a.z(), 3);
}

#[test]
fn dot_and_cross_products() {
    let x = Vec3::new(ONE, 0, 0);
    let y = Vec3::new(0, ONE, 0);
    let z = Vec3::new(0, 0, ONE);
    assert_eq!(dot(&x, &x), ONE);
    assert_eq!(dot(&x, &y), 0);
    assert_eq!(cross(&x, &y), z);
    assert_eq!(cross(&y, &z), x);
    assert_eq!(cross(&z, &x), y);
}

#[test]
fn length_of_unit_axes() {
    let z = Vec3::new(0, 0, ONE);
    assert_eq!(z.length_squared(), ONE);
    assert_eq!(z.length(), ONE);
    let d = Vec3::new(3 * ONE, 4 * ONE, 0);
    assert_eq!(d.length(), 5 * ONE);
}

#[test]
fn unit_vector_normalizes_and_guards_zero() {
    let d = Vec3::new(3 * ONE, 4 * ONE, 0);
    let u = unit_vector(d);
    assert_eq!(u, Vec3::new(39321, 52428, 0));
    // the zero vector cannot be normalized and maps to itself
    assert_eq!(unit_vector(Vec3::new(0, 0, 0)), Vec3::new(0, 0, 0));
}

#[test]
fn reflect_mirrors_about_normal() {
    let v = Vec3::new(ONE, -ONE, 0);
    let n = Vec3::new(0, ONE, 0);
    assert_eq!(reflect(&v, &n), Vec3::new(ONE, ONE, 0));
}

#[test]
fn refract_straight_through_at_unit_ratio() {
    // normal incidence with no index change: the direction is unchanged
    let n = Vec3::new(0, 0, ONE);
    let uv = Vec3::new(0, 0, -ONE);
    assert_eq!(refract(&uv, &n, ONE), uv);
}

#[test]
fn near_zero_detects_degenerate_directions() {
    assert!(Vec3::new(0, 0, 0).near_zero());
    assert!(Vec3::new(3, -2, 1).near_zero());
    assert!(!Vec3::new(ONE, 0, 0).near_zero());
    assert!(!Vec3::new(-ONE, -ONE, -ONE).near_zero());
}

#[test]
fn random_samplers_stay_in_their_domains() {
    let mut rng = Rng::new(7);
    for _ in 0..200 {
        let p = random_in_unit_sphere(&mut rng);
        let ls = p.length_squared();
        assert!(ls < ONE);
        let d = random_in_unit_disk(&mut rng);
        assert!(d.length_squared() < ONE);
        assert_eq!(d.z(), 0);
        let u = random_unit_vector(&mut rng);
        // unit length up to rounding, and never degenerate
        assert!(u.x().abs() <= ONE + 16 && u.y().abs() <= ONE + 16 && u.z().abs() <= ONE + 16);
        assert!(u.length_squared() >= 1);
        let n = Vec3::new(0, ONE, 0);
        let h = random_in_hemisphere(&n, &mut rng);
        assert!(dot(&h, &n) >= 0);
    }
}

#[test]
fn random_components_are_in_range() {
    let mut rng = Rng::new(42);
    for _ in 0..100 {
        let v = Vec3::random(&mut rng);
        assert!(0 <= v.x() && v.x() < ONE);
        assert!(0 <= v.y() && v.y() < ONE);
        assert!(0 <= v.z() && v.z() < ONE);
        let w = Vec3::random_range(&mut rng, -ONE, ONE);
        assert!(-ONE <= w.x() && w.x() <= ONE);
        assert!(-ONE <= w.y() && w.y() <= ONE);
        assert!(-ONE <= w.z() && w.z() <= ONE);
    }
}

#[test]
fn rng_is_reproducible_from_a_seed() {
    let mut a = Rng::new(12345);
    let mut b = Rng::new(12345);
    for _ in 0..50 {
        assert_eq!(a.next_unit(), b.next_unit());
    }
    let mut c = Rng::new(0);
    let first = c.next_unit();
    assert!(0 <= first && first < ONE);
    let mut d = Rng::new(99);
    for _ in 0..50 {
        let r = d.next_range(-2 * ONE, 3 * ONE);
        assert!(-2 * ONE <= r && r <= 3 * ONE);
    }
}
