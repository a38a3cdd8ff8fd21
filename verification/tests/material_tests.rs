use raytrace::fixed::ONE;
use raytrace::hittable::HitRecord;
use raytrace::material::{Dielectric, Lambertian, Material, Metal};
use raytrace::ray::Ray;
use raytrace::rng::Rng;
use raytrace::vec3::{dot, Vec3};

fn front_hit_at_origin() -> HitRecord {
    let mut rec = HitRecord::new();
    rec.p = Vec3::new(0, 0, 0);
    rec.normal = Vec3::new(0, ONE, 0);
    rec.t = ONE;
    rec.front_face = true;
    rec.mat = 0;
    rec
}

#[test]
fn lambertian_always_scatters_with_its_albedo() {
    let albedo = Vec3::new(ONE / 2, ONE / 4, ONE);
    let mat = Lambertian::new(albedo);
    let rec = front_hit_at_origin();
    let r_in = Ray::new(Vec3::new(0, 2 * ONE, 0), Vec3::new(0, -ONE, 0));
    let mut rng = Rng::new(11);
    for _ in 0..50 {
        let sc = mat.scatter(&r_in, &rec, &mut rng).expect("diffuse never absorbs");
        assert_eq!(sc.attenuation, albedo);
        assert_eq!(sc.ray.origin(), rec.p);
        // the scatter direction leans to the normal's side or falls
        // back to the normal itself, so it never points into the surface
        let d = sc.ray.direction();
        assert!(d.x().abs() <= 6 * ONE && d.y().abs() <= 6 * ONE && d.z().abs() <= 6 * ONE);
    }
}

#[test]
fn metal_with_no_fuzz_reflects_exactly() {
    let albedo = Vec3::new(ONE, ONE, ONE);
    let mat = Metal::new(albedo, 0);
    assert_eq!(mat.fuzz, 0);
    let rec = front_hit_at_origin();
    // incoming at 45 degrees; the unit direction is (0.7071, -0.7071, 0)
    let r_in = Ray::new(Vec3::new(-ONE, ONE, 0), Vec3::new(ONE, -ONE, 0));
    let mut rng = Rng::new(5);
    let sc = mat.scatter(&r_in, &rec, &mut rng).expect("the mirror direction leaves the surface");
    assert_eq!(sc.attenuation, albedo);
    assert_eq!(sc.ray.origin(), rec.p);
    assert_eq!(sc.ray.direction(), Vec3::new(46341, 46341, 0));
}

#[test]
fn metal_fuzz_is_clamped_at_construction() {
    let m = Metal::new(Vec3::new(ONE, ONE, ONE), 3 * ONE);
    assert_eq!(m.fuzz, ONE);
    let m2 = Metal::new(Vec3::new(ONE, ONE, ONE), -ONE);
    assert_eq!(m2.fuzz, 0);
}

#[test]
fn metal_absorbs_grazing_rays_bent_into_the_surface() {
    // full fuzz on a grazing reflection: the perturbed direction can
    // point into the surface, and then the ray is absorbed
    let mat = Metal::new(Vec3::new(ONE, ONE, ONE), ONE);
    let rec = front_hit_at_origin();
    let r_in = Ray::new(Vec3::new(-2 * ONE, 1, 0), Vec3::new(2 * ONE, -1, 0));
    let mut rng = Rng::new(1);
    let mut absorbed = 0u32;
    let mut scattered = 0u32;
    for _ in 0..200 {
        match mat.scatter(&r_in, &rec, &mut rng) {
            Some(sc) => {
                scattered += 1;
                assert!(dot(&sc.ray.direction(), &rec.normal) > 0);
            }
            None => absorbed += 1,
        }
    }
    assert!(absorbed > 0);
    assert!(scattered > 0);
}

#[test]
fn dielectric_with_unit_index_passes_straight_through() {
    let mat = Dielectric::new(ONE);
    assert_eq!(mat.ir, ONE);
    let rec = front_hit_at_origin();
    // normal incidence straight down the surface normal
    let r_in = Ray::new(Vec3::new(0, ONE, 0), Vec3::new(0, -ONE, 0));
    let mut rng = Rng::new(3);
    for _ in 0..20 {
        let sc = mat.scatter(&r_in, &rec, &mut rng).expect("a dielectric never absorbs");
        assert_eq!(sc.attenuation, Vec3::new(ONE, ONE, ONE));
        assert_eq!(sc.ray.origin(), rec.p);
        // no index change and normal incidence: no bending, ever
        assert_eq!(sc.ray.direction(), Vec3::new(0, -ONE, 0));
    }
}

#[test]
fn dielectric_reflects_totally_inside_the_denser_medium() {
    // leaving glass (back face, ratio = ir = 1.5) at a grazing angle
    // forces total internal reflection
    let mat = Dielectric::new(3 * ONE / 2);
    let mut rec = front_hit_at_origin();
    rec.front_face = false;
    let r_in = Ray::new(Vec3::new(-2 * ONE, ONE, 0), Vec3::new(2 * ONE, -ONE, 0));
    let mut rng = Rng::new(9);
    let sc = mat.scatter(&r_in, &rec, &mut rng).expect("a dielectric never absorbs");
    // the direction is the exact mirror reflection of the unit incoming
    // direction: (0.8944, 0.4472, 0) in fixed point
    let d = sc.ray.direction();
    assert!(d.y() > 0);
    assert_eq!(d, Vec3::new(58617, 29308, 0));
}

#[test]
fn energy_is_never_created_by_attenuation() {
    // any radiance attenuated by an in-range albedo can only shrink
    let albedo = Vec3::new(ONE / 2, ONE, 0);
    let radiance = Vec3::new(ONE, ONE / 2, ONE);
    let out = albedo.mul(radiance);
    assert_eq!(out, Vec3::new(ONE / 2, ONE / 2, 0));
    assert!(out.x() <= radiance.x());
    assert!(out.y() <= radiance.y());
    assert!(out.z() <= radiance.z());
}

#[test]
fn material_enum_dispatches_to_its_variant() {
    let rec = front_hit_at_origin();
    let r_in = Ray::new(Vec3::new(0, ONE, 0), Vec3::new(0, -ONE, 0));
    let mut rng = Rng::new(21);
    let lam = Material::Lambertian(Lambertian::new(Vec3::new(ONE / 2, ONE / 2, ONE / 2)));
    let sc = lam.scatter(&r_in, &rec, &mut rng).expect("diffuse never absorbs");
    assert_eq!(sc.attenuation, Vec3::new(ONE / 2, ONE / 2, ONE / 2));
    let die = Material::Dielectric(Dielectric::new(3 * ONE / 2));
    let sc2 = die.scatter(&r_in, &rec, &mut rng).expect("a dielectric never absorbs");
    assert_eq!(sc2.attenuation, Vec3::new(ONE, ONE, ONE));
    let met = Material::Metal(Metal::new(Vec3::new(ONE, 0, 0), 0));
    let sc3 = met.scatter(&r_in, &rec, &mut rng).expect("head-on mirror reflection leaves");
    assert_eq!(sc3.attenuation, Vec3::new(ONE, 0, 0));
    assert_eq!(sc3.ray.direction(), Vec3::new(0, ONE, 0));
}
