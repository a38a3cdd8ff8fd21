use raytrace::fixed::ONE;
use raytrace::hittable::{HitRecord, T_LIMIT};
use raytrace::hittable_list::HittableList;
use raytrace::material::{Lambertian, Material};
use raytrace::ray::Ray;
use raytrace::sphere::Sphere;
use raytrace::vec3::{dot, Vec3};

fn gray_scene() -> HittableList {
    let mut world = HittableList::new();
    world.add_material(Material::Lambertian(Lambertian::new(Vec3::new(
        ONE / 2,
        ONE / 2,
        ONE / 2,
    ))));
    world
}

#[test]
fn sphere_hit_reports_the_algebraic_root() {
    // a unit-direction ray from the origin at a sphere half a unit wide,
    // one unit down the axis: the near root is t = 0.5 exactly
    let sphere = Sphere::new(Vec3::new(0, 0, -ONE), ONE / 2, 0);
    let ray = Ray::new(Vec3::new(0, 0, 0), Vec3::new(0, 0, -ONE));
    let rec = sphere.hit(&ray, 0, T_LIMIT).expect("the ray points at the sphere");
    assert_eq!(rec.t, ONE / 2);
    assert_eq!(rec.p, Vec3::new(0, 0, -ONE / 2));
    // the normal is an exact unit vector parallel to hit point - center
    assert_eq!(rec.normal, Vec3::new(0, 0, ONE));
    assert_eq!(dot(&rec.normal, &rec.normal), ONE);
    assert!(rec.front_face);
    assert_eq!(rec.mat, 0);
}

#[test]
fn sphere_miss_reports_nothing() {
    let sphere = Sphere::new(Vec3::new(0, 0, -ONE), ONE / 2, 0);
    let away = Ray::new(Vec3::new(0, 0, 0), Vec3::new(0, 0, ONE));
    assert!(away.at(0) == Vec3::new(0, 0, 0));
    assert!(sphere.hit(&away, 0, T_LIMIT).is_none());
    let sideways = Ray::new(Vec3::new(3 * ONE, 0, 0), Vec3::new(0, 0, -ONE));
    assert!(sphere.hit(&sideways, 0, T_LIMIT).is_none());
}

#[test]
fn sphere_hit_respects_the_interval() {
    let sphere = Sphere::new(Vec3::new(0, 0, -ONE), ONE / 2, 0);
    let ray = Ray::new(Vec3::new(0, 0, 0), Vec3::new(0, 0, -ONE));
    // the near root is 0.5 and the far root is 1.5; excluding the near
    // root makes the far one the answer
    let rec = sphere.hit(&ray, ONE, T_LIMIT).expect("the far root is in range");
    assert_eq!(rec.t, 3 * ONE / 2);
    assert!(!rec.front_face);
    // the stored normal opposes the ray also on the back face
    assert_eq!(rec.normal, Vec3::new(0, 0, ONE));
    // an interval beyond both roots reports nothing
    assert!(sphere.hit(&ray, 2 * ONE, T_LIMIT).is_none());
}

#[test]
fn aggregate_returns_the_nearest_hit_not_the_first() {
    let mut world = gray_scene();
    let near = Sphere::new(Vec3::new(0, 0, -2 * ONE), ONE / 2, 0);
    let far = Sphere::new(Vec3::new(0, 0, -5 * ONE), ONE / 2, 0);
    // deliberately add the far sphere first
    world.add(far);
    world.add(near);
    let ray = Ray::new(Vec3::new(0, 0, 0), Vec3::new(0, 0, -ONE));
    let rec = world.hit(&ray, 0, T_LIMIT).expect("both spheres are on the ray");
    assert_eq!(rec.t, 3 * ONE / 2);
    // the aggregate's answer matches the near member queried alone, and
    // beats the far member queried alone
    let alone_near = near.hit(&ray, 0, T_LIMIT).unwrap();
    let alone_far = far.hit(&ray, 0, T_LIMIT).unwrap();
    assert_eq!(rec.t, alone_near.t);
    assert_eq!(rec.p, alone_near.p);
    assert!(alone_far.t > rec.t);
}

#[test]
fn aggregate_with_overlapping_spheres_still_picks_the_smallest_t() {
    let mut world = gray_scene();
    // two overlapping spheres along the ray
    let a = Sphere::new(Vec3::new(0, 0, -2 * ONE), ONE, 0);
    let b = Sphere::new(Vec3::new(0, 0, -5 * ONE / 2), ONE, 0);
    world.add(b);
    world.add(a);
    let ray = Ray::new(Vec3::new(0, 0, 0), Vec3::new(0, 0, -ONE));
    let rec = world.hit(&ray, 0, T_LIMIT).expect("overlapping spheres are on the ray");
    assert_eq!(rec.t, ONE);
    let ta = a.hit(&ray, 0, T_LIMIT).unwrap().t;
    let tb = b.hit(&ray, 0, T_LIMIT).unwrap().t;
    assert_eq!(rec.t, ta.min(tb));
}

#[test]
fn empty_aggregate_reports_nothing() {
    let world = HittableList::new();
    let ray = Ray::new(Vec3::new(0, 0, 0), Vec3::new(0, 0, -ONE));
    assert!(world.hit(&ray, 0, T_LIMIT).is_none());
}

#[test]
fn clear_removes_every_member() {
    let mut world = gray_scene();
    world.add(Sphere::new(Vec3::new(0, 0, -2 * ONE), ONE / 2, 0));
    let ray = Ray::new(Vec3::new(0, 0, 0), Vec3::new(0, 0, -ONE));
    assert!(world.hit(&ray, 0, T_LIMIT).is_some());
    world.clear();
    assert!(world.hit(&ray, 0, T_LIMIT).is_none());
}

#[test]
fn hit_record_face_normal_orientation() {
    let mut rec = HitRecord::new();
    let outward = Vec3::new(0, 0, ONE);
    let against = Ray::new(Vec3::new(0, 0, 0), Vec3::new(0, 0, -ONE));
    rec.set_face_normal(&against, &outward);
    assert!(rec.front_face);
    assert_eq!(rec.normal, outward);
    let along = Ray::new(Vec3::new(0, 0, 0), Vec3::new(0, 0, ONE));
    rec.set_face_normal(&along, &outward);
    assert!(!rec.front_face);
    assert_eq!(rec.normal, Vec3::new(0, 0, -ONE));
}

#[test]
fn ray_accessors_and_at() {
    let r = Ray::new(Vec3::new(ONE, 0, 0), Vec3::new(0, 2 * ONE, 0));
    assert_eq!(r.origin(), Vec3::new(ONE, 0, 0));
    assert_eq!(r.direction(), Vec3::new(0, 2 * ONE, 0));
    assert_eq!(r.at(ONE / 2), Vec3::new(ONE, ONE, 0));
}
