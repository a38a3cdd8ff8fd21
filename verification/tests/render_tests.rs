use raytrace::camera::Camera;
use raytrace::color::get_pixel_color;
use raytrace::fixed::ONE;
use raytrace::hittable_list::HittableList;
use raytrace::material::{Lambertian, Material};
use raytrace::ray::Ray;
use raytrace::render::{ray_color, render, sample_pixel};
use raytrace::rng::Rng;
use raytrace::sphere::Sphere;
use raytrace::vec3::Vec3;

/// A classic two-sphere scene: a small diffuse sphere resting on a huge
/// diffuse ground sphere.
fn two_sphere_scene() -> HittableList {
    let mut world = HittableList::new();
    let center_mat = world.add_material(Material::Lambertian(Lambertian::new(Vec3::new(
        45875, 19661, 19661,
    ))));
    let ground_mat = world.add_material(Material::Lambertian(Lambertian::new(Vec3::new(
        52429, 52429, 0,
    ))));
    world.add(Sphere::new(Vec3::new(0, 0, -ONE), ONE / 2, center_mat));
    world.add(Sphere::new(
        Vec3::new(0, -6586368, -ONE),
        100 * ONE,
        ground_mat,
    ));
    world
}

fn default_camera() -> Camera {
    // at the origin, looking down the negative z axis; 90 degree
    // vertical field of view, 16:9 aspect, no aperture
    Camera::new(
        Vec3::new(0, 0, 0),
        Vec3::new(0, 0, -ONE),
        Vec3::new(0, ONE, 0),
        90 * ONE,
        116508,
        0,
        ONE,
    )
}

#[test]
fn zero_depth_is_exactly_black() {
    let world = two_sphere_scene();
    let mut rng = Rng::new(1);
    let ray = Ray::new(Vec3::new(0, 0, 0), Vec3::new(0, 0, -ONE));
    let c = ray_color(&ray, &world, 0, &mut rng);
    assert_eq!(c, Vec3::new(0, 0, 0));
    let weird = Ray::new(Vec3::new(ONE, ONE, ONE), Vec3::new(-ONE, 0, ONE));
    assert_eq!(ray_color(&weird, &world, 0, &mut rng), Vec3::new(0, 0, 0));
}

#[test]
fn missing_everything_gives_the_background_gradient() {
    let world = HittableList::new();
    let mut rng = Rng::new(1);
    // a level ray: the gradient midpoint between white and sky blue
    let level = Ray::new(Vec3::new(0, 0, 0), Vec3::new(0, 0, -ONE));
    let c = ray_color(&level, &world, 8, &mut rng);
    assert_eq!(c, Vec3::new(49152, 55705, ONE));
    // straight up: pure sky blue
    let up = Ray::new(Vec3::new(0, 0, 0), Vec3::new(0, ONE, 0));
    let cu = ray_color(&up, &world, 8, &mut rng);
    assert_eq!(cu, Vec3::new(32768, 45875, ONE));
    // straight down: pure white
    let down = Ray::new(Vec3::new(0, 0, 0), Vec3::new(0, -ONE, 0));
    let cd = ray_color(&down, &world, 8, &mut rng);
    assert_eq!(cd, Vec3::new(ONE, ONE, ONE));
}

#[test]
fn degenerate_rays_gather_no_light() {
    let world = two_sphere_scene();
    let mut rng = Rng::new(1);
    let stuck = Ray::new(Vec3::new(0, 0, 0), Vec3::new(0, 0, 0));
    assert_eq!(ray_color(&stuck, &world, 8, &mut rng), Vec3::new(0, 0, 0));
}

#[test]
fn radiance_stays_in_the_unit_cube() {
    let world = two_sphere_scene();
    let mut rng = Rng::new(77);
    for i in 0..40i64 {
        let dir = Vec3::new((i - 20) * 3277, -ONE / 2, -ONE);
        let ray = Ray::new(Vec3::new(0, 0, 0), dir);
        let c = ray_color(&ray, &world, 16, &mut rng);
        assert!(0 <= c.x() && c.x() <= ONE);
        assert!(0 <= c.y() && c.y() <= ONE);
        assert!(0 <= c.z() && c.z() <= ONE);
    }
}

#[test]
fn pixel_color_averages_clamps_and_scales() {
    // two samples summing to (2.0, 0.0, 10.0): the average (1.0, 0, 5.0)
    // clamps just below 1.0 and scales to bytes
    let sum = Vec3::new(2 * ONE, 0, 10 * ONE);
    assert_eq!(get_pixel_color(sum, 2), (255, 0, 255));
    // a mid gray: 0.5 scales to 128
    assert_eq!(get_pixel_color(Vec3::new(ONE / 2, 0, 0), 1), (128, 0, 0));
    // negative radiance cannot occur, but the clamp still floors it
    assert_eq!(get_pixel_color(Vec3::new(-ONE, -1, 0), 1), (0, 0, 0));
}

#[test]
fn camera_basis_is_orthonormal_for_an_axis_view() {
    let cam = default_camera();
    assert_eq!(cam.w, Vec3::new(0, 0, ONE));
    assert_eq!(cam.u, Vec3::new(ONE, 0, 0));
    assert_eq!(cam.v, Vec3::new(0, ONE, 0));
    assert_eq!(cam.origin, Vec3::new(0, 0, 0));
    assert_eq!(cam.lens_radius, 0);
}

#[test]
fn camera_rays_start_at_the_eye_without_aperture() {
    let cam = default_camera();
    let mut rng = Rng::new(4);
    for (s, t) in [(0, 0), (ONE / 2, ONE / 2), (ONE, ONE)] {
        let r = cam.get_ray(s, t, &mut rng);
        assert_eq!(r.origin(), Vec3::new(0, 0, 0));
    }
    // the centered ray aims straight down the view axis, up to the
    // tangent polynomial's resolution
    let center = cam.get_ray(ONE / 2, ONE / 2, &mut rng);
    let d = center.direction();
    assert!(d.x().abs() <= 8);
    assert!(d.y().abs() <= 8);
    assert!(d.z() < 0);
}

#[test]
fn two_sphere_scenario_renders_sphere_and_sky() {
    // a small render of the two-sphere scene: the background above the
    // horizon must come out blue-dominant, the sphere in the middle
    // reddish-brown
    let world = two_sphere_scene();
    let cam = default_camera();
    let width = 40u32;
    let height = 22u32;
    let mut rng = Rng::new(20231115);
    let (sky_r, _sky_g, sky_b) = sample_pixel(&world, &cam, 20, 21, width, height, 8, 10, &mut rng);
    assert!(sky_b > sky_r);
    let (sph_r, _sph_g, sph_b) =
        sample_pixel(&world, &cam, 20, 11, width, height, 8, 10, &mut rng);
    assert!(sph_r > sph_b);
    // and the two pixels differ visibly
    assert!(sky_b as i32 - sph_b as i32 > 20 || sph_r as i32 - sky_r as i32 > 20);
}

#[test]
fn render_fills_the_whole_buffer() {
    let world = two_sphere_scene();
    let cam = default_camera();
    let buf = render(&world, &cam, 8, 4, 2, 4, 7);
    assert_eq!(buf.len(), 8 * 4 * 3);
    // a render with the same seed is identical; sampling is
    // reproducible end to end
    let again = render(&world, &cam, 8, 4, 2, 4, 7);
    assert_eq!(buf, again);
}
