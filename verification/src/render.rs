//! The color integrator and the sample accumulator.
//!
//! `ray_color` follows a ray through the scene, recursing on scattered
//! rays until the depth budget runs out; `sample_pixel` averages many
//! jittered camera rays into one output pixel; `render` walks the whole
//! image sequentially.  Degenerate rays and hit data that leave the
//! world's coordinate range end a path with zero radiance — absence of a
//! result, never a fault.
//!
//! The integration rule itself is the spec relation `radiance_ok_s`: it
//! quantifies only over the samples the materials draw, so every
//! deterministic consequence (the depth-0 black, the miss gradient, the
//! attenuation product down a path) is pinned by the contracts here.

use vstd::prelude::*;
use crate::fixed::{
    ONE, iabs, tdiv, fclamp_s, fclamp, lemma_fmul_le_one, lemma_fmul_one, lemma_tdiv_abs,
};
use crate::vec3::{
    Vec3, Vec3m, Color, Point3, amax, dot_s, vadd_s, vscale_s, vmul_s, vzero, in01_s, unit_s,
    unit_vector,
};
use crate::ray::{Ray, Raym};
use crate::hittable::{COORD_LIMIT, T_LIMIT, ray_ok_s};
use crate::hittable_list::{HittableList, list_hit_s};
use crate::sphere::Spherem;
use crate::material::{Material, scatter_admissible_s};
use crate::camera::{Camera, Camm, cam_wf_s, get_ray_s};
use crate::color::{get_pixel_color, tone_map_s};
use crate::rng::Rng;
use vstd::arithmetic::div_mod::{lemma_multiply_divide_le, lemma_div_pos_is_pos};

verus! {

/// The lower bound of every scene query: hits nearer than this are
/// rejected to guard against self-intersection caused by rounding at a
/// scattered ray's origin (shadow acne).
pub const SHADOW_EPS: i64 = 66;

/// The background environment light: a vertical gradient from white to
/// sky blue by the clamped normalized y of the ray direction.
pub open spec fn background_s(dir: Vec3m) -> Vec3m {
    let t = fclamp_s(tdiv(unit_s(dir).y + ONE, 2), 0, ONE as int);
    vadd_s(
        vscale_s(Vec3m { x: ONE as int, y: ONE as int, z: ONE as int }, (ONE as int) - t),
        vscale_s(Vec3m { x: 32768, y: 45875, z: ONE as int }, t),
    )
}

/// The radiances the integrator can return for a ray and a depth
/// budget: exactly the integration rule, quantified over the one
/// scatter outcome the hit material draws.  An exhausted budget, an
/// out-of-domain ray or out-of-range hit data gives black; a miss gives
/// the background; a hit gives black on absorption, else the scattered
/// ray's radiance at one less bounce, attenuated by the material.
pub open spec fn radiance_ok_s(
    objs: Seq<Spherem>,
    mats: Seq<Material>,
    r: Raym,
    depth: int,
    c: Vec3m,
) -> bool
    decreases depth,
{
    if depth <= 0 {
        c == vzero()
    } else if !ray_ok_s(r) {
        c == vzero()
    } else {
        match list_hit_s(objs, r, SHADOW_EPS as int, T_LIMIT as int) {
            Option::None => c == background_s(r.dir),
            Option::Some(h) => {
                if !(amax(h.p) <= COORD_LIMIT as int && amax(h.normal) <= 4 * ONE) {
                    c == vzero()
                } else if !(0 <= h.mat < mats.len()) {
                    c == vzero()
                } else {
                    ||| exists|att: Vec3m, sray: Raym, sub: Vec3m|
                        #![trigger scatter_admissible_s(mats[h.mat], r, h, Option::Some((att, sray))), vmul_s(att, sub)]
                        {
                            &&& scatter_admissible_s(mats[h.mat], r, h, Option::Some((att, sray)))
                            &&& in01_s(sub)
                            &&& radiance_ok_s(objs, mats, sray, depth - 1, sub)
                            &&& c == vmul_s(att, sub)
                        }
                    ||| scatter_admissible_s(mats[h.mat], r, h, Option::None) && c == vzero()
                }
            },
        }
    }
}

/// True when every component lies in `[-bound, bound]`.
fn vec_in_range(v: &Vec3, bound: i64) -> (res: bool)
    requires
        bound >= 0,
    ensures
        res == (amax(v@) <= bound),
{
    -bound <= v.x && v.x <= bound && -bound <= v.y && v.y <= bound && -bound <= v.z && v.z
        <= bound
}

/// The estimated radiance carried back along a ray: an admissible
/// radiance per `radiance_ok_s`.
///
/// A zero depth budget yields exactly black, whatever the ray and the
/// scene.  A ray that misses every surface yields exactly the background
/// gradient.  On a hit the material scatters or absorbs; a scattered
/// path recurses with one less bounce and is attenuated by the
/// material's color, so the result never leaves the unit color cube.
pub fn ray_color(r: &Ray, world: &HittableList, depth: u32, rng: &mut Rng) -> (c: Color)
    requires
        world.wf_s(),
    ensures
        radiance_ok_s(world.objs_s(), world.mats_s(), r@, depth as int, c@),
        in01_s(c@),
        depth == 0 ==> c@ == vzero(),
        depth > 0 && ray_ok_s(r@) && list_hit_s(world.objs_s(), r@, SHADOW_EPS as int,
            T_LIMIT as int) is None ==> c@ == background_s(r@.dir),
    decreases depth,
{
    let black: Color = Vec3::new(0, 0, 0);
    if depth == 0 {
        return black;
    }
    let dirv: Vec3 = r.direction();
    let originv: Point3 = r.origin();
    if !vec_in_range(&originv, COORD_LIMIT) || !vec_in_range(&dirv, COORD_LIMIT) {
        return black;
    }
    let dls: i64 = dirv.length_squared();
    if dls < 1 {
        return black;
    }
    proof {
        assert(ray_ok_s(r@));
    }
    match world.hit(r, SHADOW_EPS, T_LIMIT) {
        Option::Some(rec) => {
            if !vec_in_range(&rec.p, COORD_LIMIT) || !vec_in_range(&rec.normal, 4 * ONE) {
                return black;
            }
            proof {
                assert(crate::material::material_wf_s(world.mats_s()[rec.mat as int]));
            }
            let m: Material = world.materials[rec.mat];
            match m.scatter(r, &rec, rng) {
                Option::Some(sc) => {
                    let bounced: Color = ray_color(&sc.ray, world, depth - 1, rng);
                    proof {
                        crate::material::lemma_attenuation_no_gain(sc.attenuation@, bounced@);
                        assert(amax(sc.attenuation@) * amax(bounced@) <= (i64::MAX as int) * (
                        ONE as int)) by (nonlinear_arith)
                            requires
                                0 <= amax(sc.attenuation@) <= (ONE as int),
                                0 <= amax(bounced@) <= (ONE as int),
                                (ONE as int) == 65536,
                        ;
                    }
                    let shaded: Color = sc.attenuation.mul(bounced);
                    proof {
                        assert(scatter_admissible_s(world.mats_s()[rec@.mat], r@, rec@,
                            Option::Some((sc.attenuation@, sc.ray@))));
                        assert(Option::Some(rec@) == list_hit_s(world.objs_s(), r@,
                            SHADOW_EPS as int, T_LIMIT as int));
                        assert(0 <= rec@.mat < world.mats_s().len());
                        assert(in01_s(bounced@) && radiance_ok_s(world.objs_s(), world.mats_s(),
                            sc.ray@, depth as int - 1, bounced@) && shaded@ == vmul_s(
                            sc.attenuation@, bounced@));
                        assert(radiance_ok_s(world.objs_s(), world.mats_s(), r@, depth as int,
                            shaded@));
                    }
                    shaded
                },
                Option::None => {
                    proof {
                        assert(scatter_admissible_s(world.mats_s()[rec@.mat], r@, rec@,
                            Option::None));
                        assert(Option::Some(rec@) == list_hit_s(world.objs_s(), r@,
                            SHADOW_EPS as int, T_LIMIT as int));
                        assert(radiance_ok_s(world.objs_s(), world.mats_s(), r@, depth as int,
                            black@));
                    }
                    black
                },
            }
        },
        Option::None => {
            let unit_dir: Vec3 = unit_vector(dirv);
            let t: i64 = fclamp((unit_dir.y() + ONE) / 2, 0, ONE);
            let white: Color = Vec3::new(ONE, ONE, ONE);
            let sky: Color = Vec3::new(32768, 45875, ONE);
            proof {
                lemma_fmul_one((ONE as int) - t);
                lemma_fmul_one(t as int);
                lemma_fmul_le_one(32768, t as int);
                lemma_fmul_le_one(45875, t as int);
                assert(amax(white@) * iabs((ONE - t) as int) <= (i64::MAX as int) * (ONE as int)
                    && amax(sky@) * iabs(t as int) <= (i64::MAX as int) * (ONE as int))
                    by (nonlinear_arith)
                    requires
                        0 <= amax(white@) <= (ONE as int),
                        0 <= amax(sky@) <= (ONE as int),
                        0 <= iabs((ONE - t) as int) <= (ONE as int),
                        0 <= iabs(t as int) <= (ONE as int),
                        (ONE as int) == 65536,
                ;
            }
            let bg_white: Color = white.scale(ONE - t);
            let bg_sky: Color = sky.scale(t);
            bg_white.add(bg_sky)
        },
    }
}

/// One admissible per-sample radiance for pixel `(px, py)`: the
/// radiance of the camera ray aimed through that pixel's jittered
/// plane coordinates, for some sub-pixel jitter pair and lens-disk
/// sample.
pub open spec fn pixel_sample_ok_s(
    objs: Seq<Spherem>,
    mats: Seq<Material>,
    cam: Camm,
    px: int,
    py: int,
    width: int,
    height: int,
    depth: int,
    col: Vec3m,
) -> bool {
    exists|ju: int, jv: int, rd: Vec3m|
        {
            &&& 0 <= ju < ONE
            &&& 0 <= jv < ONE
            &&& dot_s(rd, rd) < ONE
            &&& rd.z == 0
            &&& radiance_ok_s(
                objs,
                mats,
                #[trigger] get_ray_s(
                    cam,
                    tdiv(px * (ONE as int) + ju, width - 1),
                    tdiv(py * (ONE as int) + jv, height - 1),
                    rd,
                ),
                depth,
                col,
            )
        }
}

/// The componentwise sum of a sequence of radiance samples.
pub open spec fn vsum_s(s: Seq<Vec3m>) -> Vec3m
    decreases s.len(),
{
    if s.len() == 0 {
        vzero()
    } else {
        vadd_s(vsum_s(s.drop_last()), s.last())
    }
}

/// An admissible finished pixel: the tone map of the componentwise sum
/// of `samples` admissible per-sample radiances for that pixel.
pub open spec fn pixel_rgb_ok_s(
    objs: Seq<Spherem>,
    mats: Seq<Material>,
    cam: Camm,
    px: int,
    py: int,
    width: int,
    height: int,
    samples: int,
    depth: int,
    rgb: (u8, u8, u8),
) -> bool {
    exists|samps: Seq<Vec3m>|
        #![trigger vsum_s(samps)]
        {
            &&& samps.len() == samples
            &&& forall|k: int|
                0 <= k < samps.len() ==> in01_s(#[trigger] samps[k]) && pixel_sample_ok_s(
                    objs,
                    mats,
                    cam,
                    px,
                    py,
                    width,
                    height,
                    depth,
                    samps[k],
                )
            &&& rgb.0 == tone_map_s(vsum_s(samps).x, samples)
            &&& rgb.1 == tone_map_s(vsum_s(samps).y, samples)
            &&& rgb.2 == tone_map_s(vsum_s(samps).z, samples)
        }
}

/// One finished pixel: `samples` jittered camera rays are integrated
/// and averaged, then tone mapped.  The bytes are the tone map of the
/// sum of `samples` admissible per-sample radiances for this pixel.
pub fn sample_pixel(
    world: &HittableList,
    cam: &Camera,
    px: u32,
    py: u32,
    width: u32,
    height: u32,
    samples: u32,
    depth: u32,
    rng: &mut Rng,
) -> (rgb: (u8, u8, u8))
    requires
        world.wf_s(),
        cam_wf_s(cam@),
        2 <= width,
        2 <= height,
        px < width,
        py < height,
        1 <= samples,
    ensures
        pixel_rgb_ok_s(world.objs_s(), world.mats_s(), cam@, px as int, py as int, width as int,
            height as int, samples as int, depth as int, rgb),
{
    let mut sum: Color = Vec3::new(0, 0, 0);
    let ghost mut samps: Seq<Vec3m> = Seq::empty();
    let mut i: u32 = 0;
    let wm1: i64 = (width - 1) as i64;
    let hm1: i64 = (height - 1) as i64;
    while i < samples
        invariant
            world.wf_s(),
            cam_wf_s(cam@),
            i <= samples,
            1 <= samples,
            px < width,
            py < height,
            2 <= width,
            2 <= height,
            wm1 == width - 1,
            hm1 == height - 1,
            0 <= sum@.x <= (i as int) * (ONE as int),
            0 <= sum@.y <= (i as int) * (ONE as int),
            0 <= sum@.z <= (i as int) * (ONE as int),
            samps.len() == i as int,
            sum@ == vsum_s(samps),
            forall|k: int|
                0 <= k < samps.len() ==> in01_s(#[trigger] samps[k]) && pixel_sample_ok_s(
                    world.objs_s(),
                    world.mats_s(),
                    cam@,
                    px as int,
                    py as int,
                    width as int,
                    height as int,
                    depth as int,
                    samps[k],
                ),
        decreases samples - i,
    {
        let ju: i64 = rng.next_unit();
        let jv: i64 = rng.next_unit();
        let nu: i64 = (px as i64) * ONE + ju;
        let nv: i64 = (py as i64) * ONE + jv;
        proof {
            assert(0 <= (px as int) * (ONE as int) + (ju as int) <= wm1 * (2 * (ONE as int)))
                by (nonlinear_arith)
                requires
                    0 <= px <= wm1,
                    wm1 >= 1,
                    0 <= ju < ONE,
                    (ONE as int) == 65536,
            ;
            assert(0 <= (py as int) * (ONE as int) + (jv as int) <= hm1 * (2 * (ONE as int)))
                by (nonlinear_arith)
                requires
                    0 <= py <= hm1,
                    hm1 >= 1,
                    0 <= jv < ONE,
                    (ONE as int) == 65536,
            ;
            lemma_tdiv_abs(nu as int, wm1 as int);
            lemma_tdiv_abs(nv as int, hm1 as int);
            lemma_multiply_divide_le(nu as int, wm1 as int, 2 * (ONE as int));
            lemma_multiply_divide_le(nv as int, hm1 as int, 2 * (ONE as int));
            lemma_div_pos_is_pos(nu as int, wm1 as int);
            lemma_div_pos_is_pos(nv as int, hm1 as int);
        }
        let u: i64 = nu / wm1;
        let v: i64 = nv / hm1;
        let ray: Ray = cam.get_ray(u, v, rng);
        let col: Color = ray_color(&ray, world, depth, rng);
        proof {
            let rdw = choose|rd: Vec3m|
                dot_s(rd, rd) < ONE && rd.z == 0 && ray@ == #[trigger] get_ray_s(cam@, u as int,
                    v as int, rd);
            assert(u as int == tdiv((px as int) * (ONE as int) + ju, (width as int) - 1));
            assert(v as int == tdiv((py as int) * (ONE as int) + jv, (height as int) - 1));
            assert(radiance_ok_s(world.objs_s(), world.mats_s(), get_ray_s(cam@,
                tdiv((px as int) * (ONE as int) + ju, (width as int) - 1),
                tdiv((py as int) * (ONE as int) + jv, (height as int) - 1), rdw), depth as int,
                col@));
            assert(pixel_sample_ok_s(world.objs_s(), world.mats_s(), cam@, px as int, py as int,
                width as int, height as int, depth as int, col@));
            assert((i as int) * (ONE as int) + (ONE as int) == ((i + 1) as int) * (ONE as int))
                by (nonlinear_arith);
            assert((i as int) * (ONE as int) <= 0x1_0000_0000_0000) by (nonlinear_arith)
                requires
                    0 <= i <= 0xffff_ffff,
                    (ONE as int) == 65536,
            ;
        }
        sum = sum.add(col);
        proof {
            let prev = samps;
            samps = samps.push(col@);
            assert(samps.drop_last() =~= prev);
            assert(samps.last() == col@);
        }
        i = i + 1;
    }
    let rgb = get_pixel_color(sum, samples);
    proof {
        assert(rgb.0 == tone_map_s(vsum_s(samps).x, samples as int));
        assert(rgb.1 == tone_map_s(vsum_s(samps).y, samples as int));
        assert(rgb.2 == tone_map_s(vsum_s(samps).z, samples as int));
    }
    rgb
}

/// One pixel's slot of a finished render: its three bytes hold an
/// admissible pixel for its position, rows written from the top down.
pub open spec fn render_pixel_ok_s(
    buf: Seq<u8>,
    objs: Seq<Spherem>,
    mats: Seq<Material>,
    cam: Camm,
    row: int,
    col: int,
    width: int,
    height: int,
    samples: int,
    depth: int,
) -> bool {
    let base = 3 * (row * width + col);
    &&& 0 <= base
    &&& base + 2 < buf.len()
    &&& pixel_rgb_ok_s(objs, mats, cam, col, height - 1 - row, width, height, samples, depth,
        (buf[base], buf[base + 1], buf[base + 2]))
}

/// A full sequential render: pixels in row-major order from the top
/// row down, three bytes per pixel, each pixel's bytes an admissible
/// tone-mapped sample average for its position.
pub fn render(
    world: &HittableList,
    cam: &Camera,
    width: u32,
    height: u32,
    samples: u32,
    depth: u32,
    seed: u64,
) -> (buf: Vec<u8>)
    requires
        world.wf_s(),
        cam_wf_s(cam@),
        2 <= width,
        2 <= height,
        1 <= samples,
    ensures
        buf@.len() == 3 * (width as int) * (height as int),
        forall|row: int, col: int|
            0 <= row < height && 0 <= col < width ==> #[trigger] render_pixel_ok_s(buf@,
                world.objs_s(), world.mats_s(), cam@, row, col, width as int, height as int,
                samples as int, depth as int),
{
    let mut rng = Rng::new(seed);
    let mut buf: Vec<u8> = Vec::new();
    let mut row: u32 = 0;
    while row < height
        invariant
            world.wf_s(),
            cam_wf_s(cam@),
            2 <= width,
            2 <= height,
            1 <= samples,
            row <= height,
            buf@.len() == 3 * (row as int) * (width as int),
            forall|r2: int, c2: int|
                0 <= r2 < row && 0 <= c2 < width ==> #[trigger] render_pixel_ok_s(buf@,
                    world.objs_s(), world.mats_s(), cam@, r2, c2, width as int, height as int,
                    samples as int, depth as int),
        decreases height - row,
    {
        let py: u32 = height - 1 - row;
        let mut col: u32 = 0;
        while col < width
            invariant
                world.wf_s(),
                cam_wf_s(cam@),
                2 <= width,
                2 <= height,
                1 <= samples,
                row < height,
                py == height - 1 - row,
                col <= width,
                buf@.len() == 3 * (row as int) * (width as int) + 3 * (col as int),
                forall|r2: int, c2: int|
                    0 <= r2 < row && 0 <= c2 < width ==> #[trigger] render_pixel_ok_s(buf@,
                        world.objs_s(), world.mats_s(), cam@, r2, c2, width as int,
                        height as int, samples as int, depth as int),
                forall|c2: int|
                    0 <= c2 < col ==> #[trigger] render_pixel_ok_s(buf@, world.objs_s(),
                        world.mats_s(), cam@, row as int, c2, width as int, height as int,
                        samples as int, depth as int),
            decreases width - col,
        {
            let ghost buf0 = buf@;
            let (r, g, b) = sample_pixel(world, cam, col, py, width, height, samples, depth,
                &mut rng);
            buf.push(r);
            buf.push(g);
            buf.push(b);
            proof {
                let base = 3 * ((row as int) * (width as int) + (col as int));
                assert(3 * ((row as int) * (width as int) + (col as int)) == 3 * (row as int) * (
                width as int) + 3 * (col as int)) by (nonlinear_arith);
                assert(base == buf0.len());
                assert(buf@[base] == r && buf@[base + 1] == g && buf@[base + 2] == b);
                assert(render_pixel_ok_s(buf@, world.objs_s(), world.mats_s(), cam@, row as int,
                    col as int, width as int, height as int, samples as int, depth as int));
                assert forall|r2: int, c2: int|
                    0 <= r2 < row && 0 <= c2 < width implies #[trigger] render_pixel_ok_s(buf@,
                    world.objs_s(), world.mats_s(), cam@, r2, c2, width as int, height as int,
                    samples as int, depth as int) by {
                    let b2 = 3 * (r2 * (width as int) + c2);
                    assert(render_pixel_ok_s(buf0, world.objs_s(), world.mats_s(), cam@, r2, c2,
                        width as int, height as int, samples as int, depth as int));
                    assert(buf@[b2] == buf0[b2] && buf@[b2 + 1] == buf0[b2 + 1] && buf@[b2 + 2]
                        == buf0[b2 + 2]);
                }
                assert forall|c2: int| 0 <= c2 < col implies #[trigger] render_pixel_ok_s(buf@,
                    world.objs_s(), world.mats_s(), cam@, row as int, c2, width as int,
                    height as int, samples as int, depth as int) by {
                    let b2 = 3 * ((row as int) * (width as int) + c2);
                    assert(render_pixel_ok_s(buf0, world.objs_s(), world.mats_s(), cam@,
                        row as int, c2, width as int, height as int, samples as int,
                        depth as int));
                    assert(buf@[b2] == buf0[b2] && buf@[b2 + 1] == buf0[b2 + 1] && buf@[b2 + 2]
                        == buf0[b2 + 2]);
                }
            }
            col = col + 1;
        }
        proof {
            assert(3 * (row as int) * (width as int) + 3 * (width as int) == 3 * ((row
                + 1) as int) * (width as int)) by (nonlinear_arith);
        }
        row = row + 1;
    }
    proof {
        assert(3 * (height as int) * (width as int) == 3 * (width as int) * (height as int))
            by (nonlinear_arith);
    }
    buf
}

} // verus!
