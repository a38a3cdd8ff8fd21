//! The camera: maps normalized image-plane coordinates to world rays,
//! with lens-aperture jitter for depth of field.
//!
//! The vertical field of view passes through degree-to-radian conversion
//! and a polynomial tangent; both are specified exactly as fixed-point
//! evaluations, so the derived viewport basis is pinned by
//! `make_camera_s`.

use vstd::prelude::*;
use crate::fixed::{
    ONE, iabs, tdiv, fmul_s, fdiv_s, fmul, fdiv,
    lemma_tdiv_abs, lemma_tdiv_bound, lemma_fmul_bound,
};
use crate::vec3::{
    Vec3, Vec3m, Point3, amax, dot_s, vadd_s, vsub_s, vscale_s, vdivk_s, cross_s, unit_s,
    unit_vector, cross, random_in_unit_disk, lemma_div_cap,
};
use crate::ray::{Ray, Raym};
use crate::hittable::COORD_LIMIT;
use crate::rng::Rng;
use vstd::arithmetic::mul::{lemma_mul_upper_bound, lemma_mul_inequality};
use vstd::arithmetic::div_mod::{lemma_div_nonincreasing, lemma_multiply_divide_le};

verus! {

/// Pi in 16.16 fixed point.
pub const PI_FX: i64 = 205887;

/// Degrees to radians: `deg * pi / 180`.
pub open spec fn deg_to_rad_s(deg: int) -> int {
    fdiv_s(fmul_s(deg, PI_FX as int), 180 * (ONE as int))
}

/// A degree-7 sine polynomial: `x - x^3/6 + x^5/120 - x^7/5040`.
pub open spec fn sin_poly_s(x: int) -> int {
    let x2 = fmul_s(x, x);
    let x3 = fmul_s(x2, x);
    let x5 = fmul_s(x3, x2);
    let x7 = fmul_s(x5, x2);
    x - tdiv(x3, 6) + tdiv(x5, 120) - tdiv(x7, 5040)
}

/// A degree-6 cosine polynomial: `1 - x^2/2 + x^4/24 - x^6/720`.
pub open spec fn cos_poly_s(x: int) -> int {
    let x2 = fmul_s(x, x);
    let x4 = fmul_s(x2, x2);
    let x6 = fmul_s(x4, x2);
    (ONE as int) - tdiv(x2, 2) + tdiv(x4, 24) - tdiv(x6, 720)
}

/// The viewport half-height `tan(theta/2)`, with a unit fallback when
/// the polynomial cosine is not positive (which a field of view below
/// a straight angle never reaches).
pub open spec fn half_height_s(v_fov: int) -> int {
    let half = tdiv(deg_to_rad_s(v_fov), 2);
    let cosh = cos_poly_s(half);
    if cosh >= 1 {
        fdiv_s(sin_poly_s(half), cosh)
    } else {
        ONE as int
    }
}

/// The mathematical-integer model of a camera.
pub ghost struct Camm {
    pub origin: Vec3m,
    pub lower_left_corner: Vec3m,
    pub horizontal: Vec3m,
    pub vertical: Vec3m,
    pub lens_radius: int,
    pub w: Vec3m,
    pub u: Vec3m,
    pub v: Vec3m,
}

/// The whole derived camera state from its construction parameters.
pub open spec fn make_camera_s(
    look_from: Vec3m,
    look_at: Vec3m,
    v_up: Vec3m,
    v_fov: int,
    aspect_ratio: int,
    aperture: int,
    focus_dist: int,
) -> Camm {
    let h = half_height_s(v_fov);
    let viewport_height = 2 * h;
    let viewport_width = fmul_s(viewport_height, aspect_ratio);
    let w = unit_s(vsub_s(look_from, look_at));
    let u = unit_s(cross_s(v_up, w));
    let v = cross_s(w, u);
    let horizontal = vscale_s(u, fmul_s(focus_dist, viewport_width));
    let vertical = vscale_s(v, fmul_s(focus_dist, viewport_height));
    let lower_left_corner = vsub_s(
        vsub_s(vsub_s(look_from, vdivk_s(horizontal, 2 * (ONE as int))),
            vdivk_s(vertical, 2 * (ONE as int))),
        vscale_s(w, focus_dist),
    );
    Camm {
        origin: look_from,
        lower_left_corner,
        horizontal,
        vertical,
        lens_radius: tdiv(aperture, 2),
        w,
        u,
        v,
    }
}

/// The bounds a constructed camera guarantees, enough for every ray
/// computation to stay in range.
pub open spec fn cam_wf_s(c: Camm) -> bool {
    &&& amax(c.origin) <= COORD_LIMIT as int
    &&& amax(c.lower_left_corner) <= 0x20_0000_0000_0000
    &&& amax(c.horizontal) <= 0x10_0000_0000_0000
    &&& amax(c.vertical) <= 0x10_0000_0000_0000
    &&& 0 <= c.lens_radius <= COORD_LIMIT as int
    &&& amax(c.u) <= 2 * ONE
    &&& amax(c.v) <= 0x8_0000
    &&& amax(c.w) <= 2 * ONE
}

/// The ray through plane coordinates `(s, t)` for the lens-disk sample
/// `rd`.
pub open spec fn get_ray_s(c: Camm, s: int, t: int, rd: Vec3m) -> Raym {
    let rds = vscale_s(rd, c.lens_radius);
    let offset = vadd_s(vscale_s(c.u, rds.x), vscale_s(c.v, rds.y));
    Raym {
        origin: vadd_s(c.origin, offset),
        dir: vsub_s(
            vsub_s(
                vadd_s(vadd_s(c.lower_left_corner, vscale_s(c.horizontal, s)),
                    vscale_s(c.vertical, t)),
                c.origin,
            ),
            offset,
        ),
    }
}

#[derive(Clone, Copy, Debug)]
pub struct Camera {
    pub origin: Point3,
    pub lower_left_corner: Point3,
    pub horizontal: Vec3,
    pub vertical: Vec3,
    pub lens_radius: i64,
    pub w: Vec3,
    pub u: Vec3,
    pub v: Vec3,
}

impl View for Camera {
    type V = Camm;

    open spec fn view(&self) -> Camm {
        Camm {
            origin: self.origin@,
            lower_left_corner: self.lower_left_corner@,
            horizontal: self.horizontal@,
            vertical: self.vertical@,
            lens_radius: self.lens_radius as int,
            w: self.w@,
            u: self.u@,
            v: self.v@,
        }
    }
}

/// Degrees to radians, exact per `deg_to_rad_s`.
fn deg_to_rad(deg: i64) -> (r: i64)
    requires
        0 <= deg <= 180 * ONE,
    ensures
        r == deg_to_rad_s(deg as int),
        0 <= r <= 4 * ONE,
{
    proof {
        lemma_mul_upper_bound(iabs(deg as int), 11796480, PI_FX as int, 205887);
        lemma_fmul_bound(deg as int, PI_FX as int, 11796480, 205887);
        lemma_div_cap(11796480int * 205887, 37059660);
    }
    let m: i64 = fmul(deg, PI_FX);
    proof {
        assert(iabs(m as int) * (ONE as int) <= (i64::MAX as int) * (180 * (ONE as int)))
            by (nonlinear_arith)
            requires
                0 <= iabs(m as int) <= 37059660,
                (ONE as int) == 65536,
        ;
        lemma_tdiv_bound((m as int) * (ONE as int), 180 * (ONE as int), 37059660 * (ONE as int));
        assert(iabs((m as int) * (ONE as int)) == iabs(m as int) * (ONE as int))
            by (nonlinear_arith);
        lemma_mul_inequality(iabs(m as int), 37059660, ONE as int);
        assert(iabs(tdiv((m as int) * (ONE as int), 180 * (ONE as int))) <= 4 * (ONE as int))
            by (nonlinear_arith)
            requires
                iabs(tdiv((m as int) * (ONE as int), 180 * (ONE as int))) * (180 * (ONE as int))
                    <= 37059660 * (ONE as int),
                (ONE as int) == 65536,
        ;
        lemma_tdiv_abs((deg as int) * (PI_FX as int), ONE as int);
        assert((deg as int) * (PI_FX as int) >= 0) by (nonlinear_arith)
            requires
                deg >= 0,
        ;
        lemma_tdiv_abs((m as int) * (ONE as int), 180 * (ONE as int));
        assert((m as int) * (ONE as int) >= 0) by (nonlinear_arith)
            requires
                m >= 0,
                (ONE as int) == 65536,
        ;
    }
    fdiv(m, 180 * ONE)
}

/// The sine polynomial, exact per `sin_poly_s`.
fn sin_fx(x: i64) -> (r: i64)
    requires
        -4 * ONE <= x <= 4 * ONE,
    ensures
        r == sin_poly_s(x as int),
        iabs(r as int) <= 32 * ONE,
{
    proof {
        lemma_mul_upper_bound(iabs(x as int), 262144, iabs(x as int), 262144);
        lemma_fmul_bound(x as int, x as int, 262144, 262144);
        lemma_div_cap(262144int * 262144, 1048576);
    }
    let x2: i64 = fmul(x, x);
    proof {
        lemma_mul_upper_bound(iabs(x2 as int), 1048576, iabs(x as int), 262144);
        lemma_fmul_bound(x2 as int, x as int, 1048576, 262144);
        lemma_div_cap(1048576int * 262144, 4194304);
    }
    let x3: i64 = fmul(x2, x);
    proof {
        lemma_mul_upper_bound(iabs(x3 as int), 4194304, iabs(x2 as int), 1048576);
        lemma_fmul_bound(x3 as int, x2 as int, 4194304, 1048576);
        lemma_div_cap(4194304int * 1048576, 67108864);
    }
    let x5: i64 = fmul(x3, x2);
    proof {
        lemma_mul_upper_bound(iabs(x5 as int), 67108864, iabs(x2 as int), 1048576);
        lemma_fmul_bound(x5 as int, x2 as int, 67108864, 1048576);
        lemma_div_cap(67108864int * 1048576, 1073741824);
        lemma_tdiv_abs(x3 as int, 6);
        lemma_div_nonincreasing(iabs(x3 as int), 6);
        lemma_tdiv_abs(x5 as int, 120);
        lemma_div_nonincreasing(iabs(x5 as int), 120);
    }
    let x7: i64 = fmul(x5, x2);
    proof {
        lemma_tdiv_abs(x7 as int, 5040);
        lemma_div_nonincreasing(iabs(x7 as int), 5040);
    }
    x - x3 / 6 + x5 / 120 - x7 / 5040
}

/// The cosine polynomial, exact per `cos_poly_s`.
fn cos_fx(x: i64) -> (r: i64)
    requires
        -4 * ONE <= x <= 4 * ONE,
    ensures
        r == cos_poly_s(x as int),
        iabs(r as int) <= 32 * ONE,
{
    proof {
        lemma_mul_upper_bound(iabs(x as int), 262144, iabs(x as int), 262144);
        lemma_fmul_bound(x as int, x as int, 262144, 262144);
        lemma_div_cap(262144int * 262144, 1048576);
    }
    let x2: i64 = fmul(x, x);
    proof {
        lemma_mul_upper_bound(iabs(x2 as int), 1048576, iabs(x2 as int), 1048576);
        lemma_fmul_bound(x2 as int, x2 as int, 1048576, 1048576);
        lemma_div_cap(1048576int * 1048576, 16777216);
    }
    let x4: i64 = fmul(x2, x2);
    proof {
        lemma_mul_upper_bound(iabs(x4 as int), 16777216, iabs(x2 as int), 1048576);
        lemma_fmul_bound(x4 as int, x2 as int, 16777216, 1048576);
        lemma_div_cap(16777216int * 1048576, 268435456);
        lemma_tdiv_abs(x2 as int, 2);
        lemma_div_nonincreasing(iabs(x2 as int), 2);
        lemma_tdiv_abs(x4 as int, 24);
        lemma_div_nonincreasing(iabs(x4 as int), 24);
    }
    let x6: i64 = fmul(x4, x2);
    proof {
        lemma_tdiv_abs(x6 as int, 720);
        lemma_div_nonincreasing(iabs(x6 as int), 720);
    }
    ONE - x2 / 2 + x4 / 24 - x6 / 720
}

impl Camera {
    /// Builds the camera from eye position, look-at point, up vector,
    /// vertical field of view in degrees, aspect ratio, aperture and
    /// focus distance, exactly per `make_camera_s`.
    pub fn new(
        look_from: Point3,
        look_at: Point3,
        v_up: Vec3,
        v_fov: i64,
        aspect_ratio: i64,
        aperture: i64,
        focus_dist: i64,
    ) -> (cam: Camera)
        requires
            amax(look_from@) <= COORD_LIMIT as int,
            amax(look_at@) <= COORD_LIMIT as int,
            amax(v_up@) <= COORD_LIMIT as int,
            0 < v_fov <= 180 * ONE,
            0 < aspect_ratio <= 8 * ONE,
            0 <= aperture <= COORD_LIMIT,
            1 <= focus_dist <= COORD_LIMIT,
        ensures
            cam@ == make_camera_s(look_from@, look_at@, v_up@, v_fov as int, aspect_ratio as int,
                aperture as int, focus_dist as int),
            cam_wf_s(cam@),
    {
        let theta: i64 = deg_to_rad(v_fov);
        let half: i64 = theta / 2;
        let sinv: i64 = sin_fx(half);
        let cosv: i64 = cos_fx(half);
        let h: i64 = if cosv >= 1 {
            proof {
                assert(iabs(sinv as int) * (ONE as int) <= (i64::MAX as int) * (cosv as int))
                    by (nonlinear_arith)
                    requires
                        iabs(sinv as int) <= 32 * (ONE as int),
                        cosv >= 1,
                        (ONE as int) == 65536,
                ;
                lemma_tdiv_abs((sinv as int) * (ONE as int), cosv as int);
                lemma_div_nonincreasing(iabs((sinv as int) * (ONE as int)), cosv as int);
                assert(iabs((sinv as int) * (ONE as int)) == iabs(sinv as int) * (ONE as int))
                    by (nonlinear_arith);
                lemma_mul_inequality(iabs(sinv as int), 32 * ONE as int, ONE as int);
                assert(32 * (ONE as int) * (ONE as int) <= 0x20_0000_0000) by (nonlinear_arith)
                    requires
                        (ONE as int) == 65536,
                ;
            }
            fdiv(sinv, cosv)
        } else {
            ONE
        };
        let viewport_height: i64 = 2 * h;
        proof {
            lemma_mul_upper_bound(iabs(viewport_height as int), 0x40_0000_0000, iabs(
                aspect_ratio as int), 8 * ONE as int);
            lemma_fmul_bound(viewport_height as int, aspect_ratio as int, 0x40_0000_0000,
                8 * ONE as int);
            lemma_div_cap(0x40_0000_0000 * (8 * (ONE as int)), 0x200_0000_0000);
        }
        let viewport_width: i64 = fmul(viewport_height, aspect_ratio);
        let w: Vec3 = unit_vector(look_from.sub(look_at));
        proof {
            assert(amax(v_up@) * amax(w@) <= 0x2000_0000_0000_0000 * (ONE as int)
                && amax(v_up@) * amax(w@) <= 0x800_0000 * (ONE as int)) by (nonlinear_arith)
                requires
                    0 <= amax(v_up@) <= 0x400_0000,
                    0 <= amax(w@) <= 2 * (ONE as int),
                    (ONE as int) == 65536,
            ;
            lemma_div_cap(amax(v_up@) * amax(w@), 0x800_0000);
        }
        let cu: Vec3 = cross(&v_up, &w);
        let u: Vec3 = unit_vector(cu);
        proof {
            assert(amax(w@) * amax(u@) <= 0x2000_0000_0000_0000 * (ONE as int) && amax(w@) * amax(
            u@) <= 0x4_0000 * (ONE as int)) by (nonlinear_arith)
                requires
                    0 <= amax(w@) <= 2 * (ONE as int),
                    0 <= amax(u@) <= 2 * (ONE as int),
                    (ONE as int) == 65536,
            ;
            lemma_div_cap(amax(w@) * amax(u@), 0x4_0000);
        }
        let v: Vec3 = cross(&w, &u);
        proof {
            lemma_mul_upper_bound(iabs(focus_dist as int), COORD_LIMIT as int, iabs(
                viewport_width as int), 0x200_0000_0000);
            lemma_fmul_bound(focus_dist as int, viewport_width as int, COORD_LIMIT as int,
                0x200_0000_0000);
            lemma_div_cap((COORD_LIMIT as int) * 0x200_0000_0000, 0x8_0000_0000_0000);
        }
        let fvw: i64 = fmul(focus_dist, viewport_width);
        proof {
            lemma_mul_upper_bound(amax(u@), 2 * ONE as int, iabs(fvw as int), 0x8_0000_0000_0000);
            assert(2 * (ONE as int) * 0x8_0000_0000_0000 <= 0x10_0000_0000_0000 * (ONE as int))
                by (nonlinear_arith)
                requires
                    (ONE as int) == 65536,
            ;
            lemma_div_cap(amax(u@) * iabs(fvw as int), 0x10_0000_0000_0000);
        }
        let horizontal: Vec3 = u.scale(fvw);
        proof {
            lemma_mul_upper_bound(iabs(focus_dist as int), COORD_LIMIT as int, iabs(
                viewport_height as int), 0x40_0000_0000);
            lemma_fmul_bound(focus_dist as int, viewport_height as int, COORD_LIMIT as int,
                0x40_0000_0000);
            lemma_div_cap((COORD_LIMIT as int) * 0x40_0000_0000, 0x1_0000_0000_0000);
        }
        let fvh: i64 = fmul(focus_dist, viewport_height);
        proof {
            lemma_mul_upper_bound(amax(v@), 0x8_0000, iabs(fvh as int), 0x1_0000_0000_0000);
            assert(0x8_0000 * 0x1_0000_0000_0000 <= 0x10_0000_0000_0000 * (ONE as int))
                by (nonlinear_arith)
                requires
                    (ONE as int) == 65536,
            ;
            lemma_div_cap(amax(v@) * iabs(fvh as int), 0x10_0000_0000_0000);
        }
        let vertical: Vec3 = v.scale(fvh);
        proof {
            lemma_half_cap(amax(horizontal@));
            lemma_half_cap(amax(vertical@));
            lemma_mul_upper_bound(amax(w@), 2 * ONE as int, iabs(focus_dist as int),
                COORD_LIMIT as int);
            assert(2 * (ONE as int) * (COORD_LIMIT as int) <= 0x800_0000 * (ONE as int))
                by (nonlinear_arith)
                requires
                    (ONE as int) == 65536,
                    (COORD_LIMIT as int) == 0x400_0000,
            ;
            lemma_div_cap(amax(w@) * iabs(focus_dist as int), 0x800_0000);
        }
        let half_h: Vec3 = horizontal.div_by(2 * ONE);
        let half_v: Vec3 = vertical.div_by(2 * ONE);
        let fw: Vec3 = w.scale(focus_dist);
        let lower_left_corner: Point3 = look_from.sub(half_h).sub(half_v).sub(fw);
        proof {
            lemma_tdiv_abs(aperture as int, 2);
            lemma_div_nonincreasing(iabs(aperture as int), 2);
        }
        let lens_radius: i64 = aperture / 2;
        Camera { origin: look_from, lower_left_corner, horizontal, vertical, lens_radius, w, u, v }
    }

    /// A ray aimed through plane coordinates `(s, t)`, its origin
    /// jittered over the lens disk for depth of field.
    pub fn get_ray(&self, s: i64, t: i64, rng: &mut Rng) -> (r: Ray)
        requires
            cam_wf_s(self@),
            0 <= s <= 2 * ONE,
            0 <= t <= 2 * ONE,
        ensures
            exists|rd: Vec3m|
                dot_s(rd, rd) < ONE && rd.z == 0 && r@ == #[trigger] get_ray_s(self@, s as int,
                    t as int, rd),
    {
        let rd: Vec3 = random_in_unit_disk(rng);
        proof {
            lemma_mul_upper_bound(amax(rd@), ONE as int, iabs(self.lens_radius as int),
                COORD_LIMIT as int);
            assert((ONE as int) * (COORD_LIMIT as int) <= 0x400_0000 * (ONE as int))
                by (nonlinear_arith)
                requires
                    (ONE as int) == 65536,
                    (COORD_LIMIT as int) == 0x400_0000,
            ;
            lemma_div_cap(amax(rd@) * iabs(self.lens_radius as int), 0x400_0000);
        }
        let rds: Vec3 = rd.scale(self.lens_radius);
        proof {
            lemma_mul_upper_bound(amax(self@.u), 2 * ONE as int, iabs(rds@.x), 0x400_0000);
            assert(2 * (ONE as int) * 0x400_0000 <= 0x800_0000 * (ONE as int))
                by (nonlinear_arith)
                requires
                    (ONE as int) == 65536,
            ;
            lemma_div_cap(amax(self@.u) * iabs(rds@.x), 0x800_0000);
            lemma_mul_upper_bound(amax(self@.v), 0x8_0000, iabs(rds@.y), 0x400_0000);
            assert(0x8_0000 * 0x400_0000 <= 0x2_0000_0000 * (ONE as int)) by (nonlinear_arith)
                requires
                    (ONE as int) == 65536,
            ;
            lemma_div_cap(amax(self@.v) * iabs(rds@.y), 0x2_0000_0000);
        }
        let offs_u: Vec3 = self.u.scale(rds.x());
        let offs_v: Vec3 = self.v.scale(rds.y());
        let offset: Vec3 = offs_u.add(offs_v);
        proof {
            lemma_mul_upper_bound(amax(self@.horizontal), 0x10_0000_0000_0000, iabs(s as int),
                2 * ONE as int);
            assert(0x10_0000_0000_0000 * (2 * (ONE as int)) <= 0x20_0000_0000_0000 * (ONE as int))
                by (nonlinear_arith)
                requires
                    (ONE as int) == 65536,
            ;
            lemma_div_cap(amax(self@.horizontal) * iabs(s as int), 0x20_0000_0000_0000);
            lemma_mul_upper_bound(amax(self@.vertical), 0x10_0000_0000_0000, iabs(t as int),
                2 * ONE as int);
            lemma_div_cap(amax(self@.vertical) * iabs(t as int), 0x20_0000_0000_0000);
        }
        let sh: Vec3 = self.horizontal.scale(s);
        let tv: Vec3 = self.vertical.scale(t);
        let dir: Vec3 = self.lower_left_corner.add(sh).add(tv).sub(self.origin).sub(offset);
        let origin_out: Point3 = self.origin.add(offset);
        let r = Ray::new(origin_out, dir);
        proof {
            let rdm = rd@;
            assert(r@ == get_ray_s(self@, s as int, t as int, rdm));
        }
        r
    }
}

/// Halving a bounded vector's components keeps them bounded.
proof fn lemma_half_cap(x: int)
    requires
        0 <= x <= 0x10_0000_0000_0000,
    ensures
        x * (ONE as int) <= (i64::MAX as int) * (2 * (ONE as int)),
        (x * (ONE as int)) / (2 * (ONE as int)) <= 0x10_0000_0000_0000,
{
    assert(x * (ONE as int) <= (i64::MAX as int) * (2 * (ONE as int)) && x * (ONE as int) <= (2 * (
    ONE as int)) * 0x10_0000_0000_0000) by (nonlinear_arith)
        requires
            0 <= x <= 0x10_0000_0000_0000,
            (ONE as int) == 65536,
    ;
    lemma_multiply_divide_le(x * (ONE as int), 2 * (ONE as int), 0x10_0000_0000_0000);
}

} // verus!
