//! The material scattering model: Lambertian diffuse, fuzzed Metal and
//! refractive Dielectric surfaces.
//!
//! Given an incoming ray and a hit record, a material either produces a
//! scattered ray with an attenuation color or signals absorption.  The
//! deterministic parts of each outcome are pinned exactly; the sampled
//! parts are characterized by the sample that produced them.

use vstd::prelude::*;
use crate::fixed::{
    ONE, iabs, fmul_s, fdiv_s, fsqrt_s, fmin_s, fmax_s, fclamp_s, is_isqrt,
    fmul, fdiv, fsqrt, fmin, fmax, fclamp,
    lemma_fmul_bound, lemma_fmul_le_one, lemma_tdiv_abs,
};
use crate::vec3::{
    Vec3, Vec3m, Color, amax, dot_s, vadd_s, vscale_s, vmul_s, vneg_s, near_zero_s, unit_s,
    reflect_s, refract_s, in01_s, dot, unit_vector, reflect, refract, random_unit_vector,
    random_in_unit_sphere, lemma_div_cap, lemma_dot_cap, UNIT_DRAW_FLOOR,
};
use crate::ray::{Ray, Raym};
use crate::hittable::{HitRecord, HitRecm};
use crate::rng::Rng;
use vstd::arithmetic::mul::lemma_mul_upper_bound;
use vstd::arithmetic::div_mod::{
    lemma_div_is_ordered_by_denominator, lemma_div_by_multiple, lemma_div_is_ordered,
    lemma_div_of0,
};

verus! {

/// A scattered ray together with the color that attenuates whatever
/// radiance it gathers.
#[derive(Clone, Copy, Debug, PartialEq, Eq, Structural)]
pub struct Scatter {
    pub attenuation: Color,
    pub ray: Ray,
}

/// An albedo is a fractional reflectance: every channel in `[0, 1]`.
pub open spec fn albedo_wf_s(a: Vec3m) -> bool {
    in01_s(a)
}

/// Smallest index of refraction the fixed-point range admits: 1/8.
pub const IR_MIN: i64 = 8192;

/// Largest index of refraction the fixed-point range admits: 8.
pub const IR_MAX: i64 = 524288;

#[derive(Clone, Copy, Debug, PartialEq, Eq, Structural)]
pub struct Lambertian {
    pub albedo: Color,
}

#[derive(Clone, Copy, Debug, PartialEq, Eq, Structural)]
pub struct Metal {
    pub albedo: Color,
    pub fuzz: i64,
}

#[derive(Clone, Copy, Debug, PartialEq, Eq, Structural)]
pub struct Dielectric {
    pub ir: i64,
}

/// The closed set of material variants, dispatched by `match`.
#[derive(Clone, Copy, Debug, PartialEq, Eq, Structural)]
pub enum Material {
    Lambertian(Lambertian),
    Metal(Metal),
    Dielectric(Dielectric),
}

/// The parameters every constructed material satisfies.
pub open spec fn material_wf_s(m: Material) -> bool {
    match m {
        Material::Lambertian(l) => albedo_wf_s(l.albedo@),
        Material::Metal(mt) => albedo_wf_s(mt.albedo@) && 0 <= mt.fuzz <= ONE,
        Material::Dielectric(d) => IR_MIN <= d.ir <= IR_MAX,
    }
}

/// The diffuse scatter direction for the unit sample `u`: the normal
/// plus `u`, or the normal alone when that sum is degenerate.
pub open spec fn lambertian_dir_s(normal: Vec3m, u: Vec3m) -> Vec3m {
    let d = vadd_s(normal, u);
    if near_zero_s(d) {
        normal
    } else {
        d
    }
}

/// The specular scatter direction for the in-sphere sample `sp`: the
/// mirror reflection perturbed by `fuzz * sp`.
pub open spec fn metal_dir_s(unit_in: Vec3m, normal: Vec3m, fuzz: int, sp: Vec3m) -> Vec3m {
    vadd_s(reflect_s(unit_in, normal), vscale_s(sp, fuzz))
}

/// The refraction ratio at a boundary: `1/ir` entering the front face,
/// `ir` leaving through the back face.
pub open spec fn refraction_ratio_s(front_face: bool, ir: int) -> int {
    if front_face {
        fdiv_s(ONE as int, ir)
    } else {
        ir
    }
}

/// Schlick's reflectance approximation:
/// `r0 + (1 - r0) * (1 - cos)^5` with `r0 = ((1 - ratio)/(1 + ratio))^2`.
pub open spec fn reflectance_s(cos: int, ratio: int) -> int {
    let q = fdiv_s((ONE as int) - ratio, (ONE as int) + ratio);
    let r0 = fmul_s(q, q);
    let p1 = (ONE as int) - cos;
    let p2 = fmul_s(p1, p1);
    let p4 = fmul_s(p2, p2);
    let p5 = fmul_s(p4, p1);
    r0 + fmul_s((ONE as int) - r0, p5)
}

/// The sine of the incidence angle, from its cosine.
pub open spec fn sin_theta_s(cos: int) -> int {
    fsqrt_s(fmax_s(0, (ONE as int) - fmul_s(cos, cos)))
}

/// Total internal reflection: no refracted direction exists.
pub open spec fn dielectric_tir_s(unit_in: Vec3m, normal: Vec3m, ratio: int) -> bool {
    let cos = fmin_s(dot_s(vneg_s(unit_in), normal), ONE as int);
    fmul_s(ratio, sin_theta_s(cos)) > ONE as int
}

/// The dielectric scatter direction for the uniform draw `draw`:
/// reflect under total internal reflection or when Schlick's reflectance
/// exceeds the draw, refract otherwise.
pub open spec fn dielectric_dir_s(unit_in: Vec3m, normal: Vec3m, ratio: int, draw: int) -> Vec3m {
    let cos = fmin_s(dot_s(vneg_s(unit_in), normal), ONE as int);
    if fmul_s(ratio, sin_theta_s(cos)) > ONE as int || reflectance_s(cos, ratio) > draw {
        reflect_s(unit_in, normal)
    } else {
        refract_s(unit_in, normal, ratio)
    }
}

/// The model of a scatter outcome: the attenuation color and the
/// scattered ray, or absorption.
pub open spec fn scatter_view(o: Option<Scatter>) -> Option<(Vec3m, Raym)> {
    match o {
        Option::Some(sc) => Option::Some((sc.attenuation@, sc.ray@)),
        Option::None => Option::None,
    }
}

/// The outcomes a material can produce for the incoming ray `r` and hit
/// `h`: exactly the variant's scattering rule, quantified over the one
/// sample it draws.  Every execution's outcome satisfies this relation;
/// its deterministic content (a diffuse or refractive material never
/// absorbs, attenuation and origin are fixed, the direction follows the
/// variant's formula) holds of each admissible outcome.
pub open spec fn scatter_admissible_s(
    m: Material,
    r: Raym,
    h: HitRecm,
    o: Option<(Vec3m, Raym)>,
) -> bool {
    match m {
        Material::Lambertian(l) => exists|p: Vec3m|
            {
                &&& UNIT_DRAW_FLOOR as int <= dot_s(p, p) < ONE
                &&& o == Option::Some(
                    (
                        l.albedo@,
                        Raym {
                            origin: h.p,
                            dir: #[trigger] lambertian_dir_s(h.normal, unit_s(p)),
                        },
                    ),
                )
            },
        Material::Metal(mt) => exists|sp: Vec3m|
            {
                &&& dot_s(sp, sp) < ONE
                &&& amax(sp) <= ONE
                &&& {
                    let dir = #[trigger] metal_dir_s(unit_s(r.dir), h.normal, mt.fuzz as int, sp);
                    if dot_s(dir, h.normal) > 0 {
                        o == Option::Some((mt.albedo@, Raym { origin: h.p, dir: dir }))
                    } else {
                        o is None
                    }
                }
            },
        Material::Dielectric(d) => exists|draw: int|
            {
                &&& 0 <= draw < ONE
                &&& o == Option::Some(
                    (
                        Vec3m { x: ONE as int, y: ONE as int, z: ONE as int },
                        Raym {
                            origin: h.p,
                            dir: #[trigger] dielectric_dir_s(
                                unit_s(r.dir),
                                h.normal,
                                refraction_ratio_s(h.front_face, d.ir as int),
                                draw,
                            ),
                        },
                    ),
                )
            },
    }
}

/// Attenuating a nonnegative radiance by an in-range albedo never
/// increases any channel and never makes one negative.
pub proof fn lemma_attenuation_no_gain(albedo: Vec3m, c: Vec3m)
    requires
        albedo_wf_s(albedo),
        0 <= c.x,
        0 <= c.y,
        0 <= c.z,
    ensures
        0 <= vmul_s(albedo, c).x <= c.x,
        0 <= vmul_s(albedo, c).y <= c.y,
        0 <= vmul_s(albedo, c).z <= c.z,
{
    lemma_fmul_le_one(albedo.x, c.x);
    lemma_fmul_le_one(albedo.y, c.y);
    lemma_fmul_le_one(albedo.z, c.z);
}

impl Lambertian {
    pub fn new(col: Color) -> (m: Lambertian)
        requires
            albedo_wf_s(col@),
        ensures
            m.albedo == col,
            material_wf_s(Material::Lambertian(m)),
    {
        Lambertian { albedo: col }
    }

    /// Diffuse scatter: direction is the surface normal plus a random
    /// unit vector, falling back to the normal when that sum is
    /// degenerate.  Always scatters; attenuation is the albedo; the
    /// outcome is admissible for this material.
    ///
    /// The sampled vector is unit length up to rounding, so for a unit
    /// normal the direction leans to the surface's outside; at the
    /// exact-arithmetic level a draw within a few rounding bits of the
    /// opposite of the normal, yet past the near-zero fallback, can
    /// still dip marginally below the surface plane, and the next
    /// bounce's domain guard absorbs such a ray.
    pub fn scatter(&self, _r_in: &Ray, rec: &HitRecord, rng: &mut Rng) -> (result: Option<Scatter>)
        requires
            amax(rec@.normal) <= 4 * ONE,
        ensures
            result is Some,
            result matches Some(sc) ==> {
                &&& sc.attenuation == self.albedo
                &&& sc.ray@.origin == rec@.p
                &&& amax(sc.ray@.dir) <= 6 * ONE
                &&& exists|p: Vec3m|
                    UNIT_DRAW_FLOOR as int <= dot_s(p, p) < ONE && sc.ray@.dir
                        == #[trigger] lambertian_dir_s(rec@.normal, unit_s(p))
            },
            scatter_admissible_s(Material::Lambertian(*self), _r_in@, rec@, scatter_view(result)),
    {
        let u: Vec3 = random_unit_vector(rng);
        let mut scatter_direction: Vec3 = rec.normal.add(u);
        if scatter_direction.near_zero() {
            scatter_direction = rec.normal;
        }
        let result: Option<Scatter> = Option::Some(
            Scatter { attenuation: self.albedo, ray: Ray::new(rec.p, scatter_direction) },
        );
        proof {
            let p = choose|p: Vec3m|
                UNIT_DRAW_FLOOR as int <= dot_s(p, p) < ONE && u@ == #[trigger] unit_s(p);
            assert(scatter_direction@ == lambertian_dir_s(rec@.normal, unit_s(p)));
            assert(scatter_view(result) == Option::Some(
                (
                    self.albedo@,
                    Raym { origin: rec@.p, dir: lambertian_dir_s(rec@.normal, unit_s(p)) },
                ),
            ));
        }
        result
    }
}

impl Metal {
    pub fn new(col: Color, f: i64) -> (m: Metal)
        requires
            albedo_wf_s(col@),
        ensures
            m.albedo == col,
            m.fuzz == fclamp_s(f as int, 0, ONE as int),
            material_wf_s(Material::Metal(m)),
    {
        Metal { albedo: col, fuzz: fclamp(f, 0, ONE) }
    }

    /// Specular scatter: reflect the unit incoming direction about the
    /// normal and perturb by `fuzz` times an in-sphere sample.  The ray
    /// is absorbed when the perturbed direction points into the surface.
    pub fn scatter(&self, r_in: &Ray, rec: &HitRecord, rng: &mut Rng) -> (result: Option<Scatter>)
        requires
            0 <= self.fuzz <= ONE,
            amax(rec@.normal) <= 4 * ONE,
            amax(r_in@.dir) <= 0x40_0000_0000,
        ensures
            result matches Some(sc) ==> {
                &&& sc.attenuation == self.albedo
                &&& sc.ray@.origin == rec@.p
                &&& dot_s(sc.ray@.dir, rec@.normal) > 0
                &&& amax(sc.ray@.dir) <= 401 * ONE
            },
            exists|sp: Vec3m|
                {
                    &&& dot_s(sp, sp) < ONE
                    &&& amax(sp) <= ONE
                    &&& {
                        let dir = #[trigger] metal_dir_s(
                            unit_s(r_in@.dir),
                            rec@.normal,
                            self.fuzz as int,
                            sp,
                        );
                        if dot_s(dir, rec@.normal) > 0 {
                            result matches Some(sc) && sc.attenuation == self.albedo
                                && sc.ray@.origin == rec@.p && sc.ray@.dir == dir
                        } else {
                            result is None
                        }
                    }
                },
            scatter_admissible_s(Material::Metal(*self), r_in@, rec@, scatter_view(result)),
    {
        let unit_in: Vec3 = unit_vector(r_in.direction());
        let reflected: Vec3 = reflect(&unit_in, &rec.normal);
        let sp: Vec3 = random_in_unit_sphere(rng);
        proof {
            lemma_mul_upper_bound(amax(sp@), ONE as int, iabs(self.fuzz as int), ONE as int);
            lemma_div_cap(amax(sp@) * iabs(self.fuzz as int), ONE as int);
        }
        let fuzzed: Vec3 = sp.scale(self.fuzz);
        let dir: Vec3 = reflected.add(fuzzed);
        proof {
            assert(amax(dir@) * amax(rec@.normal) <= 0x2000_0000_0000_0000 * (ONE as int))
                by (nonlinear_arith)
                requires
                    0 <= amax(dir@) <= 401 * (ONE as int),
                    0 <= amax(rec@.normal) <= 4 * (ONE as int),
                    (ONE as int) == 65536,
            ;
        }
        let d: i64 = dot(&dir, &rec.normal);
        let result: Option<Scatter> = if d > 0 {
            Option::Some(Scatter { attenuation: self.albedo, ray: Ray::new(rec.p, dir) })
        } else {
            Option::None
        };
        proof {
            let spm = sp@;
            assert(dir@ == metal_dir_s(unit_s(r_in@.dir), rec@.normal, self.fuzz as int, spm));
            if d > 0 {
                assert(scatter_view(result) == Option::Some(
                    (self.albedo@, Raym { origin: rec@.p, dir: dir@ }),
                ));
            }
        }
        result
    }
}

impl Dielectric {
    pub fn new(index_of_refraction: i64) -> (m: Dielectric)
        requires
            IR_MIN <= index_of_refraction <= IR_MAX,
        ensures
            m.ir == index_of_refraction,
            material_wf_s(Material::Dielectric(m)),
    {
        Dielectric { ir: index_of_refraction }
    }

    /// Schlick's reflectance approximation, exact per `reflectance_s`.
    fn reflectance(cosine: i64, ref_idx: i64) -> (r: i64)
        requires
            -24 * ONE <= cosine <= ONE,
            0 <= ref_idx <= 8 * ONE,
        ensures
            r == reflectance_s(cosine as int, ref_idx as int),
    {
        proof {
            lemma_q_bound(ref_idx as int);
        }
        let q: i64 = fdiv(ONE - ref_idx, ONE + ref_idx);
        proof {
            lemma_mul_upper_bound(iabs(q as int), 7 * ONE as int, iabs(q as int), 7 * ONE as int);
            lemma_fmul_bound(q as int, q as int, 7 * ONE as int, 7 * ONE as int);
            lemma_div_cap(7 * (ONE as int) * (7 * (ONE as int)), 49 * ONE as int);
        }
        let r0: i64 = fmul(q, q);
        let p1: i64 = ONE - cosine;
        proof {
            lemma_mul_upper_bound(iabs(p1 as int), 25 * ONE as int, iabs(p1 as int),
                25 * ONE as int);
            lemma_fmul_bound(p1 as int, p1 as int, 25 * ONE as int, 25 * ONE as int);
            lemma_div_cap(25 * (ONE as int) * (25 * (ONE as int)), 625 * ONE as int);
        }
        let p2: i64 = fmul(p1, p1);
        proof {
            lemma_mul_upper_bound(iabs(p2 as int), 625 * ONE as int, iabs(p2 as int),
                625 * ONE as int);
            lemma_fmul_bound(p2 as int, p2 as int, 625 * ONE as int, 625 * ONE as int);
            lemma_div_cap(625 * (ONE as int) * (625 * (ONE as int)), 390625 * ONE as int);
        }
        let p4: i64 = fmul(p2, p2);
        proof {
            lemma_mul_upper_bound(iabs(p4 as int), 390625 * ONE as int, iabs(p1 as int),
                25 * ONE as int);
            lemma_fmul_bound(p4 as int, p1 as int, 390625 * ONE as int, 25 * ONE as int);
            lemma_div_cap(390625 * (ONE as int) * (25 * (ONE as int)), 9765625 * ONE as int);
        }
        let p5: i64 = fmul(p4, p1);
        proof {
            lemma_mul_upper_bound(iabs((ONE - r0) as int), 50 * ONE as int, iabs(p5 as int),
                9765625 * ONE as int);
            lemma_fmul_bound((ONE - r0) as int, p5 as int, 50 * ONE as int, 9765625 * ONE as int);
            lemma_div_cap(50 * (ONE as int) * (9765625 * (ONE as int)), 488281250 * ONE as int);
        }
        r0 + fmul(ONE - r0, p5)
    }

    /// Refractive scatter: attenuation is always white.  Under total
    /// internal reflection the direction is the mirror reflection;
    /// otherwise Schlick's reflectance is compared with a uniform draw
    /// to choose between reflection and refraction.  Always scatters.
    pub fn scatter(&self, r_in: &Ray, rec: &HitRecord, rng: &mut Rng) -> (result: Option<Scatter>)
        requires
            IR_MIN <= self.ir <= IR_MAX,
            amax(rec@.normal) <= 4 * ONE,
            amax(r_in@.dir) <= 0x40_0000_0000,
        ensures
            result is Some,
            result matches Some(sc) ==> {
                let ratio = refraction_ratio_s(rec@.front_face, self.ir as int);
                let unit_in = unit_s(r_in@.dir);
                &&& sc.attenuation@ == (Vec3m { x: ONE as int, y: ONE as int, z: ONE as int })
                &&& sc.ray@.origin == rec@.p
                &&& exists|draw: int|
                    0 <= draw < ONE && sc.ray@.dir == #[trigger] dielectric_dir_s(
                        unit_in,
                        rec@.normal,
                        ratio,
                        draw,
                    )
                &&& dielectric_tir_s(unit_in, rec@.normal, ratio) ==> sc.ray@.dir == reflect_s(
                    unit_in,
                    rec@.normal,
                )
            },
            scatter_admissible_s(Material::Dielectric(*self), r_in@, rec@, scatter_view(result)),
    {
        let attenuation: Color = Vec3::new(ONE, ONE, ONE);
        proof {
            lemma_ratio_bound(self.ir as int);
        }
        let refraction_ratio: i64 = if rec.front_face {
            fdiv(ONE, self.ir)
        } else {
            self.ir
        };
        let unit_in: Vec3 = unit_vector(r_in.direction());
        let minus_unit: Vec3 = unit_in.neg();
        proof {
            lemma_dot_cap(minus_unit@, rec@.normal, 2 * ONE as int, 4 * ONE as int,
                8 * ONE as int);
            assert(amax(minus_unit@) * amax(rec@.normal) <= 0x2000_0000_0000_0000 * (ONE as int))
                by (nonlinear_arith)
                requires
                    0 <= amax(minus_unit@) <= 2 * (ONE as int),
                    0 <= amax(rec@.normal) <= 4 * (ONE as int),
                    (ONE as int) == 65536,
            ;
        }
        let cos_theta: i64 = fmin(dot(&minus_unit, &rec.normal), ONE);
        proof {
            lemma_mul_upper_bound(iabs(cos_theta as int), 24 * ONE as int, iabs(cos_theta as int),
                24 * ONE as int);
            lemma_fmul_bound(cos_theta as int, cos_theta as int, 24 * ONE as int, 24 * ONE as int);
            lemma_div_cap(24 * (ONE as int) * (24 * (ONE as int)), 576 * ONE as int);
        }
        let cos_sq: i64 = fmul(cos_theta, cos_theta);
        let sin_theta: i64 = fsqrt(fmax(0, ONE - cos_sq));
        proof {
            lemma_sin_cap(fmax_s(0, (ONE as int) - cos_sq as int), sin_theta as int);
            lemma_mul_upper_bound(iabs(refraction_ratio as int), 8 * ONE as int, iabs(
                sin_theta as int), 32 * ONE as int);
            lemma_fmul_bound(refraction_ratio as int, sin_theta as int, 8 * ONE as int,
                32 * ONE as int);
            lemma_div_cap(8 * (ONE as int) * (32 * (ONE as int)), 256 * ONE as int);
        }
        let cannot_refract: bool = fmul(refraction_ratio, sin_theta) > ONE;
        let draw: i64 = rng.next_unit();
        let dir: Vec3 = if cannot_refract || Dielectric::reflectance(cos_theta, refraction_ratio)
            > draw {
            reflect(&unit_in, &rec.normal)
        } else {
            refract(&unit_in, &rec.normal, refraction_ratio)
        };
        let result: Option<Scatter> = Option::Some(
            Scatter { attenuation, ray: Ray::new(rec.p, dir) },
        );
        proof {
            let ratio = refraction_ratio_s(rec@.front_face, self.ir as int);
            assert(dir@ == dielectric_dir_s(unit_s(r_in@.dir), rec@.normal, ratio, draw as int));
            assert(scatter_view(result) == Option::Some(
                (
                    Vec3m { x: ONE as int, y: ONE as int, z: ONE as int },
                    Raym {
                        origin: rec@.p,
                        dir: dielectric_dir_s(unit_s(r_in@.dir), rec@.normal, ratio, draw as int),
                    },
                ),
            ));
        }
        result
    }
}

/// The refraction ratio stays in `[0, 8]` for an in-range index.
proof fn lemma_ratio_bound(ir: int)
    requires
        IR_MIN <= ir <= IR_MAX,
    ensures
        0 <= fdiv_s(ONE as int, ir) <= 8 * ONE,
        iabs(ONE as int) * (ONE as int) <= (i64::MAX as int) * ir,
{
    lemma_tdiv_abs((ONE as int) * (ONE as int), ir);
    assert((ONE as int) * (ONE as int) / ir <= 8 * (ONE as int) && iabs(ONE as int) * (ONE as int)
        <= (i64::MAX as int) * ir) by (nonlinear_arith)
        requires
            IR_MIN <= ir <= IR_MAX,
            (ONE as int) == 65536,
            (IR_MIN as int) == 8192,
    ;
}

/// Schlick's `r0` base stays small: `|1 - ratio| <= 7` and the
/// denominator `1 + ratio` is at least 1.
proof fn lemma_q_bound(ratio: int)
    requires
        0 <= ratio <= 8 * ONE,
    ensures
        iabs((ONE as int) - ratio) * (ONE as int) <= (i64::MAX as int) * ((ONE as int) + ratio),
        iabs(fdiv_s((ONE as int) - ratio, (ONE as int) + ratio)) <= 7 * ONE,
{
    let num = (ONE as int) - ratio;
    let den = (ONE as int) + ratio;
    assert(iabs(num) * (ONE as int) <= (i64::MAX as int) * den) by (nonlinear_arith)
        requires
            0 <= ratio <= 8 * (ONE as int),
            num == (ONE as int) - ratio,
            den == (ONE as int) + ratio,
            (ONE as int) == 65536,
    ;
    lemma_tdiv_abs(num * (ONE as int), den);
    assert(iabs(num * (ONE as int)) == iabs(num) * (ONE as int)) by (nonlinear_arith);
    lemma_div_is_ordered_by_denominator(iabs(num) * (ONE as int), ONE as int, den);
    assert(iabs(num) * (ONE as int) <= 7 * (ONE as int) * (ONE as int)) by (nonlinear_arith)
        requires
            0 <= iabs(num) <= 7 * (ONE as int),
            (ONE as int) == 65536,
    ;
    lemma_div_is_ordered(iabs(num) * (ONE as int), 7 * (ONE as int) * (ONE as int), ONE as int);
    lemma_div_by_multiple(7 * (ONE as int), ONE as int);
}

/// A cap on the sine computed from a bounded cosine.
proof fn lemma_sin_cap(a: int, s: int)
    requires
        0 <= a <= 577 * ONE,
        is_isqrt(a * (ONE as int), s),
    ensures
        0 <= s <= 32 * ONE,
{
    assert(s <= 32 * (ONE as int)) by (nonlinear_arith)
        requires
            s >= 0,
            s * s <= a * (ONE as int),
            a <= 577 * (ONE as int),
            (ONE as int) == 65536,
    ;
}

/// A dielectric with an unchanged index bends no light at normal
/// incidence: whatever the stochastic draw, the scatter direction
/// chosen by `dielectric_dir_s` with ratio one, for an incoming unit
/// direction dead against an exactly unit normal, is the incoming
/// direction itself (total internal reflection cannot occur and
/// Schlick's reflectance is zero, so the ray refracts unbent).
pub proof fn lemma_dielectric_normal_incidence(n: Vec3m, draw: int)
    requires
        dot_s(n, n) == ONE as int,
        0 <= draw,
    ensures
        !dielectric_tir_s(vneg_s(n), n, ONE as int),
        dielectric_dir_s(vneg_s(n), n, ONE as int, draw) == vneg_s(n),
{
    let unit_in = vneg_s(n);
    assert(vneg_s(unit_in) == n);
    let cos = fmin_s(dot_s(vneg_s(unit_in), n), ONE as int);
    assert(cos == ONE as int);
    crate::fixed::lemma_fmul_one(ONE as int);
    assert(fmax_s(0, (ONE as int) - fmul_s(cos, cos)) == 0);
    assert(is_isqrt(0, 0));
    crate::fixed::lemma_isqrt_unique(0, 0);
    assert(sin_theta_s(cos) == 0);
    crate::fixed::lemma_fmul_zero(ONE as int);
    assert(!dielectric_tir_s(unit_in, n, ONE as int));
    lemma_div_of0(2 * (ONE as int));
    assert(fdiv_s((ONE as int) - (ONE as int), (ONE as int) + (ONE as int)) == 0);
    crate::fixed::lemma_fmul_zero(0);
    assert(reflectance_s(ONE as int, ONE as int) == 0) by {
        crate::fixed::lemma_fmul_zero(0);
        crate::fixed::lemma_fmul_zero(ONE as int);
    }
    crate::vec3::lemma_refract_normal_incidence(unit_in, n);
}

impl Material {
    /// Dispatches to the variant's scatter.  Whatever the outcome, it
    /// is admissible for this material per `scatter_admissible_s`, a
    /// scattered ray starts at the hit point, and a constructed
    /// material's attenuation stays inside the unit color cube.
    pub fn scatter(&self, r_in: &Ray, rec: &HitRecord, rng: &mut Rng) -> (result: Option<Scatter>)
        requires
            material_wf_s(*self),
            amax(rec@.normal) <= 4 * ONE,
            amax(r_in@.dir) <= 0x40_0000_0000,
        ensures
            scatter_admissible_s(*self, r_in@, rec@, scatter_view(result)),
            result matches Some(sc) ==> sc.ray@.origin == rec@.p && albedo_wf_s(sc.attenuation@),
            self matches Material::Lambertian(_) ==> result is Some,
            self matches Material::Dielectric(_) ==> result is Some,
    {
        match self {
            Material::Lambertian(l) => l.scatter(r_in, rec, rng),
            Material::Metal(m) => m.scatter(r_in, rec, rng),
            Material::Dielectric(d) => d.scatter(r_in, rec, rng),
        }
    }
}

} // verus!
