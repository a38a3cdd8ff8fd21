//! The sphere primitive and its closed-form ray intersection.
//!
//! For center `C`, radius `r` and ray `(O, D)` the hits solve
//! `|O + tD - C|^2 = r^2`, a quadratic with `a = D.D`,
//! `half_b = D.(O - C)` and `c = |O - C|^2 - r^2`.  The exec code returns
//! exactly the fixed-point evaluation of that closed form, as
//! `sphere_hit_s` states it.

use vstd::prelude::*;
use crate::fixed::{
    ONE, iabs, fmul_s, fdiv_s, fsqrt_s, fmul, fdiv, fsqrt, lemma_fmul_bound,
};
use crate::vec3::{
    Vec3, Vec3m, Point3, amax, dot_s, vsub_s, vdivk_s, dot,
    lemma_div_cap, lemma_dot_cap,
};
use crate::ray::{Ray, Raym, at_s};
use crate::hittable::{
    HitRecord, HitRecm, COORD_LIMIT, T_LIMIT, ray_ok_s, front_face_s, oriented_normal_s, rec_view,
};
use vstd::arithmetic::mul::{lemma_mul_upper_bound, lemma_mul_inequality};
use vstd::arithmetic::div_mod::lemma_div_nonincreasing;

verus! {

/// The mathematical-integer model of a sphere.
pub ghost struct Spherem {
    pub center: Vec3m,
    pub radius: int,
    pub mat: int,
}

#[derive(Clone, Copy, Debug, PartialEq, Eq, Structural)]
pub struct Sphere {
    pub center: Point3,
    pub radius: i64,
    pub mat: usize,
}

impl View for Sphere {
    type V = Spherem;

    open spec fn view(&self) -> Spherem {
        Spherem { center: self.center@, radius: self.radius as int, mat: self.mat as int }
    }
}

/// A sphere the intersection query accepts: center in range and a
/// positive in-range radius.
pub open spec fn sphere_wf_s(s: Spherem) -> bool {
    amax(s.center) <= COORD_LIMIT as int && 1 <= s.radius <= COORD_LIMIT as int
}

/// The record a sphere reports for an accepted root.
pub open spec fn sphere_rec_s(s: Spherem, r: Raym, root: int) -> HitRecm {
    let p = at_s(r, root);
    let outward = vdivk_s(vsub_s(p, s.center), s.radius);
    HitRecm {
        p: p,
        normal: oriented_normal_s(r.dir, outward),
        t: root,
        front_face: front_face_s(r.dir, outward),
        mat: s.mat,
    }
}

/// The fixed-point evaluation of the closed-form sphere intersection:
/// no hit when the discriminant is negative, otherwise the smaller root
/// if it lies in `[t_min, t_max]`, else the larger root if it does,
/// else no hit.
pub open spec fn sphere_hit_s(s: Spherem, r: Raym, t_min: int, t_max: int) -> Option<HitRecm> {
    let oc = vsub_s(r.origin, s.center);
    let a = dot_s(r.dir, r.dir);
    let half_b = dot_s(oc, r.dir);
    let c = dot_s(oc, oc) - fmul_s(s.radius, s.radius);
    let disc = fmul_s(half_b, half_b) - fmul_s(a, c);
    if disc < 0 {
        Option::None
    } else {
        let sq = fsqrt_s(disc);
        let root1 = fdiv_s(-half_b - sq, a);
        let root2 = fdiv_s(-half_b + sq, a);
        if t_min <= root1 <= t_max {
            Option::Some(sphere_rec_s(s, r, root1))
        } else if t_min <= root2 <= t_max {
            Option::Some(sphere_rec_s(s, r, root2))
        } else {
            Option::None
        }
    }
}

/// A reported hit parameter lies inside the query interval.
pub proof fn lemma_sphere_hit_range(s: Spherem, r: Raym, t_min: int, t_max: int)
    ensures
        sphere_hit_s(s, r, t_min, t_max) matches Some(h) ==> t_min <= h.t <= t_max,
{
}

/// Narrowing the far end of the query interval keeps reported hits and
/// loses only farther ones: a hit found in `[t_min, c]` is exactly what
/// the full interval `[t_min, t_max]` reports, and when `[t_min, c]`
/// reports nothing, anything the full interval reports lies beyond `c`.
pub proof fn lemma_sphere_hit_narrow(s: Spherem, r: Raym, t_min: int, c: int, t_max: int)
    requires
        t_min <= c <= t_max,
        dot_s(r.dir, r.dir) >= 1,
    ensures
        sphere_hit_s(s, r, t_min, c) matches Some(h) ==> sphere_hit_s(s, r, t_min, t_max)
            == Option::Some(h),
        sphere_hit_s(s, r, t_min, c) is None ==> (sphere_hit_s(s, r, t_min, t_max) matches Some(g)
            ==> g.t > c),
{
    let a = dot_s(r.dir, r.dir);
    let oc = vsub_s(r.origin, s.center);
    let half_b = dot_s(oc, r.dir);
    let cc = dot_s(oc, oc) - fmul_s(s.radius, s.radius);
    let disc = fmul_s(half_b, half_b) - fmul_s(a, cc);
    if disc >= 0 {
        let sq = fsqrt_s(disc);
        assert(disc * (ONE as int) >= 0) by (nonlinear_arith)
            requires
                disc >= 0,
                (ONE as int) == 65536,
        ;
        crate::fixed::lemma_isqrt_props(disc * (ONE as int));
        let num1 = -half_b - sq;
        let num2 = -half_b + sq;
        vstd::arithmetic::mul::lemma_mul_inequality(num1, num2, ONE as int);
        crate::fixed::lemma_tdiv_monotone(num1 * (ONE as int), num2 * (ONE as int), a);
        assert(fdiv_s(num1, a) <= fdiv_s(num2, a));
    }
}

impl Sphere {
    pub fn new(center: Point3, radius: i64, mat: usize) -> (s: Sphere)
        requires
            amax(center@) <= COORD_LIMIT as int,
            1 <= radius <= COORD_LIMIT,
        ensures
            s@ == (Spherem { center: center@, radius: radius as int, mat: mat as int }),
            sphere_wf_s(s@),
    {
        Sphere { center, radius, mat }
    }

    /// The record for the root `root`, already known to be accepted.
    fn hit_record_at(&self, r: &Ray, root: i64) -> (rec: HitRecord)
        requires
            sphere_wf_s(self@),
            ray_ok_s(r@),
            0 <= root <= T_LIMIT,
        ensures
            rec@ == sphere_rec_s(self@, r@, root as int),
    {
        proof {
            lemma_mul_upper_bound(amax(r@.dir), COORD_LIMIT as int, iabs(root as int),
                T_LIMIT as int);
            lemma_div_cap(amax(r@.dir) * iabs(root as int), 0x4_0000_0000);
        }
        let p: Point3 = r.at(root);
        let op: Vec3 = p.sub(self.center);
        proof {
            lemma_mul_inequality(amax(op@), 0x8_0000_0000, ONE as int);
            assert(amax(op@) * (ONE as int) <= (i64::MAX as int) * (self@.radius))
                by (nonlinear_arith)
                requires
                    0 <= amax(op@) <= 0x8_0000_0000,
                    self@.radius >= 1,
                    (ONE as int) == 65536,
            ;
            lemma_div_nonincreasing(amax(op@) * (ONE as int), self@.radius);
        }
        let outward: Vec3 = op.div_by(self.radius);
        proof {
            lemma_mul_upper_bound(amax(r@.dir), COORD_LIMIT as int, amax(outward@),
                0x8_0000_0000_0000);
        }
        let mut rec: HitRecord = HitRecord::new();
        rec.p = p;
        rec.t = root;
        rec.mat = self.mat;
        rec.set_face_normal(r, &outward);
        rec
    }

    /// Reports the nearest root of the intersection equation inside
    /// `[t_min, t_max]`, exactly as `sphere_hit_s` evaluates it.
    pub fn hit(&self, r: &Ray, t_min: i64, t_max: i64) -> (result: Option<HitRecord>)
        requires
            sphere_wf_s(self@),
            ray_ok_s(r@),
            0 <= t_min <= t_max <= T_LIMIT,
        ensures
            rec_view(result) == sphere_hit_s(self@, r@, t_min as int, t_max as int),
    {
        let dirv: Vec3 = r.direction();
        let originv: Point3 = r.origin();
        let oc: Vec3 = originv.sub(self.center);
        let a: i64 = dirv.length_squared();
        proof {
            lemma_mul_upper_bound(amax(oc@), 0x800_0000, amax(dirv@), COORD_LIMIT as int);
            lemma_dot_cap(oc@, dirv@, 0x800_0000, COORD_LIMIT as int, 0x20_0000_0000);
        }
        let half_b: i64 = dot(&oc, &dirv);
        proof {
            lemma_mul_upper_bound(iabs(self@.radius), COORD_LIMIT as int, iabs(self@.radius),
                COORD_LIMIT as int);
            lemma_fmul_bound(self@.radius, self@.radius, COORD_LIMIT as int, COORD_LIMIT as int);
            lemma_div_cap((COORD_LIMIT as int) * (COORD_LIMIT as int), 0x10_0000_0000);
        }
        let rsq: i64 = fmul(self.radius, self.radius);
        proof {
            lemma_mul_upper_bound(amax(oc@), 0x800_0000, amax(oc@), 0x800_0000);
            lemma_dot_cap(oc@, oc@, 0x800_0000, 0x800_0000, 0x40_0000_0000);
        }
        let c: i64 = dot(&oc, &oc) - rsq;
        proof {
            lemma_mul_upper_bound(iabs(half_b as int), 0x60_0000_0000, iabs(half_b as int),
                0x60_0000_0000);
            lemma_fmul_bound(half_b as int, half_b as int, 0x60_0000_0000, 0x60_0000_0000);
            lemma_div_cap(0x60_0000_0000int * 0x60_0000_0000int, 0x2400_0000_0000_0000int);
        }
        let hb2: i64 = fmul(half_b, half_b);
        proof {
            lemma_dot_cap(dirv@, dirv@, COORD_LIMIT as int, COORD_LIMIT as int, 0x10_0000_0000);
            lemma_mul_upper_bound(iabs(a as int), 0x30_0000_0000, iabs(c as int),
                0xd0_0000_0000);
            lemma_fmul_bound(a as int, c as int, 0x30_0000_0000, 0xd0_0000_0000);
            lemma_div_cap(0x30_0000_0000int * 0xd0_0000_0000int, 0x2700_0000_0000_0000int);
        }
        let ac: i64 = fmul(a, c);
        let disc: i64 = hb2 - ac;
        if disc < 0 {
            return Option::None;
        }
        let sq: i64 = fsqrt(disc);
        proof {
            assert(sq <= 0x200_0000_0000) by (nonlinear_arith)
                requires
                    sq >= 0,
                    (sq as int) * (sq as int) <= (disc as int) * (ONE as int),
                    disc <= 0x4b00_0000_0000_0000,
                    (ONE as int) == 65536,
            ;
            assert(iabs((-(half_b as int)) - sq as int) * (ONE as int) <= (i64::MAX as int) * (
            a as int)) by (nonlinear_arith)
                requires
                    iabs((-(half_b as int)) - sq as int) <= 0x400_0000_0000,
                    a >= 1,
                    (ONE as int) == 65536,
            ;
        }
        let root1: i64 = fdiv(-half_b - sq, a);
        if t_min <= root1 && root1 <= t_max {
            return Option::Some(self.hit_record_at(r, root1));
        }
        proof {
            assert(iabs((-(half_b as int)) + sq as int) * (ONE as int) <= (i64::MAX as int) * (
            a as int)) by (nonlinear_arith)
                requires
                    iabs((-(half_b as int)) + sq as int) <= 0x400_0000_0000,
                    a >= 1,
                    (ONE as int) == 65536,
            ;
        }
        let root2: i64 = fdiv(-half_b + sq, a);
        if t_min <= root2 && root2 <= t_max {
            return Option::Some(self.hit_record_at(r, root2));
        }
        Option::None
    }
}

} // verus!
