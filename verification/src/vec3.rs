//! The three-component vector kernel.
//!
//! One representation serves points, directions and RGB colors.  Every
//! component is a 16.16 fixed-point scalar, and every operation is
//! specified exactly by a spec function over the mathematical-integer
//! model `Vec3m`.

use vstd::prelude::*;
use crate::fixed::{
    ONE, iabs, tdiv, fmul_s, fdiv_s, fsqrt_s, fmin_s, fmax_s, is_isqrt,
    fmul, fdiv, fsqrt, fabs,
    lemma_tdiv_abs, lemma_tdiv_bound, lemma_fmul_bound, lemma_isqrt_props,
};
use crate::rng::Rng;
use vstd::arithmetic::mul::{
    lemma_mul_upper_bound, lemma_mul_inequality, lemma_mul_unary_negation,
    lemma_mul_is_commutative,
};
use vstd::arithmetic::div_mod::{
    lemma_div_is_ordered, lemma_fundamental_div_mod, lemma_mod_division_less_than_divisor,
    lemma_multiply_divide_le, lemma_div_by_multiple, lemma_div_is_ordered_by_denominator,
    lemma_div_of0,
};

verus! {

/// Directions whose components all stay below this threshold are treated
/// as degenerate: at 16.16 resolution such a vector has squared length
/// zero and cannot be normalized.
pub const NEAR_ZERO_EPS: i64 = 16;

/// The mathematical-integer model of a vector.
pub ghost struct Vec3m {
    pub x: int,
    pub y: int,
    pub z: int,
}

#[derive(Clone, Copy, Debug, PartialEq, Eq, Structural)]
pub struct Vec3 {
    pub x: i64,
    pub y: i64,
    pub z: i64,
}

/// A vector used as a spatial position.
pub type Point3 = Vec3;

/// A vector used as an RGB color.
pub type Color = Vec3;

impl View for Vec3 {
    type V = Vec3m;

    open spec fn view(&self) -> Vec3m {
        Vec3m { x: self.x as int, y: self.y as int, z: self.z as int }
    }
}

/// The largest component magnitude, the bound used in overflow
/// preconditions.
pub open spec fn amax(v: Vec3m) -> int {
    fmax_s(fmax_s(iabs(v.x), iabs(v.y)), iabs(v.z))
}

pub open spec fn vzero() -> Vec3m {
    Vec3m { x: 0, y: 0, z: 0 }
}

pub open spec fn vadd_s(a: Vec3m, b: Vec3m) -> Vec3m {
    Vec3m { x: a.x + b.x, y: a.y + b.y, z: a.z + b.z }
}

pub open spec fn vsub_s(a: Vec3m, b: Vec3m) -> Vec3m {
    Vec3m { x: a.x - b.x, y: a.y - b.y, z: a.z - b.z }
}

pub open spec fn vneg_s(a: Vec3m) -> Vec3m {
    Vec3m { x: -a.x, y: -a.y, z: -a.z }
}

/// Component-wise product, the operation that attenuates a color.
pub open spec fn vmul_s(a: Vec3m, b: Vec3m) -> Vec3m {
    Vec3m { x: fmul_s(a.x, b.x), y: fmul_s(a.y, b.y), z: fmul_s(a.z, b.z) }
}

/// Scaling by a fixed-point scalar.
pub open spec fn vscale_s(v: Vec3m, k: int) -> Vec3m {
    Vec3m { x: fmul_s(v.x, k), y: fmul_s(v.y, k), z: fmul_s(v.z, k) }
}

/// Division by a positive fixed-point scalar.
pub open spec fn vdivk_s(v: Vec3m, k: int) -> Vec3m {
    Vec3m { x: fdiv_s(v.x, k), y: fdiv_s(v.y, k), z: fdiv_s(v.z, k) }
}

pub open spec fn dot_s(a: Vec3m, b: Vec3m) -> int {
    fmul_s(a.x, b.x) + fmul_s(a.y, b.y) + fmul_s(a.z, b.z)
}

pub open spec fn cross_s(a: Vec3m, b: Vec3m) -> Vec3m {
    Vec3m {
        x: fmul_s(a.y, b.z) - fmul_s(a.z, b.y),
        y: fmul_s(a.z, b.x) - fmul_s(a.x, b.z),
        z: fmul_s(a.x, b.y) - fmul_s(a.y, b.x),
    }
}

pub open spec fn vlen_s(v: Vec3m) -> int {
    fsqrt_s(dot_s(v, v))
}

/// Normalization; the zero vector (whose length cannot divide) maps to
/// itself, the guarded outcome for a degenerate direction.
pub open spec fn unit_s(v: Vec3m) -> Vec3m {
    if dot_s(v, v) == 0 {
        vzero()
    } else {
        vdivk_s(v, vlen_s(v))
    }
}

/// Mirror reflection about a surface normal: `v - 2 (v . n) n`.
pub open spec fn reflect_s(v: Vec3m, n: Vec3m) -> Vec3m {
    vsub_s(v, vscale_s(n, 2 * dot_s(v, n)))
}

/// Snell refraction of the unit direction `uv` at a surface with unit
/// normal `n` and refraction ratio `ratio`.
pub open spec fn refract_s(uv: Vec3m, n: Vec3m, ratio: int) -> Vec3m {
    let cos_theta = fmin_s(dot_s(vneg_s(uv), n), ONE as int);
    let perp = vscale_s(vadd_s(uv, vscale_s(n, cos_theta)), ratio);
    let par = vscale_s(n, -fsqrt_s(iabs((ONE as int) - dot_s(perp, perp))));
    vadd_s(perp, par)
}

/// Every component lies in the unit interval `[0, 1]`; the shape of an
/// albedo and of a finished radiance sample.
pub open spec fn in01_s(v: Vec3m) -> bool {
    0 <= v.x <= ONE as int && 0 <= v.y <= ONE as int && 0 <= v.z <= ONE as int
}

pub open spec fn near_zero_s(v: Vec3m) -> bool {
    iabs(v.x) < NEAR_ZERO_EPS as int && iabs(v.y) < NEAR_ZERO_EPS as int
        && iabs(v.z) < NEAR_ZERO_EPS as int
}

/// The squared length of any vector is nonnegative.
pub proof fn lemma_dot_self_nonneg(v: Vec3m)
    ensures
        dot_s(v, v) >= 0,
        fmul_s(v.x, v.x) >= 0,
        fmul_s(v.y, v.y) >= 0,
        fmul_s(v.z, v.z) >= 0,
{
    assert(v.x * v.x >= 0 && v.y * v.y >= 0 && v.z * v.z >= 0) by (nonlinear_arith);
    lemma_tdiv_abs(v.x * v.x, ONE as int);
    lemma_tdiv_abs(v.y * v.y, ONE as int);
    lemma_tdiv_abs(v.z * v.z, ONE as int);
}

/// Negating one argument negates a dot product exactly.
pub proof fn lemma_vneg_dot(a: Vec3m, b: Vec3m)
    ensures
        dot_s(vneg_s(a), b) == -dot_s(a, b),
{
    lemma_mul_unary_negation(a.x, b.x);
    lemma_mul_unary_negation(a.y, b.y);
    lemma_mul_unary_negation(a.z, b.z);
    assert(tdiv(-(a.x * b.x), ONE as int) == -tdiv(a.x * b.x, ONE as int));
    assert(tdiv(-(a.y * b.y), ONE as int) == -tdiv(a.y * b.y, ONE as int));
    assert(tdiv(-(a.z * b.z), ONE as int) == -tdiv(a.z * b.z, ONE as int));
}

/// A magnitude bound for a dot product from component bounds.
pub proof fn lemma_dot_bound(a: Vec3m, b: Vec3m, abound: int, bbound: int)
    requires
        amax(a) <= abound,
        amax(b) <= bbound,
    ensures
        iabs(dot_s(a, b)) <= 3 * ((abound * bbound) / (ONE as int)),
{
    lemma_fmul_bound(a.x, b.x, abound, bbound);
    lemma_fmul_bound(a.y, b.y, abound, bbound);
    lemma_fmul_bound(a.z, b.z, abound, bbound);
}

/// Division by the scale constant stays below a cap.
pub proof fn lemma_div_cap(x: int, cap: int)
    requires
        0 <= x,
        x <= cap * (ONE as int),
    ensures
        x / (ONE as int) <= cap,
{
    lemma_div_is_ordered(x, cap * (ONE as int), ONE as int);
    lemma_div_by_multiple(cap, ONE as int);
}

/// A concrete magnitude cap for a dot product from component bounds.
pub proof fn lemma_dot_cap(a: Vec3m, b: Vec3m, abound: int, bbound: int, cap: int)
    requires
        amax(a) <= abound,
        amax(b) <= bbound,
        0 <= abound,
        0 <= bbound,
        abound * bbound <= cap * (ONE as int),
    ensures
        iabs(dot_s(a, b)) <= 3 * cap,
{
    lemma_fmul_bound(a.x, b.x, abound, bbound);
    lemma_fmul_bound(a.y, b.y, abound, bbound);
    lemma_fmul_bound(a.z, b.z, abound, bbound);
    lemma_div_cap(abound * bbound, cap);
}

/// Normalizing a vector of nonzero squared length yields components of
/// magnitude at most 2 (the slack allows for rounding in the square
/// root and the division).
pub proof fn lemma_unit_bound(v: Vec3m)
    requires
        dot_s(v, v) >= 1,
        amax(v) <= 0x40_0000_0000,
    ensures
        amax(unit_s(v)) <= 2 * ONE,
{
    let ls = dot_s(v, v);
    let r = vlen_s(v);
    lemma_dot_self_nonneg(v);
    lemma_isqrt_props(ls * (ONE as int));
    assert(r >= 256) by (nonlinear_arith)
        requires
            ls >= 1,
            is_isqrt(ls * (ONE as int), r),
    ;
    lemma_unit_comp(v.x, fmul_s(v.x, v.x), ls, r);
    lemma_unit_comp(v.y, fmul_s(v.y, v.y), ls, r);
    lemma_unit_comp(v.z, fmul_s(v.z, v.z), ls, r);
}

/// One component of the normalization bound: if the square of `c`
/// contributes at most `ls` to the squared length and `r` is the
/// fixed-point length, then `c / r` has magnitude at most 2.
proof fn lemma_unit_comp(c: int, csq: int, ls: int, r: int)
    requires
        csq == fmul_s(c, c),
        csq <= ls,
        r >= 256,
        r * r <= ls * (ONE as int),
        ls * (ONE as int) < (r + 1) * (r + 1),
    ensures
        iabs(fdiv_s(c, r)) <= 2 * ONE,
{
    assert(c * c >= 0) by (nonlinear_arith);
    lemma_tdiv_abs(c * c, ONE as int);
    lemma_fundamental_div_mod(c * c, ONE as int);
    lemma_mod_division_less_than_divisor(c * c, ONE as int);
    // c * c <= ONE * csq + ONE - 1 <= ONE * ls + ONE - 1 < (r+1)^2 + ONE - 1
    lemma_mul_inequality(csq, ls, ONE as int);
    lemma_mul_is_commutative(csq, ONE as int);
    lemma_mul_is_commutative(ls, ONE as int);
    assert(iabs(c) <= 2 * r) by (nonlinear_arith)
        requires
            c * c < (r + 1) * (r + 1) + (ONE as int) - 1,
            r >= 256,
    ;
    lemma_tdiv_abs(c * (ONE as int), r);
    assert(iabs(c * (ONE as int)) == iabs(c) * (ONE as int)) by (nonlinear_arith);
    lemma_mul_inequality(iabs(c), 2 * r, ONE as int);
    assert(2 * r * (ONE as int) == r * (2 * (ONE as int))) by (nonlinear_arith);
    lemma_multiply_divide_le(iabs(c) * (ONE as int), r, 2 * (ONE as int));
}

impl Vec3 {
    pub fn new(x: i64, y: i64, z: i64) -> (r: Vec3)
        ensures
            r@ == (Vec3m { x: x as int, y: y as int, z: z as int }),
    {
        Vec3 { x, y, z }
    }

    /// Builds a vector from a slice of exactly three components.
    pub fn from_slice(arr: &[i64]) -> (r: Vec3)
        requires
            arr@.len() == 3,
        ensures
            r@ == (Vec3m { x: arr@[0] as int, y: arr@[1] as int, z: arr@[2] as int }),
    {
        Vec3 { x: arr[0], y: arr[1], z: arr[2] }
    }

    pub fn x(&self) -> (r: i64)
        ensures
            r == self@.x,
    {
        self.x
    }

    pub fn y(&self) -> (r: i64)
        ensures
            r == self@.y,
    {
        self.y
    }

    pub fn z(&self) -> (r: i64)
        ensures
            r == self@.z,
    {
        self.z
    }

    pub fn neg(self) -> (r: Vec3)
        requires
            amax(self@) <= 0x4000_0000_0000_0000,
        ensures
            r@ == vneg_s(self@),
            amax(r@) == amax(self@),
    {
        Vec3 { x: -self.x, y: -self.y, z: -self.z }
    }

    pub fn add(self, rhs: Vec3) -> (r: Vec3)
        requires
            amax(self@) + amax(rhs@) <= i64::MAX,
        ensures
            r@ == vadd_s(self@, rhs@),
            amax(r@) <= amax(self@) + amax(rhs@),
    {
        Vec3 { x: self.x + rhs.x, y: self.y + rhs.y, z: self.z + rhs.z }
    }

    pub fn sub(self, rhs: Vec3) -> (r: Vec3)
        requires
            amax(self@) + amax(rhs@) <= i64::MAX,
        ensures
            r@ == vsub_s(self@, rhs@),
            amax(r@) <= amax(self@) + amax(rhs@),
    {
        Vec3 { x: self.x - rhs.x, y: self.y - rhs.y, z: self.z - rhs.z }
    }

    /// Component-wise product.
    pub fn mul(self, rhs: Vec3) -> (r: Vec3)
        requires
            amax(self@) * amax(rhs@) <= (i64::MAX as int) * (ONE as int),
        ensures
            r@ == vmul_s(self@, rhs@),
            amax(r@) <= (amax(self@) * amax(rhs@)) / (ONE as int),
    {
        proof {
            let a = amax(self@);
            let b = amax(rhs@);
            lemma_mul_upper_bound(iabs(self@.x), a, iabs(rhs@.x), b);
            lemma_mul_upper_bound(iabs(self@.y), a, iabs(rhs@.y), b);
            lemma_mul_upper_bound(iabs(self@.z), a, iabs(rhs@.z), b);
            lemma_fmul_bound(self@.x, rhs@.x, a, b);
            lemma_fmul_bound(self@.y, rhs@.y, a, b);
            lemma_fmul_bound(self@.z, rhs@.z, a, b);
        }
        Vec3 { x: fmul(self.x, rhs.x), y: fmul(self.y, rhs.y), z: fmul(self.z, rhs.z) }
    }

    /// Scaling by a fixed-point scalar.
    pub fn scale(self, k: i64) -> (r: Vec3)
        requires
            amax(self@) * iabs(k as int) <= (i64::MAX as int) * (ONE as int),
        ensures
            r@ == vscale_s(self@, k as int),
            amax(r@) <= (amax(self@) * iabs(k as int)) / (ONE as int),
    {
        proof {
            let a = amax(self@);
            let b = iabs(k as int);
            lemma_mul_upper_bound(iabs(self@.x), a, b, b);
            lemma_mul_upper_bound(iabs(self@.y), a, b, b);
            lemma_mul_upper_bound(iabs(self@.z), a, b, b);
            lemma_fmul_bound(self@.x, k as int, a, b);
            lemma_fmul_bound(self@.y, k as int, a, b);
            lemma_fmul_bound(self@.z, k as int, a, b);
        }
        Vec3 { x: fmul(self.x, k), y: fmul(self.y, k), z: fmul(self.z, k) }
    }

    /// Division by a positive fixed-point scalar.
    pub fn div_by(self, k: i64) -> (r: Vec3)
        requires
            k > 0,
            amax(self@) * (ONE as int) <= (i64::MAX as int) * (k as int),
        ensures
            r@ == vdivk_s(self@, k as int),
            amax(r@) <= (amax(self@) * (ONE as int)) / (k as int),
    {
        proof {
            let a = amax(self@);
            lemma_mul_inequality(iabs(self@.x), a, ONE as int);
            lemma_mul_inequality(iabs(self@.y), a, ONE as int);
            lemma_mul_inequality(iabs(self@.z), a, ONE as int);
            lemma_div_fdiv_bound(self@.x, a, k as int);
            lemma_div_fdiv_bound(self@.y, a, k as int);
            lemma_div_fdiv_bound(self@.z, a, k as int);
        }
        Vec3 { x: fdiv(self.x, k), y: fdiv(self.y, k), z: fdiv(self.z, k) }
    }

    pub fn length_squared(&self) -> (r: i64)
        requires
            amax(self@) <= 0x40_0000_0000,
        ensures
            r == dot_s(self@, self@),
            r >= 0,
    {
        proof {
            lemma_dot_self_nonneg(self@);
            assert(amax(self@) * amax(self@) <= 0x2000_0000_0000_0000 * (ONE as int))
                by (nonlinear_arith)
                requires
                    0 <= amax(self@) <= 0x40_0000_0000,
                    (ONE as int) == 65536,
            ;
        }
        dot(self, self)
    }

    pub fn length(&self) -> (r: i64)
        requires
            amax(self@) <= 0x40_0000_0000,
        ensures
            r == vlen_s(self@),
            r >= 0,
    {
        let ls: i64 = self.length_squared();
        fsqrt(ls)
    }

    /// A vector whose components are independent samples in `[0, 1)`.
    pub fn random(rng: &mut Rng) -> (r: Vec3)
        ensures
            0 <= r@.x < ONE,
            0 <= r@.y < ONE,
            0 <= r@.z < ONE,
            amax(r@) < ONE,
    {
        let x: i64 = rng.next_unit();
        let y: i64 = rng.next_unit();
        let z: i64 = rng.next_unit();
        Vec3 { x, y, z }
    }

    /// A vector whose components are independent samples in `[min, max)`.
    pub fn random_range(rng: &mut Rng, min: i64, max: i64) -> (r: Vec3)
        requires
            min <= max,
            max - min <= i64::MAX,
        ensures
            min <= r@.x <= max,
            min <= r@.y <= max,
            min <= r@.z <= max,
            min < max ==> r@.x < max && r@.y < max && r@.z < max,
            amax(r@) <= fmax_s(iabs(min as int), iabs(max as int)),
    {
        let x: i64 = rng.next_range(min, max);
        let y: i64 = rng.next_range(min, max);
        let z: i64 = rng.next_range(min, max);
        Vec3 { x, y, z }
    }

    /// True when every component is below the degeneracy threshold.
    pub fn near_zero(&self) -> (r: bool)
        requires
            amax(self@) <= i64::MAX,
        ensures
            r == near_zero_s(self@),
    {
        fabs(self.x) < NEAR_ZERO_EPS && fabs(self.y) < NEAR_ZERO_EPS
            && fabs(self.z) < NEAR_ZERO_EPS
    }
}

/// Magnitude bound for one component of a scalar division.
proof fn lemma_div_fdiv_bound(c: int, cap: int, k: int)
    requires
        k > 0,
        iabs(c) <= cap,
        0 <= cap,
    ensures
        iabs(fdiv_s(c, k)) <= (cap * (ONE as int)) / k,
{
    assert(iabs(c * (ONE as int)) == iabs(c) * (ONE as int)) by (nonlinear_arith);
    lemma_mul_inequality(iabs(c), cap, ONE as int);
    lemma_tdiv_bound(c * (ONE as int), k, cap * (ONE as int));
    lemma_tdiv_abs(c * (ONE as int), k);
    lemma_div_is_ordered(iabs(c) * (ONE as int), cap * (ONE as int), k);
}

pub fn dot(u: &Vec3, v: &Vec3) -> (r: i64)
    requires
        amax(u@) * amax(v@) <= 0x2000_0000_0000_0000 * (ONE as int),
    ensures
        r == dot_s(u@, v@),
        iabs(r as int) <= 3 * ((amax(u@) * amax(v@)) / (ONE as int)),
{
    proof {
        let a = amax(u@);
        let b = amax(v@);
        lemma_mul_upper_bound(iabs(u@.x), a, iabs(v@.x), b);
        lemma_mul_upper_bound(iabs(u@.y), a, iabs(v@.y), b);
        lemma_mul_upper_bound(iabs(u@.z), a, iabs(v@.z), b);
        lemma_fmul_bound(u@.x, v@.x, a, b);
        lemma_fmul_bound(u@.y, v@.y, a, b);
        lemma_fmul_bound(u@.z, v@.z, a, b);
        lemma_div_is_ordered(a * b, 0x2000_0000_0000_0000 * (ONE as int), ONE as int);
    }
    fmul(u.x, v.x) + fmul(u.y, v.y) + fmul(u.z, v.z)
}

pub fn cross(u: &Vec3, v: &Vec3) -> (r: Vec3)
    requires
        amax(u@) * amax(v@) <= 0x2000_0000_0000_0000 * (ONE as int),
    ensures
        r@ == cross_s(u@, v@),
        amax(r@) <= 2 * ((amax(u@) * amax(v@)) / (ONE as int)),
{
    proof {
        let a = amax(u@);
        let b = amax(v@);
        lemma_mul_upper_bound(iabs(u@.x), a, iabs(v@.x), b);
        lemma_mul_upper_bound(iabs(u@.x), a, iabs(v@.y), b);
        lemma_mul_upper_bound(iabs(u@.x), a, iabs(v@.z), b);
        lemma_mul_upper_bound(iabs(u@.y), a, iabs(v@.x), b);
        lemma_mul_upper_bound(iabs(u@.y), a, iabs(v@.z), b);
        lemma_mul_upper_bound(iabs(u@.z), a, iabs(v@.x), b);
        lemma_mul_upper_bound(iabs(u@.z), a, iabs(v@.y), b);
        lemma_fmul_bound(u@.y, v@.z, a, b);
        lemma_fmul_bound(u@.z, v@.y, a, b);
        lemma_fmul_bound(u@.z, v@.x, a, b);
        lemma_fmul_bound(u@.x, v@.z, a, b);
        lemma_fmul_bound(u@.x, v@.y, a, b);
        lemma_fmul_bound(u@.y, v@.x, a, b);
        lemma_div_is_ordered(a * b, 0x2000_0000_0000_0000 * (ONE as int), ONE as int);
    }
    Vec3 {
        x: fmul(u.y, v.z) - fmul(u.z, v.y),
        y: fmul(u.z, v.x) - fmul(u.x, v.z),
        z: fmul(u.x, v.y) - fmul(u.y, v.x),
    }
}

/// Mirror reflection about a surface normal.
pub fn reflect(v: &Vec3, n: &Vec3) -> (r: Vec3)
    requires
        amax(v@) <= 4 * ONE,
        amax(n@) <= 4 * ONE,
    ensures
        r@ == reflect_s(v@, n@),
        amax(r@) <= 400 * ONE,
{
    proof {
        lemma_dot_bound(v@, n@, 4 * ONE as int, 4 * ONE as int);
        assert(amax(v@) * amax(n@) <= 1048576 * (ONE as int) && amax(v@) * amax(n@)
            <= 0x2000_0000_0000_0000 * (ONE as int)) by (nonlinear_arith)
            requires
                0 <= amax(v@) <= 4 * (ONE as int),
                0 <= amax(n@) <= 4 * (ONE as int),
                (ONE as int) == 65536,
        ;
        lemma_div_is_ordered(amax(v@) * amax(n@), 1048576 * (ONE as int), ONE as int);
        lemma_div_by_multiple(1048576, ONE as int);
    }
    let d: i64 = dot(v, n);
    proof {
        assert(amax(n@) * iabs(2 * (d as int)) <= 25165824 * (ONE as int) && amax(n@) * iabs(
            2 * (d as int)) <= (i64::MAX as int) * (ONE as int)) by (nonlinear_arith)
            requires
                0 <= amax(n@) <= 4 * (ONE as int),
                0 <= iabs(2 * (d as int)) <= 96 * (ONE as int),
                (ONE as int) == 65536,
        ;
        lemma_div_is_ordered(amax(n@) * iabs(2 * (d as int)), 25165824 * (ONE as int), ONE as int);
        lemma_div_by_multiple(25165824, ONE as int);
    }
    let scaled: Vec3 = n.scale(2 * d);
    (*v).sub(scaled)
}

/// Normalization to (approximately) unit length; the zero vector is
/// returned unchanged.
pub fn unit_vector(v: Vec3) -> (r: Vec3)
    requires
        amax(v@) <= 0x40_0000_0000,
    ensures
        r@ == unit_s(v@),
        amax(r@) <= 2 * ONE,
{
    let ls: i64 = v.length_squared();
    if ls == 0 {
        Vec3 { x: 0, y: 0, z: 0 }
    } else {
        let len: i64 = fsqrt(ls);
        proof {
            lemma_dot_self_nonneg(v@);
            lemma_isqrt_props(ls * (ONE as int));
            assert(len >= 256) by (nonlinear_arith)
                requires
                    ls >= 1,
                    is_isqrt(ls * (ONE as int), len as int),
            ;
            lemma_unit_bound(v@);
            assert(amax(v@) * (ONE as int) <= (i64::MAX as int) * (len as int)) by (nonlinear_arith)
                requires
                    amax(v@) <= 0x40_0000_0000,
                    len >= 256,
            ;
        }
        v.div_by(len)
    }
}

/// Snell refraction of a unit direction at a surface.
pub fn refract(uv: &Vec3, n: &Vec3, etai_over_etat: i64) -> (r: Vec3)
    requires
        amax(uv@) <= 4 * ONE,
        amax(n@) <= 4 * ONE,
        0 <= etai_over_etat <= 16 * ONE,
    ensures
        r@ == refract_s(uv@, n@, etai_over_etat as int),
        amax(r@) <= 0x2_0000_0000,
{
    proof {
        lemma_dot_bound(uv@, n@, 4 * ONE as int, 4 * ONE as int);
        assert(amax(uv@) * amax(n@) <= 1048576 * (ONE as int) && amax(uv@) * amax(n@)
            <= 0x2000_0000_0000_0000 * (ONE as int)) by (nonlinear_arith)
            requires
                0 <= amax(uv@) <= 4 * (ONE as int),
                0 <= amax(n@) <= 4 * (ONE as int),
                (ONE as int) == 65536,
        ;
        lemma_div_is_ordered(amax(uv@) * amax(n@), 1048576 * (ONE as int), ONE as int);
        lemma_div_by_multiple(1048576, ONE as int);
    }
    let minus_uv: Vec3 = uv.neg();
    let d0: i64 = dot(&minus_uv, n);
    let cos_theta: i64 = crate::fixed::fmin(d0, ONE);
    proof {
        assert(amax(n@) * iabs(cos_theta as int) <= 0xc0_0000 * (ONE as int) && amax(n@) * iabs(
            cos_theta as int) <= (i64::MAX as int) * (ONE as int)) by (nonlinear_arith)
            requires
                0 <= amax(n@) <= 4 * (ONE as int),
                0 <= iabs(cos_theta as int) <= 48 * (ONE as int),
                (ONE as int) == 65536,
        ;
        lemma_div_is_ordered(amax(n@) * iabs(cos_theta as int), 0xc0_0000 * (ONE as int),
            ONE as int);
        lemma_div_by_multiple(0xc0_0000, ONE as int);
    }
    let cn: Vec3 = n.scale(cos_theta);
    let inner: Vec3 = (*uv).add(cn);
    proof {
        assert(amax(inner@) * iabs(etai_over_etat as int) <= 0xc40_0000 * (ONE as int) && amax(
            inner@) * iabs(etai_over_etat as int) <= (i64::MAX as int) * (ONE as int))
            by (nonlinear_arith)
            requires
                0 <= amax(inner@) <= 0xc4_0000,
                0 <= iabs(etai_over_etat as int) <= 16 * (ONE as int),
                (ONE as int) == 65536,
        ;
        lemma_div_is_ordered(amax(inner@) * iabs(etai_over_etat as int),
            0xc40_0000 * (ONE as int), ONE as int);
        lemma_div_by_multiple(0xc40_0000, ONE as int);
    }
    let perp: Vec3 = inner.scale(etai_over_etat);
    proof {
        assert(amax(perp@) * amax(perp@) <= 0x100_0000_0000 * (ONE as int) && amax(perp@) * amax(
            perp@) <= 0x2000_0000_0000_0000 * (ONE as int)) by (nonlinear_arith)
            requires
                0 <= amax(perp@) <= 0xc40_0000,
                (ONE as int) == 65536,
        ;
        lemma_div_is_ordered(amax(perp@) * amax(perp@), 0x100_0000_0000 * (ONE as int),
            ONE as int);
        lemma_div_by_multiple(0x100_0000_0000, ONE as int);
    }
    let perp_ls: i64 = dot(&perp, &perp);
    let s: i64 = fsqrt(fabs(ONE - perp_ls));
    proof {
        lemma_sqrt_cap(iabs((ONE as int) - perp_ls as int), s as int);
        assert(amax(n@) * iabs(-s as int) <= 0x1_0000_0000 * (ONE as int) && amax(n@) * iabs(
            -s as int) <= (i64::MAX as int) * (ONE as int)) by (nonlinear_arith)
            requires
                0 <= amax(n@) <= 4 * (ONE as int),
                0 <= iabs(-s as int) <= 0x4000_0000,
                (ONE as int) == 65536,
        ;
        lemma_div_is_ordered(amax(n@) * iabs(-s as int), 0x1_0000_0000 * (ONE as int),
            ONE as int);
        lemma_div_by_multiple(0x1_0000_0000, ONE as int);
    }
    let par: Vec3 = n.scale(-s);
    perp.add(par)
}

/// A bound on the fixed-point square root of a bounded argument, enough
/// to bound refraction intermediates.
proof fn lemma_sqrt_cap(a: int, s: int)
    requires
        0 <= a <= 0x1000_0000_0000,
        is_isqrt(a * (ONE as int), s),
    ensures
        0 <= s <= 0x4000_0000,
{
    assert(s <= 0x4000_0000) by (nonlinear_arith)
        requires
            s >= 0,
            s * s <= a * (ONE as int),
            a <= 0x1000_0000_0000,
            (ONE as int) == 65536,
    ;
}

/// Refraction bends no light at normal incidence through an unchanged
/// index: for an incoming unit direction dead against an exactly unit
/// normal, with refraction ratio one, the refracted direction equals the
/// incoming direction.
pub proof fn lemma_refract_normal_incidence(uv: Vec3m, n: Vec3m)
    requires
        dot_s(n, n) == ONE as int,
        uv == vneg_s(n),
    ensures
        refract_s(uv, n, ONE as int) == uv,
{
    assert(vneg_s(uv) == n);
    let cos = fmin_s(dot_s(vneg_s(uv), n), ONE as int);
    assert(cos == ONE as int);
    crate::fixed::lemma_fmul_one(n.x);
    crate::fixed::lemma_fmul_one(n.y);
    crate::fixed::lemma_fmul_one(n.z);
    assert(vscale_s(n, cos) == n);
    assert(vadd_s(uv, vscale_s(n, cos)) == vzero());
    crate::fixed::lemma_fmul_zero(ONE as int);
    let perp = vscale_s(vadd_s(uv, vscale_s(n, cos)), ONE as int);
    assert(perp == vzero());
    assert(dot_s(perp, perp) == 0);
    assert(iabs((ONE as int) - dot_s(perp, perp)) == ONE as int);
    assert((ONE as int) * (ONE as int) == 4294967296int) by (nonlinear_arith)
        requires
            (ONE as int) == 65536,
    ;
    assert(is_isqrt(4294967296, 65536)) by (nonlinear_arith);
    crate::fixed::lemma_isqrt_unique(4294967296, 65536);
    assert(fsqrt_s(ONE as int) == ONE as int);
    crate::fixed::lemma_fmul_neg(n.x, ONE as int);
    crate::fixed::lemma_fmul_neg(n.y, ONE as int);
    crate::fixed::lemma_fmul_neg(n.z, ONE as int);
    assert(vscale_s(n, -(ONE as int)) == vneg_s(n));
}

/// Rejection-samples a point inside the unit sphere; after a bounded
/// number of failed draws it falls back to a fixed interior point, so
/// the sampler is total.
pub fn random_in_unit_sphere(rng: &mut Rng) -> (r: Vec3)
    ensures
        dot_s(r@, r@) < ONE,
        amax(r@) <= ONE,
{
    let mut tries: u64 = 0;
    while tries < 64
        decreases 64 - tries,
    {
        let p: Vec3 = Vec3::random_range(rng, -ONE, ONE);
        let ls: i64 = p.length_squared();
        if ls < ONE {
            return p;
        }
        tries = tries + 1;
    }
    let fallback: Vec3 = Vec3 { x: 32768, y: 0, z: 0 };
    proof {
        lemma_fallback_in_sphere(fallback@);
    }
    fallback
}

/// The fixed interior point used when rejection sampling gives up has
/// squared length one quarter.
proof fn lemma_fallback_in_sphere(v: Vec3m)
    requires
        v.x == 32768,
        v.y == 0,
        v.z == 0,
    ensures
        dot_s(v, v) == 16384,
{
    assert(32768int * 32768int == 1073741824int) by (nonlinear_arith);
    assert(1073741824int / 65536int == 16384int) by (nonlinear_arith);
    assert(tdiv(1073741824, ONE as int) == 16384);
    assert(fmul_s(0, 0) == 0);
}

/// A draw whose squared length falls below this floor is too short to
/// normalize accurately and is replaced; rejecting short draws does not
/// change the distribution of directions.
pub const UNIT_DRAW_FLOOR: i64 = 6554;

/// Normalizing an in-sphere draw above the degeneracy floor gives a
/// vector of unit length up to rounding: every component magnitude is
/// at most `1 + 16/65536` and the squared length is nonzero, so the
/// result is never degenerate.
proof fn lemma_unit_near(v: Vec3m)
    requires
        UNIT_DRAW_FLOOR as int <= dot_s(v, v) < ONE,
        amax(v) <= ONE,
    ensures
        amax(unit_s(v)) <= (ONE as int) + 16,
        dot_s(unit_s(v), unit_s(v)) >= 1,
{
    let ls = dot_s(v, v);
    let len = vlen_s(v);
    lemma_dot_self_nonneg(v);
    lemma_isqrt_props(ls * (ONE as int));
    assert(20000 <= len && len < ONE) by (nonlinear_arith)
        requires
            is_isqrt(ls * (ONE as int), len),
            6554 <= ls < 65536,
            (ONE as int) == 65536,
    ;
    lemma_unit_near_comp(v.x, ls, len);
    lemma_unit_near_comp(v.y, ls, len);
    lemma_unit_near_comp(v.z, ls, len);
    let u = unit_s(v);
    lemma_dot_self_nonneg(u);
    if fmul_s(v.x, v.x) >= 2185 {
        lemma_unit_floor_comp(v.x, ls, len);
    } else if fmul_s(v.y, v.y) >= 2185 {
        lemma_unit_floor_comp(v.y, ls, len);
    } else {
        lemma_unit_floor_comp(v.z, ls, len);
    }
}

/// One component of the near-unit bound: division by the fixed-point
/// length keeps a component's magnitude within rounding of one.
proof fn lemma_unit_near_comp(c: int, ls: int, len: int)
    requires
        fmul_s(c, c) <= ls,
        6554 <= ls < ONE,
        is_isqrt(ls * (ONE as int), len),
        20000 <= len < ONE,
    ensures
        iabs(fdiv_s(c, len)) <= (ONE as int) + 16,
{
    assert(c * c >= 0) by (nonlinear_arith);
    lemma_tdiv_abs(c * c, ONE as int);
    lemma_fundamental_div_mod(c * c, ONE as int);
    lemma_mod_division_less_than_divisor(c * c, ONE as int);
    lemma_mul_inequality(tdiv(c * c, ONE as int), ls, ONE as int);
    lemma_mul_is_commutative(tdiv(c * c, ONE as int), ONE as int);
    lemma_mul_is_commutative(ls, ONE as int);
    assert(iabs(c) * (ONE as int) <= ((ONE as int) + 16) * len) by (nonlinear_arith)
        requires
            c * c <= (ONE as int) * ls + (ONE as int) - 1,
            ls * (ONE as int) < (len + 1) * (len + 1),
            6554 <= ls < ONE,
            20000 <= len < ONE,
            (ONE as int) == 65536,
    ;
    lemma_tdiv_abs(c * (ONE as int), len);
    assert(iabs(c * (ONE as int)) == iabs(c) * (ONE as int)) by (nonlinear_arith);
    lemma_div_is_ordered(iabs(c) * (ONE as int), ((ONE as int) + 16) * len, len);
    lemma_div_by_multiple((ONE as int) + 16, len);
}

/// One component of the nonzero floor: a component whose square term
/// carries at least a third of the floored squared length keeps a
/// nonzero square after normalization.
proof fn lemma_unit_floor_comp(c: int, ls: int, len: int)
    requires
        fmul_s(c, c) >= 2185,
        is_isqrt(ls * (ONE as int), len),
        1 <= ls < ONE,
        1 <= len < ONE,
    ensures
        fmul_s(fdiv_s(c, len), fdiv_s(c, len)) >= 2185,
{
    assert(c * c >= 0) by (nonlinear_arith);
    lemma_tdiv_abs(c * c, ONE as int);
    lemma_fundamental_div_mod(c * c, ONE as int);
    lemma_mod_division_less_than_divisor(c * c, ONE as int);
    lemma_mul_inequality(2185, tdiv(c * c, ONE as int), ONE as int);
    assert(iabs(c) >= 11967) by (nonlinear_arith)
        requires
            c * c >= 2185 * (ONE as int),
            (ONE as int) == 65536,
    ;
    lemma_tdiv_abs(c * (ONE as int), len);
    assert(iabs(c * (ONE as int)) == iabs(c) * (ONE as int)) by (nonlinear_arith);
    lemma_div_is_ordered_by_denominator(iabs(c) * (ONE as int), len, ONE as int);
    lemma_div_by_multiple(iabs(c), ONE as int);
    lemma_mul_is_commutative(iabs(c), ONE as int);
    let u = fdiv_s(c, len);
    assert(u * u >= 2185 * (ONE as int)) by (nonlinear_arith)
        requires
            iabs(u) >= 11967,
            (ONE as int) == 65536,
    ;
    lemma_tdiv_abs(u * u, ONE as int);
    lemma_div_is_ordered(2185 * (ONE as int), u * u, ONE as int);
    lemma_div_by_multiple(2185, ONE as int);
}

/// The unit axis used when a draw falls below the degeneracy floor is
/// itself the normalization of an in-range draw.
proof fn lemma_axis_fallback(p: Vec3m)
    requires
        p.x == 0,
        p.y == 32768,
        p.z == 0,
    ensures
        dot_s(p, p) == 16384,
        unit_s(p) == (Vec3m { x: 0, y: ONE as int, z: 0 }),
        dot_s(unit_s(p), unit_s(p)) == ONE as int,
{
    assert(32768int * 32768int == 1073741824int) by (nonlinear_arith);
    assert(1073741824int / 65536int == 16384int) by (nonlinear_arith);
    assert(tdiv(1073741824, ONE as int) == 16384);
    crate::fixed::lemma_fmul_zero(0);
    assert(dot_s(p, p) == 16384);
    assert(16384int * 65536int == 1073741824int) by (nonlinear_arith);
    assert(is_isqrt(1073741824, 32768)) by (nonlinear_arith);
    crate::fixed::lemma_isqrt_unique(1073741824, 32768);
    assert(vlen_s(p) == 32768);
    assert(32768int * 65536int == 2147483648int) by (nonlinear_arith);
    assert(2147483648int / 32768int == 65536int) by (nonlinear_arith);
    assert(tdiv(2147483648, 32768) == 65536);
    assert(fdiv_s(32768, 32768) == ONE as int);
    lemma_div_of0(32768);
    assert(fdiv_s(0, 32768) == 0);
    crate::fixed::lemma_fmul_one(ONE as int);
}

/// A random direction of unit length up to rounding: never degenerate,
/// every component within `16/65536` of unit magnitude.  A draw below
/// the degeneracy floor is replaced by a fixed axis; since the floor
/// only rejects short draws, the distribution of directions is
/// unchanged.
pub fn random_unit_vector(rng: &mut Rng) -> (r: Vec3)
    ensures
        exists|p: Vec3m|
            UNIT_DRAW_FLOOR as int <= dot_s(p, p) < ONE && r@ == #[trigger] unit_s(p),
        amax(r@) <= (ONE as int) + 16,
        dot_s(r@, r@) >= 1,
{
    let p: Vec3 = random_in_unit_sphere(rng);
    let ls: i64 = p.length_squared();
    if ls >= UNIT_DRAW_FLOOR {
        let u: Vec3 = unit_vector(p);
        proof {
            let pm = p@;
            lemma_unit_near(pm);
            assert(UNIT_DRAW_FLOOR as int <= dot_s(pm, pm) < ONE && u@ == unit_s(pm));
        }
        u
    } else {
        let fb: Vec3 = Vec3 { x: 0, y: ONE, z: 0 };
        proof {
            let pm = Vec3m { x: 0, y: 32768, z: 0 };
            lemma_axis_fallback(pm);
            assert(UNIT_DRAW_FLOOR as int <= dot_s(pm, pm) < ONE && fb@ == unit_s(pm));
        }
        fb
    }
}

/// A random in-sphere point on the same side of the surface as `normal`.
pub fn random_in_hemisphere(normal: &Vec3, rng: &mut Rng) -> (r: Vec3)
    requires
        amax(normal@) <= 0x40_0000_0000,
    ensures
        dot_s(r@, r@) < ONE,
        amax(r@) <= ONE,
        dot_s(r@, normal@) >= 0,
{
    let in_unit_sphere: Vec3 = random_in_unit_sphere(rng);
    proof {
        assert(amax(in_unit_sphere@) * amax(normal@) <= 0x2000_0000_0000_0000 * (ONE as int))
            by (nonlinear_arith)
            requires
                0 <= amax(in_unit_sphere@) <= (ONE as int),
                0 <= amax(normal@) <= 0x40_0000_0000,
                (ONE as int) == 65536,
        ;
    }
    let d: i64 = dot(&in_unit_sphere, normal);
    if d > 0 {
        in_unit_sphere
    } else {
        let flipped: Vec3 = in_unit_sphere.neg();
        proof {
            lemma_vneg_dot(in_unit_sphere@, normal@);
            lemma_neg_dot_self(in_unit_sphere@);
        }
        flipped
    }
}

/// Negating a vector preserves its squared length.
proof fn lemma_neg_dot_self(v: Vec3m)
    ensures
        dot_s(vneg_s(v), vneg_s(v)) == dot_s(v, v),
{
    assert((-v.x) * (-v.x) == v.x * v.x) by (nonlinear_arith);
    assert((-v.y) * (-v.y) == v.y * v.y) by (nonlinear_arith);
    assert((-v.z) * (-v.z) == v.z * v.z) by (nonlinear_arith);
}

/// Rejection-samples a point inside the unit disk in the `z = 0` plane,
/// with the same bounded-draw fallback as the sphere sampler.
pub fn random_in_unit_disk(rng: &mut Rng) -> (r: Vec3)
    ensures
        dot_s(r@, r@) < ONE,
        amax(r@) <= ONE,
        r@.z == 0,
{
    let mut tries: u64 = 0;
    while tries < 64
        decreases 64 - tries,
    {
        let x: i64 = rng.next_range(-ONE, ONE);
        let y: i64 = rng.next_range(-ONE, ONE);
        let p: Vec3 = Vec3 { x, y, z: 0 };
        let ls: i64 = p.length_squared();
        if ls < ONE {
            return p;
        }
        tries = tries + 1;
    }
    let fallback: Vec3 = Vec3 { x: 32768, y: 0, z: 0 };
    proof {
        lemma_fallback_in_sphere(fallback@);
    }
    fallback
}

} // verus!
