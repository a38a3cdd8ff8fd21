//! Signed 16.16 fixed-point scalars.
//!
//! A scalar value `v` is stored as the `i64` holding `v * 65536`, rounded
//! toward zero.  The spec functions below give every operation an exact
//! meaning over mathematical integers, so contracts elsewhere in the crate
//! can pin results down to the bit.

use vstd::prelude::*;
use vstd::arithmetic::div_mod::{
    lemma_div_is_ordered, lemma_div_by_multiple, lemma_div_pos_is_pos, lemma_div_of0,
};
use vstd::arithmetic::mul::{
    lemma_mul_upper_bound, lemma_mul_inequality, lemma_mul_is_commutative, lemma_mul_nonnegative,
    lemma_mul_unary_negation, lemma_mul_strictly_positive,
};

verus! {

/// The fixed-point representation of 1.0.
pub const ONE: i64 = 65536;

pub open spec fn iabs(a: int) -> int {
    if a >= 0 {
        a
    } else {
        -a
    }
}

/// Division rounding toward zero, the behaviour of `/` on machine integers.
pub open spec fn tdiv(a: int, b: int) -> int {
    if (a >= 0) == (b >= 0) {
        iabs(a) / iabs(b)
    } else {
        -(iabs(a) / iabs(b))
    }
}

/// The product of two fixed-point scalars.
pub open spec fn fmul_s(a: int, b: int) -> int {
    tdiv(a * b, ONE as int)
}

/// The quotient of two fixed-point scalars.
pub open spec fn fdiv_s(a: int, b: int) -> int {
    tdiv(a * (ONE as int), b)
}

pub open spec fn is_isqrt(n: int, r: int) -> bool {
    r >= 0 && r * r <= n && n < (r + 1) * (r + 1)
}

/// The integer square root (floor) of a nonnegative integer.
pub open spec fn isqrt_s(n: int) -> int {
    choose|r: int| #[trigger] is_isqrt(n, r)
}

/// The fixed-point square root of a fixed-point scalar:
/// `sqrt(a / 2^16) * 2^16 == sqrt(a * 2^16)`, rounded down.
pub open spec fn fsqrt_s(a: int) -> int {
    isqrt_s(a * (ONE as int))
}

pub open spec fn fmin_s(a: int, b: int) -> int {
    if a <= b {
        a
    } else {
        b
    }
}

pub open spec fn fmax_s(a: int, b: int) -> int {
    if a >= b {
        a
    } else {
        b
    }
}

pub open spec fn fclamp_s(a: int, lo: int, hi: int) -> int {
    fmin_s(fmax_s(a, lo), hi)
}

/// For a positive divisor, the magnitude of a truncating quotient is the
/// floor of the magnitude quotient.
pub proof fn lemma_tdiv_abs(a: int, b: int)
    requires
        b > 0,
    ensures
        iabs(tdiv(a, b)) == iabs(a) / b,
        a >= 0 ==> tdiv(a, b) == a / b,
        a >= 0 ==> tdiv(a, b) >= 0,
        a < 0 ==> tdiv(a, b) <= 0,
{
    lemma_div_pos_is_pos(iabs(a), b);
}

/// A magnitude bound for truncating division by a positive divisor.
pub proof fn lemma_tdiv_bound(a: int, b: int, cap: int)
    requires
        b > 0,
        iabs(a) <= cap,
    ensures
        iabs(tdiv(a, b)) <= cap / b,
        iabs(tdiv(a, b)) * b <= cap,
{
    lemma_tdiv_abs(a, b);
    lemma_div_is_ordered(iabs(a), cap, b);
    lemma_div_pos_is_pos(cap, b);
    assert((cap / b) * b <= cap) by {
        vstd::arithmetic::div_mod::lemma_fundamental_div_mod(cap, b);
        vstd::arithmetic::div_mod::lemma_mod_division_less_than_divisor(cap, b);
    }
    lemma_mul_inequality(iabs(tdiv(a, b)), cap / b, b);
}

/// A magnitude bound for the fixed-point product.
pub proof fn lemma_fmul_bound(a: int, b: int, abound: int, bbound: int)
    requires
        iabs(a) <= abound,
        iabs(b) <= bbound,
    ensures
        iabs(fmul_s(a, b)) <= (abound * bbound) / (ONE as int),
        iabs(fmul_s(a, b)) * (ONE as int) <= abound * bbound,
{
    assert(iabs(a * b) == iabs(a) * iabs(b)) by (nonlinear_arith);
    lemma_mul_upper_bound(iabs(a), abound, iabs(b), bbound);
    lemma_tdiv_bound(a * b, ONE as int, abound * bbound);
}

/// Multiplying a nonnegative scalar by a factor in `[0, 1]` does not
/// increase it (and keeps it nonnegative).
pub proof fn lemma_fmul_le_one(a: int, c: int)
    requires
        0 <= a <= ONE as int,
        0 <= c,
    ensures
        0 <= fmul_s(a, c) <= c,
{
    lemma_mul_inequality(a, ONE as int, c);
    assert(a * c >= 0) by (nonlinear_arith)
        requires
            a >= 0,
            c >= 0,
    ;
    lemma_tdiv_abs(a * c, ONE as int);
    lemma_div_is_ordered(a * c, (ONE as int) * c, ONE as int);
    lemma_div_by_multiple(c, ONE as int);
}

/// One is the multiplicative unit of the fixed-point product.
pub proof fn lemma_fmul_one(c: int)
    ensures
        fmul_s(c, ONE as int) == c,
        fmul_s(ONE as int, c) == c,
{
    lemma_mul_is_commutative(ONE as int, c);
    if c >= 0 {
        lemma_mul_nonnegative(c, ONE as int);
        lemma_div_by_multiple(c, ONE as int);
    } else {
        lemma_mul_unary_negation(c, ONE as int);
        lemma_mul_strictly_positive(-c, ONE as int);
        lemma_div_by_multiple(-c, ONE as int);
    }
}

/// Zero annihilates the fixed-point product.
pub proof fn lemma_fmul_zero(c: int)
    ensures
        fmul_s(c, 0) == 0,
        fmul_s(0, c) == 0,
{
    lemma_div_of0(ONE as int);
}

/// Negating one factor negates the fixed-point product.
pub proof fn lemma_fmul_neg(a: int, b: int)
    ensures
        fmul_s(-a, b) == -fmul_s(a, b),
        fmul_s(a, -b) == -fmul_s(a, b),
{
    lemma_mul_unary_negation(a, b);
}

/// Truncating division by a positive divisor is monotone in the
/// dividend.
pub proof fn lemma_tdiv_monotone(x: int, y: int, d: int)
    requires
        d > 0,
        x <= y,
    ensures
        tdiv(x, d) <= tdiv(y, d),
{
    lemma_tdiv_abs(x, d);
    lemma_tdiv_abs(y, d);
    if x >= 0 {
        lemma_div_is_ordered(x, y, d);
    } else if y < 0 {
        lemma_div_is_ordered(-y, -x, d);
    }
}

/// Every nonnegative integer has an integer square root.
pub proof fn lemma_isqrt_exists(n: nat)
    ensures
        exists|r: int| #[trigger] is_isqrt(n as int, r),
    decreases n,
{
    if n == 0 {
        assert(is_isqrt(0, 0));
    } else {
        lemma_isqrt_exists((n - 1) as nat);
        let r = choose|r: int| #[trigger] is_isqrt(n - 1, r);
        if (r + 1) * (r + 1) <= n {
            assert(is_isqrt(n as int, r + 1)) by (nonlinear_arith)
                requires
                    r >= 0,
                    r * r <= n - 1,
                    n - 1 < (r + 1) * (r + 1),
                    (r + 1) * (r + 1) <= n,
            ;
        } else {
            assert(is_isqrt(n as int, r));
        }
    }
}

/// `isqrt_s` satisfies its defining property on nonnegative arguments.
pub proof fn lemma_isqrt_props(n: int)
    requires
        n >= 0,
    ensures
        is_isqrt(n, isqrt_s(n)),
{
    lemma_isqrt_exists(n as nat);
}

/// The integer square root is unique.
pub proof fn lemma_isqrt_unique(n: int, r: int)
    requires
        n >= 0,
        is_isqrt(n, r),
    ensures
        r == isqrt_s(n),
{
    lemma_isqrt_props(n);
    let r2 = isqrt_s(n);
    assert(r == r2) by (nonlinear_arith)
        requires
            is_isqrt(n, r),
            is_isqrt(n, r2),
    ;
}

/// The magnitude of a fixed-point value.
pub fn fabs(a: i64) -> (r: i64)
    requires
        a != i64::MIN,
    ensures
        r == iabs(a as int),
{
    if a >= 0 {
        a
    } else {
        -a
    }
}

pub fn fmin(a: i64, b: i64) -> (r: i64)
    ensures
        r == fmin_s(a as int, b as int),
{
    if a <= b {
        a
    } else {
        b
    }
}

pub fn fmax(a: i64, b: i64) -> (r: i64)
    ensures
        r == fmax_s(a as int, b as int),
{
    if a >= b {
        a
    } else {
        b
    }
}

pub fn fclamp(a: i64, lo: i64, hi: i64) -> (r: i64)
    requires
        lo <= hi,
    ensures
        r == fclamp_s(a as int, lo as int, hi as int),
{
    if a < lo {
        lo
    } else if a > hi {
        hi
    } else {
        a
    }
}

/// Fixed-point multiplication, exact per `fmul_s`.
pub fn fmul(a: i64, b: i64) -> (r: i64)
    requires
        iabs(a as int) * iabs(b as int) <= (i64::MAX as int) * (ONE as int),
    ensures
        r == fmul_s(a as int, b as int),
{
    proof {
        assert(iabs((a as int) * (b as int)) == iabs(a as int) * iabs(b as int))
            by (nonlinear_arith);
        lemma_tdiv_bound((a as int) * (b as int), ONE as int, (i64::MAX as int) * (ONE as int));
        lemma_div_by_multiple(i64::MAX as int, ONE as int);
    }
    let p: i128 = (a as i128) * (b as i128);
    let q: i128 = p / (ONE as i128);
    q as i64
}

/// Fixed-point division by a positive divisor, exact per `fdiv_s`.
pub fn fdiv(a: i64, b: i64) -> (r: i64)
    requires
        b > 0,
        iabs(a as int) * (ONE as int) <= (i64::MAX as int) * (b as int),
    ensures
        r == fdiv_s(a as int, b as int),
{
    proof {
        assert(iabs((a as int) * (ONE as int)) == iabs(a as int) * (ONE as int))
            by (nonlinear_arith);
        lemma_tdiv_bound((a as int) * (ONE as int), b as int, (i64::MAX as int) * (b as int));
        lemma_div_by_multiple(i64::MAX as int, b as int);
    }
    let n: i128 = (a as i128) * (ONE as i128);
    let q: i128 = n / (b as i128);
    q as i64
}

/// Fixed-point square root of a nonnegative scalar, exact per `fsqrt_s`.
pub fn fsqrt(a: i64) -> (r: i64)
    requires
        a >= 0,
    ensures
        r == fsqrt_s(a as int),
        r >= 0,
        (r as int) * (r as int) <= (a as int) * (ONE as int),
        (a as int) * (ONE as int) < (r + 1) * (r + 1),
{
    let n: u128 = (a as u128) * (ONE as u128);
    let mut lo: u128 = 0;
    let mut hi: u128 = if n < (1u128 << 64) {
        n + 1
    } else {
        1u128 << 64
    };
    proof {
        assert((1u128 << 64) == 0x1_0000_0000_0000_0000) by (bit_vector);
        if n >= 0x1_0000_0000_0000_0000 {
            assert((hi as int) * (hi as int) > n) by (nonlinear_arith)
                requires
                    hi == 0x1_0000_0000_0000_0000,
                    n < 0x1_0000_0000_0000_0000_0000_0000_0000_0000,
            ;
        } else {
            assert(((n + 1) as int) * ((n + 1) as int) > n) by (nonlinear_arith);
        }
    }
    while hi - lo > 1
        invariant
            lo < hi,
            hi <= 0x1_0000_0000_0000_0000,
            (lo as int) * (lo as int) <= n,
            n < (hi as int) * (hi as int),
            n == (a as int) * (ONE as int),
        decreases hi - lo,
    {
        let mid: u128 = lo + (hi - lo) / 2;
        proof {
            assert((mid as int) * (mid as int) <= (0xffff_ffff_ffff_ffff as int)
                * (0xffff_ffff_ffff_ffff as int)) by {
                lemma_mul_upper_bound(mid as int, 0xffff_ffff_ffff_ffff as int,
                    mid as int, 0xffff_ffff_ffff_ffff as int);
            }
        }
        if mid * mid <= n {
            lo = mid;
        } else {
            hi = mid;
        }
    }
    proof {
        assert(is_isqrt(n as int, lo as int));
        lemma_isqrt_unique(n as int, lo as int);
        lemma_mul_inequality(a as int, i64::MAX as int, ONE as int);
        assert(lo <= 0xffff_ffff_ffff) by (nonlinear_arith)
            requires
                (lo as int) * (lo as int) <= n,
                n <= (i64::MAX as int) * (ONE as int),
        ;
    }
    lo as i64
}

} // verus!
