//! A small deterministic pseudo-random source.
//!
//! Sampling (sub-pixel jitter, lens jitter, material scatter) draws from an
//! explicit generator handle threaded through every call that needs entropy,
//! so renders are reproducible from a seed.  The generator is a 64-bit
//! xorshift; its stepping function is specified exactly, so every draw is a
//! deterministic function of the seed.

use vstd::prelude::*;
use crate::fixed::{ONE, fmul_s, fmul, iabs, lemma_fmul_le_one, lemma_tdiv_abs};
use vstd::arithmetic::mul::lemma_mul_is_commutative;
use vstd::arithmetic::div_mod::lemma_multiply_divide_lt;

verus! {

/// State used in place of a zero seed: a xorshift generator must never
/// hold state zero, which it would keep forever.
pub const SEED_FALLBACK: u64 = 0x9e37_79b9_7f4a_7c15;

pub open spec fn seed_state_s(seed: u64) -> u64 {
    if seed == 0 {
        SEED_FALLBACK
    } else {
        seed
    }
}

/// One xorshift step.
pub open spec fn next_state_s(s: u64) -> u64 {
    let a = s ^ (s << 13);
    let b = a ^ (a >> 7);
    b ^ (b << 17)
}

/// The fixed-point sample in `[0, 1)` read off a generator state.
pub open spec fn unit_sample_s(s: u64) -> int {
    (s >> 48) as int
}

pub struct Rng {
    state: u64,
}

impl Rng {
    /// The current generator state.
    pub closed spec fn state_s(&self) -> u64 {
        self.state
    }

    pub fn new(seed: u64) -> (r: Rng)
        ensures
            r.state_s() == seed_state_s(seed),
    {
        if seed == 0 {
            Rng { state: SEED_FALLBACK }
        } else {
            Rng { state: seed }
        }
    }

    /// Advance the generator one step and return the new state.
    pub fn next_u64(&mut self) -> (r: u64)
        ensures
            final(self).state_s() == next_state_s(old(self).state_s()),
            r == final(self).state_s(),
    {
        let mut s: u64 = self.state;
        s = s ^ (s << 13);
        s = s ^ (s >> 7);
        s = s ^ (s << 17);
        self.state = s;
        s
    }

    /// A fixed-point sample in `[0, 1)`.
    pub fn next_unit(&mut self) -> (r: i64)
        ensures
            final(self).state_s() == next_state_s(old(self).state_s()),
            r == unit_sample_s(final(self).state_s()),
            0 <= r < ONE,
    {
        let s: u64 = self.next_u64();
        let top: u64 = s >> 48;
        proof {
            assert(s >> 48 < 0x1_0000) by (bit_vector);
        }
        top as i64
    }

    /// A fixed-point sample in `[min, max)`, uniform up to rounding
    /// (when the interval is empty the sample is `min` itself).
    pub fn next_range(&mut self, min: i64, max: i64) -> (r: i64)
        requires
            min <= max,
            max - min <= i64::MAX,
        ensures
            final(self).state_s() == next_state_s(old(self).state_s()),
            r == min + fmul_s(max - min, unit_sample_s(final(self).state_s())),
            min <= r <= max,
            min < max ==> r < max,
    {
        let u: i64 = self.next_unit();
        let d: i64 = max - min;
        proof {
            lemma_mul_is_commutative(d as int, u as int);
            lemma_fmul_le_one(u as int, d as int);
            assert(iabs(d as int) * iabs(u as int) <= (i64::MAX as int) * (ONE as int)) by (nonlinear_arith)
                requires
                    0 <= d <= i64::MAX,
                    0 <= u < ONE,
            ;
            assert(fmul_s(d as int, u as int) == fmul_s(u as int, d as int));
            if d > 0 {
                lemma_tdiv_abs((d as int) * (u as int), ONE as int);
                assert((d as int) * (u as int) >= 0) by (nonlinear_arith)
                    requires
                        d >= 0,
                        u >= 0,
                ;
                assert((d as int) * (u as int) < (ONE as int) * (d as int)) by (nonlinear_arith)
                    requires
                        d > 0,
                        0 <= u < ONE,
                ;
                lemma_multiply_divide_lt((d as int) * (u as int), ONE as int, d as int);
            }
        }
        min + fmul(d, u)
    }
}

} // verus!
