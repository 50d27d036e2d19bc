//! Shared constants and the random-scalar source.
//!
//! The renderer draws its jitter and bounce directions from a
//! `RandomSource` that is passed in explicitly, so a fixed, reproducible
//! generator can stand in for the thread-local one.

use vstd::prelude::*;
use rand::Rng;

verus! {

use crate::fixed::{fxdiv, fxmul, SCALE};

/// Stand-in for an unbounded hit distance: no accepted root ever reaches it.
pub const INFINITY: i64 = i64::MAX;

/// Pi in fixed-point units.
pub const PI: i64 = 205887;

/// Multiplier of the fixed generator's linear-congruential step.
pub const LCG_MUL: u64 = 6364136223846793005;

/// Increment of the fixed generator's linear-congruential step.
pub const LCG_ADD: u64 = 1442695040888963407;

#[verifier::external_type_specification]
#[verifier::external_body]
pub struct ExThreadRng(rand::rngs::ThreadRng);

/// Relies on rand::thread_rng: returns a handle to the thread-local
/// generator; nothing is assumed about the values it will produce.
#[verifier::external_body]
fn fresh_thread_rng() -> rand::rngs::ThreadRng {
    rand::thread_rng()
}

/// Relies on rand::Rng::gen_range over `lo..hi`: a draw from `[lo, hi)`.
/// It panics only on an empty range, which the precondition excludes.
#[verifier::external_body]
fn gen_range_i64(rng: &mut rand::rngs::ThreadRng, lo: i64, hi: i64) -> (r: i64)
    requires
        lo < hi,
    ensures
        lo <= r < hi,
{
    rng.gen_range(lo..hi)
}

/// The deterministic generator's next state: one linear-congruential step
/// modulo 2^64.
pub open spec fn lcg_next(s: u64) -> u64 {
    vstd::wrapping::u64_specs::wrapping_add(
        vstd::wrapping::u64_specs::wrapping_mul(s, LCG_MUL),
        LCG_ADD,
    )
}

/// The scalar a deterministic source in state `s` draws from `[min, max)`.
pub open spec fn fixed_draw(s: u64, min: int, max: int) -> int {
    min + ((lcg_next(s) >> 8) as int) % (max - min)
}

/// Source of random fixed-point scalars: either the thread-local generator
/// or a deterministic linear-congruential one for reproducible renders.
pub enum RandomSource {
    Thread(rand::rngs::ThreadRng),
    Fixed { state: u64 },
}

impl RandomSource {
    /// A source backed by the thread-local generator.
    pub fn from_entropy() -> RandomSource {
        RandomSource::Thread(fresh_thread_rng())
    }

    /// A deterministic source: same seed, same draws.
    pub fn seeded(seed: u64) -> (s: RandomSource)
        ensures
            s == (RandomSource::Fixed { state: seed }),
    {
        RandomSource::Fixed { state: seed }
    }

    /// A random scalar in `[min, max)`; a deterministic source steps its
    /// state once and draws the exact value `fixed_draw` gives.
    pub fn random_double_in_range(&mut self, min: i64, max: i64) -> (r: i64)
        requires
            min < max,
        ensures
            min <= r < max,
            *old(self) matches RandomSource::Fixed { state } ==> *final(self)
                == (RandomSource::Fixed { state: lcg_next(state) }) && r as int == fixed_draw(
                state,
                min as int,
                max as int,
            ),
            *old(self) matches RandomSource::Thread(_) ==> *final(self) matches RandomSource::Thread(
                _,
            ),
    {
        match self {
            RandomSource::Thread(rng) => gen_range_i64(rng, min, max),
            RandomSource::Fixed { state } => {
                let next: u64 = state.wrapping_mul(LCG_MUL).wrapping_add(LCG_ADD);
                *state = next;
                let span: u64 = ((max as i128) - (min as i128)) as u64;
                let off: u64 = (next >> 8) % span;
                let r: i64 = ((min as i128) + (off as i128)) as i64;
                r
            },
        }
    }

    /// A random scalar in `[0, 1)`.
    pub fn random_double(&mut self) -> (r: i64)
        ensures
            0 <= r < SCALE,
            *old(self) matches RandomSource::Fixed { state } ==> *final(self)
                == (RandomSource::Fixed { state: lcg_next(state) }) && r as int == fixed_draw(
                state,
                0,
                SCALE as int,
            ),
            *old(self) matches RandomSource::Thread(_) ==> *final(self) matches RandomSource::Thread(
                _,
            ),
    {
        self.random_double_in_range(0, SCALE)
    }
}

/// Converts an angle from degrees to radians.
pub fn degrees_to_radians(degrees: i64) -> (r: i64)
    requires
        i64::MIN <= fxmul(degrees as int, PI as int) <= i64::MAX,
    ensures
        r as int == fxdiv(fxmul(degrees as int, PI as int), 180 * SCALE),
{
    let scaled = crate::fixed::fx_mul(degrees, PI);
    proof {
        crate::fixed::lemma_tdiv_mag(scaled as int * SCALE as int, 180 * SCALE as int);
    }
    crate::fixed::fx_div(scaled, 180 * SCALE)
}

} // verus!
