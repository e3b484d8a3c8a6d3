//! The random source: a seedable generator that hands out topic draws and
//! uniform fractions.
use rand::rngs::StdRng;
use rand::Rng;
use rand::SeedableRng;
use vstd::prelude::*;

verus! {

#[verifier::external_type_specification]
#[verifier::external_body]
pub struct ExStdRng(StdRng);

/// Relies on `rand::SeedableRng::seed_from_u64` for `StdRng`: builds a
/// generator whose whole output is fixed by the seed.
#[verifier::external_body]
fn seeded_rng(seed: u64) -> StdRng {
    StdRng::seed_from_u64(seed)
}

/// Relies on `rand::Rng::gen_range` over `0..k`: the value lies in the
/// half-open range; the call panics on an empty range, hence `k > 0`.
#[verifier::external_body]
fn rng_below(rng: &mut StdRng, k: u32) -> (r: u32)
    requires
        k > 0,
    ensures
        r < k,
{
    rng.gen_range(0..k)
}

/// Relies on `rand::Rng::gen::<u32>`: a uniformly distributed 32-bit word.
#[verifier::external_body]
fn rng_word(rng: &mut StdRng) -> u32 {
    rng.gen::<u32>()
}

/// A source of random draws, passed explicitly to every operation that
/// needs one. Two sources made from the same seed give the same draws.
pub struct RandomSource {
    rng: StdRng,
}

impl RandomSource {
    /// A generator seeded with `seed`.
    pub fn from_seed(seed: u64) -> RandomSource {
        RandomSource { rng: seeded_rng(seed) }
    }

    /// A uniform integer draw in `[0, k)`.
    pub fn topic_draw(&mut self, k: u32) -> (r: u32)
        requires
            k > 0,
        ensures
            r < k,
    {
        rng_below(&mut self.rng, k)
    }

    /// A uniform draw in `[0, 1)`, as the numerator of a fraction over `2^32`.
    pub fn unit_draw(&mut self) -> u32 {
        rng_word(&mut self.rng)
    }
}

} // verus!
