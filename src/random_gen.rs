//! Reproducible random input lists, drawn from a seeded generator.
use rand::distributions::Uniform;
use rand::rngs::StdRng;
use rand::{Rng, SeedableRng};
use vstd::prelude::*;

verus! {

#[verifier::external_type_specification]
#[verifier::external_body]
pub struct ExStdRng(StdRng);

/// Relies on `SeedableRng::seed_from_u64` for `StdRng`: a generator whose
/// output is fixed by the seed.
#[verifier::external_body]
fn seeded_rng(seed: u64) -> StdRng {
    StdRng::seed_from_u64(seed)
}

/// Relies on `Uniform::from(0..bound)` sampled through `Rng::sample_iter` and
/// taken `count` times: `count` values, each below `bound` (`Uniform` panics on
/// an empty range, hence `bound > 0`).
#[verifier::external_body]
fn uniform_below(rng: &mut StdRng, bound: u32, count: usize) -> (r: Vec<u32>)
    requires
        0 < bound,
    ensures
        r.len() == count,
        forall|i: int| 0 <= i < r.len() ==> r[i] < bound,
{
    Rng::sample_iter(rng, Uniform::from(0u32..bound)).take(count).collect()
}

/// The seed that the benchmark and the cross-check between the two algorithms use.
pub const RANDOM_SEED: u64 = 96251;

/// A source of random lists drawn from a generator seeded once. `StdRng` is
/// deterministic, so the same seed gives the same lists with the same version
/// of rand.
pub struct RandomGen {
    rng: StdRng,
    seed: u64,
}

impl RandomGen {
    /// The seed the generator was made from.
    pub closed spec fn seed(&self) -> u64 {
        self.seed
    }

    /// A generator seeded with `seed`.
    pub fn new(seed: u64) -> (r: RandomGen)
        ensures
            r.seed() == seed,
    {
        RandomGen { rng: seeded_rng(seed), seed }
    }

    /// A list of `length` values drawn uniformly from `0..length / 2`, so that
    /// values repeat and some are missing.
    pub fn make_vec(&mut self, length: usize) -> (r: Vec<u32>)
        requires
            2 <= length <= u32::MAX,
        ensures
            final(self).seed() == old(self).seed(),
            r.len() == length,
            forall|i: int| 0 <= i < r.len() ==> r[i] < length / 2,
    {
        let i_length: u32 = length as u32;
        uniform_below(&mut self.rng, i_length / 2, length)
    }
}

} // verus!
