use vstd::prelude::*;
use rand::{Rng, SeedableRng};
use rand::rngs::StdRng;

verus! {

/// A source of random choices: the engine draws from one to break ties
/// between cells, and observers draw from one to pick a final value.
pub trait RandomSource {
    /// A number below `bound`.
    fn below(&mut self, bound: usize) -> (r: usize)
        requires
            bound > 0,
        ensures
            r < bound,
    ;
}

/// Draws from the generator that `rand` keeps for the current thread.
pub struct ThreadRandom;

/// Draws from a generator started from a fixed seed: the same seed gives the
/// same draws.
pub struct SeededRandom {
    rng: StdRng,
}

/// `rand`'s standard seedable generator, carried as an opaque value.
#[verifier::external_type_specification]
#[verifier::external_body]
pub struct ExStdRng(StdRng);

/// Relies on `rand::thread_rng` and `Rng::gen_range`: a uniform value of the
/// half-open range `0..bound`, which must not be empty. (`thread_rng` panics
/// only when the operating system's generator cannot seed it.)
#[verifier::external_body]
fn thread_below(bound: usize) -> (r: usize)
    requires
        bound > 0,
    ensures
        r < bound,
{
    rand::thread_rng().gen_range(0..bound)
}

/// Relies on `SeedableRng::seed_from_u64` for `StdRng`: a generator whose
/// output depends on the seed alone.
#[verifier::external_body]
fn seeded_generator(seed: u64) -> StdRng {
    StdRng::seed_from_u64(seed)
}

/// Relies on `Rng::gen_range` for `StdRng`: a uniform value of the half-open
/// range `0..bound`, which must not be empty.
#[verifier::external_body]
fn seeded_below(rng: &mut StdRng, bound: usize) -> (r: usize)
    requires
        bound > 0,
    ensures
        r < bound,
{
    rng.gen_range(0..bound)
}

impl RandomSource for ThreadRandom {
    fn below(&mut self, bound: usize) -> (r: usize) {
        thread_below(bound)
    }
}

impl SeededRandom {
    /// A generator started from `seed`.
    pub fn new(seed: u64) -> Self {
        SeededRandom { rng: seeded_generator(seed) }
    }
}

impl RandomSource for SeededRandom {
    fn below(&mut self, bound: usize) -> (r: usize) {
        seeded_below(&mut self.rng, bound)
    }
}

} // verus!
