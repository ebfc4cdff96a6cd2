//! Random number generation: a generator seeded from a text, or from the system's entropy, and
//! uniform draws below a bound.

use vstd::prelude::*;
use rand::{Rng, SeedableRng};
use rand_chacha::ChaCha20Rng;
use rand_seeder::Seeder;

verus! {

#[verifier::external_type_specification]
#[verifier::external_body]
pub struct ExChaCha20Rng(ChaCha20Rng);

/// The generator that rand_seeder derives from the bytes of a seed text.
pub uninterp spec fn seeded_rng(seed: Seq<char>) -> ChaCha20Rng;

/// Builds a ChaCha20 generator with rand_seeder's `Seeder::from(bytes).into_rng()`: the seed
/// bytes are hashed into the generator's seed, so the same text always gives the same
/// generator.
#[verifier::external_body]
fn rng_seeded(seed: &str) -> (r: ChaCha20Rng)
    ensures
        r == seeded_rng(seed@),
{
    Seeder::from(seed.as_bytes()).into_rng::<ChaCha20Rng>()
}

/// Builds a ChaCha20 generator with `SeedableRng::from_rng`, seeded from rand's thread-local
/// generator, itself seeded from the system's entropy. Nothing is stated of which generator
/// results.
#[verifier::external_body]
fn rng_from_entropy() -> (r: ChaCha20Rng) {
    ChaCha20Rng::from_rng(&mut rand::rng())
}

/// Draws a number below `bound` with rand's `Rng::random_range(0..bound)`, which samples the
/// range uniformly and panics on an empty range. Only that the number lies in the range is
/// stated, and the generator's state afterwards is left open.
#[verifier::external_body]
pub(crate) fn random_below(rng: &mut ChaCha20Rng, bound: u64) -> (r: u64)
    requires
        bound > 0,
    ensures
        r < bound,
{
    rng.random_range(0..bound)
}

/// A random number generator from a seed text, or one seeded from the system's entropy when no
/// seed is given.
pub fn rng_from_seed(seed: Option<&str>) -> (r: ChaCha20Rng)
    ensures
        seed matches Some(s) ==> r == seeded_rng(s@),
{
    match seed {
        Some(s) => rng_seeded(s),
        None => rng_from_entropy(),
    }
}

} // verus!
