//! Trusted access to the pseudo-random generator of the `rand` crate, used
//! by the scrambler's random walk. Nothing is promised of the drawn values:
//! every caller must hold for every outcome.

use rand::Rng;
use rand::SeedableRng;
use vstd::prelude::*;

verus! {

#[verifier::external_type_specification]
#[verifier::external_body]
pub struct ExStdRng(rand::rngs::StdRng);

/// Relies on rand::rngs::StdRng::seed_from_u64 (the SeedableRng trait of
/// rand_core): builds a generator from a 64-bit seed by pure computation on
/// the seed; it does not fail. The generator is opaque here.
#[verifier::external_body]
pub(crate) fn rng_from_seed(seed: u64) -> rand::rngs::StdRng {
    rand::rngs::StdRng::seed_from_u64(seed)
}

/// Relies on rand::Rng::gen at type usize: draws one machine word from the
/// generator. The value is arbitrary, so nothing is stated of it.
#[verifier::external_body]
pub(crate) fn rng_next(rng: &mut rand::rngs::StdRng) -> usize {
    rng.gen::<usize>()
}

} // verus!
