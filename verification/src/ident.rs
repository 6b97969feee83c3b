//! Transaction identifiers: pseudo-random 16-bit values, seedable for
//! deterministic testing. Ids are drawn randomly rather than
//! sequentially so responses cannot be guessed by an off-path attacker;
//! nothing is (or can be) promised about the values themselves.

use vstd::prelude::*;

use rand::Rng;
use rand::SeedableRng;

verus! {

#[verifier::external_type_specification]
#[verifier::external_body]
/// `rand::rngs::StdRng` carried opaquely as the generator state.
pub struct ExStdRng(rand::rngs::StdRng);

/// Relies on rand::SeedableRng::seed_from_u64 for StdRng: builds the
/// deterministic generator state for a seed.
#[verifier::external_body]
fn rng_from_seed(seed: u64) -> rand::rngs::StdRng {
    rand::rngs::StdRng::seed_from_u64(seed)
}

/// Relies on rand::Rng::gen for u16: one draw from the generator.
/// Nothing is promised of the value; every caller must cope with any
/// result, collisions included.
#[verifier::external_body]
fn rng_gen_u16(rng: &mut rand::rngs::StdRng) -> u16 {
    rng.gen()
}

/// A source of transaction ids backed by a seedable generator.
pub struct IdSource {
    rng: rand::rngs::StdRng,
}

impl IdSource {
    /// A source with deterministic output for the given seed; seed from
    /// entropy in production, from a constant in tests.
    pub fn from_seed(seed: u64) -> IdSource {
        IdSource { rng: rng_from_seed(seed) }
    }

    /// One raw pseudo-random id. May collide with a pending id; use
    /// the multiplexer's fresh-id probe when uniqueness matters.
    pub fn next_raw(&mut self) -> u16 {
        rng_gen_u16(&mut self.rng)
    }
}

} // verus!
