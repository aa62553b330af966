//! Randomness utilities built on the xoshiro generator family.

use vstd::prelude::*;

verus! {

/// The xoshiro256+ generator of the `rand_xoshiro` crate, declared so that
/// its state can live inside verified code.
#[verifier::external_type_specification]
#[verifier::external_body]
pub struct ExXoshiro256Plus(rand_xoshiro::Xoshiro256Plus);

/// Relies on `Xoshiro256Plus::seed_from_u64` (rand_core's `SeedableRng`):
/// builds a generator state from a 64-bit seed.
#[verifier::external_body]
fn seed_core(seed: u64) -> rand_xoshiro::Xoshiro256Plus {
    <rand_xoshiro::Xoshiro256Plus as rand_xoshiro::rand_core::SeedableRng>::seed_from_u64(seed)
}

/// Relies on rand_core's `Rng::next_u64` for `Xoshiro256Plus`: draws the next
/// word of the stream; nothing is assumed about its value.
#[verifier::external_body]
fn next_raw(core: &mut rand_xoshiro::Xoshiro256Plus) -> u64 {
    rand_xoshiro::rand_core::Rng::next_u64(core)
}

/// Provider of randomness: owns the state of the core generator.
pub struct Rng {
    core: rand_xoshiro::Xoshiro256Plus,
}

impl Rng {
    /// Creates a generator seeded from `seed`.
    pub fn new(seed: u64) -> Rng {
        Rng { core: seed_core(seed) }
    }

    /// A word drawn from the generator, reduced below `max`.
    pub fn randu(&mut self, max: u64) -> (r: u64)
        requires
            max >= 1,
        ensures
            r < max,
    {
        next_raw(&mut self.core) % max
    }
}

} // verus!
