//! A seedable linear congruential generator, for making up boards to play
//! on.

use vstd::prelude::*;

verus! {

/// Multiplier of the generator.
pub const LCG_A: u64 = 6364136223846793005;

/// Increment of the generator.
pub const LCG_C: u64 = 1;

/// Modulus of the generator, two to the power 63.
pub const LCG_M: u64 = 0x8000_0000_0000_0000;

/// The state that follows `seed`: `A * seed + C`, taken modulo two to the
/// power 64 after the product and after the sum, then modulo `M`.
pub open spec fn lcg_next(seed: u64) -> u64 {
    (LCG_A.wrapping_mul(seed).wrapping_add(LCG_C) % LCG_M) as u64
}

/// A deterministic generator: the numbers it gives depend on the seed alone.
pub struct RandomGenerator {
    seed: u64,
}

impl RandomGenerator {
    /// The current state of the generator.
    pub closed spec fn state(&self) -> u64 {
        self.seed
    }

    pub fn new(seed: u64) -> (r: Self)
        ensures
            r.state() == seed,
    {
        RandomGenerator { seed }
    }

    /// Advances the generator and gives its new state.
    pub fn next(&mut self) -> (r: u64)
        ensures
            final(self).state() == lcg_next(old(self).state()),
            r == final(self).state(),
            r < LCG_M,
    {
        self.seed = LCG_A.wrapping_mul(self.seed).wrapping_add(LCG_C) % LCG_M;
        self.seed
    }

    /// An integer between `min` and `max`, both included.
    pub fn generate_int(&mut self, min: i32, max: i32) -> (r: i32)
        requires
            min <= max,
            max - min < i32::MAX,
        ensures
            final(self).state() == lcg_next(old(self).state()),
            r == min + final(self).state() % ((max - min + 1) as u64),
            min <= r <= max,
    {
        let range: u64 = (max - min + 1) as u64;
        let random: u64 = self.next() % range;
        min + random as i32
    }

    /// Whether the next state of the generator is even.
    pub fn generate_bool(&mut self) -> (r: bool)
        ensures
            final(self).state() == lcg_next(old(self).state()),
            r == (final(self).state() % 2 == 0),
    {
        self.next() % 2 == 0
    }
}

} // verus!
