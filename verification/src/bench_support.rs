//! The deterministic generator that synthetic graphs are drawn from.

use vstd::prelude::*;

verus! {

/// The increment SplitMix64 adds to its state at each step.
pub const GOLDEN_GAMMA: u64 = 0x9e37_79b9_7f4a_7c15;

/// The first multiplier of the SplitMix64 output mix.
pub const MIX_FIRST: u64 = 0xbf58_476d_1ce4_e5b9;

/// The second multiplier of the SplitMix64 output mix.
pub const MIX_SECOND: u64 = 0x94d0_49bb_1331_11eb;

/// `x * y` modulo 2^64.
pub open spec fn mul_mod64(x: u64, y: u64) -> u64 {
    ((x as nat * y as nat) % 0x1_0000_0000_0000_0000nat) as u64
}

/// The state after one step: the old state plus `GOLDEN_GAMMA`, modulo 2^64.
pub open spec fn advance(state: u64) -> u64 {
    ((state as nat + GOLDEN_GAMMA as nat) % 0x1_0000_0000_0000_0000nat) as u64
}

/// The SplitMix64 output for an advanced state.
pub open spec fn splitmix_output(state: u64) -> u64 {
    let z1 = mul_mod64(state ^ (state >> 30u64), MIX_FIRST);
    let z2 = mul_mod64(z1 ^ (z1 >> 27u64), MIX_SECOND);
    z2 ^ (z2 >> 31u64)
}

/// SplitMix64 deterministic RNG.
pub struct Rng {
    state: u64,
}

impl Rng {
    /// The generator's state.
    pub closed spec fn state(&self) -> u64 {
        self.state
    }

    /// A generator whose state is `seed`.
    pub fn new(seed: u64) -> (r: Self)
        ensures
            r.state() == seed,
    {
        Rng { state: seed }
    }

    /// Advances the state and returns the SplitMix64 output for it.
    pub fn next(&mut self) -> (r: u64)
        ensures
            final(self).state() == advance(old(self).state()),
            r == splitmix_output(final(self).state()),
    {
        self.state = self.state.wrapping_add(GOLDEN_GAMMA);
        let mut z = self.state;
        z = (z ^ (z >> 30u64)).wrapping_mul(MIX_FIRST);
        z = (z ^ (z >> 27u64)).wrapping_mul(MIX_SECOND);
        z ^ (z >> 31u64)
    }

    /// The upper 32 bits of the next output, from which a value in `0.0..=1.0` is made.
    pub fn next_high_bits(&mut self) -> (r: u32)
        ensures
            final(self).state() == advance(old(self).state()),
            r == splitmix_output(final(self).state()) >> 32u64,
    {
        let x = self.next();
        let high = x >> 32u64;
        assert(high < 0x1_0000_0000) by (bit_vector)
            requires
                high == x >> 32u64,
        ;
        high as u32
    }

    /// A value below `max` (the next output modulo `max`), or 0 without a step when
    /// `max` is 0.
    pub fn next_usize(&mut self, max: usize) -> (r: usize)
        ensures
            max == 0 ==> r == 0 && final(self).state() == old(self).state(),
            max > 0 ==> final(self).state() == advance(old(self).state()) && r == (splitmix_output(
                final(self).state(),
            ) as usize) % max && r < max,
    {
        if max == 0 {
            0
        } else {
            (self.next() as usize) % max
        }
    }
}

} // verus!
