//! A small seedable pseudo-random generator (splitmix64) for the noise
//! sources: deterministic, the same on every platform, and mixing
//! sequential seeds apart on the first draw.

use vstd::prelude::*;

verus! {

/// The odd constant the state advances by on every draw.
pub const GOLDEN_GAMMA: u64 = 0x9E37_79B9_7F4A_7C15;

/// The avalanche that turns a state into a drawn value.
pub open spec fn mix_bits(state: u64) -> u64 {
    let z1 = ((state ^ (state >> 30u64)) as u64).wrapping_mul(0xBF58_476D_1CE4_E5B9u64);
    let z2 = ((z1 ^ (z1 >> 27u64)) as u64).wrapping_mul(0x94D0_49BB_1331_11EBu64);
    (z2 ^ (z2 >> 31u64)) as u64
}

/// The state after `n` draws from a generator seeded with `seed`.
pub open spec fn state_after(seed: u64, n: nat) -> u64
    decreases n,
{
    if n == 0 {
        seed
    } else {
        state_after(seed, (n - 1) as nat).wrapping_add(GOLDEN_GAMMA)
    }
}

/// The `n`th value (from zero) drawn from a generator seeded with `seed`.
pub open spec fn drawn(seed: u64, n: nat) -> u64 {
    mix_bits(state_after(seed, n + 1))
}

/// A seedable stream of uniform 64-bit values.
#[derive(Debug)]
pub struct Prng {
    state: u64,
}

impl View for Prng {
    type V = u64;

    closed spec fn view(&self) -> u64 {
        self.state
    }
}

impl Prng {
    /// Seeds the stream. Any seed is valid, including 0 and small
    /// sequential values.
    pub fn new(seed: u64) -> (p: Prng)
        ensures
            p@ == seed,
    {
        Prng { state: seed }
    }

    /// The next value: the state advanced by `GOLDEN_GAMMA`, wrapping, then
    /// mixed.
    pub fn next_u64(&mut self) -> (r: u64)
        ensures
            final(self)@ == old(self)@.wrapping_add(GOLDEN_GAMMA),
            r == mix_bits(final(self)@),
    {
        self.state = self.state.wrapping_add(GOLDEN_GAMMA);
        let mut z = self.state;
        z = (z ^ (z >> 30u64)).wrapping_mul(0xBF58_476D_1CE4_E5B9u64);
        z = (z ^ (z >> 27u64)).wrapping_mul(0x94D0_49BB_1331_11EBu64);
        z ^ (z >> 31u64)
    }

    /// The high 53 bits of the next value: the mantissa of a uniform float
    /// in `[0, 1)`, to be scaled by `2^-53`.
    pub fn next_mantissa(&mut self) -> (r: u64)
        ensures
            final(self)@ == old(self)@.wrapping_add(GOLDEN_GAMMA),
            r == mix_bits(final(self)@) >> 11u64,
            r < 0x20_0000_0000_0000,
    {
        let v = self.next_u64();
        assert(v >> 11u64 < 0x20_0000_0000_0000u64) by (bit_vector);
        v >> 11u64
    }
}

/// Drawing `n` values from a fresh generator leaves it where `state_after`
/// says, and each draw gives `drawn`: a generator is determined by its
/// seed.
pub proof fn lemma_draws_follow_seed(seed: u64, n: nat)
    ensures
        state_after(seed, n + 1) == state_after(seed, n).wrapping_add(GOLDEN_GAMMA),
        drawn(seed, n) == mix_bits(state_after(seed, n).wrapping_add(GOLDEN_GAMMA)),
{
}

} // verus!
