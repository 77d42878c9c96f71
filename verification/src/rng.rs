//! Deterministic splitmix64 generator used to build synthetic scenes.
use vstd::prelude::*;

verus! {

/// Additive constant of splitmix64 (the 64-bit golden ratio).
pub const GOLDEN_GAMMA: u64 = 0x9E37_79B9_7F4A_7C15;

/// First multiplier of the splitmix64 finaliser.
pub const MIX_MUL_1: u64 = 0xBF58_476D_1CE4_E5B9;

/// Second multiplier of the splitmix64 finaliser.
pub const MIX_MUL_2: u64 = 0x94D0_49BB_1331_11EB;

/// The splitmix64 output function applied to an advanced state.
pub open spec fn mix64(s: u64) -> u64 {
    let z1 = (s ^ (s >> 30u64)).wrapping_mul(MIX_MUL_1);
    let z2 = (z1 ^ (z1 >> 27u64)).wrapping_mul(MIX_MUL_2);
    z2 ^ (z2 >> 31u64)
}

/// The state that follows `s`.
pub open spec fn advance(s: u64) -> u64 {
    s.wrapping_add(GOLDEN_GAMMA)
}

/// Tiny deterministic PRNG (splitmix64). The whole state is one `u64`, so
/// the same seed gives the same stream on every machine.
#[derive(Clone, Copy)]
pub struct Rng(u64);

impl Rng {
    /// The current state.
    pub closed spec fn state(self) -> u64 {
        self.0
    }

    /// A generator seeded with `seed`; the state starts one step past the
    /// seed so that seed 0 does not sit on the all-zero state.
    pub fn new(seed: u64) -> (r: Self)
        ensures
            r.state() == advance(seed),
    {
        Rng(seed.wrapping_add(GOLDEN_GAMMA))
    }

    /// Advances the state and returns the mixed output.
    pub fn next_u64(&mut self) -> (out: u64)
        ensures
            final(self).state() == advance(old(self).state()),
            out == mix64(advance(old(self).state())),
    {
        self.0 = self.0.wrapping_add(GOLDEN_GAMMA);
        let mut z = self.0;
        z = (z ^ (z >> 30u64)).wrapping_mul(MIX_MUL_1);
        z = (z ^ (z >> 27u64)).wrapping_mul(MIX_MUL_2);
        z ^ (z >> 31u64)
    }

    /// The top 24 bits of the next output: the numerator `k` of the uniform
    /// sample `k / 2^24` in `[0, 1)`.
    pub fn unit_bits(&mut self) -> (k: u32)
        ensures
            final(self).state() == advance(old(self).state()),
            k as u64 == mix64(advance(old(self).state())) >> 40u64,
            k < 0x100_0000,
    {
        let x = self.next_u64();
        let k = x >> 40u64;
        assert(x >> 40u64 < 0x100_0000u64) by (bit_vector);
        k as u32
    }
}

} // verus!
