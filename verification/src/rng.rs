//! SplitMix64: a tiny deterministic 64-bit generator.
use vstd::prelude::*;

verus! {

/// The Weyl-sequence increment of SplitMix64.
pub const GAMMA: u64 = 0x9E3779B97F4A7C15;

/// The SplitMix64 output function applied to a state value.
pub open spec fn mix(s: u64) -> u64 {
    let z1 = (s ^ (s >> 30u64)).wrapping_mul(0xBF58476D1CE4E5B9u64);
    let z2 = (z1 ^ (z1 >> 27u64)).wrapping_mul(0x94D049BB133111EBu64);
    z2 ^ (z2 >> 31u64)
}

/// The state after `k` steps from `seed`: `seed + k * GAMMA` modulo 2^64.
pub open spec fn state_after(seed: u64, k: nat) -> u64
    decreases k,
{
    if k == 0 {
        seed
    } else {
        state_after(seed, (k - 1) as nat).wrapping_add(GAMMA)
    }
}

/// SplitMix64 generator state.
pub struct Rng {
    pub s: u64,
}

impl Rng {
    /// A generator whose state is `seed`.
    pub fn new(seed: u64) -> (r: Rng)
        ensures
            r.s == seed,
    {
        Rng { s: seed }
    }

    /// Advance the state by `GAMMA` and return the mixed new state.
    pub fn next_u64(&mut self) -> (r: u64)
        ensures
            final(self).s == old(self).s.wrapping_add(GAMMA),
            r == mix(final(self).s),
    {
        self.s = self.s.wrapping_add(0x9E3779B97F4A7C15);
        let mut z = self.s;
        z = (z ^ (z >> 30)).wrapping_mul(0xBF58476D1CE4E5B9);
        z = (z ^ (z >> 27)).wrapping_mul(0x94D049BB133111EB);
        z ^ (z >> 31)
    }
}

/// The `k`-th output (counting from one) of a generator seeded with `seed` is
/// the mixed value of `seed + k * GAMMA`: the stream depends on the seed alone.
pub proof fn lemma_stream(seed: u64, k: nat)
    requires
        k >= 1,
    ensures
        state_after(seed, k) == state_after(seed, (k - 1) as nat).wrapping_add(GAMMA),
        state_after(seed, k) as int == (seed as int + k * GAMMA as int) % 0x1_0000_0000_0000_0000int,
    decreases k,
{
    if k > 1 {
        lemma_stream(seed, (k - 1) as nat);
    }
    assert(state_after(seed, k) as int == (seed as int + k * GAMMA as int) % 0x1_0000_0000_0000_0000int) by (nonlinear_arith)
        requires
            state_after(seed, k) == state_after(seed, (k - 1) as nat).wrapping_add(GAMMA),
            k > 1 ==> state_after(seed, (k - 1) as nat) as int == (seed as int + (k - 1) * GAMMA as int) % 0x1_0000_0000_0000_0000int,
            k == 1 ==> state_after(seed, (k - 1) as nat) == seed;
}

} // verus!
