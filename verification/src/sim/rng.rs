//! The seeded generator that drives every shuffle.

use vstd::prelude::*;

verus! {

/// The multiplier of the generator.
pub const LCG_MULTIPLIER: u64 = 6364136223846793005;

/// The state that a seed starts from: the seed itself where it is odd, the
/// next number where it is even, so that no seed starts from zero.
pub open spec fn seeded(seed: u64) -> u64 {
    if seed % 2 == 0 {
        (seed + 1) as u64
    } else {
        seed
    }
}

/// One step of the generator: `state * multiplier + 1` modulo 2^64.
pub open spec fn lcg_step(state: u64) -> u64 {
    ((state as nat * LCG_MULTIPLIER as nat + 1) % 0x1_0000_0000_0000_0000nat) as u64
}

/// The number that a state gives out: its high 32 bits.
pub open spec fn lcg_output(state: u64) -> u32 {
    (state as nat / 0x1_0000_0000nat) as u32
}

/// The state after `n` steps.
pub open spec fn lcg_advance(state: u64, n: nat) -> u64
    decreases n,
{
    if n == 0 {
        state
    } else {
        lcg_step(lcg_advance(state, (n - 1) as nat))
    }
}

/// Stepping first and advancing after is advancing one step further.
pub proof fn lemma_advance_front(state: u64, n: nat)
    ensures
        lcg_advance(lcg_step(state), n) == lcg_advance(state, n + 1),
    decreases n,
{
    if n > 0 {
        lemma_advance_front(state, (n - 1) as nat);
        assert(lcg_advance(state, n + 1) == lcg_step(lcg_advance(state, n)));
    } else {
        assert(lcg_advance(state, 1) == lcg_step(lcg_advance(state, 0)));
    }
}

/// Advancing `a` steps and then `b` steps is advancing `a + b` steps.
pub proof fn lemma_advance_add(state: u64, a: nat, b: nat)
    ensures
        lcg_advance(lcg_advance(state, a), b) == lcg_advance(state, a + b),
    decreases b,
{
    if b > 0 {
        lemma_advance_add(state, a, (b - 1) as nat);
        assert(lcg_advance(state, a + b) == lcg_step(lcg_advance(state, (a + b - 1) as nat)));
    }
}

/// Adding one before or after reducing modulo 2^64 gives the same residue.
proof fn lemma_increment_mod(a: nat)
    ensures
        (a % 0x1_0000_0000_0000_0000nat + 1) % 0x1_0000_0000_0000_0000nat == (a + 1)
            % 0x1_0000_0000_0000_0000nat,
{
}

/// A 64-bit linear congruential generator.
#[derive(Clone, Debug)]
pub struct Lcg64 {
    state: u64,
}

impl Lcg64 {
    /// The state the generator is in.
    pub closed spec fn state(&self) -> u64 {
        self.state
    }

    /// A generator that starts from a seed.
    pub fn new(seed: u64) -> (r: Self)
        ensures
            r.state() == seeded(seed),
    {
        assert(seed | 1 == if seed % 2 == 0 {
            (seed + 1) as u64
        } else {
            seed
        }) by (bit_vector);
        Self { state: seed | 1 }
    }

    /// Makes one step and gives out the high 32 bits of the new state.
    pub fn next_u32(&mut self) -> (r: u32)
        ensures
            final(self).state() == lcg_step(old(self).state()),
            r == lcg_output(final(self).state()),
    {
        proof {
            lemma_increment_mod(self.state as nat * LCG_MULTIPLIER as nat);
        }
        self.state = self.state.wrapping_mul(LCG_MULTIPLIER).wrapping_add(1);
        let s = self.state;
        assert(s >> 32 == s / 0x1_0000_0000 && (s >> 32) <= 0xffff_ffff) by (bit_vector);
        (s >> 32) as u32
    }
}

} // verus!
