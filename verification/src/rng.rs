//! A small seedable linear congruential generator.
//!
//! The simulation owns an explicit generator instance so that every draw
//! it makes — placement, processing order, jitter, sampling — replays
//! deterministically from the seed.

use vstd::prelude::*;

verus! {

/// The multiplier of the generator's step.
pub const LCG_MUL: u64 = 6364136223846793005;

/// The increment of the generator's step.
pub const LCG_ADD: u64 = 1442695040888963407;

/// One generator step: multiply, add, and keep the low 64 bits.
pub open spec fn lcg_step(s: int) -> int {
    (s * LCG_MUL + LCG_ADD) % 0x1_0000_0000_0000_0000
}

/// A linear congruential generator over 64-bit state.
pub struct Lcg {
    state: u64,
}

impl Lcg {
    /// The current state, as seen by specifications.
    pub closed spec fn spec_state(&self) -> int {
        self.state as int
    }

    /// A generator starting from the given seed.
    pub fn new(seed: u64) -> (r: Lcg)
        ensures
            r.spec_state() == seed,
    {
        Lcg { state: seed }
    }

    /// Advances the state once and returns it.
    pub fn next_u64(&mut self) -> (r: u64)
        ensures
            final(self).spec_state() == lcg_step(old(self).spec_state()),
            r == final(self).spec_state(),
    {
        proof {
            assert((self.state as int) * (LCG_MUL as int) + (LCG_ADD as int)
                < 0x1_0000_0000_0000_0000_0000_0000_0000_0000) by (nonlinear_arith)
                requires (self.state as int) < 0x1_0000_0000_0000_0000;
        }
        let next: u64 = (((self.state as u128) * (LCG_MUL as u128) + (LCG_ADD as u128))
            % 0x1_0000_0000_0000_0000u128) as u64;
        self.state = next;
        next
    }

    /// A draw below the given bound.
    pub fn below(&mut self, n: u64) -> (r: u64)
        requires
            n >= 1,
        ensures
            final(self).spec_state() == lcg_step(old(self).spec_state()),
            r < n,
            r == lcg_step(old(self).spec_state()) % (n as int),
    {
        let v = self.next_u64();
        v % n
    }
}

} // verus!
