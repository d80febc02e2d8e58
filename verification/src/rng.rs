//! The supervisor's source of jitter: a linear congruential generator that
//! is seeded once, so that a run can be repeated from its seed.

use vstd::prelude::*;

verus! {

pub const MULTIPLIER: u64 = 6364136223846793005;

pub const INCREMENT: u64 = 1442695040888963407;

/// A generator of 32-bit draws. Its view is its 64-bit state.
pub struct Rng {
    state: u64,
}

impl View for Rng {
    type V = u64;

    closed spec fn view(&self) -> u64 {
        self.state
    }
}

impl Rng {
    /// The state that follows `state`.
    pub open spec fn step(state: u64) -> u64 {
        state.wrapping_mul(MULTIPLIER).wrapping_add(INCREMENT)
    }

    /// The draw that is handed out when the generator leaves `state`: the
    /// upper half of the state that follows.
    pub open spec fn output(state: u64) -> u32 {
        (Self::step(state) / 0x1_0000_0000) as u32
    }

    /// The state after `n` draws from `state`.
    pub open spec fn advanced(state: u64, n: nat) -> u64
        decreases n,
    {
        if n == 0 {
            state
        } else {
            Self::step(Self::advanced(state, (n - 1) as nat))
        }
    }

    pub fn seeded(seed: u64) -> (rng: Rng)
        ensures
            rng@ == seed,
    {
        Rng { state: seed }
    }

    pub fn next(&mut self) -> (draw: u32)
        ensures
            draw == Self::output(old(self)@),
            final(self)@ == Self::step(old(self)@),
    {
        self.state = self.state.wrapping_mul(MULTIPLIER).wrapping_add(INCREMENT);
        (self.state / 0x1_0000_0000) as u32
    }
}

} // verus!
