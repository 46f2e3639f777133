//! Deterministic xorshift64 random number generator.
//!
//! A single 64-bit state cell is advanced by three xor-shift steps
//! (13 left, 7 right, 17 left). Every draw is a pure function of the
//! state, so a given seed always yields the same stream.

use vstd::prelude::*;

verus! {

/// One xorshift64 step: the state after a call to [`Rng::next_u64`].
pub open spec fn xorshift64(s: u64) -> u64 {
    let a = s ^ (s << 13);
    let b = a ^ (a >> 7);
    b ^ (b << 17)
}

/// Deterministic pseudo-random generator with a single 64-bit state.
#[derive(Clone, Copy, Debug, PartialEq, Eq, Structural)]
pub struct Rng {
    pub state: u64,
}

impl Rng {
    /// Seed the generator. Equal seeds produce equal streams.
    pub fn new(seed: u64) -> (r: Rng)
        ensures
            r.state == seed,
    {
        Rng { state: seed }
    }

    /// Advance the state by one xorshift64 step and return it.
    pub fn next_u64(&mut self) -> (r: u64)
        ensures
            final(self).state == xorshift64(old(self).state),
            r == final(self).state,
    {
        let mut s = self.state;
        s = s ^ (s << 13);
        s = s ^ (s >> 7);
        s = s ^ (s << 17);
        self.state = s;
        s
    }
}

} // verus!
