//! A small owned pseudo-random number generator.
//!
//! The generator is an explicitly owned value seeded once: from entropy by the
//! caller at world start, or from a fixed value in tests, which makes
//! generation reproducible. Contracts promise only the range of each draw;
//! which value comes out is deliberately left open.

use vstd::prelude::*;

verus! {

/// A linear congruential generator over 64-bit state.
pub struct Rng {
    state: u64,
}

impl Rng {
    /// Builds a generator from a seed. Equal seeds give equal draw sequences.
    pub fn new(seed: u64) -> Rng {
        Rng { state: seed }
    }

    /// Advances the state and returns 31 fresh high bits.
    fn next_bits(&mut self) -> (r: u64)
        ensures
            r < 0x8000_0000,
    {
        self.state = self.state.wrapping_mul(6364136223846793005).wrapping_add(
            1442695040888963407,
        );
        let s = self.state;
        assert(s >> 33 < 0x8000_0000) by (bit_vector);
        s >> 33
    }

    /// A draw in `[0, n)`.
    pub fn gen_range(&mut self, n: u32) -> (r: u32)
        requires
            n >= 1,
        ensures
            r < n,
    {
        let bits = self.next_bits();
        (bits % (n as u64)) as u32
    }

    /// A draw in `[0, n)`, for indexing.
    pub fn gen_index(&mut self, n: usize) -> (r: usize)
        requires
            n >= 1,
        ensures
            r < n,
    {
        let bits = self.next_bits();
        (bits % (n as u64)) as usize
    }
}

} // verus!
