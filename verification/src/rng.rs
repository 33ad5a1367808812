//! A small reproducible source of random numbers (xorshift64*).

use vstd::prelude::*;

verus! {

/// The multiplier that scrambles the state.
pub const SCRAMBLE: u64 = 0x2545_F491_4F6C_DD1D;

/// The state after the one given.
pub open spec fn next_state(x: u64) -> u64 {
    let a = x ^ (x >> 12);
    let b = a ^ (a << 25);
    b ^ (b >> 27)
}

/// The number drawn in a state.
pub open spec fn drawn(state: u64) -> u64 {
    state.wrapping_mul(SCRAMBLE)
}

/// The state after `n` draws from a state.
pub open spec fn state_after(state: u64, n: int) -> u64
    decreases n,
{
    if n <= 0 {
        state
    } else {
        next_state(state_after(state, n - 1))
    }
}

/// The generator.
#[derive(Clone, Copy, Debug)]
pub struct Rng {
    pub state: u64,
}

impl Rng {
    /// A generator for a seed. The zero state, from which nothing else follows,
    /// is avoided.
    pub fn new(seed: u64) -> (out: Self)
        ensures
            out.state == seed | 1,
    {
        Rng { state: seed | 1 }
    }

    /// Draws a number.
    pub fn next_u64(&mut self) -> (out: u64)
        ensures
            final(self).state == next_state(old(self).state),
            out == drawn(final(self).state),
    {
        let mut x: u64 = self.state;
        x = x ^ (x >> 12);
        x = x ^ (x << 25);
        x = x ^ (x >> 27);
        self.state = x;
        x.wrapping_mul(SCRAMBLE)
    }

    /// Draws a number below `n`.
    pub fn below(&mut self, n: usize) -> (out: usize)
        requires
            n > 0,
        ensures
            final(self).state == next_state(old(self).state),
            out == drawn(final(self).state) % (n as u64),
            out < n,
    {
        (self.next_u64() % (n as u64)) as usize
    }

    /// Draws the numerator of a fraction with 24 binary places.
    pub fn uniform_bits(&mut self) -> (out: u32)
        ensures
            final(self).state == next_state(old(self).state),
            out == drawn(final(self).state) >> 40,
            out < 0x100_0000,
    {
        let v: u64 = self.next_u64();
        assert((v >> 40) < 0x100_0000) by (bit_vector);
        (v >> 40) as u32
    }
}

/// The generator never falls into the zero state, whatever the seed and however
/// many numbers are drawn.
pub proof fn law_state_is_never_zero(seed: u64, n: int)
    ensures
        state_after(seed | 1, n) != 0,
    decreases n,
{
    if n <= 0 {
        assert(seed | 1 != 0) by (bit_vector);
    } else {
        law_state_is_never_zero(seed, n - 1);
        let x = state_after(seed | 1, n - 1);
        assert(x != 0 ==> (x ^ (x >> 12)) != 0) by (bit_vector);
        let a = x ^ (x >> 12);
        assert(a != 0 ==> (a ^ (a << 25)) != 0) by (bit_vector);
        let b = a ^ (a << 25);
        assert(b != 0 ==> (b ^ (b >> 27)) != 0) by (bit_vector);
    }
}

/// Different states have different successors: the generator cannot merge two
/// sequences.
pub proof fn law_states_stay_apart(x: u64, y: u64)
    requires
        next_state(x) == next_state(y),
    ensures
        x == y,
{
    let a = x ^ (x >> 12);
    let c = y ^ (y >> 12);
    let b = a ^ (a << 25);
    let d = c ^ (c << 25);
    assert((b ^ (b >> 27)) == (d ^ (d >> 27)) ==> b == d) by (bit_vector);
    assert((a ^ (a << 25)) == (c ^ (c << 25)) ==> a == c) by (bit_vector);
    assert((x ^ (x >> 12)) == (y ^ (y >> 12)) ==> x == y) by (bit_vector);
}

} // verus!
