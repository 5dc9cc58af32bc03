//! The xorshift64* generator that every symbol's neighbour set is drawn from.

use vstd::prelude::*;

verus! {

/// State used in place of a zero seed, which would make xorshift stick at zero.
pub const ZERO_SEED_STATE: u64 = 0x9E3779B97F4A7C15;

/// Multiplier applied to the state to form each output.
pub const OUTPUT_MULTIPLIER: u64 = 0x2545F4914F6CDD1D;

/// One xorshift step of the internal state.
pub open spec fn xorshift_step(x: u64) -> u64 {
    let a = x ^ (x << 13u64);
    let b = a ^ (a >> 7u64);
    b ^ (b << 17u64)
}

/// The output produced from a freshly stepped state.
pub open spec fn xorshift_output(x: u64) -> u64 {
    vstd::wrapping::u64_specs::wrapping_mul(x, OUTPUT_MULTIPLIER)
}

/// The state a generator seeded with `seed` starts from.
pub open spec fn initial_state(seed: u64) -> u64 {
    if seed == 0 { ZERO_SEED_STATE } else { seed }
}

/// The state after `n` steps from `s`.
pub open spec fn state_after(s: u64, n: nat) -> u64
    decreases n,
{
    if n == 0 { s } else { xorshift_step(state_after(s, (n - 1) as nat)) }
}

/// The `n`-th 64-bit output (counting from 0) of a generator in state `s`.
pub open spec fn output_at(s: u64, n: nat) -> u64 {
    xorshift_output(state_after(s, n + 1))
}

/// The 32-bit output derived from a 64-bit one.
pub open spec fn high_half(x: u64) -> u32 {
    (x >> 32u64) as u32
}

/// Deterministic xorshift64* pseudo-random generator.
#[derive(Clone, Copy)]
pub struct XorShift64 {
    state: u64,
}

impl View for XorShift64 {
    type V = u64;

    closed spec fn view(&self) -> u64 {
        self.state
    }
}

impl XorShift64 {
    /// A generator seeded with `seed` (a zero seed is replaced by a fixed constant).
    pub fn new(seed: u64) -> (r: Self)
        ensures
            r@ == initial_state(seed),
    {
        let state = if seed == 0 { ZERO_SEED_STATE } else { seed };
        XorShift64 { state }
    }

    /// Steps the state and returns the next 64-bit output.
    pub fn next_u64(&mut self) -> (r: u64)
        ensures
            final(self)@ == xorshift_step(old(self)@),
            r == xorshift_output(final(self)@),
    {
        let mut x = self.state;
        x ^= x << 13u64;
        x ^= x >> 7u64;
        x ^= x << 17u64;
        self.state = x;
        x.wrapping_mul(OUTPUT_MULTIPLIER)
    }

    /// The high 32 bits of the next 64-bit output.
    pub fn next_u32(&mut self) -> (r: u32)
        ensures
            final(self)@ == xorshift_step(old(self)@),
            r == high_half(xorshift_output(final(self)@)),
    {
        let x = self.next_u64();
        (x >> 32u64) as u32
    }

    /// A value in `0..max` (0 when `max` is 0, in which case no output is drawn).
    pub fn gen_range(&mut self, max: u32) -> (r: u32)
        ensures
            max == 0 ==> r == 0 && final(self)@ == old(self)@,
            max > 0 ==> final(self)@ == xorshift_step(old(self)@)
                && r == high_half(xorshift_output(final(self)@)) % max,
    {
        if max == 0 {
            return 0;
        }
        self.next_u32() % max
    }
}

} // verus!
