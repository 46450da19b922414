//! A small seeded generator of uniform draws.
//!
//! The generator keeps one 64-bit word of state. Each draw advances the state
//! by a fixed odd increment and folds the 128-bit product of the new state
//! with a masked copy of itself into 64 bits. The output is a function of the
//! state alone, so a seed fixes the whole sequence.

use vstd::prelude::*;
use crate::fraction::UnitFraction;

verus! {

/// Added to the state, modulo `2^64`, before every draw.
pub const INCREMENT: u64 = 0xA076_1D64_78BD_642F;

/// Mask applied to one factor of the folding product.
pub const MASK: u64 = 0xE703_7ED1_A0B4_28DB;

/// Denominator of a draw from the unit interval, `2^52`.
pub const FRACTION_DENOMINATOR: u64 = 0x10_0000_0000_0000;

/// The state that follows `state`.
pub open spec fn advance(state: u64) -> u64 {
    ((state + INCREMENT) % 0x1_0000_0000_0000_0000) as u64
}

/// The 64-bit word drawn when the generator has just moved to `state`: the
/// high and low halves of `state * (state ^ MASK)`, combined by exclusive or.
pub open spec fn fold(state: u64) -> u64 {
    let product: int = state * (state ^ MASK);
    ((product % 0x1_0000_0000_0000_0000) as u64) ^ ((product / 0x1_0000_0000_0000_0000) as u64)
}

/// The state after `count` draws from `state`.
pub open spec fn advance_by(state: u64, count: nat) -> u64
    decreases count,
{
    if count == 0 {
        state
    } else {
        advance(advance_by(state, (count - 1) as nat))
    }
}

/// Drawing `first` times and then `second` times is drawing `first + second`
/// times.
pub proof fn lemma_advance_adds(state: u64, first: nat, second: nat)
    ensures
        advance_by(advance_by(state, first), second) == advance_by(state, first + second),
    decreases second,
{
    if second > 0 {
        lemma_advance_adds(state, first, (second - 1) as nat);
    }
}

/// Seeded generator of uniform 64-bit words and unit-interval fractions.
#[derive(Debug)]
pub struct Rng {
    state: u64,
}

impl View for Rng {
    type V = u64;

    /// The current state word.
    closed spec fn view(&self) -> u64 {
        self.state
    }
}

impl Rng {
    /// A generator whose state is `seed`.
    pub fn new(seed: u64) -> (rng: Rng)
        ensures
            rng@ == seed,
    {
        let mut rng = Rng { state: 0 };
        rng.set_state(seed);
        rng
    }

    /// Replaces the state by `seed`, restarting the sequence from there.
    pub fn set_state(&mut self, seed: u64)
        ensures
            final(self)@ == seed,
    {
        self.state = seed;
    }

    /// Moves to the next state and returns it.
    pub fn step(&mut self) -> (s: u64)
        ensures
            s == advance(old(self)@),
            final(self)@ == s,
    {
        let s: u64 = self.state.wrapping_add(INCREMENT);
        self.state = s;
        s
    }

    /// Draws a uniform 64-bit word.
    pub fn u64(&mut self) -> (word: u64)
        ensures
            final(self)@ == advance(old(self)@),
            word == fold(final(self)@),
    {
        let s: u64 = self.step();
        let masked: u64 = s ^ MASK;
        assert(s * masked <= 0xFFFF_FFFF_FFFF_FFFF * 0xFFFF_FFFF_FFFF_FFFF) by (nonlinear_arith)
            requires
                0 <= s <= 0xFFFF_FFFF_FFFF_FFFF,
                0 <= masked <= 0xFFFF_FFFF_FFFF_FFFF,
        ;
        let t: u128 = (s as u128) * (masked as u128);
        let low: u64 = #[verifier::truncate] (t as u64);
        let high_wide: u128 = t >> 64;
        assert(high_wide == t / 0x1_0000_0000_0000_0000) by (bit_vector)
            requires
                high_wide == t >> 64,
        ;
        assert(low == t % 0x1_0000_0000_0000_0000) by (bit_vector)
            requires
                low == t as u64,
        ;
        let high: u64 = high_wide as u64;
        low ^ high
    }

    /// Draws a uniform fraction of the unit interval: the top 52 bits of a
    /// fresh word over `2^52`.
    pub fn fraction(&mut self) -> (draw: UnitFraction)
        ensures
            final(self)@ == advance(old(self)@),
            draw.numerator == fold(final(self)@) / 4096,
            draw.denominator == FRACTION_DENOMINATOR,
            draw.wf(),
    {
        let word: u64 = self.u64();
        let numerator: u64 = word >> 12;
        assert(numerator == word / 4096 && numerator < 0x10_0000_0000_0000) by (bit_vector)
            requires
                numerator == word >> 12,
        ;
        UnitFraction { numerator, denominator: FRACTION_DENOMINATOR }
    }
}

} // verus!
