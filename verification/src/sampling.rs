//! The integer side of sampling: a small deterministic pseudo-random
//! generator and the conversion of a vocabulary position to a token id.

use vstd::prelude::*;
use vstd::wrapping::u64_specs::{wrapping_add, wrapping_mul};

use crate::tokenizer::TokenId;

verus! {

/// The SplitMix64 state increment.
pub const SPLITMIX_GAMMA: u64 = 0x9e37_79b9_7f4a_7c15;

/// The state after one draw.
pub open spec fn splitmix_advance(state: u64) -> u64 {
    wrapping_add(state, SPLITMIX_GAMMA)
}

/// The output mixed from an advanced state.
pub open spec fn splitmix_mix(state: u64) -> u64 {
    let a = wrapping_mul(state ^ (state >> 30u64), 0xbf58_476d_1ce4_e5b9u64);
    let b = wrapping_mul(a ^ (a >> 27u64), 0x94d0_49bb_1331_11ebu64);
    b ^ (b >> 31u64)
}

/// SplitMix64, a small deterministic educational generator; it is not a
/// cryptographic random-number generator.
#[derive(Debug, Clone, Copy, PartialEq, Eq, Structural)]
pub struct SplitMix64 {
    state: u64,
}

impl View for SplitMix64 {
    type V = u64;

    closed spec fn view(&self) -> u64 {
        self.state
    }
}

impl SplitMix64 {
    pub fn new(seed: u64) -> (rng: Self)
        ensures
            rng@ == seed,
    {
        SplitMix64 { state: seed }
    }

    /// Advances the state and returns the mixed output of the new state.
    pub fn next_u64(&mut self) -> (value: u64)
        ensures
            final(self)@ == splitmix_advance(old(self)@),
            value == splitmix_mix(final(self)@),
    {
        self.state = self.state.wrapping_add(SPLITMIX_GAMMA);
        let mut value = self.state;
        value = (value ^ (value >> 30)).wrapping_mul(0xbf58_476d_1ce4_e5b9);
        value = (value ^ (value >> 27)).wrapping_mul(0x94d0_49bb_1331_11eb);
        value ^ (value >> 31)
    }
}

/// The token id of vocabulary position `index`, when it fits a token id.
pub fn token_id(index: usize) -> (r: Option<TokenId>)
    ensures
        index <= u32::MAX ==> r == Some(TokenId(index as u32)),
        index > u32::MAX ==> r is None,
{
    if index <= 0xffff_ffff {
        Some(TokenId(index as u32))
    } else {
        None
    }
}

} // verus!
