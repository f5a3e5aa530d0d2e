//! The one-hot (pre-history) network encoding of length 230, used by the
//! search-era nets: own hand, cards played by each seat, trump rank, opponent
//! voids, led card, trick counts, trick number and scores.

use vstd::prelude::*;

use crate::encode::{encodable, fill_encode_v1, led_ok, spec_encode_v1};
use crate::rules::{Player, State};

pub use crate::encode::{
    canon_card_index, canon_suit, legal_mask, opponent_voids, real_card_from_canon_index,
    real_suit_from_canon,
};

verus! {

/// Length of the encoding.
pub const INPUT_SIZE: usize = 230;

/// Encode `state` from `mover`'s perspective into a length-`INPUT_SIZE` vector.
pub fn encode(state: &State, mover: Player) -> (out: Vec<u8>)
    requires
        encodable(state@, mover, 55),
        led_ok(state@),
    ensures
        out@ == spec_encode_v1(state@, mover),
{
    let mut out: Vec<u8> = Vec::new();
    encode_into(state, mover, &mut out);
    out
}

/// [`encode`] into a caller-owned buffer (cleared and re-zeroed), reusing its
/// capacity.
pub fn encode_into(state: &State, mover: Player, out: &mut Vec<u8>)
    requires
        encodable(state@, mover, 55),
        led_ok(state@),
    ensures
        final(out)@ == spec_encode_v1(state@, mover),
{
    fill_encode_v1(state, mover, out);
}

} // verus!
