//! The random source. Every draw goes through a trusted item here; the rest of
//! the library states what holds whatever value comes back.

use rand::rngs::StdRng;
use rand::seq::SliceRandom;
use rand::Rng;
use vstd::prelude::*;

use crate::rules::Card;

verus! {

/// rand's standard seedable generator, carried through the library unopened.
#[verifier::external_type_specification]
#[verifier::external_body]
pub struct ExStdRng(rand::rngs::StdRng);

/// `Rng::gen_range(0..=hi)` on `StdRng`: rand samples uniformly from the
/// inclusive range and panics only on an empty range, which `0..=hi` never is.
/// The contract claims only that the draw lies in the range; which value comes
/// back rests on the generator's state and is left open.
#[verifier::external_body]
pub(crate) fn random_index_upto(rng: &mut StdRng, hi: usize) -> (j: usize)
    ensures
        j <= hi,
{
    rng.gen_range(0..=hi)
}


/// `SliceRandom::shuffle` on a slice of cards: rand's source walks the slice
/// from the back and swaps each position with a uniformly drawn earlier-or-equal
/// one, so the result is a rearrangement of the same cards. The contract claims
/// that much (same length, same cards with the same multiplicities); the order
/// that comes out rests on the generator's state and is left open.
#[verifier::external_body]
pub(crate) fn shuffle_slice(cards: &mut [Card], rng: &mut StdRng)
    ensures
        final(cards)@.len() == old(cards)@.len(),
        final(cards)@.to_multiset() == old(cards)@.to_multiset(),
{
    cards.shuffle(rng)
}

} // verus!
