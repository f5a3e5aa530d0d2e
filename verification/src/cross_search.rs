//! Hidden-world sampling as the cross-run search match plays it: voids are read
//! from (lead, follow) pairs of the history, and the opponent's hand is drawn
//! from every unseen card outside those voids.

use rand::rngs::StdRng;
use vstd::prelude::*;

use crate::chance::shuffle_slice;
use crate::determinize::{known_cards_valid, seen_by};
use crate::encode::history_suits_ok;
use crate::rules::{
    full_deck, lemma_of_id_roundtrip, sort_hand, sorted_cards, sorted_perm_of, Card, PlayEvent, Player, State,
    StateModel, NUM_CARDS, NUM_RANKS, NUM_SUITS,
};

verus! {

/// From position `i` on, reading the history as (lead, follow) pairs of one
/// trick, `player` followed a lead of `suit` with another suit.
pub open spec fn pair_void(h: Seq<PlayEvent>, player: Player, suit: u8, i: int) -> bool
    decreases h.len() - i,
{
    if i < 0 || i >= h.len() {
        false
    } else if i + 1 < h.len() && h[i + 1].trick == h[i].trick {
        (h[i + 1].player == player && h[i + 1].card.suit != h[i].card.suit && h[i].card.suit
            == suit) || pair_void(h, player, suit, i + 2)
    } else {
        pair_void(h, player, suit, i + 1)
    }
}

/// Suits `player` has publicly revealed a void in.
pub open spec fn spec_voided_suits(s: StateModel, player: Player) -> Seq<bool> {
    Seq::new(NUM_SUITS as nat, |k: int| pair_void(s.trick_history, player, k as u8, 0))
}

/// Suits `player` has publicly revealed a void in (failed to follow as
/// follower).
pub fn voided_suits(world: &State, player: Player) -> (void: [bool; 3])
    requires
        history_suits_ok(world@.trick_history),
    ensures
        void@ == spec_voided_suits(world@, player),
{
    let mut void = [false; 3];
    let h = &world.trick_history;
    let ghost hs = h@;
    let mut i: usize = 0;
    while i < h.len()
        invariant
            hs == h@,
            history_suits_ok(hs),
            i <= hs.len(),
            forall|k: int|
                0 <= k < NUM_SUITS ==> #[trigger] pair_void(hs, player, k as u8, 0) == (void@[k] || pair_void(
                    hs,
                    player,
                    k as u8,
                    i as int,
                )),
        decreases hs.len() - i,
    {
        let lead = h[i];
        let ghost old_void = void@;
        if i + 1 < h.len() && h[i + 1].trick == lead.trick {
            let follow = h[i + 1];
            if follow.player == player && follow.card.suit != lead.card.suit {
                void[lead.card.suit as usize] = true;
            }
            proof {
                assert forall|k: int| 0 <= k < NUM_SUITS implies #[trigger] pair_void(hs, player, k as u8, 0)
                    == (void@[k] || pair_void(hs, player, k as u8, i + 2)) by {
                    assert(pair_void(hs, player, k as u8, 0) == (old_void[k] || pair_void(
                        hs,
                        player,
                        k as u8,
                        i as int,
                    )));
                    assert(void@[k] == (old_void[k] || (hs[i + 1].player == player && hs[i
                        + 1].card.suit != hs[i as int].card.suit && hs[i as int].card.suit
                        == k as u8)));
                    assert(pair_void(hs, player, k as u8, i as int) == ((hs[i + 1].player == player
                        && hs[i + 1].card.suit != hs[i as int].card.suit && hs[i as int].card.suit
                        == k as u8) || pair_void(hs, player, k as u8, i + 2)));
                }
            }
            i = i + 2;
        } else {
            proof {
                assert forall|k: int| 0 <= k < NUM_SUITS implies #[trigger] pair_void(hs, player, k as u8, 0)
                    == (void@[k] || pair_void(hs, player, k as u8, i + 1)) by {
                    assert(pair_void(hs, player, k as u8, 0) == (old_void[k] || pair_void(
                        hs,
                        player,
                        k as u8,
                        i as int,
                    )));
                    assert(pair_void(hs, player, k as u8, i as int) == pair_void(
                        hs,
                        player,
                        k as u8,
                        i + 1,
                    ));
                }
            }
            i = i + 1;
        }
    }
    assert(void@ =~= spec_voided_suits(world@, player));
    void
}

/// Cards the opponent may hold in the searcher's eyes: unseen, and outside the
/// suits it has revealed a void in.
pub open spec fn pool_of(s: StateModel, mover: Player) -> spec_fn(Card) -> bool {
    |c: Card| !seen_by(s, mover, c) && !spec_voided_suits(s, mover.opp())[c.suit as int]
}

/// The cards the opponent may hold, in deck order.
pub open spec fn spec_pool(s: StateModel, mover: Player) -> Seq<Card> {
    full_deck().filter(pool_of(s, mover))
}

/// The cards the opponent may hold in `mover`'s eyes, in deck order: unseen by
/// `mover`, and outside the suits the opponent has revealed a void in.
pub fn pool_cards(world: &State, mover: Player) -> (p: Vec<Card>)
    requires
        known_cards_valid(world@, mover),
    ensures
        p@ == spec_pool(world@, mover),
{
    let opp = mover.other();
    let known = crate::determinize::seen_mask(world, mover);
    proof {
        assert(history_suits_ok(world@.trick_history)) by {
            assert forall|k: int| 0 <= k < world@.trick_history.len() implies #[trigger] world@.trick_history[k].card.suit < NUM_SUITS by {
                assert(world@.trick_history[k].card.valid());
            }
        }
    }
    let void = voided_suits(world, opp);
    let ghost pred = pool_of(world@, mover);
    let mut pool: Vec<Card> = Vec::new();
    let mut i: usize = 0;
    while i < NUM_CARDS
        invariant
            i <= NUM_CARDS,
            pred == pool_of(world@, mover),
            opp == mover.opp(),
            void@ == spec_voided_suits(world@, opp),
            forall|j: int|
                0 <= j < NUM_CARDS ==> #[trigger] known@[j] == seen_by(world@, mover, Card::of_id(j)),
            pool@ == full_deck().take(i as int).filter(pred),
        decreases NUM_CARDS - i,
    {
        proof {
            reveal_with_fuel(Seq::<_>::filter, 1);
            assert(full_deck().take(i + 1).drop_last() =~= full_deck().take(i as int));
            assert(full_deck().take(i + 1).last() == Card::of_id(i as int));
            lemma_of_id_roundtrip(i as int);
            assert(Card::of_id(i as int).suit == i / NUM_RANKS);
        }
        if !known[i] && !void[i / NUM_RANKS] {
            pool.push(Card::from_index(i));
        }
        i = i + 1;
    }
    assert(full_deck().take(NUM_CARDS as int) =~= full_deck());
    pool
}

/// The world with the opponent's hand dealt from an already shuffled pool:
/// the first cards of the pool, as many as the opponent holds, become its
/// hand, in hand order; everything else is kept.
pub fn deal_from_pool(world: &State, mover: Player, shuffled: &[Card]) -> (s: State)
    requires
        world@.hand(mover.opp()).len() <= shuffled@.len(),
    ensures
        s@ == world@.with_hand(mover.opp(), s@.hand(mover.opp())),
        sorted_perm_of(
            s@.hand(mover.opp()),
            shuffled@.subrange(0, world@.hand(mover.opp()).len() as int),
        ),
{
    let opp = mover.other();
    let opp_size = world.hand(opp).len();
    let mut opp_hand: Vec<Card> = Vec::with_capacity(opp_size);
    let mut k: usize = 0;
    while k < opp_size
        invariant
            k <= opp_size <= shuffled@.len(),
            opp_hand@ == shuffled@.subrange(0, k as int),
        decreases opp_size - k,
    {
        opp_hand.push(shuffled[k]);
        k = k + 1;
        assert(opp_hand@ =~= shuffled@.subrange(0, k as int));
    }
    sort_hand(opp_hand.as_mut_slice());
    let mut s = world.duplicate();
    s.set_hand(opp, opp_hand);
    proof {
        match opp {
            Player::Human => {},
            Player::Bot => {},
        }
    }
    s
}

/// Sample a world consistent with `mover`'s information set: the opponent's
/// hand is the first cards of a shuffle of the pool of cards it may hold,
/// sorted. Which shuffle comes out rests on the generator.
pub fn determinize(world: &State, mover: Player, rng: &mut StdRng) -> (s: State)
    requires
        known_cards_valid(world@, mover),
        spec_pool(world@, mover).len() >= world@.hand(mover.opp()).len(),
    ensures
        exists|shuffled: Seq<Card>|
            {
                &&& shuffled.len() == spec_pool(world@, mover).len()
                &&& #[trigger] shuffled.to_multiset() == spec_pool(world@, mover).to_multiset()
                &&& s@ == world@.with_hand(mover.opp(), s@.hand(mover.opp()))
                &&& sorted_perm_of(
                    s@.hand(mover.opp()),
                    shuffled.subrange(0, world@.hand(mover.opp()).len() as int),
                )
            },
        s@ == world@.with_hand(mover.opp(), s@.hand(mover.opp())),
        sorted_cards(s@.hand(mover.opp())),
        s@.hand(mover.opp()).len() == world@.hand(mover.opp()).len(),
        s@.hand(mover.opp()).to_multiset().subset_of(spec_pool(world@, mover).to_multiset()),
{
    let mut pool = pool_cards(world, mover);
    shuffle_slice(pool.as_mut_slice(), rng);
    let s = deal_from_pool(world, mover, pool.as_slice());
    proof {
        broadcast use vstd::seq_lib::lemma_multiset_commutative;
        broadcast use vstd::seq_lib::to_multiset_len;
        broadcast use vstd::multiset::group_multiset_axioms;

        let opp = mover.opp();
        let n = world@.hand(opp).len() as int;
        let f = pool@;
        let a = f.subrange(0, n);
        let b = f.subrange(n, f.len() as int);
        assert(f =~= a + b);
        assert(f.to_multiset() == a.to_multiset().add(b.to_multiset()));
        let h = s@.hand(opp);
        assert(h.to_multiset() == a.to_multiset());
        assert(h.to_multiset().len() == a.to_multiset().len());
        assert(f.to_multiset() == spec_pool(world@, mover).to_multiset());
    }
    s
}

} // verus!
