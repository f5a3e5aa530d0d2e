//! What the network encodings say about a position, read off the state itself:
//! the counter blocks are one-hot of the seats' trick counts, the trick number
//! and the scores, and the void block marks exactly the suits the opponent has
//! followed off.

use vstd::prelude::*;

use crate::encode::{
    encodable, hot_card, lemma_canon_index_roundtrip, lemma_canon_suit_bijection, led_ok,
    shows_void, spec_canon_suit, spec_encode, spec_encode_v1, spec_voids, HIST,
};
use crate::rules::{Card, Player, StateModel, NUM_SUITS};
use crate::world_laws::{followed_off_from, history_paired, lemma_shows_void_pairs};

verus! {

/// A count shown in a one-hot block of `width` slots: the last slot takes
/// every larger count.
pub open spec fn one_hot_slot(count: u32, width: int) -> int {
    if count < width - 1 {
        count as int
    } else {
        width - 1
    }
}

/// Cards of the deck have canonical indices below 33.
pub proof fn lemma_hand_slots(cards: Seq<Card>, trump: u8)
    requires
        forall|m: int| 0 <= m < cards.len() ==> #[trigger] cards[m].valid(),
        trump < NUM_SUITS,
    ensures
        forall|j: int| #[trigger] hot_card(cards, trump, j) ==> 0 <= j < 33,
{
    assert forall|j: int| #[trigger] hot_card(cards, trump, j) implies 0 <= j < 33 by {
        let m = choose|m: int|
            0 <= m < cards.len() && crate::encode::spec_canon_index(#[trigger] cards[m], trump) == j;
        lemma_canon_index_roundtrip(cards[m], trump);
    }
}

/// The counter blocks of the history-token encoding: the mover's tricks (14
/// slots from 78 + 44), the opponent's tricks (14 slots from 78 + 58), the
/// trick number (13 slots from 78 + 72), the mover's score (21 slots from
/// 78 + 85) and the opponent's score (21 slots from 78 + 106), each one-hot.
pub proof fn lemma_encode_counters(s: StateModel, mover: Player)
    requires
        encodable(s, mover, 13),
    ensures
        forall|j: int|
            0 <= j < 14 ==> #[trigger] spec_encode(s, mover)[78 + 44 + j] == (if j == one_hot_slot(
                s.tricks_won[mover.seat()],
                14,
            ) {
                1u8
            } else {
                0u8
            }),
        forall|j: int|
            0 <= j < 14 ==> #[trigger] spec_encode(s, mover)[78 + 58 + j] == (if j == one_hot_slot(
                s.tricks_won[mover.opp().seat()],
                14,
            ) {
                1u8
            } else {
                0u8
            }),
        forall|j: int|
            0 <= j < 13 ==> #[trigger] spec_encode(s, mover)[78 + 72 + j] == (if j == s.trick_num
                - 1 {
                1u8
            } else {
                0u8
            }),
        forall|j: int|
            0 <= j < 21 ==> #[trigger] spec_encode(s, mover)[78 + 85 + j] == (if j == one_hot_slot(
                s.score[mover.seat()],
                21,
            ) {
                1u8
            } else {
                0u8
            }),
        forall|j: int|
            0 <= j < 21 ==> #[trigger] spec_encode(s, mover)[78 + 106 + j] == (if j == one_hot_slot(
                s.score[mover.opp().seat()],
                21,
            ) {
                1u8
            } else {
                0u8
            }),
{
    lemma_hand_slots(s.hand(mover), s.trump.suit);
    assert(HIST == 78);
}

/// The void block of the one-hot encoding (3 slots from 110) marks, at the
/// canonical slot of each suit, whether the opponent has shown a void in it.
/// On a history paired into tricks that is: the opponent followed a lead of
/// that suit with another suit.
#[verifier::rlimit(60)]
#[verifier::spinoff_prover]
pub proof fn lemma_encode_v1_voids(s: StateModel, mover: Player)
    requires
        encodable(s, mover, 55),
        led_ok(s),
    ensures
        forall|r: u8|
            r < NUM_SUITS ==> #[trigger] spec_encode_v1(s, mover)[110 + spec_canon_suit(
                r,
                s.trump.suit,
            )] == (if shows_void(s.trick_history, mover.opp(), r, 0) {
                1u8
            } else {
                0u8
            }),
        history_paired(s.trick_history) ==> forall|r: u8|
            r < NUM_SUITS ==> #[trigger] spec_encode_v1(s, mover)[110 + spec_canon_suit(
                r,
                s.trump.suit,
            )] == (if followed_off_from(s.trick_history, mover.opp(), r, 0) {
                1u8
            } else {
                0u8
            }),
{
    let t = s.trump.suit;
    assert forall|r: u8| r < NUM_SUITS implies #[trigger] spec_encode_v1(s, mover)[110
        + spec_canon_suit(r, t)] == (if shows_void(s.trick_history, mover.opp(), r, 0) {
        1u8
    } else {
        0u8
    }) by {
        lemma_v1_void_slot(s, mover, r);
    }
    if history_paired(s.trick_history) {
        assert forall|r: u8| r < NUM_SUITS implies #[trigger] spec_encode_v1(s, mover)[110
            + spec_canon_suit(r, t)] == (if followed_off_from(s.trick_history, mover.opp(), r, 0) {
            1u8
        } else {
            0u8
        }) by {
            lemma_v1_void_slot(s, mover, r);
            lemma_shows_void_pairs(s.trick_history, mover.opp(), r, 0);
        }
    }
}

/// One slot of the void block.
#[verifier::rlimit(60)]
#[verifier::spinoff_prover]
proof fn lemma_v1_void_slot(s: StateModel, mover: Player, r: u8)
    requires
        encodable(s, mover, 55),
        led_ok(s),
        r < NUM_SUITS,
    ensures
        spec_encode_v1(s, mover)[110 + spec_canon_suit(r, s.trump.suit)] == (if shows_void(
            s.trick_history,
            mover.opp(),
            r,
            0,
        ) {
            1u8
        } else {
            0u8
        }),
{
    let t = s.trump.suit;
    let h = s.trick_history;
    lemma_hand_slots(s.hand(mover), t);
    lemma_canon_suit_bijection(t);
    let k = 110 + spec_canon_suit(r, t);
    assert(110 <= k < 113);
    assert(!hot_card(s.hand(mover), t, k));
    assert(!crate::encode::hot_played(h, mover, true, t, k - 33)) by {
        if crate::encode::hot_played(h, mover, true, t, k - 33) {
            let m = choose|m: int|
                0 <= m < h.len() && (h[m].player == mover) == true
                    && crate::encode::spec_canon_index(#[trigger] h[m].card, t) == k - 33;
            lemma_canon_index_roundtrip(h[m].card, t);
        }
    }
    assert(!crate::encode::hot_played(h, mover, false, t, k - 66)) by {
        if crate::encode::hot_played(h, mover, false, t, k - 66) {
            let m = choose|m: int|
                0 <= m < h.len() && (h[m].player == mover) == false
                    && crate::encode::spec_canon_index(#[trigger] h[m].card, t) == k - 66;
            lemma_canon_index_roundtrip(h[m].card, t);
        }
    }
    assert(k != 113 + crate::encode::led_slot(s)) by {
        match s.led_card {
            Some(l) => {
                lemma_canon_index_roundtrip(l, t);
            },
            None => {},
        }
    }
    assert(crate::encode::hot_void(s, mover.opp(), k - 110) == shows_void(h, mover.opp(), r, 0)) by {
        if crate::encode::hot_void(s, mover.opp(), k - 110) {
            let q = choose|q: int|
                0 <= q < NUM_SUITS && #[trigger] spec_voids(s, mover.opp())[q] && k - 110
                    == spec_canon_suit(q as u8, t);
            assert(q as u8 == r);
        }
        if shows_void(h, mover.opp(), r, 0) {
            assert(spec_voids(s, mover.opp())[r as int]);
        }
    }
    assert(crate::encode::onehot_hot(s, mover, k) == crate::encode::hot_void(s, mover.opp(), k - 110));
}

} // verus!
