//! Laws of a round of play: every dealt round is well formed, and playing a
//! card of the hand, closing a trick and scoring the round keep it so.

use vstd::multiset::Multiset;
use vstd::prelude::*;

use crate::rules::{
    first_index, full_deck, spec_trick_winner, Side, lemma_first_index_exists, lemma_id_roundtrip, lemma_of_id_roundtrip, played_cards, Card, Phase, PlayEvent,
    Player, State, StateModel, TRICKS_PER_ROUND, spec_score_for_tricks, of_suit,
};

verus! {

broadcast use {vstd::multiset::group_multiset_axioms, vstd::seq_lib::group_to_multiset_ensures};

/// The full deck holds each of the 33 cards once, and only valid cards.
pub proof fn lemma_full_deck()
    ensures
        full_deck().no_duplicates(),
        forall|c: Card| #[trigger] full_deck().contains(c) <==> c.valid(),
        forall|c: Card| #[trigger] full_deck().to_multiset().count(c) > 0 ==> c.valid()
            && full_deck().to_multiset().count(c) == 1,
{
    broadcast use vstd::seq_lib::to_multiset_contains;

    let d = full_deck();
    assert forall|i: int, j: int| 0 <= i < d.len() && 0 <= j < d.len() && i != j implies d[i]
        != d[j] by {
        lemma_of_id_roundtrip(i);
        lemma_of_id_roundtrip(j);
    }
    assert forall|c: Card| #[trigger] d.contains(c) <==> c.valid() by {
        if c.valid() {
            lemma_id_roundtrip(c);
            assert(d[c.id()] == c);
        }
        if d.contains(c) {
            let i = choose|i: int| 0 <= i < d.len() && d[i] == c;
            lemma_of_id_roundtrip(i);
        }
    }
    d.lemma_multiset_has_no_duplicates();
}


/// Every round dealt from a shuffled deck is well formed: 13 cards each, the
/// trump, nothing played, and 27 distinct cards of the deck.
pub proof fn lemma_deal_round_ok(s: StateModel, round_num: u32, score: Seq<u32>, deck: Seq<Card>)
    requires
        score.len() == 2,
        State::is_shuffled_deck(deck),
        State::is_deal_of(s, round_num, score, deck),
    ensures
        s.round_ok(),
{
    broadcast use vstd::seq_lib::to_multiset_len;
    broadcast use vstd::seq_lib::lemma_multiset_commutative;

    lemma_full_deck();
    assert(deck.len() == 33) by {
        assert(deck.to_multiset().len() == full_deck().to_multiset().len());
    }
    let d0 = deck.subrange(0, 13);
    let d1 = deck.subrange(13, 26);
    let d2 = deck.subrange(26, 27);
    let d3 = deck.subrange(27, 33);
    assert(deck =~= d0 + d1 + d2 + d3);
    assert(d2 =~= seq![deck[26]]);
    assert(s.human_hand.len() == 13) by {
        assert(s.human_hand.to_multiset().len() == d0.to_multiset().len());
    }
    assert(s.bot_hand.len() == 13) by {
        assert(s.bot_hand.to_multiset().len() == d1.to_multiset().len());
    }
    assert(played_cards(s.trick_history) =~= Seq::<Card>::empty());
    assert(s.tricks_won =~= seq![0u32, 0u32]);
    let pool = s.card_pool();
    assert(d2.to_multiset() =~= Multiset::<Card>::empty().insert(deck[26])) by {
        broadcast use vstd::seq_lib::to_multiset_build;

        assert(d2 =~= Seq::<Card>::empty().push(deck[26]));
        assert(Seq::<Card>::empty().to_multiset() =~= Multiset::<Card>::empty());
    }
    assert(deck.to_multiset() =~= pool.add(d3.to_multiset())) by {
        assert(Seq::<Card>::empty().to_multiset() =~= Multiset::<Card>::empty());
    }
    assert forall|c: Card| #[trigger] pool.count(c) > 0 implies c.valid() && pool.count(c) == 1 by {
        assert(full_deck().to_multiset().count(c) > 0);
    }
    match s.leader {
        Player::Human => {},
        Player::Bot => {},
    }
}


/// Playing a card of the hand keeps a round well formed: the card moves from
/// the hand to the history, a lead waits for the follower, and a follow closes
/// the trick with one more trick taken.
pub proof fn lemma_play_keeps_round_ok(s: StateModel, card: Card)
    requires
        s.round_ok(),
        s.phase == Phase::Playing,
        s.hand(s.awaiting.unwrap()).contains(card),
    ensures
        s.after_play(card).round_ok(),
{
    broadcast use vstd::seq_lib::to_multiset_remove;
    broadcast use vstd::seq_lib::to_multiset_build;
    broadcast use vstd::seq::Seq::lemma_push_map_commute;
    broadcast use vstd::seq_lib::to_multiset_contains;

    let p = s.awaiting.unwrap();
    let h = s.hand(p);
    lemma_first_index_exists(h, card);
    let pos = first_index(h, card);
    let t = s.after_play(card);
    let event = PlayEvent { trick: s.trick_num, player: p, card };
    assert(h.remove(pos).len() == h.len() - 1);
    assert(t.hand(p) == h.remove(pos));
    assert(t.hand(p.opp()) == s.hand(p.opp()));
    assert(t.trick_history == s.trick_history.push(event));
    assert(played_cards(t.trick_history) =~= played_cards(s.trick_history).push(card));
    assert(h.to_multiset().count(card) > 0) by {
        assert(h[pos] == card);
    }
    assert(t.card_pool() =~= s.card_pool()) by {
        match p {
            Player::Human => {
                assert(t.human_hand.to_multiset() == s.human_hand.to_multiset().remove(card));
            },
            Player::Bot => {
                assert(t.bot_hand.to_multiset() == s.bot_hand.to_multiset().remove(card));
            },
        }
    }
    assert(t.cards_ok());
    match s.led_card {
        None => {
            assert(t.shape_ok());
        },
        Some(l) => {
            let w = s.taker(card);
            assert(s.tricks(w) <= 12);
            assert(t.tricks_won == s.tricks_won.update(w.seat(), (s.tricks(w) + 1) as u32));
            assert(t.trick_sum() == s.trick_sum() + 1);
            assert(t.shape_ok());
        },
    }
}

/// Closing a completed trick keeps a round well formed: the taker leads the
/// next trick, or the round ends after the thirteenth.
pub proof fn lemma_trick_keeps_round_ok(s: StateModel)
    requires
        s.round_ok(),
        s.phase == Phase::TrickComplete,
    ensures
        s.after_trick().round_ok(),
        s.trick_num < TRICKS_PER_ROUND ==> s.after_trick().phase == Phase::Playing,
        s.trick_num == TRICKS_PER_ROUND ==> s.after_trick().phase == Phase::RoundOver,
{
    assert(s.after_trick().card_pool() == s.card_pool());
}


/// Ending the match at the close of a round keeps the state well formed.
pub proof fn lemma_match_end_keeps_round_ok(s: StateModel)
    requires
        s.round_ok(),
        s.phase == Phase::RoundOver,
    ensures
        (StateModel { score: s.score_after_round(), awaiting: None, phase: Phase::MatchOver, ..s }).round_ok(),
{
    let t = StateModel { score: s.score_after_round(), awaiting: None, phase: Phase::MatchOver, ..s };
    assert(t.card_pool() == s.card_pool());
}

/// In a well-formed state the seat to move can always play: its legal moves are
/// a non-empty part of its hand, and playing any card of the hand cannot
/// overflow a counter.
pub proof fn lemma_playing_state(s: StateModel, card: Card)
    requires
        s.round_ok(),
        s.phase == Phase::Playing,
    ensures
        s.awaiting is Some,
        s.legal().len() > 0,
        forall|c: Card| #[trigger] s.legal().contains(c) ==> s.hand(s.awaiting.unwrap()).contains(c),
        s.tricks(s.taker(card)) < u32::MAX,
        s.trick_num < u32::MAX,
{
    let p = s.awaiting.unwrap();
    let h = s.hand(p);
    assert(h.len() > 0) by {
        match s.led_card {
            None => {},
            Some(l) => {},
        }
        match p {
            Player::Human => {},
            Player::Bot => {},
        }
    }
    match s.led_card {
        None => {},
        Some(l) => {
            let same = h.filter(of_suit(l.suit));
            assert forall|c: Card| #[trigger] same.contains(c) implies h.contains(c) by {
                h.lemma_filter_contains_rev(of_suit(l.suit), c);
            }
        },
    }
}

/// A completed trick or a finished round never sits at the counter's limit.
pub proof fn lemma_closing_state(s: StateModel)
    requires
        s.round_ok(),
        s.phase != Phase::Playing,
    ensures
        s.trick_num < u32::MAX,
        s.tricks(Player::Human) + s.tricks(Player::Bot) <= TRICKS_PER_ROUND,
        s.round_points(Player::Human) <= 6,
        s.round_points(Player::Bot) <= 6,
{
}

/// The two seats split 13 tricks, so their points for a round never tie, and
/// together they score at least 6 of them (so no match lasts beyond 7 rounds),
/// while no seat ever scores more than 6 in one round.
pub proof fn lemma_round_points(a: u32, b: u32)
    requires
        a + b == TRICKS_PER_ROUND,
    ensures
        spec_score_for_tricks(a) != spec_score_for_tricks(b),
        spec_score_for_tricks(a) + spec_score_for_tricks(b) >= 6,
        spec_score_for_tricks(a) <= 6,
{
}

/// A finished round always has a decisive match winner: a tie on total points
/// is broken by the final round's points, which never tie.
pub proof fn lemma_match_winner_decisive(s: StateModel)
    requires
        s.round_ok(),
        s.phase == Phase::MatchOver,
        s.points(Player::Human) == s.points(Player::Bot),
    ensures
        s.round_points(Player::Human) != s.round_points(Player::Bot),
        s.winner() == Some(
            if s.round_points(Player::Human) > s.round_points(Player::Bot) {
                Player::Human
            } else {
                Player::Bot
            },
        ),
{
    lemma_round_points(s.tricks(Player::Human), s.tricks(Player::Bot));
}

/// A round is 13 tricks: it is dealt at trick 1 with no trick taken; while it
/// is played the trick number counts the tricks (one less than it while a
/// trick is open, equal to it once the trick is complete); closing a trick
/// moves to the next number, and closing the thirteenth ends the round. So a
/// round closes exactly 13 tricks, and when it is over all 13 are taken, both
/// hands are empty and the history holds 26 plays.
pub proof fn lemma_round_of_13_tricks(s: StateModel)
    requires
        s.round_ok(),
    ensures
        s.phase == Phase::Playing ==> 1 <= s.trick_num <= TRICKS_PER_ROUND && s.trick_sum()
            == s.trick_num - 1,
        s.phase == Phase::TrickComplete ==> {
            &&& 1 <= s.trick_num <= TRICKS_PER_ROUND
            &&& s.trick_sum() == s.trick_num
            &&& s.after_trick().trick_num == s.trick_num + 1
            &&& (s.after_trick().phase == Phase::RoundOver <==> s.trick_num == TRICKS_PER_ROUND)
            &&& (s.after_trick().phase == Phase::Playing <==> s.trick_num < TRICKS_PER_ROUND)
        },
        s.phase == Phase::RoundOver ==> {
            &&& s.trick_num == TRICKS_PER_ROUND + 1
            &&& s.tricks(Player::Human) + s.tricks(Player::Bot) == TRICKS_PER_ROUND
            &&& s.human_hand.len() == 0
            &&& s.bot_hand.len() == 0
            &&& s.trick_history.len() == 2 * TRICKS_PER_ROUND
        },
{
}

/// A dealt round starts at trick 1 with no trick taken and nothing played.
pub proof fn lemma_deal_starts_at_trick_one(s: StateModel, round_num: u32, score: Seq<u32>, deck: Seq<Card>)
    requires
        State::is_deal_of(s, round_num, score, deck),
    ensures
        s.phase == Phase::Playing,
        s.trick_num == 1,
        s.tricks(Player::Human) == 0,
        s.tricks(Player::Bot) == 0,
        s.trick_history.len() == 0,
{
}

/// One step of a round: the seat to move plays a card of its hand, or a
/// completed trick is closed.
pub open spec fn round_step(s: StateModel, t: StateModel) -> bool {
    ||| s.phase == Phase::Playing && exists|c: Card|
        s.hand(s.awaiting.unwrap()).contains(c) && t == #[trigger] s.after_play(c)
    ||| s.phase == Phase::TrickComplete && t == s.after_trick()
}

/// How many of the states are completed tricks, i.e. how many trick closings
/// a sequence of round steps through them makes.
pub open spec fn closings(ss: Seq<StateModel>) -> int
    decreases ss.len(),
{
    if ss.len() == 0 {
        0
    } else {
        closings(ss.drop_last()) + if ss.last().phase == Phase::TrickComplete {
            1int
        } else {
            0int
        }
    }
}

/// Playing a round out from its deal to its end, by any cards of the hands,
/// closes exactly 13 tricks and ends with all 13 taken and both hands empty.
pub proof fn lemma_round_closes_13_tricks(ss: Seq<StateModel>)
    requires
        ss.len() >= 1,
        ss[0].round_ok(),
        ss[0].phase == Phase::Playing,
        ss[0].trick_num == 1,
        forall|i: int| 0 <= i < ss.len() - 1 ==> #[trigger] round_step(ss[i], ss[i + 1]),
        ss.last().phase == Phase::RoundOver,
    ensures
        closings(ss) == TRICKS_PER_ROUND,
        ss.last().tricks(Player::Human) + ss.last().tricks(Player::Bot) == TRICKS_PER_ROUND,
        ss.last().human_hand.len() == 0,
        ss.last().bot_hand.len() == 0,
{
    let n = ss.len() as int;
    lemma_round_prefix(ss, n - 1);
    assert(ss.take(n) =~= ss);
    assert(ss.take(n - 1) =~= ss.drop_last());
    lemma_round_of_13_tricks(ss[n - 1]);
}

/// Along round steps from a deal, every state is well formed and the trick
/// number is one more than the closings made before it.
proof fn lemma_round_prefix(ss: Seq<StateModel>, k: int)
    requires
        0 <= k < ss.len(),
        ss[0].round_ok(),
        ss[0].trick_num == 1,
        ss[0].phase == Phase::Playing,
        forall|i: int| 0 <= i < ss.len() - 1 ==> #[trigger] round_step(ss[i], ss[i + 1]),
    ensures
        ss[k].round_ok(),
        closings(ss.take(k)) == ss[k].trick_num - 1,
    decreases k,
{
    if k == 0 {
        assert(ss.take(0) =~= Seq::<StateModel>::empty());
    } else {
        lemma_round_prefix(ss, k - 1);
        let j = k - 1;
        let s = ss[j];
        let t = ss[j + 1];
        assert(round_step(ss[j], ss[j + 1]));
        assert(t == ss[k]);
        assert(ss.take(k).drop_last() =~= ss.take(k - 1));
        assert(ss.take(k).last() == s);
        if s.phase == Phase::Playing {
            let c = choose|c: Card| s.hand(s.awaiting.unwrap()).contains(c) && t == #[trigger] s.after_play(c);
            lemma_play_keeps_round_ok(s, c);
        } else {
            lemma_trick_keeps_round_ok(s);
        }
    }
}

/// What is left of a round: two for every card still in a hand, and one more
/// while a completed trick waits to be closed.
pub open spec fn round_measure(s: StateModel) -> int {
    2 * (s.human_hand.len() + s.bot_hand.len()) + if s.phase == Phase::TrickComplete {
        1int
    } else {
        0int
    }
}

/// Every round step keeps the round well formed and strictly shrinks what is
/// left of it; it lands on a decision, a completed trick or the round's end.
pub proof fn lemma_round_step_decreases(s: StateModel, t: StateModel)
    requires
        s.round_ok(),
        round_step(s, t),
    ensures
        t.round_ok(),
        0 <= round_measure(t) < round_measure(s),
        t.phase == Phase::Playing || t.phase == Phase::TrickComplete || t.phase == Phase::RoundOver,
{
    if s.phase == Phase::Playing {
        let c = choose|c: Card| s.hand(s.awaiting.unwrap()).contains(c) && t == #[trigger] s.after_play(c);
        lemma_play_keeps_round_ok(s, c);
        let p = s.awaiting.unwrap();
        lemma_first_index_exists(s.hand(p), c);
        let h = s.hand(p).remove(first_index(s.hand(p), c));
        assert(h.len() == s.hand(p).len() - 1);
        match p {
            Player::Human => {
                assert(t.human_hand.len() == s.human_hand.len() - 1);
                assert(t.bot_hand.len() == s.bot_hand.len());
            },
            Player::Bot => {
                assert(t.bot_hand.len() == s.bot_hand.len() - 1);
                assert(t.human_hand.len() == s.human_hand.len());
            },
        }
    } else {
        lemma_trick_keeps_round_ok(s);
    }
}

/// A well-formed round that is not over can always take a step: the seat to
/// move plays its first legal card, or the completed trick is closed.
pub proof fn lemma_round_can_step(s: StateModel)
    requires
        s.round_ok(),
        s.phase == Phase::Playing || s.phase == Phase::TrickComplete,
    ensures
        s.phase == Phase::Playing ==> round_step(s, s.after_play(s.legal()[0])),
        s.phase == Phase::TrickComplete ==> round_step(s, s.after_trick()),
{
    if s.phase == Phase::Playing {
        let c = s.legal()[0];
        lemma_playing_state(s, c);
        assert(s.legal().contains(c));
        assert(s.hand(s.awaiting.unwrap()).contains(c));
    }
}

/// Every run of round steps from a deal is short (at most 52 steps) and, once
/// no step can follow, stands at the end of the round: legal play always
/// finishes a round, after exactly 13 trick closings with both hands empty.
pub proof fn lemma_round_runs_end(ss: Seq<StateModel>)
    requires
        ss.len() >= 1,
        ss[0].round_ok(),
        ss[0].phase == Phase::Playing,
        ss[0].trick_num == 1,
        ss[0].human_hand.len() == 13,
        ss[0].bot_hand.len() == 13,
        forall|i: int| 0 <= i < ss.len() - 1 ==> #[trigger] round_step(ss[i], ss[i + 1]),
    ensures
        ss.len() <= 53,
        ss.last().round_ok(),
        ss.last().phase == Phase::Playing || ss.last().phase == Phase::TrickComplete
            || ss.last().phase == Phase::RoundOver,
        ss.last().phase != Phase::Playing && ss.last().phase != Phase::TrickComplete ==> {
            &&& ss.last().phase == Phase::RoundOver
            &&& closings(ss) == TRICKS_PER_ROUND
            &&& ss.last().tricks(Player::Human) + ss.last().tricks(Player::Bot) == TRICKS_PER_ROUND
            &&& ss.last().human_hand.len() == 0
            &&& ss.last().bot_hand.len() == 0
        },
{
    let n = ss.len() as int;
    lemma_round_run_measure(ss, n - 1);
    if ss.last().phase != Phase::Playing && ss.last().phase != Phase::TrickComplete {
        lemma_round_closes_13_tricks(ss);
    }
}

/// Along round steps from a deal, the `k`-th state is well formed, is a
/// decision, a completed trick or the round's end, and has at most 52 - k
/// left of the round.
proof fn lemma_round_run_measure(ss: Seq<StateModel>, k: int)
    requires
        0 <= k < ss.len(),
        ss[0].round_ok(),
        ss[0].phase == Phase::Playing,
        ss[0].human_hand.len() == 13,
        ss[0].bot_hand.len() == 13,
        forall|i: int| 0 <= i < ss.len() - 1 ==> #[trigger] round_step(ss[i], ss[i + 1]),
    ensures
        ss[k].round_ok(),
        ss[k].phase == Phase::Playing || ss[k].phase == Phase::TrickComplete || ss[k].phase
            == Phase::RoundOver,
        0 <= round_measure(ss[k]) <= 52 - k,
    decreases k,
{
    if k > 0 {
        lemma_round_run_measure(ss, k - 1);
        let j = k - 1;
        assert(round_step(ss[j], ss[j + 1]));
        lemma_round_step_decreases(ss[j], ss[j + 1]);
    }
}

/// Who takes a trick: within one suit (trump or not) the follower takes it
/// exactly with the higher rank; a follower off the led suit takes it exactly
/// when it plays trump.
pub proof fn lemma_trick_winner_rules(led: Card, follow: Card, trump: u8)
    ensures
        led.suit == follow.suit ==> (spec_trick_winner(led, follow, trump) == Side::Follow
            <==> follow.rank > led.rank),
        led.suit != follow.suit ==> (spec_trick_winner(led, follow, trump) == Side::Follow
            <==> follow.suit == trump),
{
}

/// In play, the seat credited with a completed trick and leading the next is
/// the one whose card wins by those rules.
pub proof fn lemma_follow_credits_winner(s: StateModel, card: Card)
    requires
        s.phase == Phase::Playing,
        s.led_card is Some,
        s.awaiting is Some,
    ensures
        ({
            let led = s.led_card.unwrap();
            let follower = s.awaiting.unwrap();
            let w = if (led.suit == card.suit && card.rank > led.rank) || (led.suit != card.suit
                && card.suit == s.trump.suit) {
                follower
            } else {
                s.leader
            };
            &&& s.after_play(card).leader == w
            &&& s.after_play(card).tricks_won == s.tricks_won.update(w.seat(), (s.tricks(w) + 1) as u32)
        }),
{
    lemma_trick_winner_rules(s.led_card.unwrap(), card, s.trump.suit);
}

} // verus!
