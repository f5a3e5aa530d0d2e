//! Driving a match between decisions, and the laws of a whole match: every
//! round awards at least 6 points, so a match to 21 lasts at most 7 rounds and
//! at most 181 moves are made before any decision.

use rand::rngs::StdRng;
use vstd::prelude::*;

use crate::chance::random_index_upto;
use crate::determinize::known_cards_valid;
use crate::encode::{
    cards_valid, encodable, hot_card, led_ok, legal_mask, lemma_canon_index_roundtrip,
    spec_canon_index, spec_legal_mask, HIST_TOKENS,
};
use crate::mcts::{lemma_round_over_outcome_agrees, spec_round_over_outcome};
use crate::pipeline::N_BUCKETS;
use crate::round_laws::{
    lemma_closing_state, lemma_deal_round_ok, lemma_match_end_keeps_round_ok,
    lemma_play_keeps_round_ok, lemma_playing_state, lemma_round_points,
    lemma_trick_keeps_round_ok,
};
use crate::rules::{
    score_for_tricks, Card, Phase, Player, State, StateModel, NUM_CARDS, NUM_SUITS, TARGET_SCORE,
};
use crate::world_laws::lemma_unseen_count;

verus! {

/// A state reached by playing a match by the rules: a well-formed round; while
/// the match goes on, both seats are below the target and every finished round
/// added at least 6 points; once it is over, a seat has reached the target.
pub open spec fn match_ok(s: StateModel) -> bool {
    &&& s.round_ok()
    &&& 1 <= s.round_num
    &&& s.phase != Phase::MatchOver ==> {
        &&& s.points(Player::Human) < TARGET_SCORE
        &&& s.points(Player::Bot) < TARGET_SCORE
        &&& 6 * (s.round_num - 1) <= s.points(Player::Human) + s.points(Player::Bot)
    }
    &&& s.phase == Phase::MatchOver ==> s.points(Player::Human) >= TARGET_SCORE || s.points(
        Player::Bot,
    ) >= TARGET_SCORE
}

/// `t` is what scoring the finished round `s` gives: the match over with the new
/// score, or the next round dealt from a shuffled deck with the new score.
pub open spec fn round_closed(s: StateModel, t: StateModel) -> bool {
    if s.round_ends_match() {
        t == (StateModel {
            score: s.score_after_round(),
            awaiting: None,
            phase: Phase::MatchOver,
            ..s
        })
    } else {
        exists|deck: Seq<Card>|
            #[trigger] State::is_shuffled_deck(deck) && State::is_deal_of(
                t,
                (s.round_num + 1) as u32,
                s.score_after_round(),
                deck,
            )
    }
}

/// `t` is where driving `s` to the next decision lands: a completed trick is
/// closed, and a finished round is scored.
pub open spec fn advanced(s: StateModel, t: StateModel) -> bool {
    let m = s.settled();
    if m.phase == Phase::RoundOver {
        round_closed(m, t)
    } else {
        t == m
    }
}

/// The counters that driving `s` to the next decision adds to stay within
/// range.
pub open spec fn can_advance(s: StateModel) -> bool {
    let m = s.settled();
    &&& s.phase == Phase::TrickComplete ==> s.trick_num < u32::MAX
    &&& m.phase == Phase::RoundOver ==> {
        &&& m.points_after_round(Player::Human) <= u32::MAX
        &&& m.points_after_round(Player::Bot) <= u32::MAX
        &&& !m.round_ends_match() ==> m.round_num < u32::MAX
    }
}

impl State {
    /// Drive the match from a just-played state to the next decision: close a
    /// completed trick, score a finished round (dealing the next one or ending
    /// the match). Returns the seat to move, or `None` once the match is over.
    pub fn advance_to_decision(&mut self, rng: &mut StdRng) -> (mover: Option<Player>)
        requires
            can_advance(old(self)@),
        ensures
            advanced(old(self)@, final(self)@),
            final(self).phase == Phase::Playing || final(self).phase == Phase::MatchOver,
            mover == (if final(self).phase == Phase::Playing {
                final(self).awaiting
            } else {
                None
            }),
    {
        self.settle();
        if self.phase == Phase::RoundOver {
            self.end_round(rng);
            proof {
                let m = old(self)@.settled();
                if !m.round_ends_match() {
                    let deck = choose|deck: Seq<Card>|
                        #[trigger] State::is_shuffled_deck(deck) && State::is_deal_of(
                            self@,
                            (m.round_num + 1) as u32,
                            m.score_after_round(),
                            deck,
                        );
                    assert(self.phase == Phase::Playing);
                }
            }
        }
        match self.phase {
            Phase::Playing => self.awaiting,
            _ => None,
        }
    }
}

/// A new match (round 1, 0-0, dealt from a shuffled deck) is a match state.
pub proof fn lemma_new_match_ok(s: StateModel, deck: Seq<Card>)
    requires
        State::is_shuffled_deck(deck),
        State::is_deal_of(s, 1, seq![0u32, 0u32], deck),
    ensures
        match_ok(s),
{
    lemma_deal_round_ok(s, 1, seq![0u32, 0u32], deck);
}

/// Playing a card of the hand keeps a match state a match state.
pub proof fn lemma_play_keeps_match_ok(s: StateModel, card: Card)
    requires
        match_ok(s),
        s.phase == Phase::Playing,
        s.hand(s.awaiting.unwrap()).contains(card),
    ensures
        match_ok(s.after_play(card)),
{
    lemma_play_keeps_round_ok(s, card);
}

/// From every match state the match can be driven to its next decision
/// without a counter overflowing.
pub proof fn lemma_match_ok_can_advance(s: StateModel)
    requires
        match_ok(s),
    ensures
        can_advance(s),
{
    if s.phase == Phase::TrickComplete {
        lemma_closing_state(s);
        lemma_trick_keeps_round_ok(s);
    }
    let m = s.settled();
    if m.phase == Phase::RoundOver {
        lemma_closing_state(m);
        assert(m.points(Player::Human) < TARGET_SCORE);
        assert(m.round_num <= 7) by {
            assert(6 * (m.round_num - 1) <= 40);
        }
    }
}

/// Driving a match state to its next decision gives a match state: a new
/// round's score stays below the target and has grown by at least 6 points,
/// and a match that ends has a seat at the target.
pub proof fn lemma_advance_keeps_match_ok(s: StateModel, t: StateModel)
    requires
        match_ok(s),
        advanced(s, t),
    ensures
        match_ok(t),
        t.phase == Phase::Playing ==> t.awaiting is Some,
{
    if s.phase == Phase::TrickComplete {
        lemma_closing_state(s);
        lemma_trick_keeps_round_ok(s);
    }
    let m = s.settled();
    assert(match_ok(m));
    if m.phase == Phase::RoundOver {
        lemma_closing_state(m);
        lemma_round_points(m.tricks(Player::Human), m.tricks(Player::Bot));
        if m.round_ends_match() {
            lemma_match_end_keeps_round_ok(m);
        } else {
            let deck = choose|deck: Seq<Card>|
                #[trigger] State::is_shuffled_deck(deck) && State::is_deal_of(
                    t,
                    (m.round_num + 1) as u32,
                    m.score_after_round(),
                    deck,
                );
            assert(m.round_num <= 7) by {
                assert(6 * (m.round_num - 1) <= 40);
            }
            lemma_deal_round_ok(t, (m.round_num + 1) as u32, m.score_after_round(), deck);
        }
    }
}

/// A match lasts at most 7 rounds: every round awards at least 6 points, and
/// 7 rounds' worth would put a seat at 21. So a game at a decision has made at
/// most 6 * 26 + 25 = 181 moves, a key of the ply-bucketed queue.
pub proof fn lemma_match_length(s: StateModel)
    requires
        match_ok(s),
        s.phase != Phase::MatchOver,
    ensures
        s.round_num <= 7,
        s.phase == Phase::Playing ==> 26 * (s.round_num - 1) + s.trick_history.len() < N_BUCKETS,
{
    assert(6 * (s.round_num - 1) <= 40);
}

/// At every decision of a round, each seat's view can be encoded: its hand,
/// the history and the trump are cards of the deck, the history fits the token
/// block, and a led card is a card of the deck.
pub proof fn lemma_decision_encodable(s: StateModel, p: Player)
    requires
        s.round_ok(),
        s.phase == Phase::Playing,
    ensures
        encodable(s, p, 13),
        cards_valid(s.hand(p)),
        known_cards_valid(s, p),
        s.trick_history.len() <= HIST_TOKENS,
        led_ok(s),
{
    lemma_unseen_count(s, p);
    match s.led_card {
        None => {},
        Some(l) => {
            assert(s.trick_history[s.trick_history.len() - 1].card == l);
        },
    }
}

/// Selects the slots marked legal in `mover`'s legal mask.
pub open spec fn is_legal_slot(s: StateModel, mover: Player) -> spec_fn(usize) -> bool {
    |j: usize| spec_legal_mask(s, mover)[j as int] == 1
}

/// The canonical slots legal for `mover`, in ascending order.
pub open spec fn spec_legal_slots(s: StateModel, mover: Player) -> Seq<usize> {
    Seq::new(NUM_CARDS as nat, |j: int| j as usize).filter(is_legal_slot(s, mover))
}

/// Every listed slot is a slot of the deck marked legal, and every slot
/// marked legal is listed.
pub proof fn lemma_legal_slots(s: StateModel, mover: Player)
    ensures
        forall|k: int|
            0 <= k < spec_legal_slots(s, mover).len() ==> #[trigger] spec_legal_slots(s, mover)[k]
                < NUM_CARDS && spec_legal_mask(s, mover)[spec_legal_slots(s, mover)[k] as int] == 1,
        forall|j: int|
            0 <= j < NUM_CARDS && spec_legal_mask(s, mover)[j] == 1 ==> spec_legal_slots(
                s,
                mover,
            ).contains(j as usize),
{
    let all = Seq::new(NUM_CARDS as nat, |j: int| j as usize);
    let p = is_legal_slot(s, mover);
    assert forall|k: int| 0 <= k < spec_legal_slots(s, mover).len() implies #[trigger] spec_legal_slots(
        s,
        mover,
    )[k] < NUM_CARDS && spec_legal_mask(s, mover)[spec_legal_slots(s, mover)[k] as int] == 1 by {
        all.lemma_filter_pred(p, k);
        all.lemma_filter_contains_rev(p, spec_legal_slots(s, mover)[k]);
    }
    assert forall|j: int| 0 <= j < NUM_CARDS && spec_legal_mask(s, mover)[j] == 1 implies spec_legal_slots(
        s,
        mover,
    ).contains(j as usize) by {
        all.lemma_filter_contains(p, j);
    }
}

/// The legal slots of `mover`, in ascending order.
fn legal_slots(state: &State, mover: Player) -> (out: Vec<usize>)
    requires
        cards_valid(state@.hand(mover)),
        state.trump.suit < NUM_SUITS,
    ensures
        out@ == spec_legal_slots(state@, mover),
{
    let mask = legal_mask(state, mover);
    let ghost all = Seq::new(NUM_CARDS as nat, |j: int| j as usize);
    let ghost p = is_legal_slot(state@, mover);
    let mut out: Vec<usize> = Vec::new();
    let mut j: usize = 0;
    while j < NUM_CARDS
        invariant
            j <= NUM_CARDS,
            mask@ == spec_legal_mask(state@, mover),
            all == Seq::new(NUM_CARDS as nat, |j: int| j as usize),
            p == is_legal_slot(state@, mover),
            out@ == all.take(j as int).filter(p),
        decreases NUM_CARDS - j,
    {
        proof {
            reveal_with_fuel(Seq::<_>::filter, 1);
            assert(all.take(j + 1).drop_last() =~= all.take(j as int));
            assert(all.take(j + 1).last() == j);
        }
        if mask[j] == 1 {
            out.push(j);
        }
        j = j + 1;
    }
    assert(all.take(NUM_CARDS as int) =~= all);
    out
}

/// The `k`-th legal slot of `mover`, counting in ascending slot order.
pub fn legal_slot_at(state: &State, mover: Player, k: usize) -> (slot: usize)
    requires
        cards_valid(state@.hand(mover)),
        state.trump.suit < NUM_SUITS,
        k < spec_legal_slots(state@, mover).len(),
    ensures
        slot == spec_legal_slots(state@, mover)[k as int],
{
    let legal = legal_slots(state, mover);
    legal[k]
}

/// The random player's move: one of `mover`'s legal canonical slots, drawn
/// uniformly from the legal slots listed in slot order (the draw is the index
/// into that list).
pub fn random_legal_slot(state: &State, mover: Player, rng: &mut StdRng) -> (slot: usize)
    requires
        cards_valid(state@.hand(mover)),
        state.trump.suit < NUM_SUITS,
        exists|j: int| 0 <= j < NUM_CARDS && spec_legal_mask(state@, mover)[j] == 1,
    ensures
        exists|k: int|
            0 <= k < spec_legal_slots(state@, mover).len() && slot == #[trigger] spec_legal_slots(
                state@,
                mover,
            )[k],
        slot < NUM_CARDS,
        spec_legal_mask(state@, mover)[slot as int] == 1,
{
    let n = legal_slots(state, mover).len();
    proof {
        lemma_legal_slots(state@, mover);
        let w = choose|i: int| 0 <= i < NUM_CARDS && spec_legal_mask(state@, mover)[i] == 1;
        assert(spec_legal_slots(state@, mover).contains(w as usize));
    }
    let k = random_index_upto(rng, n - 1);
    let slot = legal_slot_at(state, mover, k);
    proof {
        assert(spec_legal_slots(state@, mover)[k as int] == slot);
    }
    slot
}

/// At every decision of a round the seat to move has a legal slot, so the
/// random player always has a move to draw.
pub proof fn lemma_decision_has_legal_slot(s: StateModel)
    requires
        s.round_ok(),
        s.phase == Phase::Playing,
    ensures
        exists|j: int| 0 <= j < NUM_CARDS && spec_legal_mask(s, s.awaiting.unwrap())[j] == 1,
{
    let p = s.awaiting.unwrap();
    let c = s.legal()[0];
    lemma_playing_state(s, c);
    lemma_decision_encodable(s, p);
    assert(s.legal().contains(c));
    assert(s.hand(p).contains(c));
    assert(c.valid());
    lemma_canon_index_roundtrip(c, s.trump.suit);
    let j = spec_canon_index(c, s.trump.suit);
    assert(hot_card(s.legal(), s.trump.suit, j)) by {
        assert(spec_canon_index(s.legal()[0], s.trump.suit) == j);
    }
    assert(spec_legal_mask(s, p)[j] == 1);
}

/// The seat that scored more points in the finished round; on equal points
/// (which a finished round never has) `Bot`.
pub open spec fn spec_round_winner(s: StateModel) -> Player {
    if s.round_points(Player::Human) > s.round_points(Player::Bot) {
        Player::Human
    } else {
        Player::Bot
    }
}

/// The seat that scored more points this round: the label a finished round's
/// decisions are scored by when the round does not decide the match.
pub fn round_winner(state: &State) -> (w: Player)
    ensures
        w == spec_round_winner(state@),
{
    let hp = score_for_tricks(state.tricks_won[Player::Human.idx()]);
    let bp = score_for_tricks(state.tricks_won[Player::Bot.idx()]);
    if hp > bp {
        Player::Human
    } else {
        Player::Bot
    }
}

/// In a finished round the round's winner scored strictly more than the other
/// seat.
pub proof fn lemma_round_winner_strict(s: StateModel)
    requires
        s.round_ok(),
        s.phase == Phase::RoundOver,
    ensures
        s.round_points(spec_round_winner(s)) > s.round_points(spec_round_winner(s).opp()),
{
    lemma_round_points(s.tricks(Player::Human), s.tricks(Player::Bot));
}

/// In every finished round of a match, reading the outcome agrees with scoring
/// the round: a winner is named exactly when scoring ends the match, and it is
/// the finished match's winner. (Off match states, a total past the 32-bit
/// range makes scoring itself overflow.)
pub proof fn lemma_round_over_outcome_in_play(s: StateModel)
    requires
        match_ok(s),
        s.phase == Phase::RoundOver,
    ensures
        spec_round_over_outcome(s) == (if s.round_ends_match() {
            (StateModel {
                score: s.score_after_round(),
                awaiting: None,
                phase: Phase::MatchOver,
                ..s
            }).winner()
        } else {
            None
        }),
{
    lemma_match_ok_can_advance(s);
    lemma_round_over_outcome_agrees(s);
}

} // verus!
