//! The rules side of information-set search: which canonical moves a node
//! offers, who moves after a move, how a round-ending path is scored, and one
//! verified descent step through a determinized world. Visit statistics and
//! move selection (floating point) live with the caller.

use vstd::prelude::*;

use crate::determinize::{known_cards_valid, spec_unseen, unseen_cards};
use crate::encode::{
    canon_card_index, canon_index_defined, cards_valid, lemma_canon_index_roundtrip,
    real_card_from_canon_index, spec_canon_index, spec_real_card,
};
use crate::round_laws::{lemma_closing_state, lemma_play_keeps_round_ok, lemma_playing_state, lemma_trick_keeps_round_ok};
use crate::rules::{
    legal_moves, score_for_tricks, spec_legal_moves, spec_trick_winner,
    trick_winner, Card, Phase, Player, Side, State, StateModel, TARGET_SCORE,
    TRICKS_PER_ROUND,
};

verus! {

/// Canonical indices of a sequence of cards.
pub open spec fn canon_of(cards: Seq<Card>, trump: u8) -> Seq<usize> {
    cards.map_values(|c: Card| spec_canon_index(c, trump) as usize)
}

/// Canonical indices of a slice of cards, in order.
fn canon_indices(cards: &[Card], trump: u8) -> (out: Vec<usize>)
    requires
        cards_valid(cards@),
        trump < 3,
    ensures
        out@ == canon_of(cards@, trump),
{
    let mut out: Vec<usize> = Vec::with_capacity(cards.len());
    let mut i: usize = 0;
    while i < cards.len()
        invariant
            i <= cards@.len(),
            cards_valid(cards@),
            trump < 3,
            out@ == canon_of(cards@.take(i as int), trump),
        decreases cards@.len() - i,
    {
        assert(cards@[i as int].valid());
        proof {
            lemma_canon_index_roundtrip(cards@[i as int], trump);
        }
        out.push(canon_card_index(cards[i], trump));
        i = i + 1;
        assert(out@ =~= canon_of(cards@.take(i as int), trump));
    }
    assert(cards@.take(cards@.len() as int) =~= cards@);
    out
}

/// Canonical indices legal for `mover` in `state` right now (this
/// determinization).
pub fn legal_canon(state: &State, mover: Player) -> (out: Vec<usize>)
    requires
        cards_valid(state@.hand(mover)),
        state.trump.valid(),
    ensures
        out@ == canon_of(spec_legal_moves(state@.hand(mover), state.led_card), state.trump.suit),
{
    let legal = legal_moves(state.hand(mover), state.led_card);
    proof {
        lemma_legal_valid(state@.hand(mover), state.led_card);
    }
    canon_indices(legal.as_slice(), state.trump.suit)
}

/// Legal moves are cards of the hand.
pub proof fn lemma_legal_valid(hand: Seq<Card>, led_card: Option<Card>)
    requires
        cards_valid(hand),
    ensures
        cards_valid(spec_legal_moves(hand, led_card)),
        forall|c: Card| #[trigger] spec_legal_moves(hand, led_card).contains(c) ==> hand.contains(c),
{
    let l = spec_legal_moves(hand, led_card);
    assert forall|c: Card| #[trigger] l.contains(c) implies hand.contains(c) by {
        match led_card {
            None => {},
            Some(led) => {
                if hand.filter(crate::rules::of_suit(led.suit)).len() > 0 {
                    hand.lemma_filter_contains_rev(crate::rules::of_suit(led.suit), c);
                }
            },
        }
    }
    assert forall|m: int| 0 <= m < l.len() implies (#[trigger] l[m]).valid() by {
        assert(l.contains(l[m]));
    }
}

/// A legal move is a card of the hand.
pub proof fn lemma_legal_valid_contains(hand: Seq<Card>, led_card: Option<Card>, c: Card)
    requires
        spec_legal_moves(hand, led_card).contains(c),
    ensures
        hand.contains(c),
{
    match led_card {
        None => {},
        Some(led) => {
            if hand.filter(crate::rules::of_suit(led.suit)).len() > 0 {
                hand.lemma_filter_contains_rev(crate::rules::of_suit(led.suit), c);
            }
        },
    }
}

/// The moves a node offers, independent of the determinization: the searcher's
/// own legal moves at its nodes; every unseen card at the opponent's nodes (a
/// determinization that makes the opponent void may let it play off-suit).
pub open spec fn spec_potential(s: StateModel, mover: Player, searcher: Player) -> Seq<Card> {
    if mover == searcher {
        spec_legal_moves(s.hand(searcher), s.led_card)
    } else {
        spec_unseen(s, searcher)
    }
}

/// Determinization-independent potential child set at a node, as canonical
/// indices.
pub fn potential_canon(state: &State, mover: Player, searcher: Player) -> (out: Vec<usize>)
    requires
        known_cards_valid(state@, searcher),
    ensures
        out@ == canon_of(spec_potential(state@, mover, searcher), state.trump.suit),
{
    proof {
        assert(cards_valid(state@.hand(searcher))) by {
            assert forall|m: int| 0 <= m < state@.hand(searcher).len() implies (#[trigger] state@.hand(searcher)[m]).valid() by {}
        }
        lemma_legal_valid(state@.hand(searcher), state.led_card);
    }
    if mover == searcher {
        let legal = legal_moves(state.hand(searcher), state.led_card);
        canon_indices(legal.as_slice(), state.trump.suit)
    } else {
        let unseen = unseen_cards(state, searcher);
        proof {
            assert forall|m: int| 0 <= m < unseen@.len() implies (#[trigger] unseen@[m]).valid() by {
                let u = unseen@;
                crate::rules::full_deck().lemma_filter_contains_rev(
                    crate::determinize::unseen_by(state@, searcher),
                    u[m],
                );
                let i = choose|i: int| 0 <= i < crate::rules::full_deck().len() && crate::rules::full_deck()[i] == u[m];
                crate::rules::lemma_of_id_roundtrip(i);
            }
        }
        canon_indices(unseen.as_slice(), state.trump.suit)
    }
}

/// Seat to move after `mover` plays canonical card `canon`: after a lead the
/// other seat follows; after a follow the trick's taker leads, except that the
/// last follow of the round ends it (the mover is then only a placeholder).
pub open spec fn spec_child_mover(s: StateModel, canon: int, mover: Player) -> Player {
    match s.led_card {
        None => mover.opp(),
        Some(led) => if s.trick_num == TRICKS_PER_ROUND {
            mover
        } else {
            match spec_trick_winner(led, spec_real_card(canon, s.trump.suit), s.trump.suit) {
                Side::Lead => s.leader,
                Side::Follow => mover,
            }
        },
    }
}

/// Seat to move after `mover` plays `canon` from `state`.
pub fn child_mover_after(state: &State, canon: usize, mover: Player) -> (p: Player)
    requires
        state.led_card is Some && state.trick_num != TRICKS_PER_ROUND ==> canon_index_defined(
            canon as int,
            state.trump.suit,
        ),
    ensures
        p == spec_child_mover(state@, canon as int, mover),
{
    match state.led_card {
        None => mover.other(),
        Some(led) => {
            if state.trick_num == TRICKS_PER_ROUND {
                mover
            } else {
                let card = real_card_from_canon_index(canon, state.trump.suit);
                match trick_winner(led, card, state.trump.suit) {
                    Side::Lead => state.leader,
                    Side::Follow => mover,
                }
            }
        },
    }
}

/// Match winner if this round's points end the match (the higher new total; a
/// tie goes to the seat with more points this round, else `Bot`), `None` when
/// the match goes on. Read-only: no deal, no random draw.
pub open spec fn spec_round_over_outcome(s: StateModel) -> Option<Player> {
    let hl = s.round_points(Player::Human);
    let bl = s.round_points(Player::Bot);
    let nh = s.points_after_round(Player::Human);
    let nb = s.points_after_round(Player::Bot);
    if nh >= TARGET_SCORE || nb >= TARGET_SCORE {
        if nh > nb {
            Some(Player::Human)
        } else if nb > nh {
            Some(Player::Bot)
        } else if hl > bl {
            Some(Player::Human)
        } else {
            Some(Player::Bot)
        }
    } else {
        None
    }
}

/// Match winner if a finished round ends the match, else `None`.
pub fn round_over_outcome(state: &State) -> (w: Option<Player>)
    requires
        state@.points_after_round(Player::Human) <= u32::MAX,
        state@.points_after_round(Player::Bot) <= u32::MAX,
    ensures
        w == spec_round_over_outcome(state@),
{
    let hl = score_for_tricks(state.tricks_won[Player::Human.idx()]);
    let bl = score_for_tricks(state.tricks_won[Player::Bot.idx()]);
    let nh = state.score[Player::Human.idx()] + hl;
    let nb = state.score[Player::Bot.idx()] + bl;
    if nh >= TARGET_SCORE || nb >= TARGET_SCORE {
        if nh > nb {
            Some(Player::Human)
        } else if nb > nh {
            Some(Player::Bot)
        } else if hl > bl {
            Some(Player::Human)
        } else {
            Some(Player::Bot)
        }
    } else {
        None
    }
}

/// Reading a finished round's outcome agrees with scoring it: it names a winner
/// exactly when scoring the round ends the match, and that winner is the
/// finished match's winner.
pub proof fn lemma_round_over_outcome_agrees(s: StateModel)
    requires
        s.score.len() == 2,
        s.points_after_round(Player::Human) <= u32::MAX,
        s.points_after_round(Player::Bot) <= u32::MAX,
    ensures
        spec_round_over_outcome(s) == (if s.round_ends_match() {
            (StateModel {
                score: s.score_after_round(),
                awaiting: None,
                phase: Phase::MatchOver,
                ..s
            }).winner()
        } else {
            None
        }),
{
}


/// Where one step of a descent through a determinized world lands.
pub enum Descent {
    /// The next decision, for this seat.
    Decide(Player),
    /// The round ended and ended the match; this seat won it.
    MatchDecided(Player),
    /// The round ended without ending the match: the state just before the
    /// round-ending move and the seat that made it, to be evaluated under this
    /// determinization.
    Boundary(State, Player),
}

/// Play canonical card `canon` for the seat to move in a determinized world,
/// settle a completed trick, and report where the descent stands.
pub fn descend(det: &mut State, canon: usize) -> (d: Descent)
    requires
        old(det)@.round_ok(),
        old(det).phase == Phase::Playing,
        canon_index_defined(canon as int, old(det).trump.suit),
        old(det)@.hand(old(det).awaiting.unwrap()).contains(spec_real_card(canon as int, old(det).trump.suit)),
        old(det)@.points(Player::Human) + 6 <= u32::MAX,
        old(det)@.points(Player::Bot) + 6 <= u32::MAX,
    ensures
        final(det)@ == old(det)@.after_play(spec_real_card(canon as int, old(det).trump.suit)).settled(),
        final(det)@.round_ok(),
        match d {
            Descent::Decide(p) => final(det).phase == Phase::Playing && final(det).awaiting == Some(p),
            Descent::MatchDecided(w) => final(det).phase == Phase::RoundOver
                && spec_round_over_outcome(final(det)@) == Some(w),
            Descent::Boundary(pre, m) => final(det).phase == Phase::RoundOver
                && spec_round_over_outcome(final(det)@) is None && pre@ == old(det)@ && m == old(det).awaiting.unwrap(),
        },
{
    let ghost s0 = det@;
    let mover = det.awaiting.unwrap();
    let card = real_card_from_canon_index(canon, det.trump.suit);
    let pre_move = if det.trick_num == TRICKS_PER_ROUND && det.led_card.is_some() {
        Some(det.duplicate())
    } else {
        None
    };
    proof {
        lemma_playing_state(s0, card);
        lemma_play_keeps_round_ok(s0, card);
    }
    det.apply(card);
    proof {
        if det.phase == Phase::TrickComplete {
            lemma_closing_state(det@);
            lemma_trick_keeps_round_ok(det@);
        }
    }
    det.settle();
    match det.phase {
        Phase::Playing => Descent::Decide(det.awaiting.unwrap()),
        _ => {
            proof {
                lemma_closing_state(det@);
            }
            match round_over_outcome(det) {
                Some(w) => Descent::MatchDecided(w),
                None => Descent::Boundary(pre_move.unwrap(), mover),
            }
        },
    }
}

} // verus!
