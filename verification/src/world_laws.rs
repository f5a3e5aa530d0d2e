//! Laws of hidden worlds: in every position reached by play, the cards the
//! searcher cannot see are exactly the opponent's hand plus the 6 unused
//! cards, and (with legal play) the opponent holds no card of a suit it has
//! shown void in, so a constraint-aware redeal always succeeds.

use vstd::multiset::Multiset;
use vstd::prelude::*;

use crate::cross_search::{pair_void, pool_of, spec_pool, spec_voided_suits};
use crate::determinize::{
    known_cards_valid, not_void, redealable, seen_by, spec_belief_target, spec_free,
    spec_forced_unused, spec_unseen, unseen_by,
};
use crate::encode::{
    lemma_real_card_roundtrip, run_end, shows_void, spec_real_card, spec_voids, void_shown_at,
};
use crate::match_play::advanced;
use crate::mcts::spec_potential;
use crate::round_laws::lemma_full_deck;
use crate::rules::{
    first_index, full_deck, lemma_first_index_exists, of_suit, played_cards, spec_legal_moves,
    Card, Phase, PlayEvent, Player, State, StateModel, NUM_CARDS, NUM_SUITS,
};

verus! {

broadcast use {vstd::multiset::group_multiset_axioms, vstd::seq_lib::group_to_multiset_ensures};

/// Filtering a sequence filters its multiset.
pub proof fn lemma_filter_multiset<A>(s: Seq<A>, p: spec_fn(A) -> bool)
    ensures
        s.filter(p).to_multiset() =~= s.to_multiset().filter(p),
    decreases s.len(),
{
    reveal(Seq::filter);
    if s.len() > 0 {
        lemma_filter_multiset(s.drop_last(), p);
        assert(s =~= s.drop_last().push(s.last()));
    }
}

/// What the searcher knows: its hand, the cards played this round, the trump.
pub open spec fn known_cards(s: StateModel, searcher: Player) -> Seq<Card> {
    s.hand(searcher) + played_cards(s.trick_history) + seq![s.trump]
}

/// A well-shaped round holds 27 cards: both hands, the history, the trump.
pub proof fn lemma_pool_size(s: StateModel)
    requires
        s.shape_ok(),
    ensures
        s.human_hand.len() + s.bot_hand.len() + s.trick_history.len() == 26,
{
    match s.phase {
        Phase::Playing => match s.led_card {
            None => {},
            Some(l) => match s.leader {
                Player::Human => {},
                Player::Bot => {},
            },
        },
        _ => {},
    }
}

/// The searcher's knowledge and the opponent's hand make up the state's cards,
/// and the searcher sees a card exactly when it is among what it knows.
pub proof fn lemma_known_split(s: StateModel, searcher: Player)
    ensures
        s.card_pool() =~= known_cards(s, searcher).to_multiset().add(s.hand(searcher.opp()).to_multiset()),
        forall|c: Card| #[trigger] seen_by(s, searcher, c) <==> known_cards(s, searcher).to_multiset().count(c) > 0,
        known_cards(s, searcher).len() == s.hand(searcher).len() + s.trick_history.len() + 1,
{
    broadcast use vstd::seq_lib::lemma_multiset_commutative;

    let h = s.hand(searcher);
    let p = played_cards(s.trick_history);
    let t = seq![s.trump];
    assert(t =~= Seq::<Card>::empty().push(s.trump));
    assert(t.to_multiset() =~= Multiset::<Card>::empty().insert(s.trump));
    assert(known_cards(s, searcher).to_multiset() =~= h.to_multiset().add(p.to_multiset()).add(
        t.to_multiset(),
    ));
    match searcher {
        Player::Human => {},
        Player::Bot => {},
    }
}

/// In a well-formed state the searcher cannot see exactly 6 cards besides the
/// opponent's hand, and every card of that hand is among the unseen ones.
pub proof fn lemma_unseen_count(s: StateModel, searcher: Player)
    requires
        s.round_ok(),
    ensures
        spec_unseen(s, searcher).len() == s.hand(searcher.opp()).len() + 6,
        s.hand(searcher.opp()).to_multiset().subset_of(spec_unseen(s, searcher).to_multiset()),
        known_cards_valid(s, searcher),
{
    let k = known_cards(s, searcher);
    let u = spec_unseen(s, searcher);
    let opp = s.hand(searcher.opp());
    lemma_full_deck();
    lemma_known_split(s, searcher);
    lemma_pool_size(s);
    lemma_filter_multiset(full_deck(), unseen_by(s, searcher));
    assert forall|c: Card| #[trigger] k.to_multiset().count(c) > 0 implies c.valid()
        && k.to_multiset().count(c) == 1 by {
        assert(s.card_pool().count(c) > 0);
    }
    assert(u.to_multiset().add(k.to_multiset()) =~= full_deck().to_multiset()) by {
        assert forall|c: Card| #[trigger] u.to_multiset().add(k.to_multiset()).count(c)
            == full_deck().to_multiset().count(c) by {
            if c.valid() {
                assert(full_deck().contains(c));
            }
        }
    }
    assert(full_deck().to_multiset().len() == full_deck().len());
    assert(u.to_multiset().add(k.to_multiset()).len() == u.to_multiset().len() + k.to_multiset().len());
    assert(u.to_multiset().len() + k.to_multiset().len() == 33);
    assert(s.hand(searcher).len() + opp.len() + s.trick_history.len() == 26) by {
        match searcher {
            Player::Human => {},
            Player::Bot => {},
        }
    }
    assert forall|c: Card| #[trigger] opp.to_multiset().count(c) <= u.to_multiset().count(c) by {
        if opp.to_multiset().count(c) > 0 {
            assert(s.card_pool().count(c) > 0);
            assert(k.to_multiset().count(c) == 0);
            assert(full_deck().contains(c));
        }
    }
    assert forall|m: int| 0 <= m < s.hand(searcher).len() implies (#[trigger] s.hand(searcher)[m]).valid() by {
        assert(k[m] == s.hand(searcher)[m]);
        assert(k.to_multiset().count(k[m]) > 0);
    }
    assert forall|m: int| 0 <= m < s.trick_history.len() implies (#[trigger] s.trick_history[m]).card.valid() by {
        let i = s.hand(searcher).len() + m;
        assert(k[i] == s.trick_history[m].card);
        assert(k.to_multiset().count(k[i]) > 0);
    }
    assert(s.trump.valid()) by {
        let i = k.len() - 1;
        assert(k[i] == s.trump);
        assert(k.to_multiset().count(k[i]) > 0);
    }
}


/// The history is a sequence of tricks: events `2j` and `2j + 1` belong to
/// trick `j + 1`, and the second event of a trick is played by the other seat.
pub open spec fn history_paired(h: Seq<PlayEvent>) -> bool {
    &&& forall|k: int| 0 <= k < h.len() ==> #[trigger] h[k].trick == k / 2 + 1
    &&& forall|k: int|
        0 < k < h.len() && k % 2 == 1 ==> #[trigger] h[k].player == h[k - 1].player.opp()
}

/// In trick `j + 1` of the history, `p` followed a lead of `suit` with another
/// suit.
pub open spec fn followed_off_at(h: Seq<PlayEvent>, p: Player, suit: u8, j: int) -> bool {
    &&& 0 <= j
    &&& 2 * j + 1 < h.len()
    &&& h[2 * j + 1].player == p
    &&& h[2 * j + 1].card.suit != h[2 * j].card.suit
    &&& h[2 * j].card.suit == suit
}

/// `p` followed a lead of `suit` off suit in some trick of the history (from
/// trick `first + 1` on).
pub open spec fn followed_off_from(h: Seq<PlayEvent>, p: Player, suit: u8, first: int) -> bool {
    exists|j: int| first <= j && #[trigger] followed_off_at(h, p, suit, j)
}

/// Every suit a seat has followed off is absent from its hand.
pub open spec fn voids_sound(s: StateModel) -> bool {
    forall|p: Player, suit: u8, c: Card|
        #![trigger followed_off_from(s.trick_history, p, suit, 0), s.hand(p).contains(c)]
        followed_off_from(s.trick_history, p, suit, 0) && s.hand(p).contains(c) ==> c.suit != suit
}

/// The history of a round played by the rules: paired into tricks, and every
/// void it shows is a real one.
pub open spec fn legal_history(s: StateModel) -> bool {
    history_paired(s.trick_history) && voids_sound(s)
}

/// On a history paired into tricks, the grouping by trick number that infers
/// voids reads exactly the (lead, follow) pairs.
#[verifier::rlimit(60)]
#[verifier::spinoff_prover]
pub proof fn lemma_shows_void_pairs(h: Seq<PlayEvent>, p: Player, suit: u8, i: int)
    requires
        history_paired(h),
        0 <= i,
        i % 2 == 0,
    ensures
        shows_void(h, p, suit, i) == followed_off_from(h, p, suit, i / 2),
    decreases h.len() - i,
{
    if i >= h.len() {
        assert(!shows_void(h, p, suit, i));
        if followed_off_from(h, p, suit, i / 2) {
            let j = choose|j: int| i / 2 <= j && #[trigger] followed_off_at(h, p, suit, j);
        }
    } else {
        let t = h[i].trick;
        if i + 1 < h.len() {
            assert(h[i + 1].trick == t);
            if i + 2 < h.len() {
                assert(h[i + 2].trick == t + 1);
            }
            assert(run_end(h, t, i + 2) == i + 2);
            assert(run_end(h, t, i + 1) == i + 2);
            assert(shows_void(h, p, suit, i) == (void_shown_at(h, p, suit, i) || shows_void(h, p, suit, i + 2)));
            lemma_shows_void_pairs(h, p, suit, i + 2);
            assert(void_shown_at(h, p, suit, i) == followed_off_at(h, p, suit, i / 2));
            if followed_off_from(h, p, suit, i / 2) {
                let j = choose|j: int| i / 2 <= j && #[trigger] followed_off_at(h, p, suit, j);
                if j > i / 2 {
                    assert(followed_off_from(h, p, suit, (i + 2) / 2));
                }
            }
            if followed_off_from(h, p, suit, (i + 2) / 2) {
                let j = choose|j: int| (i + 2) / 2 <= j && #[trigger] followed_off_at(h, p, suit, j);
                assert(followed_off_from(h, p, suit, i / 2));
            }
        } else {
            assert(run_end(h, t, i + 1) == i + 1);
            assert(!void_shown_at(h, p, suit, i));
            assert(!shows_void(h, p, suit, i + 1));
            assert(!shows_void(h, p, suit, i));
            if followed_off_from(h, p, suit, i / 2) {
                let j = choose|j: int| i / 2 <= j && #[trigger] followed_off_at(h, p, suit, j);
            }
        }
    }
}

/// A freshly dealt round has a legal (empty) history.
pub proof fn lemma_empty_history_legal(s: StateModel)
    requires
        s.trick_history.len() == 0,
    ensures
        legal_history(s),
{
    assert forall|p: Player, suit: u8| !followed_off_from(s.trick_history, p, suit, 0) by {
        if followed_off_from(s.trick_history, p, suit, 0) {
            let j = choose|j: int| 0 <= j && #[trigger] followed_off_at(s.trick_history, p, suit, j);
        }
    }
}

/// Playing a card only removes it from the mover's hand: every card left in a
/// hand was there before.
pub proof fn lemma_play_hands_shrink(s: StateModel, card: Card)
    requires
        s.awaiting is Some,
        s.hand(s.awaiting.unwrap()).contains(card),
    ensures
        forall|q: Player, c: Card| #[trigger] s.after_play(card).hand(q).contains(c) ==> s.hand(q).contains(c),
{
    let p = s.awaiting.unwrap();
    let hand = s.hand(p);
    lemma_first_index_exists(hand, card);
    let pos = first_index(hand, card);
    let t = s.after_play(card);
    assert forall|q: Player, c: Card| #[trigger] t.hand(q).contains(c) implies s.hand(q).contains(c) by {
        let m = choose|m: int| 0 <= m < t.hand(q).len() && t.hand(q)[m] == c;
        if q == p {
            if m < pos {
                assert(t.hand(q)[m] == s.hand(q)[m]);
            } else {
                assert(t.hand(q)[m] == s.hand(q)[m + 1]);
            }
        } else {
            assert(t.hand(q)[m] == s.hand(q)[m]);
        }
    }
}

/// Playing a legal card keeps the history legal: the new event extends the
/// pairing, and a follow off the led suit is only legal when the follower holds
/// no card of it.
#[verifier::rlimit(40)]
#[verifier::spinoff_prover]
pub proof fn lemma_play_keeps_legal_history(s: StateModel, card: Card)
    requires
        s.round_ok(),
        s.phase == Phase::Playing,
        legal_history(s),
        s.legal().contains(card),
    ensures
        legal_history(s.after_play(card)),
{
    let p = s.awaiting.unwrap();
    let hand = s.hand(p);
    crate::mcts::lemma_legal_valid_contains(hand, s.led_card, card);
    lemma_first_index_exists(hand, card);
    let pos = first_index(hand, card);
    let t = s.after_play(card);
    let h = s.trick_history;
    let h2 = t.trick_history;
    let ev = PlayEvent { trick: s.trick_num, player: p, card };
    assert(h2 == h.push(ev));
    let len = h.len();
    assert(history_paired(h2)) by {
        match s.led_card {
            None => {},
            Some(l) => {
                assert(h[len - 1] == (PlayEvent { trick: s.trick_num, player: s.leader, card: l }));
            },
        }
    }
    lemma_play_hands_shrink(s, card);
    assert forall|q: Player, suit: u8, c: Card|
        #![trigger followed_off_from(h2, q, suit, 0), t.hand(q).contains(c)]
        followed_off_from(h2, q, suit, 0) && t.hand(q).contains(c) implies c.suit != suit by {
        let j = choose|j: int| 0 <= j && #[trigger] followed_off_at(h2, q, suit, j);
        assert(s.hand(q).contains(c));
        if 2 * j + 1 < len {
            assert(followed_off_at(h, q, suit, j));
            assert(followed_off_from(h, q, suit, 0));
        } else {
            // The new event is the follow of the current trick.
            assert(2 * j + 1 == len);
            let l = s.led_card.unwrap();
            assert(h[len - 1] == (PlayEvent { trick: s.trick_num, player: s.leader, card: l }));
            assert(q == p);
            assert(suit == l.suit);
            assert(card.suit != l.suit);
            let same = hand.filter(of_suit(l.suit));
            if same.len() > 0 {
                assert(spec_legal_moves(hand, s.led_card) == same);
                same.lemma_filter_contains_rev(of_suit(l.suit), card);
                assert(same.contains(card));
                let k = choose|k: int| 0 <= k < same.len() && same[k] == card;
                hand.lemma_filter_pred(of_suit(l.suit), k);
            }
            if c.suit == suit {
                let m0 = choose|m0: int| 0 <= m0 < hand.len() && hand[m0] == c;
                hand.lemma_filter_contains(of_suit(l.suit), m0);
            }
        }
    }
}


/// Closing a trick keeps the history legal: nothing it reads changes.
pub proof fn lemma_trick_keeps_legal_history(s: StateModel)
    requires
        legal_history(s),
    ensures
        legal_history(s.after_trick()),
{
    let t = s.after_trick();
    assert(t.trick_history == s.trick_history);
    assert forall|q: Player| #[trigger] t.hand(q) == s.hand(q) by {}
}

/// Ending the match keeps the history legal: nothing it reads changes.
pub proof fn lemma_match_end_keeps_legal_history(s: StateModel)
    requires
        legal_history(s),
    ensures
        legal_history(StateModel { score: s.score_after_round(), awaiting: None, phase: Phase::MatchOver, ..s }),
{
    let t = StateModel { score: s.score_after_round(), awaiting: None, phase: Phase::MatchOver, ..s };
    assert(t.trick_history == s.trick_history);
    assert forall|q: Player| #[trigger] t.hand(q) == s.hand(q) by {}
}

/// A dealt round starts with a legal (empty) history.
pub proof fn lemma_deal_legal_history(s: StateModel, round_num: u32, score: Seq<u32>, deck: Seq<Card>)
    requires
        State::is_deal_of(s, round_num, score, deck),
    ensures
        legal_history(s),
{
    lemma_empty_history_legal(s);
}

/// In every position reached by legal play, the hidden world can be redealt:
/// the unseen cards are the opponent's hand plus 6, and the unseen cards of
/// suits the opponent has shown void in all lie among those 6, so the
/// constraint-aware deal never fails.
pub proof fn lemma_legal_play_redealable(s: StateModel, searcher: Player)
    requires
        s.round_ok(),
        legal_history(s),
    ensures
        redealable(s, searcher),
{
    let opp = searcher.opp();
    let u = spec_unseen(s, searcher);
    let hand = s.hand(opp);
    let v = spec_voids(s, opp);
    let free = spec_free(s, searcher);
    lemma_unseen_count(s, searcher);
    lemma_filter_multiset(u, not_void(v));
    assert forall|c: Card| #[trigger] hand.to_multiset().count(c) <= free.to_multiset().count(c) by {
        if hand.to_multiset().count(c) > 0 {
            assert(s.card_pool().count(c) > 0) by {
                lemma_known_split(s, searcher);
            }
            assert(c.valid());
            lemma_shows_void_pairs(s.trick_history, opp, c.suit, 0);
            assert(v[c.suit as int] == shows_void(s.trick_history, opp, c.suit, 0));
            assert(hand.contains(c));
            if followed_off_from(s.trick_history, opp, c.suit, 0) {
                assert(c.suit != c.suit);
            }
            assert(not_void(v)(c));
        }
    }
    assert(hand.to_multiset().subset_of(free.to_multiset()));
    assert(free.to_multiset().sub(hand.to_multiset()).len() == free.to_multiset().len()
        - hand.to_multiset().len());
    assert(hand.len() <= free.len());
}

/// The belief label and the hidden-world sampler agree card for card: a
/// canonical slot is labelled (not masked) exactly when its card is among the
/// cards the searcher cannot see.
pub proof fn lemma_belief_mask_is_unseen(s: StateModel, searcher: Player, j: int)
    requires
        0 <= j < NUM_CARDS,
        s.trump.suit < NUM_SUITS,
    ensures
        spec_belief_target(s, searcher)[j] >= 0 <==> spec_unseen(s, searcher).contains(
            spec_real_card(j, s.trump.suit),
        ),
{
    let c = spec_real_card(j, s.trump.suit);
    lemma_real_card_roundtrip(j, s.trump.suit);
    lemma_full_deck();
    if spec_unseen(s, searcher).contains(c) {
        full_deck().lemma_filter_contains_rev(unseen_by(s, searcher), c);
    }
    if !seen_by(s, searcher, c) {
        assert(full_deck().contains(c));
        let i = choose|i: int| 0 <= i < full_deck().len() && full_deck()[i] == c;
        full_deck().lemma_filter_contains(unseen_by(s, searcher), i);
    }
}

/// Whatever hand a determinization deals the opponent from the cards the
/// searcher cannot see, every move legal for the opponent in that world is
/// among the potential children of an opponent node, and at the searcher's own
/// nodes the potential children are exactly its legal moves.
pub proof fn lemma_potential_covers(s: StateModel, searcher: Player, h: Seq<Card>, c: Card)
    requires
        forall|k: int| 0 <= k < h.len() ==> spec_unseen(s, searcher).contains(#[trigger] h[k]),
        spec_legal_moves(s.with_hand(searcher.opp(), h).hand(searcher.opp()), s.led_card).contains(c),
    ensures
        spec_potential(s, searcher.opp(), searcher).contains(c),
        spec_potential(s, searcher, searcher) == spec_legal_moves(s.hand(searcher), s.led_card),
{
    let opp = searcher.opp();
    assert(s.with_hand(opp, h).hand(opp) == h) by {
        match opp {
            Player::Human => {},
            Player::Bot => {},
        }
    }
    assert(h.contains(c)) by {
        match s.led_card {
            None => {},
            Some(l) => {
                let same = h.filter(of_suit(l.suit));
                if same.len() > 0 {
                    h.lemma_filter_contains_rev(of_suit(l.suit), c);
                }
            },
        }
    }
    let k = choose|k: int| 0 <= k < h.len() && h[k] == c;
    assert(spec_unseen(s, searcher).contains(h[k]));
    assert(searcher != opp) by {
        match searcher {
            Player::Human => {},
            Player::Bot => {},
        }
    }
}

/// On a history paired into tricks, reading voids from (lead, follow) pairs
/// finds exactly the follows off a led suit.
#[verifier::rlimit(60)]
#[verifier::spinoff_prover]
pub proof fn lemma_pair_void_pairs(h: Seq<PlayEvent>, p: Player, suit: u8, i: int)
    requires
        history_paired(h),
        0 <= i,
        i % 2 == 0,
    ensures
        pair_void(h, p, suit, i) == followed_off_from(h, p, suit, i / 2),
    decreases h.len() - i,
{
    if i >= h.len() {
        if followed_off_from(h, p, suit, i / 2) {
            let j = choose|j: int| i / 2 <= j && #[trigger] followed_off_at(h, p, suit, j);
        }
    } else if i + 1 < h.len() {
        assert(h[i + 1].trick == h[i].trick);
        assert(2 * (i / 2) == i);
        let here = h[i + 1].player == p && h[i + 1].card.suit != h[i].card.suit && h[i].card.suit
            == suit;
        assert(pair_void(h, p, suit, i) == (here || pair_void(h, p, suit, i + 2)));
        assert(here == followed_off_at(h, p, suit, i / 2));
        lemma_pair_void_pairs(h, p, suit, i + 2);
        if followed_off_from(h, p, suit, i / 2) {
            let j = choose|j: int| i / 2 <= j && #[trigger] followed_off_at(h, p, suit, j);
            if j > i / 2 {
                assert(followed_off_from(h, p, suit, (i + 2) / 2));
            }
        }
        if followed_off_from(h, p, suit, (i + 2) / 2) {
            let j = choose|j: int| (i + 2) / 2 <= j && #[trigger] followed_off_at(h, p, suit, j);
            assert(followed_off_from(h, p, suit, i / 2));
        }
    } else {
        assert(!pair_void(h, p, suit, i + 1));
        assert(pair_void(h, p, suit, i) == pair_void(h, p, suit, i + 1));
        if followed_off_from(h, p, suit, i / 2) {
            let j = choose|j: int| i / 2 <= j && #[trigger] followed_off_at(h, p, suit, j);
        }
    }
}

/// The cross-run search and the encoder read the same voids: on a history
/// paired into tricks (every history of legal play), the suits found from
/// (lead, follow) pairs are the suits found by grouping plays by trick.
pub proof fn lemma_voids_agree(s: StateModel, p: Player)
    requires
        history_paired(s.trick_history),
    ensures
        spec_voided_suits(s, p) == spec_voids(s, p),
{
    assert forall|k: int| 0 <= k < NUM_SUITS implies #[trigger] spec_voided_suits(s, p)[k]
        == spec_voids(s, p)[k] by {
        lemma_pair_void_pairs(s.trick_history, p, k as u8, 0);
        lemma_shows_void_pairs(s.trick_history, p, k as u8, 0);
    }
    assert(spec_voided_suits(s, p) =~= spec_voids(s, p));
}

/// Driving a match to its next decision keeps the history legal: closing a
/// trick and ending the match change nothing it reads, and a new round starts
/// with an empty history.
pub proof fn lemma_advance_keeps_legal_history(s: StateModel, t: StateModel)
    requires
        legal_history(s),
        advanced(s, t),
    ensures
        legal_history(t),
{
    let m = s.settled();
    if s.phase == Phase::TrickComplete {
        lemma_trick_keeps_legal_history(s);
    }
    assert(legal_history(m));
    if m.phase == Phase::RoundOver {
        if m.round_ends_match() {
            lemma_match_end_keeps_legal_history(m);
        } else {
            let deck = choose|deck: Seq<Card>|
                #[trigger] State::is_shuffled_deck(deck) && State::is_deal_of(
                    t,
                    (m.round_num + 1) as u32,
                    m.score_after_round(),
                    deck,
                );
            lemma_deal_legal_history(t, (m.round_num + 1) as u32, m.score_after_round(), deck);
        }
    }
}

/// A hidden world dealt by determinization is itself a position of legal
/// play: well formed, with the same history, and the opponent holds no card of
/// a suit it has shown void in; so search can play on in it.
pub proof fn lemma_determinized_world_ok(s: StateModel, searcher: Player, h: Seq<Card>)
    requires
        s.round_ok(),
        legal_history(s),
        h.len() == s.hand(searcher.opp()).len(),
        h.to_multiset().subset_of(spec_free(s, searcher).to_multiset()),
    ensures
        s.with_hand(searcher.opp(), h).round_ok(),
        legal_history(s.with_hand(searcher.opp(), h)),
{
    let opp = searcher.opp();
    let d = s.with_hand(opp, h);
    let free = spec_free(s, searcher);
    let u = spec_unseen(s, searcher);
    let v = spec_voids(s, opp);
    lemma_full_deck();
    lemma_filter_multiset(full_deck(), unseen_by(s, searcher));
    lemma_filter_multiset(u, not_void(v));
    assert(d.hand(searcher) == s.hand(searcher) && d.hand(opp) == h && d.trick_history
        == s.trick_history && d.trump == s.trump) by {
        match searcher {
            Player::Human => {},
            Player::Bot => {},
        }
    }
    // Every card the new hand holds is a free card: unseen, of the deck, and
    // outside the opponent's shown voids.
    assert forall|c: Card| h.to_multiset().count(c) > 0 implies {
        &&& c.valid()
        &&& !seen_by(s, searcher, c)
        &&& !v[c.suit as int]
        &&& h.to_multiset().count(c) == 1
    } by {
        assert(free.to_multiset().count(c) > 0);
        assert(full_deck().to_multiset().count(c) > 0);
    }
    // The shape only reads hand sizes, which are unchanged.
    assert(d.shape_ok()) by {
        assert(d.human_hand.len() == s.human_hand.len() && d.bot_hand.len() == s.bot_hand.len()) by {
            match searcher {
                Player::Human => {},
                Player::Bot => {},
            }
        }
        assert(d.hand(d.leader).len() == s.hand(s.leader).len()) by {
            match d.leader {
                Player::Human => {},
                Player::Bot => {},
            }
        }
        assert(d.hand(d.leader.opp()).len() == s.hand(s.leader.opp()).len()) by {
            match d.leader {
                Player::Human => {},
                Player::Bot => {},
            }
        }
    }
    // The pool is the searcher's knowledge plus the new hand.
    lemma_known_split(d, searcher);
    lemma_known_split(s, searcher);
    assert(known_cards(d, searcher) == known_cards(s, searcher));
    assert forall|c: Card| #[trigger] d.card_pool().count(c) > 0 implies c.valid() && d.card_pool().count(
        c,
    ) == 1 by {
        let k = known_cards(s, searcher).to_multiset();
        if h.to_multiset().count(c) > 0 {
            assert(k.count(c) == 0);
        } else {
            assert(s.card_pool().count(c) >= k.count(c));
            assert(s.card_pool().count(c) > 0);
        }
    }
    // The history is unchanged, and the new hand avoids the opponent's voids.
    assert(voids_sound(d)) by {
        assert forall|q: Player, suit: u8, c: Card|
            #![trigger followed_off_from(d.trick_history, q, suit, 0), d.hand(q).contains(c)]
            followed_off_from(d.trick_history, q, suit, 0) && d.hand(q).contains(c) implies c.suit
            != suit by {
            if q == opp {
                assert(h.to_multiset().count(c) > 0);
                lemma_shows_void_pairs(s.trick_history, opp, c.suit, 0);
                assert(v[c.suit as int] == shows_void(s.trick_history, opp, c.suit, 0));
                if c.suit == suit {
                    assert(followed_off_from(s.trick_history, opp, c.suit, 0));
                }
            } else {
                assert(q == searcher) by {
                    match q {
                        Player::Human => match searcher {
                            Player::Human => {},
                            Player::Bot => {},
                        },
                        Player::Bot => match searcher {
                            Player::Human => {},
                            Player::Bot => {},
                        },
                    }
                }
            }
        }
    }
}

/// In every position reached by legal play, the cross-run search can sample
/// a world: the cards the opponent may hold there are the same as the
/// constraint-aware redeal's, at least as many as its hand.
pub proof fn lemma_cross_search_ready(s: StateModel, mover: Player)
    requires
        s.round_ok(),
        legal_history(s),
    ensures
        known_cards_valid(s, mover),
        spec_pool(s, mover).to_multiset() == spec_free(s, mover).to_multiset(),
        spec_pool(s, mover).len() >= s.hand(mover.opp()).len(),
{
    broadcast use vstd::seq_lib::to_multiset_len;

    let opp = mover.opp();
    lemma_legal_play_redealable(s, mover);
    lemma_voids_agree(s, opp);
    let u = spec_unseen(s, mover);
    let free = spec_free(s, mover);
    let v = spec_voids(s, opp);
    lemma_filter_multiset(full_deck(), unseen_by(s, mover));
    lemma_filter_multiset(u, not_void(v));
    lemma_filter_multiset(full_deck(), pool_of(s, mover));
    assert(spec_pool(s, mover).to_multiset() =~= free.to_multiset());
    assert(spec_pool(s, mover).len() == free.len()) by {
        assert(spec_pool(s, mover).to_multiset().len() == spec_pool(s, mover).len());
        assert(free.to_multiset().len() == free.len());
    }
    assert(redealable(s, mover));
    assert(u.len() == s.hand(opp).len() + 6);
    assert(spec_forced_unused(s, mover) <= 6);
    assert(free.len() == u.len() - spec_forced_unused(s, mover));
}

} // verus!
