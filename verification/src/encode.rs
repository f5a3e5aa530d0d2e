//! Canonical network input encoding (suit-canonicalized, mover-frame).
//!
//! Suits are permuted so that trump is always canonical slot 0; policy outputs
//! are over canonical card slots (inverted by [`real_card_from_canon_index`]).
//! Encodings here are integer vectors (every entry is a card slot, 0 or 1); the
//! network takes them converted entry by entry.

use vstd::prelude::*;

use crate::rules::{
    spec_legal_moves, Card, PlayEvent, Player, State, StateModel, NUM_CARDS, NUM_RANKS,
    NUM_SUITS,
};

verus! {

/// History tokens: one per play event of a round.
pub const HIST_TOKENS: usize = 26;

/// Features per history token: canonical card index, played-by-self, valid.
pub const TOKEN_FEATS: usize = 3;

/// Length of the history-token block.
pub const HIST: usize = HIST_TOKENS * TOKEN_FEATS;

/// Length of the static (non-token) tail of the encoding.
pub const STATIC_SIZE: usize = 127;

/// Length of the encoding.
pub const INPUT_SIZE: usize = HIST + STATIC_SIZE;

/// Length of the pre-history encoding (one-hot blocks only).
pub const INPUT_SIZE_V1: usize = 230;

/// The non-trump suits in increasing order.
pub open spec fn non_trump_suits(trump: u8) -> Seq<u8> {
    if trump == 0 {
        seq![1u8, 2u8]
    } else if trump == 1 {
        seq![0u8, 2u8]
    } else if trump == 2 {
        seq![0u8, 1u8]
    } else {
        seq![0u8, 1u8, 2u8]
    }
}

/// Canonical slot of a real suit: 0 for trump, then the other suits in order.
pub open spec fn spec_canon_suit(real_suit: u8, trump: u8) -> int {
    if real_suit == trump {
        0
    } else {
        1 + (if 0 != trump && 0 < real_suit { 1int } else { 0int }) + (if 1 != trump && 1
            < real_suit { 1int } else { 0int }) + (if 2 != trump && 2 < real_suit {
            1int
        } else {
            0int
        })
    }
}

/// Real suit of a canonical slot.
pub open spec fn spec_real_suit(canon_slot: int, trump: u8) -> u8 {
    if canon_slot == 0 {
        trump
    } else {
        non_trump_suits(trump)[canon_slot - 1]
    }
}

/// Canonical card index of a card.
pub open spec fn spec_canon_index(card: Card, trump: u8) -> int {
    spec_canon_suit(card.suit, trump) * NUM_RANKS + card.rank - 1
}

/// Real card of a canonical card index.
pub open spec fn spec_real_card(ci: int, trump: u8) -> Card {
    Card { suit: spec_real_suit(ci / NUM_RANKS as int, trump), rank: (ci % NUM_RANKS as int + 1) as u8 }
}

/// The canonical index names a card for this trump (a real suit, or the trump
/// itself for slot 0 when it is a suit of the deck).
pub open spec fn canon_index_defined(ci: int, trump: u8) -> bool {
    let slot = ci / NUM_RANKS as int;
    0 <= ci && if slot == 0 {
        trump < NUM_SUITS
    } else {
        slot <= non_trump_suits(trump).len()
    }
}

/// Map a real suit index to its canonical slot given the trump suit index.
pub fn canon_suit(real_suit: u8, trump: u8) -> (slot: usize)
    ensures
        slot == spec_canon_suit(real_suit, trump),
{
    if real_suit == trump {
        return 0;
    }
    let mut slot: usize = 1;
    let mut s: u8 = 0;
    while s < NUM_SUITS as u8
        invariant
            s <= NUM_SUITS,
            real_suit != trump,
            slot == 1 + (if 0 != trump && 0 < real_suit && 0 < s { 1int } else { 0int }) + (if 1
                != trump && 1 < real_suit && 1 < s { 1int } else { 0int }) + (if 2 != trump && 2
                < real_suit && 2 < s { 1int } else { 0int }),
        decreases NUM_SUITS - s,
    {
        if s != trump && s < real_suit {
            slot = slot + 1;
        }
        s = s + 1;
    }
    slot
}

/// Real suit of a canonical slot given the trump suit index.
pub fn real_suit_from_canon(canon_slot: usize, trump: u8) -> (suit: u8)
    requires
        canon_slot == 0 || canon_slot <= non_trump_suits(trump).len(),
    ensures
        suit == spec_real_suit(canon_slot as int, trump),
{
    if canon_slot == 0 {
        return trump;
    }
    let mut idx: usize = 0;
    let mut s: u8 = 0;
    while s < NUM_SUITS as u8
        invariant
            s <= NUM_SUITS,
            1 <= canon_slot <= non_trump_suits(trump).len(),
            idx == (if 0 != trump && 0 < s { 1int } else { 0int }) + (if 1 != trump && 1 < s {
                1int
            } else {
                0int
            }) + (if 2 != trump && 2 < s { 1int } else { 0int }),
            idx < canon_slot,
            forall|k: int| 0 <= k < idx ==> non_trump_suits(trump)[k] < s,
        decreases NUM_SUITS - s,
    {
        if s != trump {
            idx = idx + 1;
            if idx == canon_slot {
                return s;
            }
        }
        s = s + 1;
    }
    0
}

/// Canonical card index (0..33) for a card given the trump suit.
pub fn canon_card_index(card: Card, trump: u8) -> (ci: usize)
    requires
        card.rank >= 1,
    ensures
        ci == spec_canon_index(card, trump),
{
    canon_suit(card.suit, trump) * NUM_RANKS + (card.rank as usize - 1)
}

/// Inverse: canonical card slot -> real card.
pub fn real_card_from_canon_index(ci: usize, trump: u8) -> (card: Card)
    requires
        canon_index_defined(ci as int, trump),
    ensures
        card == spec_real_card(ci as int, trump),
        card.valid(),
{
    let canon_slot = ci / NUM_RANKS;
    let rank = (ci % NUM_RANKS) as u8 + 1;
    Card::new(real_suit_from_canon(canon_slot, trump), rank)
}


/// For a suit of the deck as trump, canonical slots are a bijection on the
/// three suits, with trump at slot 0.
pub proof fn lemma_canon_suit_bijection(trump: u8)
    requires
        trump < NUM_SUITS,
    ensures
        spec_canon_suit(trump, trump) == 0,
        forall|r: u8|
            r < NUM_SUITS ==> 0 <= #[trigger] spec_canon_suit(r, trump) < NUM_SUITS
                && spec_real_suit(spec_canon_suit(r, trump), trump) == r,
        forall|slot: int|
            0 <= slot < NUM_SUITS ==> #[trigger] spec_real_suit(slot, trump) < NUM_SUITS
                && spec_canon_suit(spec_real_suit(slot, trump), trump) == slot,
{
}

/// Canonical card indices are a bijection between the cards of the deck and
/// 0..33 for every trump suit.
pub proof fn lemma_canon_index_roundtrip(card: Card, trump: u8)
    requires
        card.valid(),
        trump < NUM_SUITS,
    ensures
        0 <= spec_canon_index(card, trump) < NUM_CARDS,
        canon_index_defined(spec_canon_index(card, trump), trump),
        spec_real_card(spec_canon_index(card, trump), trump) == card,
{
    lemma_canon_suit_bijection(trump);
    let k = spec_canon_suit(card.suit, trump);
    let ci = spec_canon_index(card, trump);
    assert(ci / 11 == k && ci % 11 == card.rank - 1) by (nonlinear_arith)
        requires
            ci == k * 11 + card.rank - 1,
            1 <= card.rank <= 11,
            0 <= k < 3,
    ;
}

/// Every canonical index of 0..33 names a card of the deck whose canonical
/// index it is.
pub proof fn lemma_real_card_roundtrip(ci: int, trump: u8)
    requires
        0 <= ci < NUM_CARDS,
        trump < NUM_SUITS,
    ensures
        canon_index_defined(ci, trump),
        spec_real_card(ci, trump).valid(),
        spec_canon_index(spec_real_card(ci, trump), trump) == ci,
{
    lemma_canon_suit_bijection(trump);
    let slot = ci / 11;
    assert(0 <= slot < 3);
    assert(slot * 11 + ci % 11 == ci);
}

/// Two cards of the deck with the same canonical index are the same card.
pub proof fn lemma_canon_index_injective(a: Card, b: Card, trump: u8)
    requires
        a.valid(),
        b.valid(),
        trump < NUM_SUITS,
        spec_canon_index(a, trump) == spec_canon_index(b, trump),
    ensures
        a == b,
{
    lemma_canon_index_roundtrip(a, trump);
    lemma_canon_index_roundtrip(b, trump);
}


/// Position just past the run of events of trick `t` that starts at `j`.
pub open spec fn run_end(h: Seq<PlayEvent>, t: u32, j: int) -> int
    decreases h.len() - j,
{
    if 0 <= j < h.len() && h[j].trick == t {
        run_end(h, t, j + 1)
    } else {
        j
    }
}

/// The run of a trick never ends before it starts, and ends at an event of
/// another trick or at the end of the history.
pub proof fn lemma_run_end(h: Seq<PlayEvent>, t: u32, j: int)
    requires
        0 <= j,
    ensures
        j <= run_end(h, t, j),
        run_end(h, t, j) <= h.len() || run_end(h, t, j) == j,
        !(0 <= run_end(h, t, j) < h.len() && h[run_end(h, t, j)].trick == t),
    decreases h.len() - j,
{
    if 0 <= j < h.len() && h[j].trick == t {
        lemma_run_end(h, t, j + 1);
    }
}

/// In the trick whose events start at position `i`, `opponent` followed off
/// the led suit `suit`.
pub open spec fn void_shown_at(h: Seq<PlayEvent>, opponent: Player, suit: u8, i: int) -> bool {
    let j = run_end(h, h[i].trick, i + 1);
    &&& j - i >= 2
    &&& h[i + 1].player == opponent
    &&& h[i + 1].card.suit != h[i].card.suit
    &&& h[i].card.suit == suit
}

/// Some trick from position `i` on (events grouped by trick number, in play
/// order) shows `opponent` void in `suit`: it followed a lead of `suit` with a
/// card of another suit.
pub open spec fn shows_void(h: Seq<PlayEvent>, opponent: Player, suit: u8, i: int) -> bool
    decreases h.len() - i,
{
    if i < 0 || i >= h.len() {
        false
    } else {
        let j = run_end(h, h[i].trick, i + 1);
        proof {
            lemma_run_end(h, h[i].trick, i + 1);
        }
        void_shown_at(h, opponent, suit, i) || shows_void(h, opponent, suit, j)
    }
}

/// Opponent void suits inferred from the round's play history.
pub open spec fn spec_voids(s: StateModel, opponent: Player) -> Seq<bool> {
    Seq::new(NUM_SUITS as nat, |k: int| shows_void(s.trick_history, opponent, k as u8, 0))
}

/// Every card of the history is of a suit of the deck.
pub open spec fn history_suits_ok(h: Seq<PlayEvent>) -> bool {
    forall|k: int| 0 <= k < h.len() ==> #[trigger] h[k].card.suit < NUM_SUITS
}

/// Void suits of `opponent` (the seat that is not the mover) inferred from
/// the history: a follow off the led suit shows a void in that suit.
#[verifier::spinoff_prover]
pub fn opponent_voids(state: &State, opponent: Player) -> (voids: [bool; 3])
    requires
        history_suits_ok(state@.trick_history),
    ensures
        voids@ == spec_voids(state@, opponent),
{
    let mut voids = [false; 3];
    let hist = &state.trick_history;
    let ghost h = hist@;
    let mut i: usize = 0;
    while i < hist.len()
        invariant
            h == hist@,
            history_suits_ok(h),
            i <= h.len(),
            forall|k: int|
                0 <= k < NUM_SUITS ==> shows_void(h, opponent, k as u8, 0) == (voids@[k]
                    || shows_void(h, opponent, k as u8, i as int)),
        decreases h.len() - i,
    {
        let trick = hist[i].trick;
        let lead = hist[i];
        let mut j = i + 1;
        proof {
            lemma_run_end(h, trick, i + 1);
        }
        while j < hist.len() && hist[j].trick == trick
            invariant
                h == hist@,
                i < h.len(),
                i + 1 <= j <= h.len(),
                run_end(h, trick, j as int) == run_end(h, trick, i + 1),
            decreases h.len() - j,
        {
            j = j + 1;
        }
        let ghost old_voids = voids@;
        if j - i >= 2 {
            let follow = hist[i + 1];
            if follow.player == opponent && follow.card.suit != lead.card.suit {
                voids[lead.card.suit as usize] = true;
            }
        }
        proof {
            assert(run_end(h, trick, j as int) == j);
            assert forall|k: int| 0 <= k < NUM_SUITS implies voids@[k] == (old_voids[k]
                || void_shown_at(h, opponent, k as u8, i as int)) by {}
            assert forall|k: int| 0 <= k < NUM_SUITS implies #[trigger] shows_void(
                h,
                opponent,
                k as u8,
                i as int,
            ) == (void_shown_at(h, opponent, k as u8, i as int) || shows_void(
                h,
                opponent,
                k as u8,
                j as int,
            )) by {}
            assert forall|k: int| 0 <= k < NUM_SUITS implies shows_void(h, opponent, k as u8, 0)
                == (voids@[k] || shows_void(h, opponent, k as u8, j as int)) by {
                assert(shows_void(h, opponent, k as u8, 0) == (old_voids[k] || shows_void(
                    h,
                    opponent,
                    k as u8,
                    i as int,
                )));
            }
        }
        i = j;
    }
    assert(voids@ =~= spec_voids(state@, opponent));
    voids
}


/// Some card of `cards` has canonical index `j`.
pub open spec fn hot_card(cards: Seq<Card>, trump: u8, j: int) -> bool {
    exists|m: int| 0 <= m < cards.len() && spec_canon_index(#[trigger] cards[m], trump) == j
}

/// Every card of `cards` is a card of the deck.
pub open spec fn cards_valid(cards: Seq<Card>) -> bool {
    forall|m: int| 0 <= m < cards.len() ==> #[trigger] cards[m].valid()
}

/// Canonical legal-move mask of `mover`: slot `j` is 1 exactly when a legal
/// card has canonical index `j`.
pub open spec fn spec_legal_mask(s: StateModel, mover: Player) -> Seq<u8> {
    Seq::new(
        NUM_CARDS as nat,
        |j: int|
            if hot_card(spec_legal_moves(s.hand(mover), s.led_card), s.trump.suit, j) {
                1u8
            } else {
                0u8
            },
    )
}

/// A vector of `n` zeros.
fn zeros(n: usize) -> (out: Vec<u8>)
    ensures
        out@.len() == n,
        forall|k: int| 0 <= k < n ==> out@[k] == 0,
{
    let mut out: Vec<u8> = Vec::with_capacity(n);
    let mut i: usize = 0;
    while i < n
        invariant
            i <= n,
            out@.len() == i,
            forall|k: int| 0 <= k < i ==> out@[k] == 0,
        decreases n - i,
    {
        out.push(0);
        i = i + 1;
    }
    out
}

/// Set entry `k` to 1.
fn mark_one(out: &mut Vec<u8>, k: usize)
    requires
        k < old(out)@.len(),
    ensures
        final(out)@ == old(out)@.update(k as int, 1u8),
{
    out.set(k, 1);
}

/// Set to 1 the entry `base + canonical index` of every card of `cards`.
fn mark_cards(out: &mut Vec<u8>, base: usize, cards: &[Card], trump: u8)
    requires
        cards_valid(cards@),
        forall|m: int|
            0 <= m < cards@.len() ==> base + spec_canon_index(#[trigger] cards@[m], trump)
                < old(out)@.len(),
    ensures
        final(out)@.len() == old(out)@.len(),
        forall|k: int|
            0 <= k < old(out)@.len() ==> #[trigger] final(out)@[k] == (if hot_card(
                cards@,
                trump,
                k - base,
            ) {
                1u8
            } else {
                old(out)@[k]
            }),
{
    let ghost init = out@;
    let mut i: usize = 0;
    while i < cards.len()
        invariant
            i <= cards@.len(),
            out@.len() == init.len(),
            cards_valid(cards@),
            forall|m: int|
                0 <= m < cards@.len() ==> base + spec_canon_index(#[trigger] cards@[m], trump)
                    < init.len(),
            forall|k: int|
                0 <= k < init.len() ==> #[trigger] out@[k] == (if hot_card(
                    cards@.take(i as int),
                    trump,
                    k - base,
                ) {
                    1u8
                } else {
                    init[k]
                }),
        decreases cards@.len() - i,
    {
        let c = cards[i];
        assert(cards@[i as int].valid());
        assert(base + spec_canon_index(cards@[i as int], trump) < init.len());
        let ci = canon_card_index(c, trump);
        let n = out.len();
        assert(c == cards@[i as int]);
        assert(base + ci < n);
        let ghost prev = out@;
        mark_one(out, base + ci);
        proof {
            assert forall|k: int| 0 <= k < init.len() implies #[trigger] out@[k] == (if hot_card(
                cards@.take(i + 1),
                trump,
                k - base,
            ) {
                1u8
            } else {
                init[k]
            }) by {
                assert(cards@.take(i + 1)[i as int] == c);
                if hot_card(cards@.take(i as int), trump, k - base) {
                    let m = choose|m: int|
                        0 <= m < i && spec_canon_index(#[trigger] cards@.take(i as int)[m], trump)
                            == k - base;
                    assert(cards@.take(i + 1)[m] == cards@.take(i as int)[m]);
                }
                if hot_card(cards@.take(i + 1), trump, k - base) && k != base + ci {
                    let m = choose|m: int|
                        0 <= m < i + 1 && spec_canon_index(#[trigger] cards@.take(i + 1)[m], trump)
                            == k - base;
                    assert(m != i);
                    assert(cards@.take(i + 1)[m] == cards@.take(i as int)[m]);
                }
            }
        }
        i = i + 1;
    }
    assert(cards@.take(cards@.len() as int) =~= cards@);
}

/// Canonical legal-move mask (length `NUM_CARDS`) for `mover`.
pub fn legal_mask(state: &State, mover: Player) -> (mask: Vec<u8>)
    requires
        cards_valid(state@.hand(mover)),
        state.trump.suit < NUM_SUITS,
    ensures
        mask@ == spec_legal_mask(state@, mover),
{
    let mut out = zeros(NUM_CARDS);
    let trump = state.trump.suit;
    let legal = crate::rules::legal_moves(state.hand(mover), state.led_card);
    proof {
        let h = state@.hand(mover);
        assert forall|m: int| 0 <= m < legal@.len() implies (#[trigger] legal@[m]).valid()
            && spec_canon_index(legal@[m], trump) < NUM_CARDS by {
            match state.led_card {
                None => {},
                Some(l) => {
                    if h.filter(crate::rules::of_suit(l.suit)).len() > 0 {
                        h.lemma_filter_contains_rev(crate::rules::of_suit(l.suit), legal@[m]);
                    }
                },
            }
            let c = legal@[m];
            assert(h.contains(c));
            lemma_canon_index_roundtrip(c, trump);
        }
    }
    mark_cards(&mut out, 0, legal.as_slice(), trump);
    assert(out@ =~= spec_legal_mask(state@, mover));
    out
}


/// `x`, capped at `hi`.
pub open spec fn capped(x: u32, hi: int) -> int {
    if x < hi {
        x as int
    } else {
        hi
    }
}

/// The history and the mover's hand hold cards of the deck, the trump is a card
/// of the deck, the history fits the token block, and the trick number has a
/// slot in the encoding.
pub open spec fn encodable(s: StateModel, mover: Player, max_trick: int) -> bool {
    &&& cards_valid(s.hand(mover))
    &&& forall|k: int| 0 <= k < s.trick_history.len() ==> (#[trigger] s.trick_history[k]).card.valid()
    &&& s.trump.valid()
    &&& 1 <= s.trick_num <= max_trick
}

/// Entry `k` of the history-token block: token `k / 3` is the `k / 3`-th play of
/// the round as [canonical card index, played by the mover, 1]; tokens past
/// the history are zero.
pub open spec fn token_value(s: StateModel, mover: Player, k: int) -> u8 {
    let i = k / TOKEN_FEATS as int;
    let f = k % TOKEN_FEATS as int;
    if i < s.trick_history.len() {
        let e = s.trick_history[i];
        if f == 0 {
            spec_canon_index(e.card, s.trump.suit) as u8
        } else if f == 1 {
            if e.player == mover {
                1u8
            } else {
                0u8
            }
        } else {
            1u8
        }
    } else {
        0u8
    }
}

/// Position `j` of the static tail is set: the mover's hand (canonical slots,
/// 33), trump rank (11), tricks won by the mover and by the opponent (14 each,
/// capped at 13), trick number (13), and both match scores (21 each, capped at
/// 20).
pub open spec fn tail_hot(s: StateModel, mover: Player, j: int) -> bool {
    let opp = mover.opp();
    ||| hot_card(s.hand(mover), s.trump.suit, j)
    ||| j == 33 + s.trump.rank - 1
    ||| j == 44 + capped(s.tricks(mover), 13)
    ||| j == 58 + capped(s.tricks(opp), 13)
    ||| j == 72 + s.trick_num - 1
    ||| j == 85 + capped(s.points(mover), 20)
    ||| j == 106 + capped(s.points(opp), 20)
}

/// The encoding of `s` from `mover`'s perspective: history tokens, then the
/// static one-hot tail.
pub open spec fn spec_encode(s: StateModel, mover: Player) -> Seq<u8> {
    Seq::new(
        INPUT_SIZE as nat,
        |k: int|
            if k < HIST {
                token_value(s, mover, k)
            } else if tail_hot(s, mover, k - HIST) {
                1u8
            } else {
                0u8
            },
    )
}

/// Encode `state` from `mover`'s perspective into a length-`INPUT_SIZE` vector.
pub fn encode(state: &State, mover: Player) -> (out: Vec<u8>)
    requires
        encodable(state@, mover, 55),
        state@.trick_history.len() <= HIST_TOKENS,
    ensures
        out@ == spec_encode(state@, mover),
{
    let mut out = zeros(INPUT_SIZE);
    let trump = state.trump.suit;
    let opp = mover.other();
    let self_tricks = state.tricks_won[mover.idx()];
    let opp_tricks = state.tricks_won[opp.idx()];
    let self_score = state.score[mover.idx()];
    let opp_score = state.score[opp.idx()];
    let ghost s = state@;

    let events = &state.trick_history;
    let mut i: usize = 0;
    while i < events.len()
        invariant
            s == state@,
            events@ == s.trick_history,
            events@.len() <= HIST_TOKENS,
            encodable(s, mover, 55),
            trump == s.trump.suit,
            i <= events@.len(),
            out@.len() == INPUT_SIZE,
            forall|k: int|
                0 <= k < HIST ==> #[trigger] out@[k] == (if k / 3 < i {
                    token_value(s, mover, k)
                } else {
                    0u8
                }),
            forall|k: int| HIST <= k < INPUT_SIZE ==> #[trigger] out@[k] == 0,
        decreases events@.len() - i,
    {
        let ev = events[i];
        assert(s.trick_history[i as int].card.valid());
        proof {
            lemma_canon_index_roundtrip(ev.card, trump);
        }
        let ci = canon_card_index(ev.card, trump);
        out.set(3 * i, ci as u8);
        out.set(3 * i + 1, if ev.player == mover { 1 } else { 0 });
        out.set(3 * i + 2, 1);
        i = i + 1;
        proof {
            assert forall|k: int| 0 <= k < HIST implies #[trigger] out@[k] == (if k / 3 < i {
                token_value(s, mover, k)
            } else {
                0u8
            }) by {
                if k / 3 == i - 1 {
                    assert(k == 3 * (i - 1) || k == 3 * (i - 1) + 1 || k == 3 * (i - 1) + 2);
                }
            }
        }
    }
    proof {
        assert forall|m: int| 0 <= m < s.hand(mover).len() implies HIST + spec_canon_index(
            #[trigger] s.hand(mover)[m],
            trump,
        ) < INPUT_SIZE by {
            lemma_canon_index_roundtrip(s.hand(mover)[m], trump);
        }
    }
    let ghost tokens = out@;
    mark_cards(&mut out, HIST, state.hand(mover), trump);
    let ghost o1 = out@;
    let a2 = HIST + 33 + (state.trump.rank as usize - 1);
    let a3 = HIST + 44 + if self_tricks < 13 { self_tricks as usize } else { 13 };
    let a4 = HIST + 58 + if opp_tricks < 13 { opp_tricks as usize } else { 13 };
    let a5 = HIST + 72 + (state.trick_num as usize - 1);
    let a6 = HIST + 85 + if self_score < 20 { self_score as usize } else { 20 };
    let a7 = HIST + 106 + if opp_score < 20 { opp_score as usize } else { 20 };
    mark_one(&mut out, a2);
    mark_one(&mut out, a3);
    mark_one(&mut out, a4);
    mark_one(&mut out, a5);
    mark_one(&mut out, a6);
    mark_one(&mut out, a7);
    proof {
        assert forall|k: int| 0 <= k < INPUT_SIZE implies #[trigger] out@[k] == spec_encode(
            s,
            mover,
        )[k] by {
            let hit = k == a2 || k == a3 || k == a4 || k == a5 || k == a6 || k == a7;
            assert(out@[k] == (if hit { 1u8 } else { o1[k] }));
            if k < HIST {
                if hot_card(s.hand(mover), trump, k - HIST) {
                    let m = choose|m: int|
                        0 <= m < s.hand(mover).len() && spec_canon_index(
                            #[trigger] s.hand(mover)[m],
                            trump,
                        ) == k - HIST;
                    assert(s.hand(mover)[m].valid());
                }
                assert(k / 3 < i || token_value(s, mover, k) == 0);
            }
        }
    }
    assert(out@ =~= spec_encode(s, mover));
    out
}


/// Some card of the history played by (`by_mover`) or against (`!by_mover`)
/// the mover has canonical index `j`.
pub open spec fn hot_played(h: Seq<PlayEvent>, mover: Player, by_mover: bool, trump: u8, j: int) -> bool {
    exists|m: int|
        0 <= m < h.len() && (h[m].player == mover) == by_mover && spec_canon_index(
            #[trigger] h[m].card,
            trump,
        ) == j
}

/// Some suit the opponent has shown void in has canonical slot `j`.
pub open spec fn hot_void(s: StateModel, opponent: Player, j: int) -> bool {
    exists|k: int|
        0 <= k < NUM_SUITS && #[trigger] spec_voids(s, opponent)[k] && j == spec_canon_suit(
            k as u8,
            s.trump.suit,
        )
}

/// Slot of the led-card block: the led card's canonical index, or 33 when the
/// mover is leading.
pub open spec fn led_slot(s: StateModel) -> int {
    match s.led_card {
        Some(l) => spec_canon_index(l, s.trump.suit),
        None => NUM_CARDS as int,
    }
}

/// Position `k` of the one-hot (pre-history) encoding is set: own hand (33),
/// cards played by the mover (33) and by the opponent (33), trump rank (11),
/// opponent void suits (3), led card or "leading" (34), tricks won by each seat
/// (14 each), trick number (13), and both match scores (21 each).
pub open spec fn onehot_hot(s: StateModel, mover: Player, k: int) -> bool {
    let opp = mover.opp();
    let t = s.trump.suit;
    ||| hot_card(s.hand(mover), t, k)
    ||| hot_played(s.trick_history, mover, true, t, k - 33)
    ||| hot_played(s.trick_history, mover, false, t, k - 66)
    ||| k == 99 + s.trump.rank - 1
    ||| hot_void(s, opp, k - 110)
    ||| k == 113 + led_slot(s)
    ||| k == 147 + capped(s.tricks(mover), 13)
    ||| k == 161 + capped(s.tricks(opp), 13)
    ||| k == 175 + s.trick_num - 1
    ||| k == 188 + capped(s.points(mover), 20)
    ||| k == 209 + capped(s.points(opp), 20)
}

/// The one-hot (pre-history) encoding of `s` from `mover`'s perspective.
pub open spec fn spec_encode_v1(s: StateModel, mover: Player) -> Seq<u8> {
    Seq::new(
        INPUT_SIZE_V1 as nat,
        |k: int|
            if onehot_hot(s, mover, k) {
                1u8
            } else {
                0u8
            },
    )
}

/// The led card, if any, is a card of the deck.
pub open spec fn led_ok(s: StateModel) -> bool {
    match s.led_card {
        Some(l) => l.valid(),
        None => true,
    }
}

/// Set to 1 the entry `33 + index` (played by the mover) or `66 + index`
/// (played by the opponent) of every card of the history.
fn mark_played(out: &mut Vec<u8>, hist: &[PlayEvent], mover: Player, trump: u8)
    requires
        old(out)@.len() == INPUT_SIZE_V1,
        trump < NUM_SUITS,
        forall|k: int| 0 <= k < hist@.len() ==> (#[trigger] hist@[k]).card.valid(),
    ensures
        final(out)@.len() == INPUT_SIZE_V1,
        forall|k: int|
            0 <= k < INPUT_SIZE_V1 ==> #[trigger] final(out)@[k] == (if hot_played(
                hist@,
                mover,
                true,
                trump,
                k - 33,
            ) || hot_played(hist@, mover, false, trump, k - 66) {
                1u8
            } else {
                old(out)@[k]
            }),
{
    let ghost init = out@;
    let mut i: usize = 0;
    while i < hist.len()
        invariant
            i <= hist@.len(),
            out@.len() == INPUT_SIZE_V1,
            init.len() == INPUT_SIZE_V1,
            trump < NUM_SUITS,
            forall|k: int| 0 <= k < hist@.len() ==> (#[trigger] hist@[k]).card.valid(),
            forall|k: int|
                0 <= k < INPUT_SIZE_V1 ==> #[trigger] out@[k] == (if hot_played(
                    hist@.take(i as int),
                    mover,
                    true,
                    trump,
                    k - 33,
                ) || hot_played(hist@.take(i as int), mover, false, trump, k - 66) {
                    1u8
                } else {
                    init[k]
                }),
        decreases hist@.len() - i,
    {
        let ev = hist[i];
        assert(hist@[i as int].card.valid());
        proof {
            lemma_canon_index_roundtrip(ev.card, trump);
        }
        let ci = canon_card_index(ev.card, trump);
        let base: usize = if ev.player == mover { 33 } else { 66 };
        mark_one(out, base + ci);
        proof {
            let h0 = hist@.take(i as int);
            let h1 = hist@.take(i + 1);
            assert(h1[i as int] == ev);
            assert forall|b: bool, j: int| #[trigger] hot_played(h1, mover, b, trump, j) == (
            hot_played(h0, mover, b, trump, j) || ((ev.player == mover) == b && spec_canon_index(
                ev.card,
                trump,
            ) == j)) by {
                if hot_played(h0, mover, b, trump, j) {
                    let m = choose|m: int|
                        0 <= m < h0.len() && (h0[m].player == mover) == b && spec_canon_index(
                            #[trigger] h0[m].card,
                            trump,
                        ) == j;
                    assert(h1[m] == h0[m]);
                }
                if hot_played(h1, mover, b, trump, j) {
                    let m = choose|m: int|
                        0 <= m < h1.len() && (h1[m].player == mover) == b && spec_canon_index(
                            #[trigger] h1[m].card,
                            trump,
                        ) == j;
                    if m < i {
                        assert(h1[m] == h0[m]);
                    }
                }
            }
        }
        i = i + 1;
    }
    assert(hist@.take(hist@.len() as int) =~= hist@);
}

/// Pre-history encoding of `state` from `mover`'s perspective: length
/// `INPUT_SIZE_V1`.
pub fn encode_v1(state: &State, mover: Player) -> (out: Vec<u8>)
    requires
        encodable(state@, mover, 55),
        led_ok(state@),
    ensures
        out@ == spec_encode_v1(state@, mover),
{
    let mut out: Vec<u8> = Vec::new();
    crate::onehot::encode_into(state, mover, &mut out);
    out
}

/// Fill `out` (whatever it held) with the pre-history encoding.
pub(crate) fn fill_encode_v1(state: &State, mover: Player, out: &mut Vec<u8>)
    requires
        encodable(state@, mover, 55),
        led_ok(state@),
    ensures
        final(out)@ == spec_encode_v1(state@, mover),
{
    out.clear();
    let mut n: usize = 0;
    while n < INPUT_SIZE_V1
        invariant
            n <= INPUT_SIZE_V1,
            out@.len() == n,
            forall|k: int| 0 <= k < n ==> out@[k] == 0,
        decreases INPUT_SIZE_V1 - n,
    {
        out.push(0);
        n = n + 1;
    }
    let ghost s = state@;
    let trump = state.trump.suit;
    let opp = mover.other();
    let self_tricks = state.tricks_won[mover.idx()];
    let opp_tricks = state.tricks_won[opp.idx()];
    let self_score = state.score[mover.idx()];
    let opp_score = state.score[opp.idx()];
    proof {
        assert forall|m: int| 0 <= m < s.hand(mover).len() implies 0 + spec_canon_index(
            #[trigger] s.hand(mover)[m],
            trump,
        ) < INPUT_SIZE_V1 by {
            lemma_canon_index_roundtrip(s.hand(mover)[m], trump);
        }
    }
    mark_cards(out, 0, state.hand(mover), trump);
    let ghost o1 = out@;
    mark_played(out, state.trick_history.as_slice(), mover, trump);
    let ghost o2 = out@;
    mark_one(out, 99 + (state.trump.rank as usize - 1));
    let voids = opponent_voids(state, opp);
    let ghost o3 = out@;
    let mut k: usize = 0;
    while k < NUM_SUITS
        invariant
            k <= NUM_SUITS,
            out@.len() == INPUT_SIZE_V1,
            o3.len() == INPUT_SIZE_V1,
            trump < NUM_SUITS,
            trump == s.trump.suit,
            voids@ == spec_voids(s, opp),
            forall|j: int|
                0 <= j < INPUT_SIZE_V1 ==> #[trigger] out@[j] == (if exists|q: int|
                    0 <= q < k && #[trigger] voids@[q] && j - 110 == spec_canon_suit(
                        q as u8,
                        trump,
                    ) {
                    1u8
                } else {
                    o3[j]
                }),
        decreases NUM_SUITS - k,
    {
        proof {
            crate::encode::lemma_canon_suit_bijection(trump);
            assert(spec_canon_suit(k as u8, trump) < NUM_SUITS);
        }
        if voids[k] {
            mark_one(out, 110 + canon_suit(k as u8, trump));
        }
        k = k + 1;
    }
    let ghost o4 = out@;
    let led_at: usize = match state.led_card {
        Some(led) => {
            proof {
                lemma_canon_index_roundtrip(led, trump);
            }
            113 + canon_card_index(led, trump)
        },
        None => 113 + NUM_CARDS,
    };
    let a7 = 147 + if self_tricks < 13 { self_tricks as usize } else { 13 };
    let a8 = 161 + if opp_tricks < 13 { opp_tricks as usize } else { 13 };
    let a9 = 175 + (state.trick_num as usize - 1);
    let a10 = 188 + if self_score < 20 { self_score as usize } else { 20 };
    let a11 = 209 + if opp_score < 20 { opp_score as usize } else { 20 };
    mark_one(out, led_at);
    mark_one(out, a7);
    mark_one(out, a8);
    mark_one(out, a9);
    mark_one(out, a10);
    mark_one(out, a11);
    proof {
        assert forall|j: int| 0 <= j < INPUT_SIZE_V1 implies #[trigger] out@[j]
            == spec_encode_v1(s, mover)[j] by {
            let hit = j == led_at || j == a7 || j == a8 || j == a9 || j == a10 || j == a11;
            assert(out@[j] == (if hit { 1u8 } else { o4[j] }));
            assert(o2[j] == (if hot_played(s.trick_history, mover, true, trump, j - 33)
                || hot_played(s.trick_history, mover, false, trump, j - 66) {
                1u8
            } else {
                o1[j]
            }));
            assert(o1[j] == (if hot_card(s.hand(mover), trump, j) {
                1u8
            } else {
                0u8
            }));
            assert(hot_void(s, opp, j - 110) == exists|q: int|
                0 <= q < NUM_SUITS && #[trigger] voids@[q] && j - 110 == spec_canon_suit(
                    q as u8,
                    trump,
                ));
        }
    }
    assert(out@ =~= spec_encode_v1(s, mover));
}

} // verus!
