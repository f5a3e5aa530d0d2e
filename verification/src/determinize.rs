//! Determinization for information-set search: sample a concrete hidden world
//! consistent with the searcher's information set.
//!
//! The searcher knows its own hand, the trump, and the public play history
//! (hence every played card and every suit the opponent has shown void in). It
//! does not know the opponent's hand or which 6 cards are unused. A
//! determinization redeals those hidden cards: the opponent's hand (its public
//! size) plus the 6 unused, drawn from the unseen pool, with every unseen card
//! of an opponent-void suit forced into the unused pile.

use rand::rngs::StdRng;
use vstd::prelude::*;

use crate::encode::{
    canon_card_index, history_suits_ok, lemma_canon_index_roundtrip, lemma_real_card_roundtrip,
    opponent_voids, spec_real_card, spec_voids,
};
use crate::rules::{
    full_deck, lemma_id_injective, lemma_id_roundtrip, lemma_of_id_roundtrip, played_cards,
    fisher_yates, fisher_yates_draws, shuffle, sort_hand, sorted_cards, sorted_perm_of, Card, Player, State, StateModel,
    NUM_CARDS, NUM_SUITS,
};

verus! {

/// The searcher sees `c`: it is in the searcher's hand, was played this
/// round, or is the trump.
pub open spec fn seen_by(s: StateModel, searcher: Player, c: Card) -> bool {
    s.hand(searcher).contains(c) || played_cards(s.trick_history).contains(c) || c == s.trump
}

/// Selects the cards the searcher does not see.
pub open spec fn unseen_by(s: StateModel, searcher: Player) -> spec_fn(Card) -> bool {
    |c: Card| !seen_by(s, searcher, c)
}

/// Cards whose location is unknown to the searcher, in deck order.
pub open spec fn spec_unseen(s: StateModel, searcher: Player) -> Seq<Card> {
    full_deck().filter(unseen_by(s, searcher))
}

/// The searcher's hand, the history and the trump are cards of the deck.
pub open spec fn known_cards_valid(s: StateModel, searcher: Player) -> bool {
    &&& forall|m: int| 0 <= m < s.hand(searcher).len() ==> (#[trigger] s.hand(searcher)[m]).valid()
    &&& forall|m: int|
        0 <= m < s.trick_history.len() ==> (#[trigger] s.trick_history[m]).card.valid()
    &&& s.trump.valid()
}

/// Mark the deck positions of `cards` in `seen`.
fn mark_seen(seen: &mut [bool; 33], cards: &[Card])
    requires
        forall|m: int| 0 <= m < cards@.len() ==> (#[trigger] cards@[m]).valid(),
    ensures
        forall|i: int|
            0 <= i < NUM_CARDS ==> #[trigger] final(seen)@[i] == (old(seen)@[i] || cards@.contains(
                Card::of_id(i),
            )),
{
    let ghost init = seen@;
    let mut k: usize = 0;
    while k < cards.len()
        invariant
            k <= cards@.len(),
            forall|m: int| 0 <= m < cards@.len() ==> (#[trigger] cards@[m]).valid(),
            forall|i: int|
                0 <= i < NUM_CARDS ==> #[trigger] seen@[i] == (init[i] || cards@.take(
                    k as int,
                ).contains(Card::of_id(i))),
        decreases cards@.len() - k,
    {
        let c = cards[k];
        assert(cards@[k as int].valid());
        let ix = c.index();
        seen[ix] = true;
        proof {
            lemma_id_roundtrip(c);
            assert forall|i: int| 0 <= i < NUM_CARDS implies #[trigger] seen@[i] == (init[i]
                || cards@.take(k + 1).contains(Card::of_id(i))) by {
                let t0 = cards@.take(k as int);
                let t1 = cards@.take(k + 1);
                assert(t1[k as int] == c);
                if t0.contains(Card::of_id(i)) {
                    let m = choose|m: int| 0 <= m < t0.len() && t0[m] == Card::of_id(i);
                    assert(t1[m] == t0[m]);
                }
                if t1.contains(Card::of_id(i)) && i != ix {
                    let m = choose|m: int| 0 <= m < t1.len() && t1[m] == Card::of_id(i);
                    assert(m != k);
                    assert(t0[m] == t1[m]);
                }
            }
        }
        k = k + 1;
    }
    assert(cards@.take(cards@.len() as int) =~= cards@);
}

/// Which deck positions the searcher sees.
pub(crate) fn seen_mask(state: &State, searcher: Player) -> (seen: [bool; 33])
    requires
        known_cards_valid(state@, searcher),
    ensures
        forall|i: int|
            0 <= i < NUM_CARDS ==> #[trigger] seen@[i] == seen_by(state@, searcher, Card::of_id(i)),
{
    let mut seen = [false; 33];
    mark_seen(&mut seen, state.hand(searcher));
    let mut k: usize = 0;
    let ghost s0 = seen@;
    let hist = &state.trick_history;
    while k < hist.len()
        invariant
            k <= hist@.len(),
            hist@ == state@.trick_history,
            known_cards_valid(state@, searcher),
            forall|i: int|
                0 <= i < NUM_CARDS ==> #[trigger] seen@[i] == (s0[i] || played_cards(
                    hist@.take(k as int),
                ).contains(Card::of_id(i))),
        decreases hist@.len() - k,
    {
        let c = hist[k].card;
        assert(hist@[k as int].card.valid());
        let ix = c.index();
        seen[ix] = true;
        proof {
            lemma_id_roundtrip(c);
            assert forall|i: int| 0 <= i < NUM_CARDS implies #[trigger] seen@[i] == (s0[i]
                || played_cards(hist@.take(k + 1)).contains(Card::of_id(i))) by {
                let t0 = played_cards(hist@.take(k as int));
                let t1 = played_cards(hist@.take(k + 1));
                assert(t1[k as int] == c);
                if t0.contains(Card::of_id(i)) {
                    let m = choose|m: int| 0 <= m < t0.len() && t0[m] == Card::of_id(i);
                    assert(t1[m] == t0[m]);
                }
                if t1.contains(Card::of_id(i)) && i != ix {
                    let m = choose|m: int| 0 <= m < t1.len() && t1[m] == Card::of_id(i);
                    assert(m != k);
                    assert(t0[m] == t1[m]);
                }
            }
        }
        k = k + 1;
    }
    assert(hist@.take(hist@.len() as int) =~= hist@);
    let tix = state.trump.index();
    seen[tix] = true;
    proof {
        lemma_id_roundtrip(state.trump);
        assert forall|i: int| 0 <= i < NUM_CARDS implies #[trigger] seen@[i] == seen_by(
            state@,
            searcher,
            Card::of_id(i),
        ) by {
            lemma_of_id_roundtrip(i);
            if Card::of_id(i) == state.trump {
                assert(i == tix);
            }
        }
    }
    seen
}

/// Cards whose location is unknown to `searcher`: everything except the
/// searcher's current hand, every already-played card, and the revealed trump.
pub fn unseen_cards(state: &State, searcher: Player) -> (cards: Vec<Card>)
    requires
        known_cards_valid(state@, searcher),
    ensures
        cards@ == spec_unseen(state@, searcher),
{
    let seen = seen_mask(state, searcher);
    let ghost pred = unseen_by(state@, searcher);
    let mut out: Vec<Card> = Vec::new();
    let mut i: usize = 0;
    while i < NUM_CARDS
        invariant
            i <= NUM_CARDS,
            pred == unseen_by(state@, searcher),
            forall|j: int|
                0 <= j < NUM_CARDS ==> #[trigger] seen@[j] == seen_by(state@, searcher, Card::of_id(j)),
            out@ == full_deck().take(i as int).filter(pred),
        decreases NUM_CARDS - i,
    {
        proof {
            reveal_with_fuel(Seq::<_>::filter, 1);
            assert(full_deck().take(i + 1).drop_last() =~= full_deck().take(i as int));
            assert(full_deck().take(i + 1).last() == Card::of_id(i as int));
        }
        if !seen[i] {
            out.push(Card::from_index(i));
        }
        i = i + 1;
    }
    assert(full_deck().take(NUM_CARDS as int) =~= full_deck());
    out
}


/// Selects the cards outside the suits marked in `voids`.
pub open spec fn not_void(voids: Seq<bool>) -> spec_fn(Card) -> bool {
    |c: Card| !voids[c.suit as int]
}

/// Unseen cards the opponent may hold: those outside its shown voids, in deck
/// order.
pub open spec fn spec_free(s: StateModel, searcher: Player) -> Seq<Card> {
    spec_unseen(s, searcher).filter(not_void(spec_voids(s, searcher.opp())))
}

/// Unseen cards of opponent-void suits: these can only be unused.
pub open spec fn spec_forced_unused(s: StateModel, searcher: Player) -> int {
    spec_unseen(s, searcher).len() - spec_free(s, searcher).len()
}

/// The hidden cards can be redealt: the searcher's knowledge is made of deck
/// cards, the unseen pool is the opponent's hand plus the 6 unused cards, and
/// at most 6 unseen cards are of suits the opponent has shown void in.
pub open spec fn redealable(s: StateModel, searcher: Player) -> bool {
    &&& known_cards_valid(s, searcher)
    &&& spec_unseen(s, searcher).len() == s.hand(searcher.opp()).len() + 6
    &&& spec_forced_unused(s, searcher) <= 6
}

/// Split the unseen pool into the cards the opponent may hold (in deck order)
/// and the number of cards forced into the unused pile.
pub fn split_unseen(state: &State, searcher: Player) -> (res: (Vec<Card>, usize))
    requires
        known_cards_valid(state@, searcher),
    ensures
        res.0@ == spec_free(state@, searcher),
        res.1 == spec_forced_unused(state@, searcher),
{
    let opp = searcher.other();
    proof {
        assert(history_suits_ok(state@.trick_history)) by {
            assert forall|k: int| 0 <= k < state@.trick_history.len() implies #[trigger] state@.trick_history[k].card.suit < NUM_SUITS by {
                assert(state@.trick_history[k].card.valid());
            }
        }
    }
    let voids = opponent_voids(state, opp);
    let unseen = unseen_cards(state, searcher);
    let ghost pred = not_void(voids@);
    let mut free: Vec<Card> = Vec::with_capacity(unseen.len());
    let mut forced: usize = 0;
    let mut i: usize = 0;
    proof {
        lemma_unseen_valid();
    }
    while i < unseen.len()
        invariant
            i <= unseen@.len(),
            pred == not_void(voids@),
            voids@ == spec_voids(state@, opp),
            unseen@ == spec_unseen(state@, searcher),
            forall|m: int| 0 <= m < unseen@.len() ==> (#[trigger] unseen@[m]).valid(),
            free@ == unseen@.take(i as int).filter(pred),
            forced == i - free@.len(),
        decreases unseen@.len() - i,
    {
        let c = unseen[i];
        assert(unseen@[i as int].valid());
        proof {
            reveal_with_fuel(Seq::<_>::filter, 1);
            assert(unseen@.take(i + 1).drop_last() =~= unseen@.take(i as int));
            assert(unseen@.take(i + 1).last() == c);
        }
        if voids[c.suit as usize] {
            forced = forced + 1;
        } else {
            free.push(c);
        }
        i = i + 1;
    }
    assert(unseen@.take(unseen@.len() as int) =~= unseen@);
    (free, forced)
}

/// Every unseen card is a card of the deck.
pub proof fn lemma_unseen_valid()
    ensures
        forall|s: StateModel, searcher: Player, m: int|
            0 <= m < spec_unseen(s, searcher).len() ==> (#[trigger] spec_unseen(s, searcher)[m]).valid(),
{
    assert forall|s: StateModel, searcher: Player, m: int|
        0 <= m < spec_unseen(s, searcher).len() implies (#[trigger] spec_unseen(s, searcher)[m]).valid() by {
        let u = spec_unseen(s, searcher);
        full_deck().lemma_filter_contains_rev(unseen_by(s, searcher), u[m]);
        let i = choose|i: int| 0 <= i < full_deck().len() && full_deck()[i] == u[m];
        lemma_of_id_roundtrip(i);
    }
}

/// The state with the opponent's hand redealt from an already shuffled pool of
/// free cards: the cards past the first `n_unused_free` become its hand, in hand
/// order; everything else is kept.
pub fn deal_opponent(state: &State, searcher: Player, shuffled: &[Card], n_unused_free: usize) -> (s: State)
    requires
        n_unused_free <= shuffled@.len(),
    ensures
        s@ == state@.with_hand(searcher.opp(), s@.hand(searcher.opp())),
        sorted_perm_of(
            s@.hand(searcher.opp()),
            shuffled@.subrange(n_unused_free as int, shuffled@.len() as int),
        ),
{
    let opp = searcher.other();
    let mut opp_hand: Vec<Card> = Vec::with_capacity(shuffled.len() - n_unused_free);
    let mut k = n_unused_free;
    while k < shuffled.len()
        invariant
            n_unused_free <= k <= shuffled@.len(),
            opp_hand@ == shuffled@.subrange(n_unused_free as int, k as int),
        decreases shuffled@.len() - k,
    {
        opp_hand.push(shuffled[k]);
        k = k + 1;
        assert(opp_hand@ =~= shuffled@.subrange(n_unused_free as int, k as int));
    }
    sort_hand(opp_hand.as_mut_slice());
    let mut s = state.duplicate();
    s.set_hand(opp, opp_hand);
    proof {
        match opp {
            Player::Human => {},
            Player::Bot => {},
        }
    }
    s
}

/// Sample a full playable state consistent with `searcher`'s information set:
/// the searcher's hand, the trump and the history are kept; the opponent's hand
/// is redrawn from the unseen cards outside its shown voids (the 6 unused cards
/// are the remainder and are not stored).
pub fn determinize(state: &State, searcher: Player, rng: &mut StdRng) -> (s: State)
    requires
        redealable(state@, searcher),
    ensures
        s@ == state@.with_hand(searcher.opp(), s@.hand(searcher.opp())),
        sorted_cards(s@.hand(searcher.opp())),
        s@.hand(searcher.opp()).len() == state@.hand(searcher.opp()).len(),
        s@.hand(searcher.opp()).to_multiset().subset_of(spec_free(state@, searcher).to_multiset()),
        exists|draws: Seq<int>|
            fisher_yates_draws(draws, spec_free(state@, searcher).len() as int) && sorted_perm_of(
                #[trigger] s@.hand(searcher.opp()),
                fisher_yates(spec_free(state@, searcher), draws).subrange(
                    6 - spec_forced_unused(state@, searcher),
                    spec_free(state@, searcher).len() as int,
                ),
            ),
{
    let (mut free, forced_unused) = split_unseen(state, searcher);
    let n_unused_free = 6 - forced_unused;
    shuffle(free.as_mut_slice(), rng);
    let s = deal_opponent(state, searcher, free.as_slice(), n_unused_free);
    proof {
        broadcast use vstd::seq_lib::lemma_multiset_commutative;
        broadcast use vstd::seq_lib::to_multiset_len;
        broadcast use vstd::multiset::group_multiset_axioms;

        let f = free@;
        let a = f.subrange(0, n_unused_free as int);
        let b = f.subrange(n_unused_free as int, f.len() as int);
        assert(f =~= a + b);
        let h = s@.hand(searcher.opp());
        assert(h.to_multiset() == b.to_multiset());
        assert(f.to_multiset() == a.to_multiset().add(b.to_multiset()));
        assert(h.to_multiset().len() == b.to_multiset().len());
        assert(h.len() == b.len());
    }
    s
}

/// [`determinize`] into a caller-owned state.
pub fn determinize_into(state: &State, searcher: Player, rng: &mut StdRng, out: &mut State)
    requires
        redealable(state@, searcher),
    ensures
        final(out)@ == state@.with_hand(searcher.opp(), final(out)@.hand(searcher.opp())),
        sorted_cards(final(out)@.hand(searcher.opp())),
        final(out)@.hand(searcher.opp()).len() == state@.hand(searcher.opp()).len(),
        final(out)@.hand(searcher.opp()).to_multiset().subset_of(
            spec_free(state@, searcher).to_multiset(),
        ),
        exists|draws: Seq<int>|
            fisher_yates_draws(draws, spec_free(state@, searcher).len() as int) && sorted_perm_of(
                #[trigger] final(out)@.hand(searcher.opp()),
                fisher_yates(spec_free(state@, searcher), draws).subrange(
                    6 - spec_forced_unused(state@, searcher),
                    spec_free(state@, searcher).len() as int,
                ),
            ),
{
    *out = determinize(state, searcher, rng);
}


/// Opponent-hand belief target over canonical card slots, from the searcher's
/// point of view: 1 where the opponent holds the card, 0 where the card is
/// unseen but not held (it is unused), -1 where the searcher sees the card.
pub open spec fn spec_belief_target(s: StateModel, searcher: Player) -> Seq<i8> {
    Seq::new(
        NUM_CARDS as nat,
        |j: int|
            {
                let c = spec_real_card(j, s.trump.suit);
                if seen_by(s, searcher, c) {
                    -1i8
                } else if s.hand(searcher.opp()).contains(c) {
                    1i8
                } else {
                    0i8
                }
            },
    )
}

/// Sentinel-encoded opponent-hand belief target (the label for a belief head):
/// 1 = the opponent holds the card, 0 = unseen but unused, -1 = seen (masked).
pub fn opponent_belief_target(state: &State, searcher: Player) -> (tgt: Vec<i8>)
    requires
        known_cards_valid(state@, searcher),
        forall|m: int|
            0 <= m < state@.hand(searcher.opp()).len() ==> (#[trigger] state@.hand(
                searcher.opp(),
            )[m]).valid(),
    ensures
        tgt@ == spec_belief_target(state@, searcher),
{
    let opp = searcher.other();
    let trump = state.trump.suit;
    let seen = seen_mask(state, searcher);
    let mut opp_has = [false; 33];
    mark_seen(&mut opp_has, state.hand(opp));
    let mut tgt: Vec<i8> = Vec::with_capacity(NUM_CARDS);
    let mut n: usize = 0;
    while n < NUM_CARDS
        invariant
            n <= NUM_CARDS,
            tgt@.len() == n,
            forall|k: int| 0 <= k < n ==> tgt@[k] == -1i8,
        decreases NUM_CARDS - n,
    {
        tgt.push(-1);
        n = n + 1;
    }
    let ghost s = state@;
    let mut i: usize = 0;
    while i < NUM_CARDS
        invariant
            i <= NUM_CARDS,
            s == state@,
            trump == s.trump.suit,
            trump < NUM_SUITS,
            opp == searcher.opp(),
            tgt@.len() == NUM_CARDS,
            forall|j: int|
                0 <= j < NUM_CARDS ==> #[trigger] seen@[j] == seen_by(s, searcher, Card::of_id(j)),
            forall|j: int|
                0 <= j < NUM_CARDS ==> #[trigger] opp_has@[j] == s.hand(opp).contains(Card::of_id(j)),
            forall|j: int|
                0 <= j < NUM_CARDS ==> #[trigger] tgt@[j] == (if spec_real_card(j, trump).id() < i
                    && !seen_by(s, searcher, spec_real_card(j, trump)) {
                    spec_belief_target(s, searcher)[j]
                } else {
                    -1i8
                }),
        decreases NUM_CARDS - i,
    {
        if !seen[i] {
            let c = Card::from_index(i);
            proof {
                lemma_canon_index_roundtrip(c, trump);
            }
            let ci = canon_card_index(c, trump);
            tgt.set(ci, if opp_has[i] { 1 } else { 0 });
            proof {
                assert forall|j: int| 0 <= j < NUM_CARDS implies #[trigger] tgt@[j] == (if spec_real_card(j, trump).id() < i + 1
                    && !seen_by(s, searcher, spec_real_card(j, trump)) {
                    spec_belief_target(s, searcher)[j]
                } else {
                    -1i8
                }) by {
                    lemma_real_card_roundtrip(j, trump);
                    if j != ci {
                        if spec_real_card(j, trump).id() == i {
                            lemma_of_id_roundtrip(i as int);
                            lemma_id_injective(spec_real_card(j, trump), c);
                        }
                    }
                }
            }
        } else {
            proof {
                assert forall|j: int| 0 <= j < NUM_CARDS implies #[trigger] tgt@[j] == (if spec_real_card(j, trump).id() < i + 1
                    && !seen_by(s, searcher, spec_real_card(j, trump)) {
                    spec_belief_target(s, searcher)[j]
                } else {
                    -1i8
                }) by {
                    lemma_real_card_roundtrip(j, trump);
                    if spec_real_card(j, trump).id() == i {
                        lemma_of_id_roundtrip(i as int);
                        lemma_id_injective(spec_real_card(j, trump), Card::of_id(i as int));
                    }
                }
            }
        }
        i = i + 1;
    }
    proof {
        assert forall|j: int| 0 <= j < NUM_CARDS implies #[trigger] tgt@[j] == spec_belief_target(s, searcher)[j] by {
            lemma_real_card_roundtrip(j, trump);
        }
    }
    assert(tgt@ =~= spec_belief_target(s, searcher));
    tgt
}

} // verus!
