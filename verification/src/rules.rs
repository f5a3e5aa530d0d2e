//! Fox in the Forest Lite rules: two players, a 33-card deck (3 suits x ranks
//! 1..=11), 13 cards per hand, one trump revealed, 6 unused. Plain tricks, trump
//! beats the led suit, first to 21 match points.

use rand::rngs::StdRng;
use vstd::multiset::Multiset;
use vstd::prelude::*;

use crate::chance::random_index_upto;

verus! {

pub const NUM_SUITS: usize = 3;
pub const NUM_RANKS: usize = 11;
pub const NUM_CARDS: usize = 33;
pub const TARGET_SCORE: u32 = 21;
pub const TRICKS_PER_ROUND: u32 = 13;

/// The two seats. `Human` is seat 0, `Bot` is seat 1.
#[derive(Clone, Copy, PartialEq, Eq, Debug, Structural)]
pub enum Player {
    Human,
    Bot,
}

impl Player {
    /// Seat number of the player.
    pub open spec fn seat(self) -> int {
        match self {
            Player::Human => 0,
            Player::Bot => 1,
        }
    }

    /// The other seat.
    pub open spec fn opp(self) -> Player {
        match self {
            Player::Human => Player::Bot,
            Player::Bot => Player::Human,
        }
    }

    pub fn idx(self) -> (r: usize)
        ensures
            r == self.seat(),
    {
        match self {
            Player::Human => 0,
            Player::Bot => 1,
        }
    }

    pub fn other(self) -> (r: Player)
        ensures
            r == self.opp(),
    {
        match self {
            Player::Human => Player::Bot,
            Player::Bot => Player::Human,
        }
    }
}


/// Phases of play.
#[derive(Clone, Copy, PartialEq, Eq, Debug, Structural)]
pub enum Phase {
    Playing,
    TrickComplete,
    RoundOver,
    MatchOver,
}

/// A card: `suit` in 0..3 (bells, keys, moons), `rank` in 1..=11.
#[derive(Clone, Copy, PartialEq, Eq, Debug, Structural)]
pub struct Card {
    pub suit: u8,
    pub rank: u8,
}

impl Card {
    /// A card of the deck.
    pub open spec fn valid(self) -> bool {
        self.suit < NUM_SUITS && 1 <= self.rank <= NUM_RANKS
    }

    /// Position of the card in deck order (suit-outer, rank-inner).
    pub open spec fn id(self) -> int {
        self.suit * NUM_RANKS + self.rank - 1
    }

    /// The card at position `i` of deck order.
    pub open spec fn of_id(i: int) -> Card {
        Card { suit: (i / NUM_RANKS as int) as u8, rank: (i % NUM_RANKS as int + 1) as u8 }
    }

    pub fn new(suit: u8, rank: u8) -> (c: Card)
        requires
            suit < NUM_SUITS,
            1 <= rank <= NUM_RANKS,
        ensures
            c == (Card { suit, rank }),
            c.valid(),
    {
        Card { suit, rank }
    }

    /// Deck-order index: bells-1 = 0 .. moons-11 = 32.
    pub fn index(self) -> (i: usize)
        requires
            1 <= self.rank,
        ensures
            i == self.id(),
            self.valid() ==> i < NUM_CARDS,
    {
        self.suit as usize * NUM_RANKS + (self.rank as usize - 1)
    }

    pub fn from_index(i: usize) -> (c: Card)
        requires
            i < NUM_CARDS,
        ensures
            c == Card::of_id(i as int),
            c.valid(),
            c.id() == i,
    {
        Card { suit: (i / NUM_RANKS) as u8, rank: (i % NUM_RANKS) as u8 + 1 }
    }
}

/// Every position of deck order names a valid card and comes back unchanged.
pub proof fn lemma_of_id_roundtrip(i: int)
    requires
        0 <= i < NUM_CARDS,
    ensures
        Card::of_id(i).valid(),
        Card::of_id(i).id() == i,
{
}

/// Every valid card is the card at its own position in deck order.
pub proof fn lemma_id_roundtrip(c: Card)
    requires
        c.valid(),
    ensures
        0 <= c.id() < NUM_CARDS,
        Card::of_id(c.id()) == c,
{
}

/// Two valid cards share a deck position only if they are the same card.
pub proof fn lemma_id_injective(a: Card, b: Card)
    requires
        a.valid(),
        b.valid(),
        a.id() == b.id(),
    ensures
        a == b,
{
    lemma_id_roundtrip(a);
    lemma_id_roundtrip(b);
}

/// One half-move in the current round's history (resets each round).
#[derive(Clone, Copy, Debug)]
pub struct PlayEvent {
    pub trick: u32,
    pub player: Player,
    pub card: Card,
}

/// Which side of the current trick won.
#[derive(Clone, Copy, PartialEq, Eq, Debug, Structural)]
pub enum Side {
    Lead,
    Follow,
}

/// The full deck in deck order.
pub open spec fn full_deck() -> Seq<Card> {
    Seq::new(NUM_CARDS as nat, |i: int| Card::of_id(i))
}

/// All 33 cards in canonical order.
pub fn create_deck() -> (deck: Vec<Card>)
    ensures
        deck@ == full_deck(),
{
    let mut deck: Vec<Card> = Vec::with_capacity(NUM_CARDS);
    let mut suit: u8 = 0;
    while suit < NUM_SUITS as u8
        invariant
            suit <= NUM_SUITS,
            deck@.len() == suit * NUM_RANKS,
            forall|i: int| 0 <= i < deck@.len() ==> deck@[i] == Card::of_id(i),
        decreases NUM_SUITS - suit,
    {
        let mut rank: u8 = 1;
        while rank <= NUM_RANKS as u8
            invariant
                suit < NUM_SUITS,
                1 <= rank <= NUM_RANKS + 1,
                deck@.len() == suit * NUM_RANKS + rank - 1,
                forall|i: int| 0 <= i < deck@.len() ==> deck@[i] == Card::of_id(i),
            decreases NUM_RANKS + 1 - rank,
        {
            proof {
                let k = suit * NUM_RANKS + rank - 1;
                assert(k / 11 == suit && k % 11 == rank - 1) by (nonlinear_arith)
                    requires
                        k == suit * 11 + rank - 1,
                        1 <= rank <= 11,
                ;
            }
            deck.push(Card::new(suit, rank));
            rank = rank + 1;
        }
        suit = suit + 1;
    }
    assert(deck@ =~= full_deck());
    deck
}

/// Hand order: by suit, then by rank.
pub open spec fn card_le(a: Card, b: Card) -> bool {
    a.suit < b.suit || (a.suit == b.suit && a.rank <= b.rank)
}

/// A sequence of cards in hand order.
pub open spec fn sorted_cards(s: Seq<Card>) -> bool {
    forall|i: int, j: int| 0 <= i < j < s.len() ==> card_le(s[i], s[j])
}

/// `h` holds exactly the cards of `src`, in hand order.
pub open spec fn sorted_perm_of(h: Seq<Card>, src: Seq<Card>) -> bool {
    sorted_cards(h) && h.to_multiset() == src.to_multiset()
}

/// Exchange two positions of a slice of cards.
fn swap_cards(s: &mut [Card], i: usize, j: usize)
    requires
        i < old(s)@.len(),
        j < old(s)@.len(),
    ensures
        final(s)@ == old(s)@.update(i as int, old(s)@[j as int]).update(j as int, old(s)@[i as int]),
        final(s)@.to_multiset() == old(s)@.to_multiset(),
{
    let a = s[i];
    let b = s[j];
    s[i] = b;
    s[j] = a;
    proof {
        broadcast use vstd::seq_lib::to_multiset_update;
        broadcast use vstd::multiset::group_multiset_axioms;

        let s0 = old(s)@;
        let s1 = s0.update(i as int, b);
        assert(s1.to_multiset() == s0.to_multiset().insert(b).remove(a));
        assert(s1[j as int] == b);
        assert(s1.update(j as int, a).to_multiset() == s1.to_multiset().insert(a).remove(b));
        broadcast use vstd::seq_lib::to_multiset_contains;
        assert(s0[i as int] == a);
        assert(s0.contains(a));
        assert(s0.to_multiset().count(a) > 0);
        assert(s1.update(j as int, a).to_multiset() =~= s0.to_multiset());
    }
}

/// Sort by (suit, rank).
pub fn sort_hand(hand: &mut [Card])
    ensures
        sorted_perm_of(final(hand)@, old(hand)@),
{
    let n = hand.len();
    let mut i: usize = 1;
    if n == 0 {
        return;
    }
    while i < n
        invariant
            1 <= i <= n,
            n == hand@.len(),
            hand@.to_multiset() == old(hand)@.to_multiset(),
            sorted_cards(hand@.take(i as int)),
        decreases n - i,
    {
        let mut j: usize = i;
        assert forall|a: int, b: int| 0 <= a < b < i implies #[trigger] card_le(
            hand@[a],
            hand@[b],
        ) by {
            assert(hand@.take(i as int)[a] == hand@[a]);
            assert(hand@.take(i as int)[b] == hand@[b]);
        }
        while j > 0 && !card_le_exec(hand[j - 1], hand[j])
            invariant
                1 <= i < n,
                j <= i,
                n == hand@.len(),
                hand@.to_multiset() == old(hand)@.to_multiset(),
                forall|a: int, b: int|
                    0 <= a < b <= i && a != j && b != j ==> card_le(hand@[a], hand@[b]),
                forall|b: int| j < b <= i ==> card_le(hand@[j as int], hand@[b]),
            decreases j,
        {
            swap_cards(hand, j - 1, j);
            j = j - 1;
        }
        assert forall|a: int, b: int| 0 <= a < b <= i implies #[trigger] card_le(
            hand@[a],
            hand@[b],
        ) by {
            if b == j && a < j - 1 {
                assert(card_le(hand@[a], hand@[j - 1]));
            }
        }
        assert(sorted_cards(hand@.take(i + 1)));
        i = i + 1;
    }
    assert(hand@.take(n as int) =~= hand@);
}

fn card_le_exec(a: Card, b: Card) -> (r: bool)
    ensures
        r == card_le(a, b),
{
    a.suit < b.suit || (a.suit == b.suit && a.rank <= b.rank)
}

/// `s` with positions `i` and `j` exchanged.
pub open spec fn swapped(s: Seq<Card>, i: int, j: int) -> Seq<Card> {
    s.update(i, s[j]).update(j, s[i])
}

/// The Fisher-Yates steps at positions `n - 1` down to `i`, applied to `s`:
/// the step at position `k` exchanges it with position `draws[k]`.
pub open spec fn fisher_yates_from(s: Seq<Card>, draws: Seq<int>, n: int, i: int) -> Seq<Card>
    decreases n - i,
{
    if i >= n {
        s
    } else {
        swapped(fisher_yates_from(s, draws, n, i + 1), i, draws[i])
    }
}

/// The Fisher-Yates shuffle of `s` under `draws`: walking down from the last
/// position to position 1, each position is exchanged with the drawn one.
pub open spec fn fisher_yates(s: Seq<Card>, draws: Seq<int>) -> Seq<Card> {
    fisher_yates_from(s, draws, s.len() as int, 1)
}

/// Draws a Fisher-Yates shuffle of `n` positions can make: the draw at
/// position `k` (from 1 up) is one of the positions `0..=k`.
pub open spec fn fisher_yates_draws(draws: Seq<int>, n: int) -> bool {
    &&& draws.len() == n
    &&& forall|k: int| 1 <= k < n ==> 0 <= #[trigger] draws[k] <= k
}

/// The steps at positions `i` and up read only the draws there.
proof fn lemma_fisher_yates_frame(s: Seq<Card>, d: Seq<int>, e: Seq<int>, n: int, i: int)
    requires
        forall|k: int| i <= k < n ==> d[k] == e[k],
    ensures
        fisher_yates_from(s, d, n, i) == fisher_yates_from(s, e, n, i),
    decreases n - i,
{
    if i < n {
        lemma_fisher_yates_frame(s, d, e, n, i + 1);
    }
}

/// Fisher-Yates shuffle, walking down from the last position: the deck comes
/// out as the Fisher-Yates shuffle of its cards under the draws made, each
/// draw picking a position at or below the one being filled. Which draws come
/// rests on the generator.
pub(crate) fn shuffle(deck: &mut [Card], rng: &mut StdRng)
    ensures
        final(deck)@.len() == old(deck)@.len(),
        final(deck)@.to_multiset() == old(deck)@.to_multiset(),
        exists|draws: Seq<int>|
            fisher_yates_draws(draws, old(deck)@.len() as int) && final(deck)@ == #[trigger] fisher_yates(
                old(deck)@,
                draws,
            ),
{
    let ghost s0 = deck@;
    let ghost n = deck@.len() as int;
    let ghost mut ds: Seq<int> = Seq::new(n as nat, |k: int| k);
    let mut i: usize = deck.len();
    while i > 1
        invariant
            i <= deck@.len(),
            deck@.len() == old(deck)@.len(),
            deck@.to_multiset() == old(deck)@.to_multiset(),
            s0 == old(deck)@,
            n == s0.len(),
            fisher_yates_draws(ds, n),
            deck@ == fisher_yates_from(s0, ds, n, i as int),
            i >= 1 || n == 0,
        decreases i,
    {
        i = i - 1;
        let j = random_index_upto(rng, i);
        let ghost before = deck@;
        let ghost ds0 = ds;
        proof {
            ds = ds.update(i as int, j as int);
            lemma_fisher_yates_frame(s0, ds0, ds, n, i + 1);
        }
        swap_cards(deck, i, j);
        proof {
            assert(deck@ =~= swapped(before, i as int, j as int));
            assert(fisher_yates_from(s0, ds, n, i as int) == swapped(
                fisher_yates_from(s0, ds, n, i + 1),
                i as int,
                ds[i as int],
            ));
        }
    }
    proof {
        if n == 0 {
            assert(fisher_yates(s0, ds) == s0);
        } else {
            assert(i == 1);
        }
        assert(deck@ == fisher_yates(s0, ds));
    }
}

/// Copy the positions `lo..hi` of a slice of cards.
fn copy_range(src: &[Card], lo: usize, hi: usize) -> (out: Vec<Card>)
    requires
        lo <= hi <= src@.len(),
    ensures
        out@ == src@.subrange(lo as int, hi as int),
{
    let mut out: Vec<Card> = Vec::with_capacity(hi - lo);
    let mut k = lo;
    while k < hi
        invariant
            lo <= k <= hi,
            hi <= src@.len(),
            out@ == src@.subrange(lo as int, k as int),
        decreases hi - k,
    {
        out.push(src[k]);
        k = k + 1;
        assert(out@ =~= src@.subrange(lo as int, k as int));
    }
    out
}

/// Round 1 is led by `Human`; the leader alternates thereafter.
pub open spec fn spec_initial_leader(round_num: u32) -> Player {
    if round_num % 2 == 1 {
        Player::Human
    } else {
        Player::Bot
    }
}

pub fn initial_leader_for(round_num: u32) -> (p: Player)
    ensures
        p == spec_initial_leader(round_num),
{
    if round_num % 2 == 1 {
        Player::Human
    } else {
        Player::Bot
    }
}

/// Trick resolution: a trump beats a non-trump; otherwise a card off the led
/// suit loses, and within one suit the higher rank wins (ties go to the lead).
pub open spec fn spec_trick_winner(led: Card, follow: Card, trump_suit: u8) -> Side {
    let lead_is_trump = led.suit == trump_suit;
    let follow_is_trump = follow.suit == trump_suit;
    if lead_is_trump && !follow_is_trump {
        Side::Lead
    } else if !lead_is_trump && follow_is_trump {
        Side::Follow
    } else if follow.suit != led.suit {
        Side::Lead
    } else if follow.rank > led.rank {
        Side::Follow
    } else {
        Side::Lead
    }
}

pub fn trick_winner(led: Card, follow: Card, trump_suit: u8) -> (s: Side)
    ensures
        s == spec_trick_winner(led, follow, trump_suit),
{
    let lead_is_trump = led.suit == trump_suit;
    let follow_is_trump = follow.suit == trump_suit;
    if lead_is_trump && !follow_is_trump {
        return Side::Lead;
    }
    if !lead_is_trump && follow_is_trump {
        return Side::Follow;
    }
    if follow.suit != led.suit {
        return Side::Lead;
    }
    if follow.rank > led.rank {
        Side::Follow
    } else {
        Side::Lead
    }
}

/// Lite per-round points: 0-3 and 7-9 tricks score 6, 4 -> 1, 5 -> 2, 6 -> 3,
/// 10-13 score nothing.
pub open spec fn spec_score_for_tricks(n: u32) -> u32 {
    if n <= 3 {
        6
    } else if n == 4 {
        1
    } else if n == 5 {
        2
    } else if n == 6 {
        3
    } else if n <= 9 {
        6
    } else {
        0
    }
}

pub fn score_for_tricks(n: u32) -> (pts: u32)
    ensures
        pts == spec_score_for_tricks(n),
{
    if n <= 3 {
        6
    } else if n == 4 {
        1
    } else if n == 5 {
        2
    } else if n == 6 {
        3
    } else if n <= 9 {
        6
    } else {
        0
    }
}

/// Selects the cards of one suit.
pub open spec fn of_suit(suit: u8) -> spec_fn(Card) -> bool {
    |c: Card| c.suit == suit
}

/// Legal moves: anything when leading; otherwise the cards of the led suit, or
/// the whole hand when void in it.
pub open spec fn spec_legal_moves(hand: Seq<Card>, led_card: Option<Card>) -> Seq<Card> {
    match led_card {
        None => hand,
        Some(led) => {
            let same = hand.filter(of_suit(led.suit));
            if same.len() == 0 {
                hand
            } else {
                same
            }
        },
    }
}

/// Legal moves for a hand given the led card (must follow suit if able).
pub fn legal_moves(hand: &[Card], led_card: Option<Card>) -> (moves: Vec<Card>)
    ensures
        moves@ == spec_legal_moves(hand@, led_card),
{
    match led_card {
        None => vstd::slice::slice_to_vec(hand),
        Some(led) => {
            let mut same: Vec<Card> = Vec::new();
            let mut i: usize = 0;
            while i < hand.len()
                invariant
                    i <= hand@.len(),
                    same@ == hand@.take(i as int).filter(of_suit(led.suit)),
                decreases hand@.len() - i,
            {
                let c = hand[i];
                proof {
                    reveal_with_fuel(Seq::<_>::filter, 1);
                    assert(hand@.take(i + 1).drop_last() =~= hand@.take(i as int));
                    assert(hand@.take(i + 1).last() == c);
                }
                if c.suit == led.suit {
                    same.push(c);
                }
                i = i + 1;
            }
            assert(hand@.take(hand@.len() as int) =~= hand@);
            if same.len() == 0 {
                vstd::slice::slice_to_vec(hand)
            } else {
                same
            }
        },
    }
}


/// The cards of a play history, in play order.
pub open spec fn played_cards(h: Seq<PlayEvent>) -> Seq<Card> {
    h.map_values(|e: PlayEvent| e.card)
}

/// First position of `c` in `s` (meaningful when `s` contains `c`).
pub open spec fn first_index(s: Seq<Card>, c: Card) -> int {
    choose|i: int| 0 <= i < s.len() && s[i] == c && forall|j: int| 0 <= j < i ==> s[j] != c
}

/// The first position of `c` in `s`, exactly as `first_index` names it.
pub proof fn lemma_first_index(s: Seq<Card>, c: Card, i: int)
    requires
        0 <= i < s.len(),
        s[i] == c,
        forall|j: int| 0 <= j < i ==> s[j] != c,
    ensures
        first_index(s, c) == i,
{
    let k = first_index(s, c);
    assert(0 <= k < s.len() && s[k] == c && forall|j: int| 0 <= j < k ==> s[j] != c);
    if k < i {
        assert(s[k] != c);
    } else if k > i {
        assert(s[i] != c);
    }
}

/// A sequence that holds `c` has a first position of it.
pub proof fn lemma_first_index_exists(s: Seq<Card>, c: Card)
    requires
        s.contains(c),
    ensures
        0 <= first_index(s, c) < s.len(),
        s[first_index(s, c)] == c,
        forall|j: int| 0 <= j < first_index(s, c) ==> s[j] != c,
{
    let i = choose|i: int| 0 <= i < s.len() && s[i] == c;
    let m = lemma_min_position(s, c, i);
    lemma_first_index(s, c, m);
}

proof fn lemma_min_position(s: Seq<Card>, c: Card, i: int) -> (m: int)
    requires
        0 <= i < s.len(),
        s[i] == c,
    ensures
        0 <= m <= i,
        s[m] == c,
        forall|j: int| 0 <= j < m ==> s[j] != c,
    decreases i,
{
    if exists|j: int| 0 <= j < i && s[j] == c {
        let j = choose|j: int| 0 <= j < i && s[j] == c;
        lemma_min_position(s, c, j)
    } else {
        i
    }
}

/// Position of the first copy of `card` in `hand`.
fn position_of(hand: &[Card], card: Card) -> (pos: usize)
    requires
        hand@.contains(card),
    ensures
        pos < hand@.len(),
        pos == first_index(hand@, card),
{
    let mut i: usize = 0;
    while i < hand.len()
        invariant
            i <= hand@.len(),
            hand@.contains(card),
            forall|j: int| 0 <= j < i ==> hand@[j] != card,
        decreases hand@.len() - i,
    {
        if hand[i] == card {
            proof {
                lemma_first_index(hand@, card, i as int);
            }
            return i;
        }
        i = i + 1;
    }
    proof {
        let k = choose|k: int| 0 <= k < hand@.len() && hand@[k] == card;
        assert(hand@[k] != card);
    }
    0
}

/// The mathematical state of a match, as the state's fields hold it.
#[verifier::ext_equal]
pub struct StateModel {
    pub human_hand: Seq<Card>,
    pub bot_hand: Seq<Card>,
    pub trump: Card,
    pub leader: Player,
    pub led_card: Option<Card>,
    pub awaiting: Option<Player>,
    pub tricks_won: Seq<u32>,
    pub score: Seq<u32>,
    pub round_num: u32,
    pub trick_num: u32,
    pub phase: Phase,
    pub trick_history: Seq<PlayEvent>,
}

impl StateModel {
    /// The hand of a seat.
    pub open spec fn hand(self, p: Player) -> Seq<Card> {
        match p {
            Player::Human => self.human_hand,
            Player::Bot => self.bot_hand,
        }
    }

    /// The same state with the hand of `p` replaced.
    pub open spec fn with_hand(self, p: Player, h: Seq<Card>) -> StateModel {
        match p {
            Player::Human => StateModel { human_hand: h, ..self },
            Player::Bot => StateModel { bot_hand: h, ..self },
        }
    }

    /// Tricks won by a seat this round.
    pub open spec fn tricks(self, p: Player) -> u32 {
        self.tricks_won[p.seat()]
    }

    /// Match points of a seat.
    pub open spec fn points(self, p: Player) -> u32 {
        self.score[p.seat()]
    }

    /// Legal moves of the seat to move.
    pub open spec fn legal(self) -> Seq<Card> {
        spec_legal_moves(self.hand(self.awaiting.unwrap()), self.led_card)
    }

    /// Who takes the current trick when the seat to move follows with `card`.
    pub open spec fn taker(self, card: Card) -> Player {
        match self.led_card {
            Some(led) => match spec_trick_winner(led, card, self.trump.suit) {
                Side::Lead => self.leader,
                Side::Follow => self.awaiting.unwrap(),
            },
            None => self.awaiting.unwrap(),
        }
    }

    /// The state after the seat to move plays `card`: the first copy of the card
    /// leaves the hand and is recorded; a lead waits for the follower, a follow
    /// completes the trick, credits its taker, and makes the taker the leader.
    pub open spec fn after_play(self, card: Card) -> StateModel {
        let p = self.awaiting.unwrap();
        let hand = self.hand(p).remove(first_index(self.hand(p), card));
        let event = PlayEvent { trick: self.trick_num, player: p, card };
        let base = StateModel {
            trick_history: self.trick_history.push(event),
            ..self.with_hand(p, hand)
        };
        match self.led_card {
            None => StateModel { led_card: Some(card), awaiting: Some(p.opp()), ..base },
            Some(_) => {
                let w = self.taker(card);
                StateModel {
                    tricks_won: self.tricks_won.update(w.seat(), (self.tricks(w) + 1) as u32),
                    led_card: None,
                    awaiting: None,
                    leader: w,
                    phase: Phase::TrickComplete,
                    ..base
                }
            },
        }
    }

    /// Tricks taken so far this round by both seats together.
    pub open spec fn trick_sum(self) -> int {
        self.tricks(Player::Human) + self.tricks(Player::Bot)
    }

    /// Every card the state holds: both hands, the cards played this round, and
    /// the trump.
    pub open spec fn card_pool(self) -> Multiset<Card> {
        self.human_hand.to_multiset().add(self.bot_hand.to_multiset()).add(
            played_cards(self.trick_history).to_multiset(),
        ).insert(self.trump)
    }

    /// Each card of the pool is a card of the deck and occurs once.
    pub open spec fn cards_ok(self) -> bool {
        forall|c: Card| #[trigger]
            self.card_pool().count(c) > 0 ==> c.valid() && self.card_pool().count(c) == 1
    }

    /// Where a round stands: hand sizes, history length, trick count and the
    /// seat to move all agree with the phase and the trick number.
    pub open spec fn shape_ok(self) -> bool {
        let tn = self.trick_num as int;
        &&& self.tricks_won.len() == 2
        &&& self.score.len() == 2
        &&& match self.phase {
            Phase::Playing => {
                &&& 1 <= tn <= TRICKS_PER_ROUND
                &&& self.trick_sum() == tn - 1
                &&& match self.led_card {
                    None => {
                        &&& self.awaiting == Some(self.leader)
                        &&& self.human_hand.len() == 14 - tn
                        &&& self.bot_hand.len() == 14 - tn
                        &&& self.trick_history.len() == 2 * (tn - 1)
                    },
                    Some(l) => {
                        &&& self.awaiting == Some(self.leader.opp())
                        &&& self.hand(self.leader).len() == 13 - tn
                        &&& self.hand(self.leader.opp()).len() == 14 - tn
                        &&& self.trick_history.len() == 2 * tn - 1
                        &&& self.trick_history.last() == (PlayEvent {
                            trick: self.trick_num,
                            player: self.leader,
                            card: l,
                        })
                    },
                }
            },
            Phase::TrickComplete => {
                &&& 1 <= tn <= TRICKS_PER_ROUND
                &&& self.trick_sum() == tn
                &&& self.led_card is None
                &&& self.awaiting is None
                &&& self.human_hand.len() == 13 - tn
                &&& self.bot_hand.len() == 13 - tn
                &&& self.trick_history.len() == 2 * tn
            },
            _ => {
                &&& tn == TRICKS_PER_ROUND + 1
                &&& self.trick_sum() == TRICKS_PER_ROUND
                &&& self.led_card is None
                &&& self.awaiting is None
                &&& self.human_hand.len() == 0
                &&& self.bot_hand.len() == 0
                &&& self.trick_history.len() == 2 * TRICKS_PER_ROUND
            },
        }
    }

    /// A state reachable in play: well-shaped, with 27 distinct cards of the deck.
    pub open spec fn round_ok(self) -> bool {
        self.shape_ok() && self.cards_ok()
    }

    /// The state past a completed trick (unchanged in any other phase).
    pub open spec fn settled(self) -> StateModel {
        if self.phase == Phase::TrickComplete {
            self.after_trick()
        } else {
            self
        }
    }

    /// Points a seat scores for the tricks it took this round.
    pub open spec fn round_points(self, p: Player) -> u32 {
        spec_score_for_tricks(self.tricks(p))
    }

    /// Match points of a seat once this round's points are added.
    pub open spec fn points_after_round(self, p: Player) -> int {
        self.points(p) + self.round_points(p)
    }

    /// Match score once this round's points are added.
    pub open spec fn score_after_round(self) -> Seq<u32> {
        seq![
            self.points_after_round(Player::Human) as u32,
            self.points_after_round(Player::Bot) as u32,
        ]
    }

    /// This round's points bring a seat to the target.
    pub open spec fn round_ends_match(self) -> bool {
        self.points_after_round(Player::Human) >= TARGET_SCORE
            || self.points_after_round(Player::Bot) >= TARGET_SCORE
    }

    /// Winner of a finished match: the higher total; a tie goes to whoever scored
    /// more in the final round, and to `Bot` when that ties too.
    pub open spec fn winner(self) -> Option<Player> {
        if self.phase != Phase::MatchOver {
            None
        } else if self.points(Player::Human) > self.points(Player::Bot) {
            Some(Player::Human)
        } else if self.points(Player::Bot) > self.points(Player::Human) {
            Some(Player::Bot)
        } else if self.round_points(Player::Human) > self.round_points(Player::Bot) {
            Some(Player::Human)
        } else {
            Some(Player::Bot)
        }
    }

    /// The state after a completed trick: the next trick (led by the taker of the
    /// last one), or the end of the round after the thirteenth.
    pub open spec fn after_trick(self) -> StateModel {
        let next = (self.trick_num + 1) as u32;
        if next > TRICKS_PER_ROUND {
            StateModel { trick_num: next, awaiting: None, phase: Phase::RoundOver, ..self }
        } else {
            StateModel {
                trick_num: next,
                awaiting: Some(self.leader),
                phase: Phase::Playing,
                ..self
            }
        }
    }
}

#[derive(Clone, Debug)]
pub struct State {
    pub human_hand: Vec<Card>,
    pub bot_hand: Vec<Card>,
    pub trump: Card,
    pub leader: Player,
    pub led_card: Option<Card>,
    pub awaiting: Option<Player>,
    pub tricks_won: [u32; 2],
    pub score: [u32; 2],
    pub round_num: u32,
    pub trick_num: u32,
    pub phase: Phase,
    pub trick_history: Vec<PlayEvent>,
}

impl View for State {
    type V = StateModel;

    open spec fn view(&self) -> StateModel {
        StateModel {
            human_hand: self.human_hand@,
            bot_hand: self.bot_hand@,
            trump: self.trump,
            leader: self.leader,
            led_card: self.led_card,
            awaiting: self.awaiting,
            tricks_won: self.tricks_won@,
            score: self.score@,
            round_num: self.round_num,
            trick_num: self.trick_num,
            phase: self.phase,
            trick_history: self.trick_history@,
        }
    }
}

impl State {
    /// A round set up from a recorded deal: nothing played yet, `leader` to lead.
    pub open spec fn spec_setup(
        round_num: u32,
        score: Seq<u32>,
        human_hand: Seq<Card>,
        bot_hand: Seq<Card>,
        trump: Card,
        leader: Player,
    ) -> StateModel {
        StateModel {
            human_hand,
            bot_hand,
            trump,
            leader,
            led_card: None,
            awaiting: Some(leader),
            tricks_won: seq![0u32, 0u32],
            score,
            round_num,
            trick_num: 1,
            phase: Phase::Playing,
            trick_history: Seq::empty(),
        }
    }

    /// Construct a round directly from a recorded deal.
    pub fn from_round_setup(
        round_num: u32,
        score: [u32; 2],
        human_hand: Vec<Card>,
        bot_hand: Vec<Card>,
        trump: Card,
        leader: Player,
    ) -> (s: State)
        ensures
            s@ == State::spec_setup(round_num, score@, human_hand@, bot_hand@, trump, leader),
    {
        let s = State {
            human_hand,
            bot_hand,
            trump,
            leader,
            led_card: None,
            awaiting: Some(leader),
            tricks_won: [0, 0],
            score,
            round_num,
            trick_num: 1,
            phase: Phase::Playing,
            trick_history: Vec::new(),
        };
        assert(s@.tricks_won =~= seq![0u32, 0u32]);
        assert(s@ =~= State::spec_setup(round_num, score@, human_hand@, bot_hand@, trump, leader));
        s
    }

    /// The round dealt from `deck`: positions 0..13 to `Human`, 13..26 to `Bot`
    /// (each hand sorted), position 26 is the trump, the round's first leader
    /// leads, nothing played yet.
    pub open spec fn is_deal_of(s: StateModel, round_num: u32, score: Seq<u32>, deck: Seq<Card>) -> bool {
        &&& sorted_perm_of(s.human_hand, deck.subrange(0, 13))
        &&& sorted_perm_of(s.bot_hand, deck.subrange(13, 26))
        &&& s == State::spec_setup(
            round_num,
            score,
            s.human_hand,
            s.bot_hand,
            deck[26],
            spec_initial_leader(round_num),
        )
    }

    /// A deck holding each card of the game once, in any order.
    pub open spec fn is_shuffled_deck(deck: Seq<Card>) -> bool {
        deck.to_multiset() == full_deck().to_multiset()
    }

    /// Deal a round from an already shuffled deck.
    pub fn deal_from_deck(round_num: u32, score: [u32; 2], deck: &[Card]) -> (s: State)
        requires
            deck@.len() >= 27,
        ensures
            State::is_deal_of(s@, round_num, score@, deck@),
    {
        let mut human_hand = copy_range(deck, 0, 13);
        let mut bot_hand = copy_range(deck, 13, 26);
        let trump = deck[26];
        sort_hand(human_hand.as_mut_slice());
        sort_hand(bot_hand.as_mut_slice());
        let leader = initial_leader_for(round_num);
        State::from_round_setup(round_num, score, human_hand, bot_hand, trump, leader)
    }

    /// Deal a fresh round with the given starting score.
    pub fn deal_round(round_num: u32, score: [u32; 2], rng: &mut StdRng) -> (s: State)
        ensures
            exists|deck: Seq<Card>|
                State::is_shuffled_deck(deck) && #[trigger] State::is_deal_of(s@, round_num, score@, deck),
    {
        let mut deck = create_deck();
        shuffle(deck.as_mut_slice(), rng);
        State::deal_from_deck(round_num, score, deck.as_slice())
    }

    /// Start a new match (round 1, score 0-0).
    pub fn new_match(rng: &mut StdRng) -> (s: State)
        ensures
            exists|deck: Seq<Card>|
                #[trigger] State::is_shuffled_deck(deck) && State::is_deal_of(s@, 1, seq![0u32, 0u32], deck),
    {
        let s = State::deal_round(1, [0, 0], rng);
        assert([0u32, 0u32]@ =~= seq![0u32, 0u32]);
        s
    }

    /// A copy of the state, field for field.
    pub fn duplicate(&self) -> (s: State)
        ensures
            s@ == self@,
    {
        State {
            human_hand: vstd::slice::slice_to_vec(self.human_hand.as_slice()),
            bot_hand: vstd::slice::slice_to_vec(self.bot_hand.as_slice()),
            trump: self.trump,
            leader: self.leader,
            led_card: self.led_card,
            awaiting: self.awaiting,
            tricks_won: self.tricks_won,
            score: self.score,
            round_num: self.round_num,
            trick_num: self.trick_num,
            phase: self.phase,
            trick_history: vstd::slice::slice_to_vec(self.trick_history.as_slice()),
        }
    }

    /// Replace the hand of `player`.
    pub fn set_hand(&mut self, player: Player, hand: Vec<Card>)
        ensures
            final(self)@ == old(self)@.with_hand(player, hand@),
    {
        match player {
            Player::Human => self.human_hand = hand,
            Player::Bot => self.bot_hand = hand,
        }
    }

    fn hand_mut(&mut self, player: Player) -> (h: &mut Vec<Card>)
        ensures
            h@ == old(self)@.hand(player),
            final(self)@ == old(self)@.with_hand(player, final(h)@),
    {
        match player {
            Player::Human => &mut self.human_hand,
            Player::Bot => &mut self.bot_hand,
        }
    }

    pub fn hand(&self, player: Player) -> (h: &[Card])
        ensures
            h@ == self@.hand(player),
    {
        match player {
            Player::Human => self.human_hand.as_slice(),
            Player::Bot => self.bot_hand.as_slice(),
        }
    }

    /// Legal moves for the player to move.
    pub fn legal(&self) -> (moves: Vec<Card>)
        requires
            self.awaiting is Some,
        ensures
            moves@ == self@.legal(),
    {
        let p = self.awaiting.unwrap();
        legal_moves(self.hand(p), self.led_card)
    }

    /// Play `card` for the seat to move. The card must be in that seat's hand.
    pub fn apply(&mut self, card: Card)
        requires
            old(self).awaiting is Some,
            old(self)@.hand(old(self).awaiting.unwrap()).contains(card),
            old(self).led_card is Some ==> old(self)@.tricks(old(self)@.taker(card)) < u32::MAX,
        ensures
            final(self)@ == old(self)@.after_play(card),
    {
        let ghost pre = self@;
        let player = self.awaiting.unwrap();
        let trick = self.trick_num;
        let hand = self.hand_mut(player);
        let pos = position_of(hand.as_slice(), card);
        hand.remove(pos);
        self.trick_history.push(PlayEvent { trick, player, card });
        match self.led_card {
            None => {
                self.led_card = Some(card);
                self.awaiting = Some(player.other());
                assert(self@ =~= pre.after_play(card));
            },
            Some(led) => {
                let winner = match trick_winner(led, card, self.trump.suit) {
                    Side::Lead => self.leader,
                    Side::Follow => player,
                };
                let t0 = self.tricks_won[0];
                let t1 = self.tricks_won[1];
                self.tricks_won = match winner {
                    Player::Human => [t0 + 1, t1],
                    Player::Bot => [t0, t1 + 1],
                };
                self.led_card = None;
                self.awaiting = None;
                self.leader = winner;
                self.phase = Phase::TrickComplete;
                assert(self@.tricks_won =~= pre.tricks_won.update(winner.seat(), (pre.tricks(winner) + 1) as u32));
                assert(self@ =~= pre.after_play(card));
            },
        }
    }

    /// Apply round-end scoring; either deal the next round or end the match.
    pub fn end_round(&mut self, rng: &mut StdRng)
        requires
            old(self)@.points_after_round(Player::Human) <= u32::MAX,
            old(self)@.points_after_round(Player::Bot) <= u32::MAX,
            !old(self)@.round_ends_match() ==> old(self).round_num < u32::MAX,
        ensures
            old(self)@.round_ends_match() ==> final(self)@ == (StateModel {
                score: old(self)@.score_after_round(),
                awaiting: None,
                phase: Phase::MatchOver,
                ..old(self)@
            }),
            !old(self)@.round_ends_match() ==> exists|deck: Seq<Card>|
                #[trigger] State::is_shuffled_deck(deck) && State::is_deal_of(
                    final(self)@,
                    (old(self).round_num + 1) as u32,
                    old(self)@.score_after_round(),
                    deck,
                ),
    {
        let human_pts = score_for_tricks(self.tricks_won[Player::Human.idx()]);
        let bot_pts = score_for_tricks(self.tricks_won[Player::Bot.idx()]);
        let new_score = [
            self.score[Player::Human.idx()] + human_pts,
            self.score[Player::Bot.idx()] + bot_pts,
        ];
        assert(new_score@ =~= old(self)@.score_after_round());
        if new_score[0] >= TARGET_SCORE || new_score[1] >= TARGET_SCORE {
            self.score = new_score;
            self.awaiting = None;
            self.phase = Phase::MatchOver;
            assert(self@ =~= (StateModel {
                score: old(self)@.score_after_round(),
                awaiting: None,
                phase: Phase::MatchOver,
                ..old(self)@
            }));
        } else {
            *self = State::deal_round(self.round_num + 1, new_score, rng);
        }
    }

    /// The match winner, once the match is over.
    pub fn match_winner(&self) -> (w: Option<Player>)
        ensures
            w == self@.winner(),
    {
        if self.phase != Phase::MatchOver {
            return None;
        }
        let h = self.score[Player::Human.idx()];
        let b = self.score[Player::Bot.idx()];
        if h > b {
            Some(Player::Human)
        } else if b > h {
            Some(Player::Bot)
        } else {
            let hl = score_for_tricks(self.tricks_won[Player::Human.idx()]);
            let bl = score_for_tricks(self.tricks_won[Player::Bot.idx()]);
            if hl > bl {
                Some(Player::Human)
            } else {
                Some(Player::Bot)
            }
        }
    }

    /// Advance a just-played state past a completed trick to the next decision
    /// (or to the end of the round).
    pub fn settle(&mut self)
        requires
            old(self).phase == Phase::TrickComplete ==> old(self).trick_num < u32::MAX,
        ensures
            old(self).phase == Phase::TrickComplete ==> final(self)@ == old(self)@.after_trick(),
            old(self).phase != Phase::TrickComplete ==> final(self)@ == old(self)@,
            final(self).phase != Phase::TrickComplete,
    {
        while self.phase == Phase::TrickComplete
            invariant
                old(self).phase == Phase::TrickComplete ==> old(self).trick_num < u32::MAX,
                self.phase == Phase::TrickComplete ==> self@ == old(self)@,
                self.phase != Phase::TrickComplete && old(self).phase == Phase::TrickComplete
                    ==> self@ == old(self)@.after_trick(),
                self.phase != Phase::TrickComplete && old(self).phase != Phase::TrickComplete
                    ==> self@ == old(self)@,
            decreases (if self.phase == Phase::TrickComplete { 1int } else { 0int }),
        {
            self.advance_after_trick();
        }
    }

    /// Move from a completed trick to the next one (or to the end of the round).
    pub fn advance_after_trick(&mut self)
        requires
            old(self).trick_num < u32::MAX,
        ensures
            final(self)@ == old(self)@.after_trick(),
    {
        let next = self.trick_num + 1;
        self.trick_num = next;
        if next > TRICKS_PER_ROUND {
            self.awaiting = None;
            self.phase = Phase::RoundOver;
        } else {
            self.awaiting = Some(self.leader);
            self.phase = Phase::Playing;
        }
    }
}

} // verus!
