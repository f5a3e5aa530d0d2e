use foxlite::determinize::{
    deal_opponent, determinize, determinize_into, opponent_belief_target, split_unseen,
    unseen_cards,
};
use foxlite::encode::{canon_card_index, opponent_voids};
use foxlite::rules::{Card, Phase, PlayEvent, Player, State, NUM_CARDS};
use rand::rngs::StdRng;
use rand::SeedableRng;

/// Drive a match a few plies in, so we can determinize from non-trivial
/// mid-round states.
fn play_some(steps: usize, seed: u64) -> State {
    let mut rng = StdRng::seed_from_u64(seed);
    let mut s = State::new_match(&mut rng);
    for _ in 0..steps {
        match s.phase {
            Phase::Playing => {
                let legal = s.legal();
                s.apply(legal[0]);
            }
            Phase::TrickComplete => s.advance_after_trick(),
            Phase::RoundOver => s.end_round(&mut rng),
            Phase::MatchOver => break,
        }
    }
    s
}

#[test]
fn determinize_determinization_is_legal() {
    for seed in 0..200u64 {
        let s = play_some((seed % 20) as usize, seed);
        if s.phase != Phase::Playing {
            continue;
        }
        let searcher = s.awaiting.unwrap();
        let opp = searcher.other();
        let mut rng = StdRng::seed_from_u64(seed ^ 0xDEAD);
        let d = determinize(&s, searcher, &mut rng);

        // Searcher hand, trump, history, scores untouched.
        assert_eq!(d.hand(searcher), s.hand(searcher));
        assert_eq!(d.trump, s.trump);
        assert_eq!(d.trick_history.len(), s.trick_history.len());

        // Opponent hand: right size, no void-suit cards, no seen cards, distinct.
        let opp_hand = d.hand(opp);
        assert_eq!(opp_hand.len(), s.hand(opp).len());
        let voids = opponent_voids(&s, opp);
        let mut seen = [false; NUM_CARDS];
        for c in s.hand(searcher) {
            seen[c.index()] = true;
        }
        for ev in &s.trick_history {
            seen[ev.card.index()] = true;
        }
        seen[s.trump.index()] = true;
        let mut in_hand = [false; NUM_CARDS];
        for c in opp_hand {
            assert!(!voids[c.suit as usize], "dealt opponent a void-suit card");
            assert!(!seen[c.index()], "dealt opponent a seen card");
            assert!(!in_hand[c.index()], "duplicate card in opponent hand");
            in_hand[c.index()] = true;
        }
    }
}

#[test]
fn belief_target_matches_truth() {
    for seed in 0..200u64 {
        let s = play_some((seed % 20) as usize, seed);
        if s.phase != Phase::Playing {
            continue;
        }
        let searcher = s.awaiting.unwrap();
        let opp = searcher.other();
        let trump = s.trump.suit;
        let tgt = opponent_belief_target(&s, searcher);

        let mut seen = [false; NUM_CARDS];
        for c in s.hand(searcher) {
            seen[c.index()] = true;
        }
        for ev in &s.trick_history {
            seen[ev.card.index()] = true;
        }
        seen[s.trump.index()] = true;

        for i in 0..NUM_CARDS {
            let slot = canon_card_index(Card::from_index(i), trump);
            if seen[i] {
                assert_eq!(tgt[slot], -1, "seen card not masked (seed {seed})");
            } else {
                let held = s.hand(opp).iter().any(|c| c.index() == i);
                assert_eq!(tgt[slot], if held { 1 } else { 0 }, "wrong label (seed {seed})");
            }
        }
    }
}

fn small_world() -> State {
    // Human holds bells-1; Bot holds moons-5; trump moons-11. Trick 1: Human
    // led bells-4, Bot threw keys-3 (void in bells).
    let mut s = State::from_round_setup(
        1,
        [0, 0],
        vec![Card::new(0, 1)],
        vec![Card::new(2, 5)],
        Card::new(2, 11),
        Player::Human,
    );
    s.trick_num = 2;
    s.tricks_won = [1, 0];
    s.trick_history = vec![
        PlayEvent { trick: 1, player: Player::Human, card: Card::new(0, 4) },
        PlayEvent { trick: 1, player: Player::Bot, card: Card::new(1, 3) },
    ];
    s
}

#[test]
fn unseen_cards_at_a_fresh_deal() {
    let mut rng = StdRng::seed_from_u64(9);
    let s = State::new_match(&mut rng);
    let u = unseen_cards(&s, Player::Human);
    // 33 cards less 13 in hand and the trump: the opponent's 13 and 6 unused.
    assert_eq!(u.len(), 19);
    for c in s.hand(Player::Bot) {
        assert!(u.contains(c));
    }
    assert!(!u.contains(&s.trump));
    // Deck order.
    assert!(u.windows(2).all(|w| w[0].index() < w[1].index()));
}

#[test]
fn split_unseen_sets_void_suits_aside() {
    let s = small_world();
    let (free, forced) = split_unseen(&s, Player::Human);
    // Unseen: 33 - 1 (hand) - 2 (history) - 1 (trump) = 29; bells unseen are
    // bells-2,3,5..11 = 9 cards, all forced into the unused pile.
    assert_eq!(forced, 9);
    assert_eq!(free.len(), 20);
    assert!(free.iter().all(|c| c.suit != 0));
}

#[test]
fn deal_opponent_takes_the_tail_in_hand_order() {
    let s = small_world();
    let pool = vec![Card::new(2, 9), Card::new(1, 7), Card::new(2, 1), Card::new(1, 2)];
    let d = deal_opponent(&s, Player::Human, &pool, 2);
    assert_eq!(d.hand(Player::Bot), &[Card::new(1, 2), Card::new(2, 1)]);
    assert_eq!(d.hand(Player::Human), s.hand(Player::Human));
    assert_eq!(d.trick_num, s.trick_num);
}

#[test]
fn determinize_into_redeals_only_the_opponent() {
    let mut rng = StdRng::seed_from_u64(21);
    let s = play_some(7, 21);
    if s.phase != Phase::Playing {
        return;
    }
    let searcher = s.awaiting.unwrap();
    let mut out = s.clone();
    determinize_into(&s, searcher, &mut rng, &mut out);
    assert_eq!(out.hand(searcher), s.hand(searcher));
    assert_eq!(out.hand(searcher.other()).len(), s.hand(searcher.other()).len());
    assert_eq!(out.trump, s.trump);
    assert_eq!(out.score, s.score);
}

#[test]
fn belief_target_on_a_small_world() {
    let s = small_world();
    let tgt = opponent_belief_target(&s, Player::Human);
    assert_eq!(tgt.len(), NUM_CARDS);
    let slot = |c: Card| canon_card_index(c, 2);
    assert_eq!(tgt[slot(Card::new(0, 1))], -1); // own hand
    assert_eq!(tgt[slot(Card::new(0, 4))], -1); // played
    assert_eq!(tgt[slot(Card::new(2, 11))], -1); // trump
    assert_eq!(tgt[slot(Card::new(2, 5))], 1); // opponent holds it
    assert_eq!(tgt[slot(Card::new(1, 8))], 0); // unseen, unused
    assert_eq!(tgt.iter().filter(|&&x| x == -1).count(), 4);
    assert_eq!(tgt.iter().filter(|&&x| x == 1).count(), 1);
}
