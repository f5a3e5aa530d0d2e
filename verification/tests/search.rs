use foxlite::cross_search::{deal_from_pool, determinize as world_determinize, pool_cards, voided_suits};
use foxlite::encode::{canon_card_index, legal_mask, opponent_voids};
use foxlite::mcts::{child_mover_after, descend, legal_canon, potential_canon, round_over_outcome, Descent};
use foxlite::rules::{Card, Phase, PlayEvent, Player, State, NUM_CARDS};
use rand::rngs::StdRng;
use rand::SeedableRng;

fn small_round() -> State {
    // Trump moons (suit 2). Human leads.
    State::from_round_setup(
        1,
        [0, 0],
        vec![Card::new(0, 3), Card::new(0, 8), Card::new(1, 5)],
        vec![Card::new(0, 9), Card::new(1, 1), Card::new(2, 2)],
        Card::new(2, 11),
        Player::Human,
    )
}

#[test]
fn legal_canon_lists_legal_slots() {
    let mut s = small_round();
    // Leading: every card, canonical indices in hand order.
    assert_eq!(legal_canon(&s, Player::Human), vec![13, 18, 26]);
    s.apply(Card::new(1, 5));
    // Bot must follow suit 1.
    assert_eq!(legal_canon(&s, Player::Bot), vec![22]);
    let mask = legal_mask(&s, Player::Bot);
    assert_eq!(mask.iter().map(|&b| b as usize).sum::<usize>(), 1);
    assert_eq!(mask[22], 1);
}

#[test]
fn potential_children_of_opponent_are_unseen_cards() {
    let s = small_round();
    // The searcher (Human) sees its 3 cards and the trump: 29 unseen cards.
    let p = potential_canon(&s, Player::Bot, Player::Human);
    assert_eq!(p.len(), NUM_CARDS - 4);
    for c in [Card::new(0, 3), Card::new(0, 8), Card::new(1, 5), Card::new(2, 11)] {
        assert!(!p.contains(&canon_card_index(c, 2)));
    }
    // The searcher's own node: its legal moves.
    assert_eq!(potential_canon(&s, Player::Human, Player::Human), vec![13, 18, 26]);
}

#[test]
fn child_mover_follows_the_trick() {
    let mut s = small_round();
    // After a lead the other seat moves.
    assert_eq!(child_mover_after(&s, 13, Player::Human), Player::Bot);
    s.apply(Card::new(0, 3));
    // Bot follows bells-9 (canonical 1*11+8 = 19): follower wins and leads.
    assert_eq!(child_mover_after(&s, 19, Player::Bot), Player::Bot);
    // Bot trumps with moons-2 (canonical 1): follower wins.
    assert_eq!(child_mover_after(&s, 1, Player::Bot), Player::Bot);
    // A throw-off of suit 1 (canonical 22) loses: the leader takes the trick.
    assert_eq!(child_mover_after(&s, 22, Player::Bot), Player::Human);
}

#[test]
fn round_over_outcome_reads_the_final_round() {
    let mut s = small_round();
    s.phase = Phase::RoundOver;
    s.score = [17, 19];
    s.tricks_won = [3, 10]; // human +6 -> 23, bot +0 -> 19
    assert_eq!(round_over_outcome(&s), Some(Player::Human));
    s.score = [2, 2];
    assert_eq!(round_over_outcome(&s), None);
    s.score = [18, 24];
    s.tricks_won = [7, 6]; // 24 vs 27
    assert_eq!(round_over_outcome(&s), Some(Player::Bot));
    s.score = [18, 21];
    s.tricks_won = [7, 6]; // 24 vs 24: human scored 6 this round, bot 3
    assert_eq!(round_over_outcome(&s), Some(Player::Human));
}

#[test]
fn descend_plays_and_settles() {
    let mut s = small_round();
    match descend(&mut s, 13) {
        Descent::Decide(p) => assert_eq!(p, Player::Bot),
        _ => panic!("expected a decision"),
    }
    // Bot follows with bells-9 and takes the trick; it leads next.
    match descend(&mut s, 19) {
        Descent::Decide(p) => assert_eq!(p, Player::Bot),
        _ => panic!("expected a decision"),
    }
    assert_eq!(s.phase, Phase::Playing);
    assert_eq!(s.trick_num, 2);
    assert_eq!(s.tricks_won, [0, 1]);
}

#[test]
fn descend_reports_round_end() {
    // Last trick of a round: Human leads its last card, Bot follows.
    let mut s = State::from_round_setup(1, [20, 0], vec![Card::new(0, 1)], vec![Card::new(0, 2)], Card::new(2, 11), Player::Human);
    s.trick_num = 13;
    s.tricks_won = [6, 6]; // this trick makes it 6-7: bot gets 6 points, human 3
    match descend(&mut s, canon_card_index(Card::new(0, 1), 2)) {
        Descent::Decide(p) => assert_eq!(p, Player::Bot),
        _ => panic!("expected a decision"),
    }
    match descend(&mut s, canon_card_index(Card::new(0, 2), 2)) {
        Descent::MatchDecided(w) => assert_eq!(w, Player::Human),
        _ => panic!("expected the match to end"),
    }
    assert_eq!(s.phase, Phase::RoundOver);

    let mut t = State::from_round_setup(1, [0, 0], vec![Card::new(0, 1)], vec![Card::new(0, 2)], Card::new(2, 11), Player::Human);
    t.trick_num = 13;
    t.tricks_won = [6, 6];
    descend(&mut t, canon_card_index(Card::new(0, 1), 2));
    match descend(&mut t, canon_card_index(Card::new(0, 2), 2)) {
        Descent::Boundary(pre, m) => {
            assert_eq!(m, Player::Bot);
            assert_eq!(pre.phase, Phase::Playing);
            assert_eq!(pre.bot_hand, vec![Card::new(0, 2)]);
        }
        _ => panic!("expected a round boundary"),
    }
}

fn history_state() -> State {
    let mut s = State::from_round_setup(
        1,
        [0, 0],
        vec![Card::new(0, 1)],
        vec![Card::new(2, 5)],
        Card::new(2, 11),
        Player::Human,
    );
    s.trick_num = 3;
    s.tricks_won = [1, 1];
    s.trick_history = vec![
        // Trick 1: Human leads bells, Bot throws a key (void in bells).
        PlayEvent { trick: 1, player: Player::Human, card: Card::new(0, 4) },
        PlayEvent { trick: 1, player: Player::Bot, card: Card::new(1, 3) },
        // Trick 2: Human leads keys, Bot follows keys.
        PlayEvent { trick: 2, player: Player::Human, card: Card::new(1, 9) },
        PlayEvent { trick: 2, player: Player::Bot, card: Card::new(1, 10) },
    ];
    s
}

#[test]
fn voids_are_read_from_lead_follow_pairs() {
    let s = history_state();
    assert_eq!(voided_suits(&s, Player::Bot), [true, false, false]);
    assert_eq!(voided_suits(&s, Player::Human), [false, false, false]);
    assert_eq!(opponent_voids(&s, Player::Bot), [true, false, false]);
}

#[test]
fn world_determinization_respects_voids() {
    let s = history_state();
    for seed in 0..50u64 {
        let mut rng = StdRng::seed_from_u64(seed);
        let d = world_determinize(&s, Player::Human, &mut rng);
        assert_eq!(d.hand(Player::Human), s.hand(Player::Human));
        assert_eq!(d.bot_hand.len(), 1);
        let c = d.bot_hand[0];
        assert_ne!(c.suit, 0, "dealt a card of a void suit");
        assert_ne!(c, Card::new(2, 11));
        for ev in &s.trick_history {
            assert_ne!(c, ev.card);
        }
    }
}

#[test]
fn potential_children_cover_every_determinization() {
    for seed in 0..40u64 {
        let mut rng = StdRng::seed_from_u64(seed);
        let mut s = State::new_match(&mut rng);
        // A few random plies in, then look from the seat to move.
        let mut mover = s.awaiting;
        for _ in 0..(seed % 9) {
            let p = mover.unwrap();
            let slot = foxlite::match_play::random_legal_slot(&s, p, &mut rng);
            s.apply(foxlite::encode::real_card_from_canon_index(slot, s.trump.suit));
            mover = s.advance_to_decision(&mut rng);
        }
        let searcher = mover.unwrap();
        let opp = searcher.other();
        let potential = potential_canon(&s, opp, searcher);
        for k in 0..10u64 {
            let mut r = StdRng::seed_from_u64(seed * 100 + k);
            let d = foxlite::determinize::determinize(&s, searcher, &mut r);
            for slot in legal_canon(&d, opp) {
                assert!(potential.contains(&slot), "a legal opponent move outside the potential children");
            }
        }
        assert_eq!(potential_canon(&s, searcher, searcher), legal_canon(&s, searcher));
    }
}

#[test]
fn search_can_play_out_a_determinized_round() {
    for seed in 0..30u64 {
        let mut rng = StdRng::seed_from_u64(seed);
        let s = State::new_match(&mut rng);
        let searcher = s.awaiting.unwrap();
        let mut det = foxlite::determinize::determinize(&s, searcher, &mut rng);
        let mut steps = 0;
        loop {
            let mover = det.awaiting.unwrap();
            let slot = legal_canon(&det, mover)[0];
            steps += 1;
            match descend(&mut det, slot) {
                Descent::Decide(p) => assert_eq!(det.awaiting, Some(p)),
                Descent::MatchDecided(_) | Descent::Boundary(_, _) => break,
            }
        }
        assert_eq!(steps, 26, "a round is 13 tricks of two plays");
        assert_eq!(det.phase, Phase::RoundOver);
        assert_eq!(det.tricks_won[0] + det.tricks_won[1], 13);
    }
}

#[test]
fn cross_search_pool_matches_the_redeal_in_play() {
    for seed in 0..40u64 {
        let mut rng = StdRng::seed_from_u64(seed);
        let mut s = State::new_match(&mut rng);
        let mut mover = s.awaiting;
        for _ in 0..(seed % 21) {
            let p = mover.unwrap();
            let slot = foxlite::match_play::random_legal_slot(&s, p, &mut rng);
            s.apply(foxlite::encode::real_card_from_canon_index(slot, s.trump.suit));
            mover = s.advance_to_decision(&mut rng);
        }
        let p = mover.unwrap();
        let opp = p.other();
        assert_eq!(voided_suits(&s, opp), opponent_voids(&s, opp));
        let (free, _) = foxlite::determinize::split_unseen(&s, p);
        let d = world_determinize(&s, p, &mut rng);
        for c in d.hand(opp) {
            assert!(free.contains(c), "the cross-run search dealt a card the redeal would not");
        }
    }
}

#[test]
fn pool_cards_lists_unseen_non_void_cards_in_deck_order() {
    let s = history_state();
    let pool = pool_cards(&s, Player::Human);
    // 33 - 1 (hand) - 4 (history) - 1 (trump) = 27 unseen; the bells among
    // them (bells 2, 3, 5..11: 9 cards) are void for Bot.
    assert_eq!(pool.len(), 18);
    assert!(pool.iter().all(|c| c.suit != 0));
    assert!(pool.windows(2).all(|w| w[0].index() < w[1].index()));
    assert!(!pool.contains(&Card::new(1, 3)));
    assert!(pool.contains(&Card::new(2, 5)));
}

#[test]
fn deal_from_pool_takes_the_head_in_hand_order() {
    let s = history_state();
    let shuffled = vec![Card::new(2, 9), Card::new(1, 7), Card::new(2, 1)];
    let d = deal_from_pool(&s, Player::Human, &shuffled);
    // Bot holds one card: the head of the pool.
    assert_eq!(d.hand(Player::Bot), &[Card::new(2, 9)]);
    assert_eq!(d.hand(Player::Human), s.hand(Player::Human));
    let mut t = s.clone();
    t.bot_hand = vec![Card::new(2, 2), Card::new(2, 5)];
    let d2 = deal_from_pool(&t, Player::Human, &shuffled);
    assert_eq!(d2.hand(Player::Bot), &[Card::new(1, 7), Card::new(2, 9)]);
}
