use foxlite::encode::{encode, legal_mask};
use foxlite::match_play::{legal_slot_at, random_legal_slot, round_winner};
use foxlite::pipeline::N_BUCKETS;
use foxlite::rules::{Card, Phase, Player, State, NUM_CARDS, TARGET_SCORE};
use rand::rngs::StdRng;
use rand::SeedableRng;

/// Play a whole match with the random player on both seats, checking at every
/// decision that the drawn slot is legal, that the state can be encoded, and
/// that the match stays within 7 rounds and 181 moves before a decision.
fn play_random_match(seed: u64) -> State {
    let mut rng = StdRng::seed_from_u64(seed);
    let mut s = State::new_match(&mut rng);
    let mut plies: usize = 0;
    let mut mover = s.advance_to_decision(&mut rng);
    while let Some(p) = mover {
        assert_eq!(s.phase, Phase::Playing);
        assert_eq!(s.awaiting, Some(p));
        assert!(s.round_num <= 7, "a match lasts at most 7 rounds");
        assert!(plies < N_BUCKETS, "moves before a decision fit the ply keys");
        assert_eq!(plies, 26 * (s.round_num as usize - 1) + s.trick_history.len());
        let enc = encode(&s, p);
        assert_eq!(enc.len(), 205);
        let mask = legal_mask(&s, p);
        let slot = random_legal_slot(&s, p, &mut rng);
        assert_eq!(mask[slot], 1, "random player chose an illegal slot");
        let card = foxlite::encode::real_card_from_canon_index(slot, s.trump.suit);
        assert!(s.legal().contains(&card));
        s.apply(card);
        plies += 1;
        mover = s.advance_to_decision(&mut rng);
    }
    s
}

#[test]
fn random_matches_end_within_seven_rounds() {
    for seed in 0..60u64 {
        let s = play_random_match(seed);
        assert_eq!(s.phase, Phase::MatchOver);
        assert!(s.score[0] >= TARGET_SCORE || s.score[1] >= TARGET_SCORE);
        assert!(s.match_winner().is_some());
    }
}

#[test]
fn random_slot_varies_with_the_draw() {
    // A fresh deal leads from 13 cards, all legal: the draws must not all agree.
    let mut deal_rng = StdRng::seed_from_u64(5);
    let s = State::new_match(&mut deal_rng);
    let mover = s.awaiting.unwrap();
    let mut seen = [false; NUM_CARDS];
    for seed in 0..64u64 {
        let mut rng = StdRng::seed_from_u64(seed);
        seen[random_legal_slot(&s, mover, &mut rng)] = true;
    }
    assert!(seen.iter().filter(|&&b| b).count() > 1);
}

#[test]
fn advance_closes_trick_then_waits_for_leader() {
    let mut rng = StdRng::seed_from_u64(1);
    let mut s = State::from_round_setup(
        1,
        [0, 0],
        vec![Card::new(0, 5), Card::new(1, 2)],
        vec![Card::new(0, 9), Card::new(2, 3)],
        Card::new(2, 11),
        Player::Human,
    );
    s.apply(Card::new(0, 5));
    s.apply(Card::new(0, 9));
    assert_eq!(s.phase, Phase::TrickComplete);
    let m = s.advance_to_decision(&mut rng);
    assert_eq!(m, Some(Player::Bot));
    assert_eq!(s.phase, Phase::Playing);
    assert_eq!(s.trick_num, 2);
    assert_eq!(s.tricks_won, [0, 1]);
}

#[test]
fn advance_scores_round_and_ends_match() {
    let mut rng = StdRng::seed_from_u64(2);
    let mut s = State::from_round_setup(
        3,
        [18, 4],
        vec![],
        vec![],
        Card::new(1, 1),
        Player::Bot,
    );
    s.phase = Phase::RoundOver;
    s.trick_num = 14;
    s.awaiting = None;
    s.tricks_won = [8, 5]; // human 6 points -> 24, bot 2 points -> 6
    let m = s.advance_to_decision(&mut rng);
    assert_eq!(m, None);
    assert_eq!(s.phase, Phase::MatchOver);
    assert_eq!(s.score, [24, 6]);
    assert_eq!(s.match_winner(), Some(Player::Human));
}

#[test]
fn advance_scores_round_and_deals_next() {
    let mut rng = StdRng::seed_from_u64(3);
    let mut s = State::from_round_setup(2, [6, 7], vec![], vec![], Card::new(1, 1), Player::Bot);
    s.phase = Phase::RoundOver;
    s.trick_num = 14;
    s.awaiting = None;
    s.tricks_won = [4, 9]; // human 1 point, bot 6 points
    let m = s.advance_to_decision(&mut rng);
    assert_eq!(s.phase, Phase::Playing);
    assert_eq!(s.round_num, 3);
    assert_eq!(s.score, [7, 13]);
    assert_eq!(s.tricks_won, [0, 0]);
    assert_eq!(s.human_hand.len(), 13);
    assert_eq!(s.bot_hand.len(), 13);
    assert_eq!(m, s.awaiting);
    assert!(m.is_some());
}

#[test]
fn advance_leaves_a_decision_alone() {
    let mut rng = StdRng::seed_from_u64(4);
    let mut s = State::new_match(&mut rng);
    let before = s.clone();
    let m = s.advance_to_decision(&mut rng);
    assert_eq!(m, before.awaiting);
    assert_eq!(s.human_hand, before.human_hand);
    assert_eq!(s.bot_hand, before.bot_hand);
    assert_eq!(s.trick_num, before.trick_num);
}

#[test]
fn round_winner_is_the_seat_with_more_round_points() {
    let mut s = State::from_round_setup(1, [0, 0], vec![], vec![], Card::new(0, 1), Player::Human);
    s.phase = Phase::RoundOver;
    s.tricks_won = [4, 9]; // 1 point against 6
    assert_eq!(round_winner(&s), Player::Bot);
    s.tricks_won = [6, 7]; // 3 points against 6
    assert_eq!(round_winner(&s), Player::Bot);
    s.tricks_won = [8, 5]; // 6 points against 2
    assert_eq!(round_winner(&s), Player::Human);
    s.tricks_won = [13, 0]; // 0 points against 6
    assert_eq!(round_winner(&s), Player::Bot);
}

#[test]
fn legal_slot_at_counts_legal_slots_in_ascending_order() {
    // Trump moons: bells are slot group 1 (11..22), keys group 2 (22..33).
    let mut s = State::from_round_setup(
        1,
        [0, 0],
        vec![Card::new(0, 3), Card::new(1, 5)],
        vec![Card::new(0, 9), Card::new(1, 1), Card::new(0, 2)],
        Card::new(2, 11),
        Player::Human,
    );
    // Leading: both cards, slots 13 and 26.
    assert_eq!(legal_slot_at(&s, Player::Human, 0), 13);
    assert_eq!(legal_slot_at(&s, Player::Human, 1), 26);
    s.apply(Card::new(0, 3));
    // Bot must follow bells: bells-2 (slot 12) and bells-9 (slot 19), ascending.
    assert_eq!(legal_slot_at(&s, Player::Bot, 0), 12);
    assert_eq!(legal_slot_at(&s, Player::Bot, 1), 19);
    for seed in 0..20u64 {
        let mut rng = StdRng::seed_from_u64(seed);
        let slot = random_legal_slot(&s, Player::Bot, &mut rng);
        assert!(slot == 12 || slot == 19);
    }
}
