use foxlite::rules::{
    create_deck, initial_leader_for, legal_moves, score_for_tricks, sort_hand, trick_winner, Card,
    Phase, Player, Side, State, NUM_CARDS,
};
use rand::rngs::StdRng;
use rand::SeedableRng;

#[test]
fn card_index_roundtrip() {
    for i in 0..NUM_CARDS {
        assert_eq!(Card::from_index(i).index(), i);
    }
    assert_eq!(Card::new(0, 1).index(), 0); // bells-1
    assert_eq!(Card::new(2, 11).index(), 32); // moons-11
}

#[test]
fn scoring_table() {
    let expected = [6, 6, 6, 6, 1, 2, 3, 6, 6, 6, 0, 0, 0, 0];
    for (n, &pts) in expected.iter().enumerate() {
        assert_eq!(score_for_tricks(n as u32), pts, "tricks={n}");
    }
}

#[test]
fn trick_winner_rules() {
    let trump = 2u8; // moons trump
    // higher of led suit wins
    assert_eq!(trick_winner(Card::new(0, 5), Card::new(0, 9), trump), Side::Follow);
    assert_eq!(trick_winner(Card::new(0, 9), Card::new(0, 5), trump), Side::Lead);
    // throw-off (off-suit, non-trump) loses
    assert_eq!(trick_winner(Card::new(0, 2), Card::new(1, 11), trump), Side::Lead);
    // follower trumps
    assert_eq!(trick_winner(Card::new(0, 11), Card::new(2, 1), trump), Side::Follow);
    // leader trumps, follower off-suit
    assert_eq!(trick_winner(Card::new(2, 1), Card::new(0, 11), trump), Side::Lead);
    // both trump, higher wins
    assert_eq!(trick_winner(Card::new(2, 3), Card::new(2, 7), trump), Side::Follow);
}

#[test]
fn must_follow_suit() {
    let hand = vec![Card::new(0, 3), Card::new(0, 8), Card::new(1, 5)];
    let legal = legal_moves(&hand, Some(Card::new(0, 1)));
    assert_eq!(legal, vec![Card::new(0, 3), Card::new(0, 8)]);
    // void in led suit -> anything
    let legal2 = legal_moves(&hand, Some(Card::new(2, 1)));
    assert_eq!(legal2.len(), 3);
    // leading -> anything
    assert_eq!(legal_moves(&hand, None).len(), 3);
}

#[test]
fn match_winner_breaks_tie_by_final_round() {
    let mut rng = StdRng::from_entropy();
    let mut s = State::new_match(&mut rng);
    s.phase = Phase::MatchOver;

    // Higher total simply wins.
    s.score = [25, 20];
    s.tricks_won = [0, 13];
    assert_eq!(s.match_winner(), Some(Player::Human));

    // Tie on total -> whoever scored more in the final round wins.
    // Human took 7 tricks (6 pts) vs bot's 6 tricks (3 pts).
    s.score = [24, 24];
    s.tricks_won = [7, 6];
    assert_eq!(s.match_winner(), Some(Player::Human));

    // Mirror: human took 5 tricks (2 pts) vs bot's 8 tricks (6 pts).
    s.tricks_won = [5, 8];
    assert_eq!(s.match_winner(), Some(Player::Bot));
}

#[test]
fn full_round_plays_13_tricks() {
    let mut rng = StdRng::from_entropy();
    let mut s = State::new_match(&mut rng);
    let mut tricks = 0;
    loop {
        match s.phase {
            Phase::Playing => {
                let legal = s.legal();
                s.apply(legal[0]);
            }
            Phase::TrickComplete => {
                tricks += 1;
                s.advance_after_trick();
            }
            Phase::RoundOver => break,
            Phase::MatchOver => break,
        }
    }
    assert_eq!(tricks, 13);
    assert_eq!(s.tricks_won[0] + s.tricks_won[1], 13, "all tricks accounted for");
    assert_eq!(s.human_hand.len() + s.bot_hand.len(), 0, "hands emptied");
}

#[test]
fn deal_from_ordered_deck() {
    let deck = create_deck();
    let s = State::deal_from_deck(2, [4, 9], &deck);
    assert_eq!(s.human_hand, deck[0..13].to_vec());
    assert_eq!(s.bot_hand, deck[13..26].to_vec());
    assert_eq!(s.trump, deck[26]);
    assert_eq!(s.round_num, 2);
    assert_eq!(s.score, [4, 9]);
    assert_eq!(s.trick_num, 1);
    assert_eq!(s.awaiting, Some(s.leader));
    assert!(s.trick_history.is_empty());
}

#[test]
fn initial_leader_alternates() {
    assert_eq!(initial_leader_for(1), Player::Human);
    assert_eq!(initial_leader_for(2), Player::Bot);
    assert_eq!(initial_leader_for(3), Player::Human);
}

#[test]
fn shuffled_deals_differ_and_hold_each_card_once() {
    let mut a = StdRng::seed_from_u64(11);
    let mut b = StdRng::seed_from_u64(12);
    let s = State::new_match(&mut a);
    let t = State::new_match(&mut b);
    assert!(s.human_hand != t.human_hand || s.bot_hand != t.bot_hand || s.trump != t.trump);
    for st in [&s, &t] {
        let mut seen = [false; NUM_CARDS];
        for c in st.human_hand.iter().chain(st.bot_hand.iter()).chain(std::iter::once(&st.trump)) {
            assert!(!seen[c.index()]);
            seen[c.index()] = true;
        }
        assert_eq!(seen.iter().filter(|&&x| x).count(), 27);
        let mut h = st.human_hand.clone();
        sort_hand(&mut h);
        assert_eq!(h, st.human_hand, "hands are dealt sorted");
    }
}

#[test]
fn play_a_trick_by_hand() {
    let mut s = State::from_round_setup(
        1,
        [0, 0],
        vec![Card::new(0, 5), Card::new(1, 2)],
        vec![Card::new(1, 9), Card::new(2, 3)],
        Card::new(2, 11),
        Player::Human,
    );
    s.apply(Card::new(1, 2));
    assert_eq!(s.led_card, Some(Card::new(1, 2)));
    assert_eq!(s.awaiting, Some(Player::Bot));
    // Bot must follow keys.
    assert_eq!(s.legal(), vec![Card::new(1, 9)]);
    s.apply(Card::new(1, 9));
    assert_eq!(s.phase, Phase::TrickComplete);
    assert_eq!(s.tricks_won, [0, 1]);
    assert_eq!(s.leader, Player::Bot);
    assert_eq!(s.trick_history.len(), 2);
    s.settle();
    assert_eq!(s.phase, Phase::Playing);
    assert_eq!(s.trick_num, 2);
    assert_eq!(s.awaiting, Some(Player::Bot));
}

#[test]
fn end_round_reaching_target_ends_match() {
    let mut rng = StdRng::seed_from_u64(0);
    let mut s = State::from_round_setup(4, [20, 20], vec![], vec![], Card::new(0, 1), Player::Human);
    s.phase = Phase::RoundOver;
    s.tricks_won = [4, 9]; // +1 and +6
    s.end_round(&mut rng);
    assert_eq!(s.phase, Phase::MatchOver);
    assert_eq!(s.score, [21, 26]);
    assert_eq!(s.match_winner(), Some(Player::Bot));
}

#[test]
fn sort_hand_orders_by_suit_then_rank() {
    let mut h = vec![Card::new(2, 1), Card::new(0, 9), Card::new(1, 4), Card::new(0, 2)];
    sort_hand(&mut h);
    assert_eq!(h, vec![Card::new(0, 2), Card::new(0, 9), Card::new(1, 4), Card::new(2, 1)]);
}
