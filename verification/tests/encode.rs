use foxlite::encode::{
    canon_card_index, canon_suit, encode, encode_v1, real_card_from_canon_index,
    real_suit_from_canon, HIST, INPUT_SIZE, STATIC_SIZE,
};
use foxlite::rules::{Card, Player, State, NUM_CARDS, NUM_SUITS};

#[test]
fn input_size_is_205() {
    assert_eq!(INPUT_SIZE, 205);
    assert_eq!(STATIC_SIZE, 127);
    assert_eq!(HIST, 78);
}

#[test]
fn input_size_is_230() {
    assert_eq!(foxlite::onehot::INPUT_SIZE, 230);
}

#[test]
fn encode_canon_suit_roundtrip() {
    for trump in 0..NUM_SUITS as u8 {
        // trump maps to slot 0
        assert_eq!(canon_suit(trump, trump), 0);
        // canonical slots 0..3 invert back to distinct real suits
        let mut seen = [false; NUM_SUITS];
        for slot in 0..NUM_SUITS {
            let real = real_suit_from_canon(slot, trump);
            assert_eq!(canon_suit(real, trump), slot);
            seen[real as usize] = true;
        }
        assert!(seen.iter().all(|&b| b));
    }
}

#[test]
fn encode_canon_card_index_roundtrip() {
    for trump in 0..NUM_SUITS as u8 {
        for i in 0..NUM_CARDS {
            let card = Card::from_index(i);
            let ci = canon_card_index(card, trump);
            assert_eq!(real_card_from_canon_index(ci, trump), card);
        }
    }
}

#[test]
fn encode_exact_positions() {
    let s = State::from_round_setup(
        1,
        [3, 5],
        vec![Card::new(0, 2), Card::new(1, 7)],
        vec![Card::new(2, 4), Card::new(0, 9)],
        Card::new(2, 11),
        Player::Human,
    );
    let out = encode(&s, Player::Human);
    assert_eq!(out.len(), INPUT_SIZE);
    // No history: the token block is all zeros.
    assert!(out[..HIST].iter().all(|&x| x == 0));
    // Hand (canonical 12 and 28), trump rank 11, 0 tricks each, trick 1,
    // score 3 for the mover and 5 for the opponent.
    let hot: Vec<usize> = (0..INPUT_SIZE).filter(|&k| out[k] == 1).collect();
    assert_eq!(hot, vec![78 + 12, 78 + 28, 78 + 43, 78 + 44, 78 + 58, 78 + 72, 78 + 88, 78 + 111]);
}

#[test]
fn encode_history_tokens() {
    let mut s = State::from_round_setup(
        1,
        [0, 0],
        vec![Card::new(0, 2), Card::new(1, 7)],
        vec![Card::new(2, 4), Card::new(0, 9)],
        Card::new(2, 11),
        Player::Human,
    );
    s.apply(Card::new(1, 7));
    let out = encode(&s, Player::Bot);
    // Token 0: keys-7 (canonical 2*11+6 = 28), not played by the mover, present.
    assert_eq!(&out[0..3], &[28, 0, 1]);
    assert!(out[3..HIST].iter().all(|&x| x == 0));
}

#[test]
fn encode_v1_marks_led_card_and_voids() {
    let mut s = State::from_round_setup(
        1,
        [0, 0],
        vec![Card::new(0, 2), Card::new(1, 7)],
        vec![Card::new(2, 4), Card::new(0, 9)],
        Card::new(2, 11),
        Player::Human,
    );
    s.apply(Card::new(1, 7));
    let out = encode_v1(&s, Player::Bot);
    assert_eq!(out.len(), foxlite::onehot::INPUT_SIZE);
    // Opponent (Human) played keys-7: slot 66 + 28.
    assert_eq!(out[66 + 28], 1);
    // The led card block: 113 + 28.
    assert_eq!(out[113 + 28], 1);
    // Not leading: slot 113 + 33 is clear.
    assert_eq!(out[113 + 33], 0);
    // No void shown yet.
    assert!(out[110..113].iter().all(|&x| x == 0));
}
