use foxlite::pipeline::{game_seed, mix64, priority_key, Buckets, N_BUCKETS};

#[test]
fn mix64_known_values() {
    assert_eq!(mix64(0), 0);
    assert_eq!(mix64(1), 0x5692_161d_100b_05e5);
}

#[test]
fn game_seed_known_values() {
    assert_eq!(game_seed(0, 0), 0);
    assert_eq!(game_seed(7, 3), 14652037524072870575);
    assert_ne!(game_seed(7, 3), game_seed(7, 4));
}

#[test]
fn priority_key_clamps_to_last_bucket() {
    assert_eq!(priority_key(0), 0);
    assert_eq!(priority_key(181), 181);
    assert_eq!(priority_key(182), N_BUCKETS - 1);
    assert_eq!(priority_key(10_000), N_BUCKETS - 1);
}

#[test]
fn drain_takes_highest_ply_newest_first() {
    let mut b: Buckets<&'static str> = Buckets::new();
    b.push("a0", 0);
    b.push("c5", 5);
    b.push("b2", 2);
    b.push("d5", 5);
    b.push("e2", 2);
    assert_eq!(b.len(), 5);
    let mut out = Vec::new();
    let moved = b.drain_top(3, &mut out);
    assert_eq!(moved, 3);
    assert_eq!(out, vec!["c5", "d5", "e2"]);
    assert_eq!(b.len(), 2);
    let moved = b.drain_top(10, &mut out);
    assert_eq!(moved, 2);
    assert_eq!(out, vec!["c5", "d5", "e2", "b2", "a0"]);
    assert_eq!(b.len(), 0);
    assert_eq!(b.drain_top(4, &mut out), 0);
}

#[test]
fn drain_after_refill_finds_new_top() {
    let mut b: Buckets<u32> = Buckets::new();
    b.push(1, 3);
    let mut out = Vec::new();
    assert_eq!(b.drain_top(1, &mut out), 1);
    b.push(2, 100);
    b.push(3, 1);
    assert_eq!(b.drain_top(2, &mut out), 2);
    assert_eq!(out, vec![1, 2, 3]);
}
