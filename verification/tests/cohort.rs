use foxlite::cohort::{Acquired, Gathered, PipelineState};

fn spawned(a: Acquired<u32>) -> u64 {
    match a {
        Acquired::Spawn(id) => id,
        _ => panic!("expected a spawn"),
    }
}

fn batch(g: Gathered<u32>) -> Vec<u32> {
    match g {
        Gathered::Batch(v) => v,
        _ => panic!("expected a batch"),
    }
}

#[test]
fn spawns_up_to_concurrency_then_waits() {
    let mut st: PipelineState<u32> = PipelineState::new(5, 2);
    assert_eq!(spawned(st.acquire()), 0);
    assert_eq!(spawned(st.acquire()), 1);
    assert!(matches!(st.acquire(), Acquired::Wait));
    assert_eq!(st.started(), 2);
    assert_eq!(st.in_flight(), 2);
}

#[test]
fn gather_waits_for_full_batch_or_whole_tail() {
    let mut st: PipelineState<u32> = PipelineState::new(3, 3);
    for _ in 0..3 {
        spawned(st.acquire());
    }
    st.stage(10);
    // One staged of three live, batch of two: neither full nor the tail.
    assert!(matches!(st.gather(2), Gathered::Wait));
    st.stage(11);
    assert_eq!(batch(st.gather(2)), vec![10, 11]);
    st.stage(12);
    // One staged while the two gathered games are still out: not the tail yet.
    assert!(matches!(st.gather(2), Gathered::Wait));
}

#[test]
fn tail_batch_is_taken_when_every_live_game_is_staged() {
    let mut st: PipelineState<u32> = PipelineState::new(2, 2);
    spawned(st.acquire());
    spawned(st.acquire());
    st.stage(7);
    assert!(st.complete_one() == false);
    // One live game, and it is staged: the partial batch goes.
    assert_eq!(batch(st.gather(8)), vec![7]);
}

#[test]
fn requeued_games_come_back_in_batch_order() {
    let mut st: PipelineState<u32> = PipelineState::new(4, 4);
    for _ in 0..4 {
        spawned(st.acquire());
    }
    for g in [1, 2, 3, 4] {
        st.stage(g);
    }
    let b = batch(st.gather(4));
    assert_eq!(b, vec![1, 2, 3, 4]);
    st.requeue(b);
    for want in [1, 2, 3, 4] {
        match st.acquire() {
            Acquired::Ready(g) => assert_eq!(g, want),
            _ => panic!("expected a ready game"),
        }
    }
    // Budget spent and every live game held: wait.
    assert!(matches!(st.acquire(), Acquired::Wait));
}

#[test]
fn cohort_closes_when_last_match_completes() {
    let mut st: PipelineState<u32> = PipelineState::new(2, 1);
    spawned(st.acquire());
    assert!(!st.complete_one());
    assert!(!st.is_closed());
    assert_eq!(spawned(st.acquire()), 1);
    assert!(st.complete_one());
    assert!(st.is_closed());
    assert!(matches!(st.acquire(), Acquired::Closed));
    assert!(matches!(st.gather(4), Gathered::Closed));
    assert_eq!(st.started(), 2);
    assert_eq!(st.in_flight(), 0);
}

#[test]
fn driven_cohort_never_wedges_and_finishes_every_match() {
    // Drive the bookkeeping the way the threads do, one step at a time: a
    // worker takes a game and either stages it or (every third visit) finishes
    // it; the inference side gathers and requeues. Some step must always move.
    for (matches, conc, b) in [(1usize, 1usize, 1usize), (5, 2, 2), (9, 4, 3), (7, 7, 8)] {
        let mut st: PipelineState<u32> = PipelineState::new(matches, conc);
        let mut visits = std::collections::HashMap::new();
        let mut finished = 0usize;
        let mut steps = 0;
        while !st.is_closed() {
            steps += 1;
            assert!(steps < 10_000, "wedged");
            let mut moved = false;
            match st.acquire() {
                Acquired::Closed => break,
                Acquired::Ready(g) => {
                    let v = visits.entry(g).or_insert(0);
                    *v += 1;
                    if *v % 3 == 0 {
                        st.complete_one();
                        finished += 1;
                    } else {
                        st.stage(g);
                    }
                    moved = true;
                }
                Acquired::Spawn(id) => {
                    st.stage(id as u32);
                    moved = true;
                }
                Acquired::Wait => {}
            }
            if let Gathered::Batch(v) = st.gather(b) {
                st.requeue(v);
                moved = true;
            }
            assert!(moved || st.is_closed(), "no step could move");
        }
        assert_eq!(finished, matches);
        assert_eq!(st.started(), matches);
    }
}
