//! The shared bookkeeping of a batched self-play cohort: the queue of games
//! whose forward result is back (awaiting a worker), the queue of staged games
//! (awaiting the inference thread), and the spawn and completion counters.
//! Each step here is what one lock hold decides; the threads, the lock and the
//! waits around them stand outside. Every live game is in at most one queue, so
//! both queues stay within the games in flight, and whenever every live game
//! sits in a queue some thread can move.

use std::collections::VecDeque;
use vstd::prelude::*;

verus! {

/// What a worker gets when it asks for a game.
pub enum Acquired<T> {
    /// The cohort is complete: drain and exit.
    Closed,
    /// A game whose forward result is back.
    Ready(T),
    /// Spawn the game with this id; it already counts as started and in flight.
    Spawn(u64),
    /// Nothing to take yet: wait for a requeue.
    Wait,
}

/// What the inference thread gets when it asks for a batch.
pub enum Gathered<T> {
    /// The cohort is complete: shut down.
    Closed,
    /// The staged games to run one forward over, oldest first.
    Batch(Vec<T>),
    /// Neither a full batch nor the whole tail is staged yet: wait.
    Wait,
}

/// The bookkeeping as mathematical values.
pub struct PipelineModel<T> {
    pub ready: Seq<T>,
    pub preinfer: Seq<T>,
    pub started: nat,
    pub in_flight: nat,
    pub closed: bool,
    pub matches: nat,
    pub concurrency: nat,
}

impl<T> PipelineModel<T> {
    /// Live games held outside both queues (by a worker, or out at inference).
    pub open spec fn held(self) -> int {
        self.in_flight - self.ready.len() - self.preinfer.len()
    }

    /// Counters and queues agree: no more spawned than asked for, no more in
    /// flight than spawned or than the concurrency allows, every queued game is
    /// a live one in exactly one queue, and the cohort closes exactly when the
    /// last of its matches completes.
    pub open spec fn wf(self) -> bool {
        &&& self.started <= self.matches
        &&& self.in_flight <= self.started
        &&& self.in_flight <= self.concurrency
        &&& self.ready.len() + self.preinfer.len() <= self.in_flight
        &&& self.closed ==> self.started == self.matches && self.in_flight == 0
        &&& self.started > 0 && self.started >= self.matches && self.in_flight == 0 ==> self.closed
    }

    /// A worker asking now would get something: the cohort is closed, a game
    /// is ready, or there is budget and headroom to spawn one.
    pub open spec fn can_acquire(self) -> bool {
        self.closed || self.ready.len() > 0 || (self.started < self.matches && self.in_flight
            < self.concurrency)
    }

    /// The inference thread asking now would get something: the cohort is
    /// closed, a full batch is staged, or every live game is staged.
    pub open spec fn can_gather(self, batch: nat) -> bool {
        self.closed || self.preinfer.len() >= batch || (self.preinfer.len() >= self.in_flight
            && self.preinfer.len() > 0)
    }

    /// How many games a gather takes: a full batch, or the whole (smaller)
    /// staged tail.
    pub open spec fn gather_size(self, batch: nat) -> nat {
        if batch < self.preinfer.len() {
            batch
        } else {
            self.preinfer.len()
        }
    }
}

/// Both queues and the counters of one cohort.
pub struct PipelineState<T> {
    ready: VecDeque<T>,
    preinfer: VecDeque<T>,
    started: usize,
    in_flight: usize,
    closed: bool,
    matches: usize,
    concurrency: usize,
}

impl<T> View for PipelineState<T> {
    type V = PipelineModel<T>;

    closed spec fn view(&self) -> PipelineModel<T> {
        PipelineModel {
            ready: self.ready@,
            preinfer: self.preinfer@,
            started: self.started as nat,
            in_flight: self.in_flight as nat,
            closed: self.closed,
            matches: self.matches as nat,
            concurrency: self.concurrency as nat,
        }
    }
}

impl<T> PipelineState<T> {
    /// A cohort of `matches` games, at most `concurrency` of them alive at once.
    pub fn new(matches: usize, concurrency: usize) -> (st: Self)
        ensures
            st@.wf(),
            st@.ready == Seq::<T>::empty(),
            st@.preinfer == Seq::<T>::empty(),
            st@.started == 0,
            st@.in_flight == 0,
            !st@.closed,
            st@.matches == matches,
            st@.concurrency == concurrency,
    {
        PipelineState {
            ready: VecDeque::new(),
            preinfer: VecDeque::new(),
            started: 0,
            in_flight: 0,
            closed: false,
            matches,
            concurrency,
        }
    }

    /// Games spawned so far.
    pub fn started(&self) -> (n: usize)
        ensures
            n == self@.started,
    {
        self.started
    }

    /// Games alive (spawned, not yet completed).
    pub fn in_flight(&self) -> (n: usize)
        ensures
            n == self@.in_flight,
    {
        self.in_flight
    }

    /// Live games held outside both queues (by a worker, or out at inference).
    pub fn held(&self) -> (n: usize)
        requires
            self@.wf(),
        ensures
            n == self@.held(),
    {
        self.in_flight - self.ready.len() - self.preinfer.len()
    }

    /// Whether the cohort is complete.
    pub fn is_closed(&self) -> (c: bool)
        ensures
            c == self@.closed,
    {
        self.closed
    }

    /// A worker's request for a game: the first ready game, else a fresh spawn
    /// when there is budget and headroom, else wait (or stop once closed).
    pub fn acquire(&mut self) -> (a: Acquired<T>)
        requires
            old(self)@.wf(),
        ensures
            final(self)@.wf(),
            old(self)@.closed ==> a is Closed && final(self)@ == old(self)@,
            !old(self)@.closed && old(self)@.ready.len() > 0 ==> a == Acquired::Ready(
                old(self)@.ready[0],
            ) && final(self)@ == (PipelineModel { ready: old(self)@.ready.drop_first(), ..old(self)@ }),
            !old(self)@.closed && old(self)@.ready.len() == 0 && old(self)@.started < old(self)@.matches
                && old(self)@.in_flight < old(self)@.concurrency ==> a == Acquired::<T>::Spawn(
                old(self)@.started as u64,
            ) && final(self)@ == (PipelineModel {
                started: old(self)@.started + 1,
                in_flight: old(self)@.in_flight + 1,
                ..old(self)@
            }),
            !old(self)@.can_acquire() ==> a is Wait && final(self)@ == old(self)@,
    {
        if self.closed {
            return Acquired::Closed;
        }
        if let Some(g) = self.ready.pop_front() {
            return Acquired::Ready(g);
        }
        if self.started < self.matches && self.in_flight < self.concurrency {
            let id = self.started as u64;
            self.started = self.started + 1;
            self.in_flight = self.in_flight + 1;
            proof {
                assert(self@ =~= (PipelineModel {
                    started: old(self)@.started + 1,
                    in_flight: old(self)@.in_flight + 1,
                    ..old(self)@
                }));
            }
            return Acquired::Spawn(id);
        }
        Acquired::Wait
    }

    /// Queue a staged game (one the caller holds) for the inference thread.
    pub fn stage(&mut self, g: T)
        requires
            old(self)@.wf(),
            old(self)@.held() > 0,
        ensures
            final(self)@.wf(),
            final(self)@ == (PipelineModel { preinfer: old(self)@.preinfer.push(g), ..old(self)@ }),
    {
        self.preinfer.push_back(g);
        proof {
            assert(self@ =~= (PipelineModel { preinfer: old(self)@.preinfer.push(g), ..old(self)@ }));
        }
    }

    /// The inference thread's request for a batch: up to `batch` staged games
    /// once a full batch is staged, or once every live game is staged (the
    /// tail of the cohort); nothing while neither holds; stop once closed.
    pub fn gather(&mut self, batch: usize) -> (g: Gathered<T>)
        requires
            old(self)@.wf(),
        ensures
            final(self)@.wf(),
            old(self)@.closed ==> g is Closed && final(self)@ == old(self)@,
            !old(self)@.closed && old(self)@.can_gather(batch as nat) ==> {
                &&& g is Batch
                &&& g->Batch_0@ == old(self)@.preinfer.take(old(self)@.gather_size(batch as nat) as int)
                &&& final(self)@ == (PipelineModel {
                    preinfer: old(self)@.preinfer.skip(old(self)@.gather_size(batch as nat) as int),
                    ..old(self)@
                })
            },
            !old(self)@.can_gather(batch as nat) ==> g is Wait && final(self)@ == old(self)@,
    {
        if self.closed {
            return Gathered::Closed;
        }
        let len = self.preinfer.len();
        if len >= batch || (len >= self.in_flight && len > 0) {
            let take = if batch < len {
                batch
            } else {
                len
            };
            let ghost q0 = self.preinfer@;
            let mut out: Vec<T> = Vec::with_capacity(take);
            let mut k: usize = 0;
            while k < take
                invariant
                    k <= take <= q0.len(),
                    out@ == q0.take(k as int),
                    self.preinfer@ == q0.skip(k as int),
                    self.ready@ == old(self)@.ready,
                    self.started == old(self)@.started,
                    self.in_flight == old(self)@.in_flight,
                    self.closed == old(self)@.closed,
                    self.matches == old(self)@.matches,
                    self.concurrency == old(self)@.concurrency,
                decreases take - k,
            {
                let g = self.preinfer.pop_front().unwrap();
                proof {
                    assert(g == q0[k as int]);
                }
                out.push(g);
                k = k + 1;
                proof {
                    assert(out@ =~= q0.take(k as int));
                    assert(self.preinfer@ =~= q0.skip(k as int));
                }
            }
            proof {
                assert(self@ =~= (PipelineModel {
                    preinfer: old(self)@.preinfer.skip(old(self)@.gather_size(batch as nat) as int),
                    ..old(self)@
                }));
            }
            return Gathered::Batch(out);
        }
        Gathered::Wait
    }

    /// Hand back a forward's games (held since the gather), in batch order, to
    /// the workers.
    pub fn requeue(&mut self, games: Vec<T>)
        requires
            old(self)@.wf(),
            games@.len() <= old(self)@.held(),
        ensures
            final(self)@.wf(),
            final(self)@ == (PipelineModel { ready: old(self)@.ready + games@, ..old(self)@ }),
    {
        let ghost gs = games@;
        let mut pending = games;
        let mut rest: VecDeque<T> = VecDeque::new();
        // Move the games into a queue, keeping their order.
        while pending.len() > 0
            invariant
                gs == pending@ + rest@,
            decreases pending.len(),
        {
            let ghost before = rest@;
            let ghost pv = pending@;
            let g = pending.pop().unwrap();
            rest.push_front(g);
            proof {
                assert(pv =~= pending@.push(g));
                assert(rest@ =~= seq![g] + before);
                assert(pv + before =~= pending@ + rest@);
            }
        }
        assert(rest@ =~= gs);
        let ghost r0 = self.ready@;
        while rest.len() > 0
            invariant
                self.ready@ + rest@ =~= r0 + gs,
                self.preinfer@ == old(self)@.preinfer,
                self.started == old(self)@.started,
                self.in_flight == old(self)@.in_flight,
                self.closed == old(self)@.closed,
                self.matches == old(self)@.matches,
                self.concurrency == old(self)@.concurrency,
                r0 == old(self)@.ready,
            decreases rest.len(),
        {
            let ghost rv = rest@;
            let ghost qv = self.ready@;
            let g = rest.pop_front().unwrap();
            self.ready.push_back(g);
            proof {
                assert(rv =~= seq![g] + rest@);
                assert(self.ready@ =~= qv.push(g));
                assert(self.ready@ + rest@ =~= qv + rv);
            }
        }
        proof {
            assert(self.ready@ =~= r0 + gs);
            assert(self@ =~= (PipelineModel { ready: old(self)@.ready + gs, ..old(self)@ }));
        }
    }

    /// Book a game's completion (one the caller held); returns whether the
    /// cohort is complete now, i.e. every match has been spawned and finished.
    pub fn complete_one(&mut self) -> (done: bool)
        requires
            old(self)@.wf(),
            old(self)@.held() > 0,
        ensures
            final(self)@.wf(),
            done == (old(self)@.started >= old(self)@.matches && old(self)@.in_flight == 1),
            final(self)@ == (PipelineModel {
                in_flight: (old(self)@.in_flight - 1) as nat,
                closed: done,
                ..old(self)@
            }),
    {
        self.in_flight = self.in_flight - 1;
        let done = self.started >= self.matches && self.in_flight == 0;
        if done {
            self.closed = true;
        }
        proof {
            assert(self@ =~= (PipelineModel {
                in_flight: (old(self)@.in_flight - 1) as nat,
                closed: done,
                ..old(self)@
            }));
        }
        done
    }
}

/// Every live game is in at most one queue, so each queue holds at most the
/// games in flight, which never exceed the concurrency; and the cohort cannot
/// be closed while a thread holds a live game.
pub proof fn lemma_queues_bounded<T>(m: PipelineModel<T>)
    requires
        m.wf(),
    ensures
        m.ready.len() <= m.in_flight <= m.concurrency,
        m.preinfer.len() <= m.in_flight,
        m.held() >= 0,
        m.held() > 0 ==> !m.closed,
{
}

/// The cohort never wedges: of a cohort of at least one match, with room for
/// at least one game and batches of at least one, whenever every live game
/// sits in a queue (no thread holds one), a worker or the inference thread can
/// move.
pub proof fn lemma_no_wedge<T>(m: PipelineModel<T>, batch: nat)
    requires
        m.wf(),
        m.matches >= 1,
        m.concurrency >= 1,
        batch >= 1,
        m.held() == 0,
    ensures
        m.can_acquire() || m.can_gather(batch),
{
}

/// A closed cohort has lost no match: every one of its matches was spawned
/// and has completed.
pub proof fn lemma_closed_cohort_complete<T>(m: PipelineModel<T>)
    requires
        m.wf(),
        m.closed,
    ensures
        m.started == m.matches,
        m.in_flight == 0,
        m.ready.len() == 0,
        m.preinfer.len() == 0,
{
}

} // verus!
