//! The integer bookkeeping of the self-play pipeline: per-game seeding and the
//! ply-bucketed priority queue that serves the games closest to finishing first.

use vstd::prelude::*;
use vstd::wrapping::u64_specs::wrapping_mul;

verus! {

/// The splitmix64 finalizer: xor-shift by 30, multiply, xor-shift by 27,
/// multiply, xor-shift by 31 (multiplications wrap at 2^64).
pub open spec fn spec_mix64(z: u64) -> u64 {
    let a = wrapping_mul(z ^ (z >> 30u64), 0xbf58_476d_1ce4_e5b9u64);
    let b = wrapping_mul(a ^ (a >> 27u64), 0x94d0_49bb_1331_11ebu64);
    b ^ (b >> 31u64)
}

/// Per-game seeding (splitmix64; a deterministic spread per game id).
pub fn mix64(z: u64) -> (r: u64)
    ensures
        r == spec_mix64(z),
{
    let mut z = z;
    z = (z ^ (z >> 30)).wrapping_mul(0xbf58_476d_1ce4_e5b9);
    z = (z ^ (z >> 27)).wrapping_mul(0x94d0_49bb_1331_11eb);
    z ^ (z >> 31)
}

/// Seed of game `id` in a cohort seeded with `base_seed`.
pub open spec fn spec_game_seed(base_seed: u64, id: u64) -> u64 {
    spec_mix64(base_seed ^ spec_mix64(wrapping_mul(id, 0x9E37_79B9_7F4A_7C15u64)))
}

/// Seed of game `id` in a cohort seeded with `base_seed`.
pub fn game_seed(base_seed: u64, id: u64) -> (r: u64)
    ensures
        r == spec_game_seed(base_seed, id),
{
    mix64(base_seed ^ mix64(id.wrapping_mul(0x9E37_79B9_7F4A_7C15)))
}

/// A match lasts at most 7 rounds of 26 plies, so a game waiting for a move
/// has made at most 181: ply keys span 0..=181.
pub const N_BUCKETS: usize = 182;

/// Queue priority of a game that has made `plies` moves (clamped into range).
pub fn priority_key(plies: usize) -> (k: usize)
    ensures
        k == (if plies < N_BUCKETS { plies as int } else { N_BUCKETS - 1 }),
{
    if plies < N_BUCKETS {
        plies
    } else {
        N_BUCKETS - 1
    }
}


/// Number of items in a sequence of buckets.
pub open spec fn total<T>(bs: Seq<Seq<T>>) -> int
    decreases bs.len(),
{
    if bs.len() == 0 {
        0
    } else {
        total(bs.drop_last()) + bs.last().len()
    }
}

/// Taking up to `want` items from buckets `b`, `b - 1`, ..., 0 in turn, each
/// bucket giving up its newest items (its tail, in bucket order): the items
/// moved, in the order they move, and the buckets left behind.
pub open spec fn drain_from<T>(bs: Seq<Seq<T>>, b: int, want: int) -> (Seq<T>, Seq<Seq<T>>)
    decreases b + 1,
{
    if want <= 0 || b < 0 || b >= bs.len() {
        (Seq::empty(), bs)
    } else {
        let bucket = bs[b];
        let take = if want < bucket.len() {
            want
        } else {
            bucket.len() as int
        };
        let moved = bucket.subrange(bucket.len() - take, bucket.len() as int);
        let rest = bs.update(b, bucket.subrange(0, bucket.len() - take));
        let next = drain_from(rest, b - 1, want - take);
        (moved + next.0, next.1)
    }
}

pub proof fn lemma_total_nonneg<T>(bs: Seq<Seq<T>>)
    ensures
        total(bs) >= 0,
    decreases bs.len(),
{
    if bs.len() > 0 {
        lemma_total_nonneg(bs.drop_last());
    }
}

/// Replacing one bucket changes the count by the difference in its size.
pub proof fn lemma_total_update<T>(bs: Seq<Seq<T>>, k: int, x: Seq<T>)
    requires
        0 <= k < bs.len(),
    ensures
        total(bs.update(k, x)) == total(bs) - bs[k].len() + x.len(),
    decreases bs.len(),
{
    let u = bs.update(k, x);
    if k == bs.len() - 1 {
        assert(u.drop_last() =~= bs.drop_last());
    } else {
        assert(u.drop_last() =~= bs.drop_last().update(k, x));
        lemma_total_update(bs.drop_last(), k, x);
    }
}

/// The first `b + 1` buckets hold everything when the buckets above `b` are
/// empty.
pub proof fn lemma_total_prefix<T>(bs: Seq<Seq<T>>, b: int)
    requires
        -1 <= b < bs.len(),
        forall|k: int| b < k < bs.len() ==> #[trigger] bs[k].len() == 0,
    ensures
        total(bs.take(b + 1)) == total(bs),
    decreases bs.len(),
{
    if b + 1 == bs.len() {
        assert(bs.take(b + 1) =~= bs);
    } else {
        assert(bs.drop_last().take(b + 1) =~= bs.take(b + 1));
        lemma_total_prefix(bs.drop_last(), b);
    }
}

/// Ply-bucketed priority queue: one vector per ply count, so a push is O(1)
/// and a batch drains whole buckets from the top down.
pub struct Buckets<T> {
    by_ply: Vec<Vec<T>>,
    len: usize,
    hi: usize,
}

impl<T> View for Buckets<T> {
    type V = Seq<Seq<T>>;

    closed spec fn view(&self) -> Seq<Seq<T>> {
        self.by_ply@.map_values(|v: Vec<T>| v@)
    }
}

impl<T> Buckets<T> {
    /// One bucket per ply key, the count of queued items kept in `len`, and no
    /// item above bucket `hi`.
    pub closed spec fn wf(&self) -> bool {
        &&& self.by_ply@.len() == N_BUCKETS
        &&& self.hi < N_BUCKETS
        &&& self.len == total(self@)
        &&& forall|k: int| self.hi < k < N_BUCKETS ==> #[trigger] self@[k].len() == 0
    }

    /// Number of queued items.
    pub closed spec fn count(&self) -> int {
        self.len as int
    }

    /// The highest bucket that may be non-empty.
    pub closed spec fn top(&self) -> int {
        self.hi as int
    }

    /// What a well-formed queue guarantees: one bucket per ply key, the count
    /// is the number of queued items, the top is a ply key, and every bucket
    /// above the top is empty (so a drain from the top takes the games with the
    /// most plies first).
    pub proof fn lemma_wf(&self)
        requires
            self.wf(),
        ensures
            self@.len() == N_BUCKETS,
            self.count() == total(self@),
            0 <= self.top() < N_BUCKETS,
            forall|k: int| self.top() < k < N_BUCKETS ==> #[trigger] self@[k].len() == 0,
    {
    }

    pub fn new() -> (b: Buckets<T>)
        ensures
            b.wf(),
            b@ == Seq::new(N_BUCKETS as nat, |k: int| Seq::<T>::empty()),
            b.count() == 0,
    {
        let mut by_ply: Vec<Vec<T>> = Vec::with_capacity(N_BUCKETS);
        let mut k: usize = 0;
        while k < N_BUCKETS
            invariant
                k <= N_BUCKETS,
                by_ply@.len() == k,
                forall|j: int| 0 <= j < k ==> #[trigger] by_ply@[j]@ == Seq::<T>::empty(),
            decreases N_BUCKETS - k,
        {
            by_ply.push(Vec::new());
            k = k + 1;
        }
        let b = Buckets { by_ply, len: 0, hi: 0 };
        assert(b@ =~= Seq::new(N_BUCKETS as nat, |k: int| Seq::<T>::empty()));
        proof {
            lemma_total_zero(b@);
        }
        b
    }

    /// Number of queued items.
    pub fn len(&self) -> (n: usize)
        ensures
            n == self.count(),
    {
        self.len
    }

    /// Queue `g` under ply key `k`.
    pub fn push(&mut self, g: T, k: usize)
        requires
            old(self).wf(),
            k < N_BUCKETS,
            old(self).count() < usize::MAX,
        ensures
            final(self).wf(),
            final(self)@ == old(self)@.update(k as int, old(self)@[k as int].push(g)),
            final(self).count() == old(self).count() + 1,
    {
        let ghost pre = self@;
        self.by_ply[k].push(g);
        self.len = self.len + 1;
        if k > self.hi {
            self.hi = k;
        }
        proof {
            assert(self@ =~= pre.update(k as int, pre[k as int].push(g)));
            lemma_total_update(pre, k as int, pre[k as int].push(g));
        }
    }

    /// Move up to `max` items from the highest buckets into `out` (newest first
    /// within a ply, the highest ply first). Returns the number moved.
    pub fn drain_top(&mut self, max: usize, out: &mut Vec<T>) -> (moved: usize)
        requires
            old(self).wf(),
        ensures
            final(self).wf(),
            moved == (if max < old(self).count() { max as int } else { old(self).count() }),
            final(out)@ == old(out)@ + drain_from(old(self)@, old(self).top(), moved as int).0,
            final(self)@ == drain_from(old(self)@, old(self).top(), moved as int).1,
            final(self).count() == old(self).count() - moved,
    {
        let ghost pre = self@;
        let ghost pre_out = out@;
        let ghost hi0 = self.hi as int;
        let want = if max < self.len { max } else { self.len };
        if want == 0 {
            return 0;
        }
        let mut moved: usize = 0;
        let mut b = self.hi;
        proof {
            lemma_total_prefix(pre, hi0);
        }
        loop
            invariant_except_break
                moved < want,
                want - moved <= total(self@.take(b + 1)),
                drain_from(pre, hi0, want as int).0 == out@.subrange(pre_out.len() as int, out@.len() as int)
                    + drain_from(self@, b as int, want - moved).0,
                drain_from(pre, hi0, want as int).1 == drain_from(self@, b as int, want - moved).1,
            invariant
                self.by_ply@.len() == N_BUCKETS,
                b <= hi0 < N_BUCKETS,
                moved <= want,
                want <= total(pre),
                self.len == total(self@),
                self.len + moved == total(pre),
                forall|k: int| b < k < N_BUCKETS ==> #[trigger] self@[k].len() == 0,
                out@.len() >= pre_out.len(),
                out@.subrange(0, pre_out.len() as int) == pre_out,
            ensures
                moved == want,
                out@.len() >= pre_out.len(),
                self.by_ply@.len() == N_BUCKETS,
                b < N_BUCKETS,
                self.len == total(self@),
                self.len + moved == total(pre),
                forall|k: int| b < k < N_BUCKETS ==> #[trigger] self@[k].len() == 0,
                drain_from(pre, hi0, want as int).0 == out@.subrange(pre_out.len() as int, out@.len() as int),
                out@.subrange(0, pre_out.len() as int) == pre_out,
                drain_from(pre, hi0, want as int).1 == self@,
            decreases b + 1,
        {
            let cur_len = self.by_ply[b].len();
            let take = if want - moved < cur_len { want - moved } else { cur_len };
            let ghost cur = self@;
            let ghost out0 = out@;
            let ghost w = want - moved;
            proof {
                assert(self@[b as int].len() == cur_len);
            }
            if take > 0 {
                let at = cur_len - take;
                let ghost vv = self.by_ply@;
                let mut tail = self.by_ply[b].split_off(at);
                proof {
                    assert(tail@ == cur[b as int].subrange(at as int, cur_len as int));
                    assert(self.by_ply@[b as int]@ == cur[b as int].subrange(0, at as int));
                    assert(forall|k: int| 0 <= k < N_BUCKETS && k != b ==> self.by_ply@[k] == vv[k]);
                }
                out.append(&mut tail);
                self.len = self.len - take;
                moved = moved + take;
            }
            proof {
                let bucket = cur[b as int];
                let rest = cur.update(b as int, bucket.subrange(0, bucket.len() - take));
                assert(bucket.len() == cur_len);
                assert forall|k: int| 0 <= k < N_BUCKETS implies #[trigger] self@[k] == rest[k] by {
                    if k == b && take == 0 {
                        assert(bucket.subrange(0, bucket.len() as int) =~= bucket);
                    }
                }
                assert(self@ =~= rest);
                assert(drain_from(cur, b as int, w) == (bucket.subrange(bucket.len() - take, bucket.len() as int)
                    + drain_from(rest, b - 1, w - take).0, drain_from(rest, b - 1, w - take).1));
                assert(cur.take(0) =~= Seq::<Seq<T>>::empty());
                assert(cur.take(b + 1).drop_last() =~= cur.take(b as int));
                assert(cur.take(b + 1).last() == bucket);
                assert(total(cur.take(b + 1)) == total(cur.take(b as int)) + bucket.len());
                lemma_total_nonneg(cur.take(b as int));
                if b == 0 {
                    assert(total(cur.take(b as int)) == 0);
                }
                lemma_total_update(cur, b as int, bucket.subrange(0, bucket.len() - take));
                assert(cur.take(b + 1).drop_last() =~= cur.take(b as int));
                assert(rest.take(b as int) =~= cur.take(b as int));
                assert(out@.subrange(0, pre_out.len() as int) =~= pre_out);
                assert(out@.subrange(pre_out.len() as int, out@.len() as int) =~= out0.subrange(
                    pre_out.len() as int,
                    out0.len() as int,
                ) + bucket.subrange(bucket.len() - take, bucket.len() as int));
            }
            if moved == want || b == 0 {
                break;
            }
            b = b - 1;
        }
        self.hi = b;
        proof {
            assert(out@ =~= pre_out + out@.subrange(pre_out.len() as int, out@.len() as int));
        }
        moved
    }
}

proof fn lemma_total_zero<T>(bs: Seq<Seq<T>>)
    requires
        forall|k: int| 0 <= k < bs.len() ==> #[trigger] bs[k].len() == 0,
    ensures
        total(bs) == 0,
    decreases bs.len(),
{
    if bs.len() > 0 {
        lemma_total_zero(bs.drop_last());
    }
}

} // verus!
