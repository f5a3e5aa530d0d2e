//! What a Fisher-Yates shuffle can do: every card can end at every position,
//! so a redeal can give the opponent any card it may hold, and leave any of
//! them out.

use vstd::prelude::*;

use crate::determinize::{redealable, spec_forced_unused, spec_free, spec_unseen, unseen_by, not_void};
use crate::encode::spec_voids;
use crate::round_laws::lemma_full_deck;
use crate::rules::{
    fisher_yates, fisher_yates_draws, fisher_yates_from, full_deck, swapped, Card, Player,
    StateModel,
};
use crate::world_laws::lemma_filter_multiset;

verus! {

broadcast use {vstd::multiset::group_multiset_axioms, vstd::seq_lib::group_to_multiset_ensures};

/// Steps whose draws stay in range keep the length.
proof fn lemma_fy_len(s: Seq<Card>, d: Seq<int>, n: int, i: int)
    requires
        0 <= i,
        n <= s.len(),
        forall|k: int| i <= k < n ==> 0 <= #[trigger] d[k] <= k,
    ensures
        fisher_yates_from(s, d, n, i).len() == s.len(),
    decreases n - i,
{
    if i < n {
        lemma_fy_len(s, d, n, i + 1);
    }
}

/// Steps that draw their own position change nothing.
proof fn lemma_fy_identity(s: Seq<Card>, d: Seq<int>, n: int, i: int, hi: int)
    requires
        0 <= i <= hi <= n <= s.len(),
        forall|k: int| hi <= k < n ==> 0 <= #[trigger] d[k] <= k,
        forall|k: int| i <= k < hi ==> #[trigger] d[k] == k,
    ensures
        fisher_yates_from(s, d, n, i) == fisher_yates_from(s, d, n, hi),
    decreases hi - i,
{
    if i < hi {
        lemma_fy_identity(s, d, n, i + 1, hi);
        lemma_fy_len(s, d, n, hi);
        let x = fisher_yates_from(s, d, n, i + 1);
        assert(swapped(x, i, i) =~= x);
    }
}

/// Steps below position `p` that draw at or below themselves leave `p` alone.
proof fn lemma_fy_below(s: Seq<Card>, d: Seq<int>, n: int, i: int, hi: int, p: int)
    requires
        0 <= i <= hi <= p < n <= s.len(),
        forall|k: int| i <= k < n ==> 0 <= #[trigger] d[k] <= k,
    ensures
        fisher_yates_from(s, d, n, i)[p] == fisher_yates_from(s, d, n, hi)[p],
    decreases hi - i,
{
    if i < hi {
        lemma_fy_below(s, d, n, i + 1, hi, p);
        lemma_fy_len(s, d, n, i + 1);
    }
}

/// Every card of a sequence can be shuffled to every position: for positions
/// `m` and `t` there are Fisher-Yates draws that end with the card from `m` at
/// `t`.
pub proof fn lemma_fisher_yates_reaches(s: Seq<Card>, m: int, t: int)
    requires
        0 <= m < s.len(),
        0 <= t < s.len(),
    ensures
        exists|d: Seq<int>| fisher_yates_draws(d, s.len() as int) && #[trigger] fisher_yates(s, d)[t] == s[m],
{
    let n = s.len() as int;
    let d = Seq::new(
        n as nat,
        |k: int|
            if m <= t && k == t {
                m
            } else if m > t && k == m {
                t
            } else {
                k
            },
    );
    assert(fisher_yates_draws(d, n));
    if m <= t {
        lemma_fy_identity(s, d, n, t + 1, n);
        lemma_fy_len(s, d, n, t + 1);
        assert(fisher_yates_from(s, d, n, t + 1) == s) by {
            lemma_fy_identity(s, d, n, t + 1, n);
        }
        if t == 0 {
            lemma_fy_identity(s, d, n, 1, n);
        } else {
            assert(fisher_yates_from(s, d, n, t)[t] == s[m]);
            lemma_fy_below(s, d, n, 1, t, t);
        }
        assert(fisher_yates(s, d)[t] == s[m]);
    } else {
        lemma_fy_identity(s, d, n, m + 1, n);
        let s1 = swapped(s, m, t);
        assert(fisher_yates_from(s, d, n, m) == s1);
        lemma_fy_len(s, d, n, m);
        lemma_fy_identity(s, d, n, t + 1, m);
        if t == 0 {
            lemma_fy_identity(s, d, n, 1, m);
        } else {
            assert(fisher_yates_from(s, d, n, t) =~= s1) by {
                lemma_fy_len(s, d, n, t + 1);
                assert(swapped(s1, t, t) =~= s1);
            }
            lemma_fy_below(s, d, n, 1, t, t);
        }
        assert(fisher_yates(s, d)[t] == s[m]);
    }
}

/// A shuffle keeps the cards with their multiplicities.
pub proof fn lemma_fisher_yates_multiset(s: Seq<Card>, d: Seq<int>)
    requires
        fisher_yates_draws(d, s.len() as int),
    ensures
        fisher_yates(s, d).to_multiset() == s.to_multiset(),
        fisher_yates(s, d).len() == s.len(),
{
    lemma_fy_multiset(s, d, s.len() as int, 1);
    lemma_fy_len(s, d, s.len() as int, 1);
}

proof fn lemma_fy_multiset(s: Seq<Card>, d: Seq<int>, n: int, i: int)
    requires
        1 <= i,
        n == s.len(),
        d.len() == n,
        forall|k: int| 1 <= k < n ==> 0 <= #[trigger] d[k] <= k,
    ensures
        fisher_yates_from(s, d, n, i).to_multiset() == s.to_multiset(),
    decreases n - i,
{
    broadcast use vstd::seq_lib::to_multiset_update;

    if i < n {
        lemma_fy_multiset(s, d, n, i + 1);
        {
            lemma_fy_len(s, d, n, i + 1);
            let x = fisher_yates_from(s, d, n, i + 1);
            let j = d[i];
            let a = x[i];
            let b = x[j];
            let x1 = x.update(i, b);
            assert(x1.to_multiset() == x.to_multiset().insert(b).remove(a));
            assert(x1[j] == b);
            assert(x1.update(j, a).to_multiset() == x1.to_multiset().insert(a).remove(b));
            broadcast use vstd::seq_lib::to_multiset_contains;

            assert(x.contains(a));
            assert(x1.update(j, a).to_multiset() =~= x.to_multiset());
        }
    }
}

/// The cards the opponent may hold occur once each.
pub proof fn lemma_free_distinct(s: StateModel, searcher: Player, c: Card)
    ensures
        spec_free(s, searcher).to_multiset().count(c) <= 1,
{
    lemma_full_deck();
    lemma_filter_multiset(full_deck(), unseen_by(s, searcher));
    lemma_filter_multiset(spec_unseen(s, searcher), not_void(spec_voids(s, searcher.opp())));
}

/// A redeal can give the opponent any card it may hold: for every such card
/// some shuffle puts it in the dealt hand, and, while some of those cards go
/// to the unused pile, some shuffle leaves it out of the hand.
pub proof fn lemma_redeal_reaches_every_free_card(s: StateModel, searcher: Player, c: Card)
    requires
        redealable(s, searcher),
        spec_free(s, searcher).contains(c),
        s.hand(searcher.opp()).len() > 0,
    ensures
        exists|d: Seq<int>|
            fisher_yates_draws(d, spec_free(s, searcher).len() as int) && #[trigger] fisher_yates(
                spec_free(s, searcher),
                d,
            ).subrange(6 - spec_forced_unused(s, searcher), spec_free(s, searcher).len() as int).contains(
                c,
            ),
        6 - spec_forced_unused(s, searcher) > 0 ==> exists|d: Seq<int>|
            fisher_yates_draws(d, spec_free(s, searcher).len() as int) && !(#[trigger] fisher_yates(
                spec_free(s, searcher),
                d,
            ).subrange(6 - spec_forced_unused(s, searcher), spec_free(s, searcher).len() as int).contains(
                c,
            )),
{
    let f = spec_free(s, searcher);
    let n = f.len() as int;
    let u = 6 - spec_forced_unused(s, searcher);
    let m = choose|m: int| 0 <= m < n && f[m] == c;
    assert(n == s.hand(searcher.opp()).len() + u);
    // Into the hand: to the last position.
    lemma_fisher_yates_reaches(f, m, n - 1);
    let d1 = choose|d: Seq<int>| fisher_yates_draws(d, n) && #[trigger] fisher_yates(f, d)[n - 1] == f[m];
    lemma_fisher_yates_multiset(f, d1);
    let tail1 = fisher_yates(f, d1).subrange(u, n);
    assert(tail1[n - 1 - u] == c);
    assert(tail1.contains(c));
    if u > 0 {
        // Out of the hand: to the first position, which goes unused.
        lemma_fisher_yates_reaches(f, m, 0);
        let d2 = choose|d: Seq<int>| fisher_yates_draws(d, n) && #[trigger] fisher_yates(f, d)[0] == f[m];
        lemma_fisher_yates_multiset(f, d2);
        let g = fisher_yates(f, d2);
        let head = g.subrange(0, u);
        let tail = g.subrange(u, n);
        assert(g =~= head + tail);
        assert(head[0] == c);
        lemma_free_distinct(s, searcher, c);
        assert(g.to_multiset() == head.to_multiset().add(tail.to_multiset())) by {
            vstd::seq_lib::lemma_multiset_commutative(head, tail);
        }
        assert(head.to_multiset().count(c) >= 1) by {
            assert(head.contains(c));
        }
        if tail.contains(c) {
            assert(tail.to_multiset().count(c) >= 1);
        }
    }
}

} // verus!
