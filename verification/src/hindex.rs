//! The local h-index update rule, as a mathematical function: given a
//! vertex's neighbor list, everyone's current estimates, and the vertex's own
//! current estimate `core`, the rule returns the largest `i` in `[1, core]`
//! such that at least `i` neighbors have an estimate of at least `i` (and `1`
//! when no such `i` exists, or `0` when `core` is `0`).

use vstd::prelude::*;

verus! {

/// Number of entries `w` of `adj` whose estimate `est[w]` is at least `i`.
pub open spec fn count_ge(adj: Seq<usize>, est: Seq<usize>, i: int) -> int
    decreases adj.len(),
{
    if adj.len() == 0 {
        0
    } else {
        count_ge(adj.drop_last(), est, i) + if est[adj.last() as int] as int >= i {
            1int
        } else {
            0int
        }
    }
}

/// Number of entries of `adj` whose estimate, clamped at `core`, equals `m`.
/// This is the histogram bucket the executable update rule fills.
pub open spec fn count_clamped_eq(adj: Seq<usize>, est: Seq<usize>, core: int, m: int) -> int
    decreases adj.len(),
{
    if adj.len() == 0 {
        0
    } else {
        count_clamped_eq(adj.drop_last(), est, core, m) + {
            let e = est[adj.last() as int] as int;
            let c = if e <= core {
                e
            } else {
                core
            };
            if c == m {
                1int
            } else {
                0int
            }
        }
    }
}

/// The descending search of the update rule: the largest value in `[2, i]`
/// whose neighbor count reaches it, or `1` if none does.
pub open spec fn h_search(adj: Seq<usize>, est: Seq<usize>, i: int) -> int
    decreases i,
{
    if i <= 1 {
        1
    } else if count_ge(adj, est, i) >= i {
        i
    } else {
        h_search(adj, est, i - 1)
    }
}

/// One application of the local index rule at current estimate `core`.
pub open spec fn h_step(adj: Seq<usize>, est: Seq<usize>, core: int) -> int {
    if core <= 0 {
        0
    } else {
        h_search(adj, est, core)
    }
}

/// Every entry of `adj` names a position of `est`.
pub open spec fn entries_in(adj: Seq<usize>, est: Seq<usize>) -> bool {
    forall|k: int| 0 <= k < adj.len() ==> (#[trigger] adj[k]) < est.len()
}

pub proof fn lemma_count_ge_bounds(adj: Seq<usize>, est: Seq<usize>, i: int)
    ensures
        0 <= count_ge(adj, est, i) <= adj.len(),
    decreases adj.len(),
{
    if adj.len() > 0 {
        lemma_count_ge_bounds(adj.drop_last(), est, i);
    }
}

pub proof fn lemma_count_clamped_bounds(adj: Seq<usize>, est: Seq<usize>, core: int, m: int)
    ensures
        0 <= count_clamped_eq(adj, est, core, m) <= adj.len(),
    decreases adj.len(),
{
    if adj.len() > 0 {
        lemma_count_clamped_bounds(adj.drop_last(), est, core, m);
    }
}

/// Below the clamp, a histogram bucket splits a count: the entries counted at
/// threshold `m` are those clamped exactly to `m` plus those above `m`.
pub proof fn lemma_count_split(adj: Seq<usize>, est: Seq<usize>, core: int, m: int)
    requires
        m < core,
    ensures
        count_ge(adj, est, m) == count_clamped_eq(adj, est, core, m) + count_ge(adj, est, m + 1),
    decreases adj.len(),
{
    if adj.len() > 0 {
        lemma_count_split(adj.drop_last(), est, core, m);
    }
}

/// The top histogram bucket counts every entry whose estimate reaches `core`.
pub proof fn lemma_count_top(adj: Seq<usize>, est: Seq<usize>, core: int)
    ensures
        count_clamped_eq(adj, est, core, core) == count_ge(adj, est, core),
    decreases adj.len(),
{
    if adj.len() > 0 {
        lemma_count_top(adj.drop_last(), est, core);
    }
}

pub proof fn lemma_h_search_bounds(adj: Seq<usize>, est: Seq<usize>, i: int)
    requires
        i >= 1,
    ensures
        1 <= h_search(adj, est, i) <= i,
    decreases i,
{
    if i > 1 && count_ge(adj, est, i) < i {
        lemma_h_search_bounds(adj, est, i - 1);
    }
}

/// The search returns at least any value in range whose count reaches it.
pub proof fn lemma_h_search_reaches(adj: Seq<usize>, est: Seq<usize>, i: int, k: int)
    requires
        1 <= k <= i,
        count_ge(adj, est, k) >= k,
    ensures
        h_search(adj, est, i) >= k,
    decreases i,
{
    if i > 1 && count_ge(adj, est, i) < i {
        lemma_h_search_reaches(adj, est, i - 1, k);
    }
}

/// A search result of `2` or more has a neighbor count that reaches it.
pub proof fn lemma_h_search_achieves(adj: Seq<usize>, est: Seq<usize>, i: int)
    requires
        i >= 1,
        h_search(adj, est, i) >= 2,
    ensures
        count_ge(adj, est, h_search(adj, est, i)) >= h_search(adj, est, i),
    decreases i,
{
    if i > 1 && count_ge(adj, est, i) < i {
        lemma_h_search_achieves(adj, est, i - 1);
    }
}

/// The rule never raises an estimate, and keeps positive estimates positive.
pub proof fn lemma_h_step_le_core(adj: Seq<usize>, est: Seq<usize>, core: int)
    requires
        core >= 0,
    ensures
        0 <= h_step(adj, est, core) <= core,
        core >= 1 ==> h_step(adj, est, core) >= 1,
{
    if core >= 1 {
        lemma_h_search_bounds(adj, est, core);
    }
}

pub proof fn lemma_count_ge_mono_est(adj: Seq<usize>, est1: Seq<usize>, est2: Seq<usize>, i: int)
    requires
        entries_in(adj, est1),
        est1.len() == est2.len(),
        forall|k: int| 0 <= k < adj.len() ==> est1[(#[trigger] adj[k]) as int] <= est2[adj[k] as int],
    ensures
        count_ge(adj, est1, i) <= count_ge(adj, est2, i),
    decreases adj.len(),
{
    if adj.len() > 0 {
        assert forall|k: int| 0 <= k < adj.drop_last().len() implies (#[trigger] adj.drop_last()[k])
            < est1.len() && est1[adj.drop_last()[k] as int] <= est2[adj.drop_last()[k] as int] by {
            assert(adj.drop_last()[k] == adj[k]);
        }
        lemma_count_ge_mono_est(adj.drop_last(), est1, est2, i);
        assert(adj.last() == adj[adj.len() - 1]);
    }
}

/// Monotonicity of the update rule in the estimates and the starting value.
pub proof fn lemma_h_step_mono(
    adj: Seq<usize>,
    est1: Seq<usize>,
    est2: Seq<usize>,
    c1: int,
    c2: int,
)
    requires
        entries_in(adj, est1),
        est1.len() == est2.len(),
        forall|k: int| 0 <= k < adj.len() ==> est1[(#[trigger] adj[k]) as int] <= est2[adj[k] as int],
        0 <= c1 <= c2,
    ensures
        h_step(adj, est1, c1) <= h_step(adj, est2, c2),
{
    if c1 <= 0 {
        if c2 >= 1 {
            lemma_h_search_bounds(adj, est2, c2);
        }
    } else {
        let r1 = h_search(adj, est1, c1);
        lemma_h_search_bounds(adj, est1, c1);
        lemma_h_search_bounds(adj, est2, c2);
        if r1 >= 2 {
            lemma_h_search_achieves(adj, est1, c1);
            lemma_count_ge_mono_est(adj, est1, est2, r1);
            lemma_h_search_reaches(adj, est2, c2, r1);
        }
    }
}

/// A count is unchanged by an update that does not cross its threshold.
pub proof fn lemma_count_ge_update(adj: Seq<usize>, est: Seq<usize>, u: int, x: usize, i: int)
    requires
        entries_in(adj, est),
        0 <= u < est.len(),
        (est[u] as int >= i) <==> (x as int >= i),
    ensures
        count_ge(adj, est.update(u, x), i) == count_ge(adj, est, i),
    decreases adj.len(),
{
    if adj.len() > 0 {
        assert forall|k: int| 0 <= k < adj.drop_last().len() implies (#[trigger] adj.drop_last()[k])
            < est.len() by {
            assert(adj.drop_last()[k] == adj[k]);
        }
        lemma_count_ge_update(adj.drop_last(), est, u, x, i);
        assert(adj.last() == adj[adj.len() - 1]);
    }
}

/// A count is unchanged by an update at a vertex that is not an entry.
pub proof fn lemma_count_ge_update_absent(
    adj: Seq<usize>,
    est: Seq<usize>,
    u: int,
    x: usize,
    i: int,
)
    requires
        entries_in(adj, est),
        0 <= u < est.len(),
        !adj.contains(u as usize),
    ensures
        count_ge(adj, est.update(u, x), i) == count_ge(adj, est, i),
    decreases adj.len(),
{
    if adj.len() > 0 {
        assert forall|k: int| 0 <= k < adj.drop_last().len() implies (#[trigger] adj.drop_last()[k])
            < est.len() by {
            assert(adj.drop_last()[k] == adj[k]);
        }
        assert(!adj.drop_last().contains(u as usize)) by {
            if adj.drop_last().contains(u as usize) {
                let k = choose|k: int|
                    0 <= k < adj.drop_last().len() && adj.drop_last()[k] == u as usize;
                assert(adj[k] == u as usize);
                assert(adj.contains(u as usize));
            }
        }
        lemma_count_ge_update_absent(adj.drop_last(), est, u, x, i);
        assert(adj.last() == adj[adj.len() - 1]);
        assert(adj.contains(adj.last())) by {
            assert(adj[adj.len() - 1] == adj.last());
        }
    }
}

/// Searches agree whenever the counts they consult agree.
pub proof fn lemma_h_search_congruent(adj: Seq<usize>, est1: Seq<usize>, est2: Seq<usize>, i: int)
    requires
        forall|m: int| 2 <= m <= i ==> count_ge(adj, est1, m) == count_ge(adj, est2, m),
    ensures
        h_search(adj, est1, i) == h_search(adj, est2, i),
    decreases i,
{
    if i > 1 {
        lemma_h_search_congruent(adj, est1, est2, i - 1);
    }
}

/// The rule at `v` ignores an update at a vertex `u` absent from `v`'s list.
pub proof fn lemma_h_step_absent(adj_v: Seq<usize>, est: Seq<usize>, u: int, x: usize, core: int)
    requires
        entries_in(adj_v, est),
        0 <= u < est.len(),
        !adj_v.contains(u as usize),
    ensures
        h_step(adj_v, est.update(u, x), core) == h_step(adj_v, est, core),
{
    if core >= 1 {
        assert forall|m: int| 2 <= m <= core implies count_ge(adj_v, est.update(u, x), m)
            == count_ge(adj_v, est, m) by {
            lemma_count_ge_update_absent(adj_v, est, u, x, m);
        }
        lemma_h_search_congruent(adj_v, est.update(u, x), est, core);
    }
}

/// Committing a strict decrease leaves the decreased vertex at a fixed point:
/// recomputing its local index right away returns the committed value.
pub proof fn lemma_commit_self(adj: Seq<usize>, est: Seq<usize>, u: int, newv: usize)
    requires
        entries_in(adj, est),
        0 <= u < est.len(),
        newv as int == h_step(adj, est, est[u] as int),
        newv <= est[u],
    ensures
        h_step(adj, est.update(u, newv), newv as int) == newv as int,
{
    let core = est[u] as int;
    if core >= 1 {
        lemma_h_search_bounds(adj, est, core);
        if newv >= 2 {
            lemma_h_search_achieves(adj, est, core);
            lemma_count_ge_update(adj, est, u, newv, newv as int);
            assert(count_ge(adj, est.update(u, newv), newv as int) >= newv as int);
        }
    }
}

/// The propagation filter is sound: when `u`'s estimate drops to `newv`, a
/// vertex `v` at a fixed point whose estimate is not in the half-open
/// interval `(newv, est[u]]` stays at a fixed point.
pub proof fn lemma_unaffected(adj_v: Seq<usize>, est: Seq<usize>, u: int, newv: usize, v: int)
    requires
        entries_in(adj_v, est),
        0 <= v < est.len(),
        0 <= u < est.len(),
        newv <= est[u],
        h_step(adj_v, est, est[v] as int) == est[v] as int,
        est[v] <= newv || est[v] > est[u],
    ensures
        h_step(adj_v, est.update(u, newv), est[v] as int) == est[v] as int,
{
    let c = est[v] as int;
    if c >= 1 {
        if est[v] <= newv {
            assert forall|m: int| 2 <= m <= c implies count_ge(adj_v, est.update(u, newv), m)
                == count_ge(adj_v, est, m) by {
                lemma_count_ge_update(adj_v, est, u, newv, m);
            }
            lemma_h_search_congruent(adj_v, est.update(u, newv), est, c);
        } else {
            // est[v] > est[u] >= newv: the count at threshold c is untouched.
            if c >= 2 {
                lemma_h_search_achieves(adj_v, est, c);
                lemma_count_ge_update(adj_v, est, u, newv, c);
                assert(count_ge(adj_v, est.update(u, newv), c) >= c);
            }
        }
    }
}

} // verus!
