//! Laws connecting the local update rule and the fixed point the drivers
//! reach to the graph's true core numbers.
//!
//! A core number is phrased through witnesses: a set `s` of vertices
//! witnesses core number `k` when every member has at least `k` adjacency
//! entries inside `s`. The true core number of `v` is the largest witnessed
//! `k`, and the laws below pin the drivers' result to exactly that value:
//! the result never falls below any witnessed `k` (lower bound), and the
//! result itself is witnessed (upper bound).

use vstd::prelude::*;

use crate::graph::valid_graph;
use crate::graph::wf_graph;
use crate::hindex::count_ge;
use crate::hindex::entries_in;
use crate::hindex::h_step;
use crate::hindex::lemma_commit_self;
use crate::hindex::lemma_h_search_achieves;
use crate::hindex::lemma_h_step_le_core;
use crate::hindex::lemma_h_step_mono;
use crate::state::dominates_fixed_points;
use crate::state::is_fixed_point;
use crate::state::le_seq;
use crate::state::positive_est;

verus! {

/// Number of entries of `adj` that lie in the vertex set `s`.
pub open spec fn count_in(adj: Seq<usize>, s: Set<usize>) -> int
    decreases adj.len(),
{
    if adj.len() == 0 {
        0
    } else {
        count_in(adj.drop_last(), s) + if s.contains(adj.last()) {
            1int
        } else {
            0int
        }
    }
}

/// `s` witnesses core number `k`: every member is a vertex with at least
/// `k` adjacency entries inside `s` (a self-loop entry counts once).
pub open spec fn core_witness(g: Seq<Seq<usize>>, s: Set<usize>, k: int) -> bool {
    forall|v: usize| #[trigger] s.contains(v) ==> v < g.len() && count_in(g[v as int], s) >= k
}

/// Vertex `v` has true core number at least `k`.
pub open spec fn has_core_at_least(g: Seq<Seq<usize>>, v: usize, k: int) -> bool {
    exists|s: Set<usize>| #[trigger] core_witness(g, s, k) && s.contains(v)
}

/// The estimate vector that is `k` on `s` and `0` elsewhere.
pub open spec fn witness_vec(g: Seq<Seq<usize>>, s: Set<usize>, k: usize) -> Seq<usize> {
    Seq::new(g.len(), |v: int| if s.contains(v as usize) {
        k
    } else {
        0usize
    })
}

pub proof fn lemma_count_in_bounds(adj: Seq<usize>, s: Set<usize>)
    ensures
        0 <= count_in(adj, s) <= adj.len(),
    decreases adj.len(),
{
    if adj.len() > 0 {
        lemma_count_in_bounds(adj.drop_last(), s);
    }
}

proof fn lemma_count_in_positive(adj: Seq<usize>, s: Set<usize>, k: int)
    requires
        0 <= k < adj.len(),
        s.contains(adj[k]),
    ensures
        count_in(adj, s) >= 1,
    decreases adj.len(),
{
    if k == adj.len() - 1 {
        lemma_count_in_bounds(adj.drop_last(), s);
    } else {
        assert(adj.drop_last()[k] == adj[k]);
        lemma_count_in_positive(adj.drop_last(), s, k);
    }
}

/// Entries inside `s` all reaching threshold `i` push the threshold count at
/// least as high as the in-set count.
proof fn lemma_count_ge_from_members(adj: Seq<usize>, est: Seq<usize>, s: Set<usize>, i: int)
    requires
        entries_in(adj, est),
        forall|w: usize| #[trigger] s.contains(w) ==> w < est.len() && est[w as int] as int >= i,
    ensures
        count_ge(adj, est, i) >= count_in(adj, s),
    decreases adj.len(),
{
    if adj.len() > 0 {
        assert forall|k: int| 0 <= k < adj.drop_last().len() implies (#[trigger] adj.drop_last()[k])
            < est.len() by {
            assert(adj.drop_last()[k] == adj[k]);
        }
        lemma_count_ge_from_members(adj.drop_last(), est, s, i);
        assert(adj.last() == adj[adj.len() - 1]);
    }
}

/// When every entry reaching threshold `i` belongs to `s`, the in-set count
/// is at least the threshold count.
proof fn lemma_count_in_from_ge(adj: Seq<usize>, est: Seq<usize>, s: Set<usize>, i: int)
    requires
        entries_in(adj, est),
        forall|k: int|
            0 <= k < adj.len() && est[(#[trigger] adj[k]) as int] as int >= i ==> s.contains(
                adj[k],
            ),
    ensures
        count_in(adj, s) >= count_ge(adj, est, i),
    decreases adj.len(),
{
    if adj.len() > 0 {
        assert forall|k: int|
            0 <= k < adj.drop_last().len() implies (#[trigger] adj.drop_last()[k]) < est.len() && (
        est[adj.drop_last()[k] as int] as int >= i ==> s.contains(adj.drop_last()[k])) by {
            assert(adj.drop_last()[k] == adj[k]);
        }
        lemma_count_in_from_ge(adj.drop_last(), est, s, i);
        assert(adj.last() == adj[adj.len() - 1]);
    }
}

/// A core witness induces a fixed point of the update rule: `k` on the
/// witness set and `0` elsewhere.
pub proof fn lemma_witness_fixed_point(g: Seq<Seq<usize>>, s: Set<usize>, k: usize)
    requires
        g.len() <= usize::MAX,
        valid_graph(g),
        core_witness(g, s, k as int),
    ensures
        is_fixed_point(g, witness_vec(g, s, k)),
{
    let f = witness_vec(g, s, k);
    assert forall|v: int|
        0 <= v < g.len() implies h_step(#[trigger] g[v], f, f[v] as int) == f[v] as int by {
        assert(entries_in(g[v], f)) by {
            assert forall|j: int| 0 <= j < g[v].len() implies (#[trigger] g[v][j]) < f.len() by {
                assert(g[v][j] < g.len());
            }
        }
        if s.contains(v as usize) {
            assert(f[v] == k);
            if k >= 1 {
                assert forall|w: usize| #[trigger]
                    s.contains(w) implies w < f.len() && f[w as int] as int >= k as int by {}
                lemma_count_ge_from_members(g[v], f, s, k as int);
                assert(count_in(g[v], s) >= k as int) by {
                    let vu = v as usize;
                    assert(s.contains(vu));
                    assert(vu as int == v);
                }
                assert(count_ge(g[v], f, k as int) >= k as int);
            }
        } else {
            assert(f[v] == 0);
        }
    }
}

/// Lower bound, one round: applying the local rule at a member of a core
/// witness cannot drop its estimate below the witnessed core number, as
/// long as every member's current estimate is still at or above it.
pub proof fn lemma_step_preserves_lower_bound(
    g: Seq<Seq<usize>>,
    est: Seq<usize>,
    s: Set<usize>,
    k: usize,
    u: usize,
)
    requires
        g.len() <= usize::MAX,
        valid_graph(g),
        est.len() == g.len(),
        core_witness(g, s, k as int),
        s.contains(u),
        forall|w: usize| #[trigger] s.contains(w) ==> k <= est[w as int],
    ensures
        h_step(g[u as int], est, est[u as int] as int) >= k,
{
    let f = witness_vec(g, s, k);
    lemma_witness_fixed_point(g, s, k);
    assert(h_step(g[u as int], f, f[u as int] as int) == f[u as int] as int);
    assert(entries_in(g[u as int], f)) by {
        assert forall|j: int|
            0 <= j < g[u as int].len() implies (#[trigger] g[u as int][j]) < f.len() by {
            assert(g[u as int][j] < g.len());
        }
    }
    lemma_h_step_mono(g[u as int], f, est, f[u as int] as int, est[u as int] as int);
}

/// Lower bound at termination: a result that dominates every fixed point
/// below the start never falls below a witnessed core number, provided the
/// starting estimates were at or above it on the witness set.
pub proof fn lemma_estimate_lower_bound(
    g: Seq<Seq<usize>>,
    start: Seq<usize>,
    r: Seq<usize>,
    s: Set<usize>,
    k: usize,
    v: usize,
)
    requires
        g.len() <= usize::MAX,
        valid_graph(g),
        start.len() == g.len(),
        dominates_fixed_points(g, start, r),
        core_witness(g, s, k as int),
        s.contains(v),
        forall|w: usize| #[trigger] s.contains(w) ==> k <= start[w as int],
    ensures
        r.len() == g.len(),
        k <= r[v as int],
{
    let f = witness_vec(g, s, k);
    lemma_witness_fixed_point(g, s, k);
    assert forall|w: int| 0 <= w < f.len() implies (#[trigger] f[w]) <= start[w] by {
        if s.contains(w as usize) {
            assert(k <= start[(w as usize) as int]);
            assert((w as usize) as int == w);
        }
    }
    assert(le_seq(f, start));
    assert(is_fixed_point(g, f));
    assert(le_seq(f, r));
    assert(f[v as int] == k);
}

/// Upper bound: at a fixed point, every estimate is itself a witnessed core
/// number. The witness is the set of vertices whose estimate is at least as
/// large. Together with the lower bound, a fixed point reached from the
/// degree estimates equals the true core number everywhere.
pub proof fn lemma_fixed_point_at_most_core(g: Seq<Seq<usize>>, r: Seq<usize>, v: usize)
    requires
        g.len() <= usize::MAX,
        wf_graph(g),
        is_fixed_point(g, r),
        forall|w: int| 0 <= w < r.len() ==> (#[trigger] r[w]) as int <= g[w].len(),
        positive_est(g, r),
        v < g.len(),
    ensures
        has_core_at_least(g, v, r[v as int] as int),
{
    let k = r[v as int] as int;
    let s = Set::new(|w: usize| w < g.len() && r[w as int] as int >= k);
    assert(s.contains(v));
    assert forall|w: usize| #[trigger]
        s.contains(w) implies w < g.len() && count_in(g[w as int], s) >= k by {
        lemma_count_in_bounds(g[w as int], s);
        if k >= 1 {
            let rw = r[w as int] as int;
            assert(rw >= k);
            assert(h_step(g[w as int], r, rw) == rw);
            assert(entries_in(g[w as int], r)) by {
                assert forall|j: int|
                    0 <= j < g[w as int].len() implies (#[trigger] g[w as int][j]) < r.len() by {
                    assert(g[w as int][j] < g.len());
                }
            }
            if rw >= 2 {
                lemma_h_search_achieves(g[w as int], r, rw);
                assert(count_ge(g[w as int], r, rw) >= rw);
                assert forall|j: int|
                    0 <= j < g[w as int].len() && r[(#[trigger] g[w as int][j]) as int] as int
                        >= rw implies s.contains(g[w as int][j]) by {
                    assert(g[w as int][j] < g.len());
                }
                lemma_count_in_from_ge(g[w as int], r, s, rw);
            } else {
                // rw == 1, hence k == 1: any neighbor of w has a neighbor
                // itself (namely w), so its estimate is positive and it
                // belongs to the witness set.
                assert(rw == 1 && k == 1);
                assert(g[w as int].len() >= 1);
                let x = g[w as int][0];
                assert(x < g.len());
                assert(g[x as int].contains(w));
                assert(g[x as int].len() >= 1) by {
                    let jx = choose|jx: int| 0 <= jx < g[x as int].len() && g[x as int][jx] == w;
                }
                assert(r[x as int] >= 1);
                assert(s.contains(x));
                lemma_count_in_positive(g[w as int], s, 0);
            }
        }
    }
    assert(core_witness(g, s, k));
}

/// Fixed point equals truth: estimates that a convergence driver leaves
/// behind when started from the degrees — a fixed point below the degrees
/// that dominates every fixed point below them — are exactly the true core
/// numbers: each vertex's final estimate is a witnessed core number, and no
/// witness anywhere exceeds it.
pub proof fn lemma_converged_estimates_are_core_numbers(
    g: Seq<Seq<usize>>,
    start: Seq<usize>,
    r: Seq<usize>,
    v: usize,
)
    requires
        g.len() <= usize::MAX,
        wf_graph(g),
        start.len() == g.len(),
        forall|w: int| 0 <= w < g.len() ==> (#[trigger] start[w]) as int == g[w].len(),
        is_fixed_point(g, r),
        le_seq(r, start),
        dominates_fixed_points(g, start, r),
        positive_est(g, r),
        v < g.len(),
    ensures
        has_core_at_least(g, v, r[v as int] as int),
        forall|s: Set<usize>, k: usize|
            #[trigger] core_witness(g, s, k as int) && s.contains(v) ==> k <= r[v as int],
{
    assert forall|w: int| 0 <= w < r.len() implies (#[trigger] r[w]) as int <= g[w].len() by {
        assert(r[w] <= start[w]);
    }
    lemma_fixed_point_at_most_core(g, r, v);
    assert forall|s: Set<usize>, k: usize|
        #[trigger] core_witness(g, s, k as int) && s.contains(v) implies k <= r[v as int] by {
        assert forall|w: usize| #[trigger] s.contains(w) implies k <= start[w as int] by {
            lemma_count_in_bounds(g[w as int], s);
            assert(count_in(g[w as int], s) >= k as int);
        }
        lemma_estimate_lower_bound(g, start, r, s, k, v);
    }
}

/// Idempotence of the local rule: committing the rule's result at a vertex
/// and applying the rule there again returns the committed value unchanged.
pub proof fn lemma_local_index_idempotent(adj: Seq<usize>, est: Seq<usize>, u: int)
    requires
        entries_in(adj, est),
        0 <= u < est.len(),
    ensures
        h_step(
            adj,
            est.update(u, h_step(adj, est, est[u] as int) as usize),
            h_step(adj, est, est[u] as int),
        ) == h_step(adj, est, est[u] as int),
{
    let h = h_step(adj, est, est[u] as int);
    lemma_h_step_le_core(adj, est, est[u] as int);
    lemma_commit_self(adj, est, u, h as usize);
}

/// Driver equivalence: two runs that each end in a fixed point below the
/// same starting estimates and dominate every such fixed point must end in
/// the same estimates, whatever their processing order was.
pub proof fn lemma_driver_equivalence(
    g: Seq<Seq<usize>>,
    start: Seq<usize>,
    a: Seq<usize>,
    b: Seq<usize>,
)
    requires
        is_fixed_point(g, a),
        le_seq(a, start),
        dominates_fixed_points(g, start, a),
        is_fixed_point(g, b),
        le_seq(b, start),
        dominates_fixed_points(g, start, b),
    ensures
        a == b,
{
    assert(le_seq(a, b));
    assert(le_seq(b, a));
    assert(a =~= b);
}

/// An isolated vertex's estimate is pinned at zero by monotonicity: it is
/// zero at initialization (its degree) and can never rise.
pub proof fn lemma_isolated_stays_zero(a: Seq<usize>, b: Seq<usize>, v: int)
    requires
        le_seq(b, a),
        0 <= v < a.len(),
        a[v] == 0,
    ensures
        b[v] == 0,
{
}

} // verus!
