//! Estimation state and the convergence drivers.
//!
//! `Data` owns the normalized graph together with the per-vertex estimates,
//! the pending flags of the worklist strategy, the reusable histogram
//! scratch buffer, and the worklist itself.

use std::collections::VecDeque;
use vstd::prelude::*;

use crate::graph::Graph;
use crate::graph::valid_graph;
use crate::graph::wf_graph;
use crate::hindex::count_clamped_eq;
use crate::hindex::count_ge;
use crate::hindex::entries_in;
use crate::hindex::h_search;
use crate::hindex::h_step;
use crate::hindex::lemma_count_clamped_bounds;
use crate::hindex::lemma_count_ge_bounds;
use crate::hindex::lemma_count_split;
use crate::hindex::lemma_count_top;
use crate::hindex::lemma_commit_self;
use crate::hindex::lemma_h_search_bounds;
use crate::hindex::lemma_h_step_absent;
use crate::hindex::lemma_h_step_mono;
use crate::hindex::lemma_unaffected;

verus! {

/// Every vertex's estimate is a fixed point of the local update rule.
pub open spec fn is_fixed_point(g: Seq<Seq<usize>>, est: Seq<usize>) -> bool {
    &&& est.len() == g.len()
    &&& forall|v: int|
        0 <= v < g.len() ==> h_step(#[trigger] g[v], est, est[v] as int) == est[v] as int
}

/// Pointwise comparison of estimate vectors.
pub open spec fn le_seq(a: Seq<usize>, b: Seq<usize>) -> bool {
    &&& a.len() == b.len()
    &&& forall|v: int| 0 <= v < a.len() ==> (#[trigger] a[v]) <= b[v]
}

/// Every vertex with at least one neighbor has a positive estimate.
pub open spec fn positive_est(g: Seq<Seq<usize>>, est: Seq<usize>) -> bool {
    forall|v: int| 0 <= v < g.len() && g[v].len() > 0 ==> (#[trigger] est[v]) >= 1
}

/// `est` lies above every fixed point that lies below `start`: the defining
/// property of the greatest fixed point reachable from `start`, and the
/// reason any driver, whatever its processing order, lands on the same one.
pub open spec fn dominates_fixed_points(
    g: Seq<Seq<usize>>,
    start: Seq<usize>,
    est: Seq<usize>,
) -> bool {
    forall|f: Seq<usize>|
        #[trigger] is_fixed_point(g, f) && le_seq(f, start) ==> le_seq(f, est)
}

/// Total of all estimates: the termination measure of both drivers.
pub open spec fn sum_est(s: Seq<usize>) -> int
    decreases s.len(),
{
    if s.len() == 0 {
        0
    } else {
        sum_est(s.drop_last()) + s.last()
    }
}

pub proof fn lemma_sum_nonneg(s: Seq<usize>)
    ensures
        sum_est(s) >= 0,
    decreases s.len(),
{
    if s.len() > 0 {
        lemma_sum_nonneg(s.drop_last());
    }
}

pub proof fn lemma_sum_update(s: Seq<usize>, u: int, x: usize)
    requires
        0 <= u < s.len(),
    ensures
        sum_est(s.update(u, x)) == sum_est(s) - s[u] + x,
    decreases s.len(),
{
    if u == s.len() - 1 {
        assert(s.update(u, x).drop_last() =~= s.drop_last());
        assert(s.update(u, x).last() == x);
    } else {
        assert(s.update(u, x).drop_last() =~= s.drop_last().update(u, x));
        assert(s.update(u, x).last() == s.last());
        lemma_sum_update(s.drop_last(), u, x);
    }
}

pub struct Data {
    pub graph: Graph,
    /// Current coreness estimate of every vertex.
    pub est: Vec<usize>,
    /// Pending flag: the vertex has an outstanding worklist entry.
    pub changed: Vec<bool>,
    /// Reusable histogram scratch buffer; empty between uses.
    pub count: Vec<usize>,
    /// Worklist; pushed and popped at the front, so it acts as a stack.
    pub queue: VecDeque<usize>,
}

impl Data {
    /// Well-formed state: the graph is well-formed, the per-vertex tables
    /// match it in length, and no estimate exceeds the vertex's degree.
    pub open spec fn wf(self) -> bool {
        &&& wf_graph(self.graph@)
        &&& self.est@.len() == self.graph@.len()
        &&& self.changed@.len() == self.graph@.len()
        &&& forall|v: int|
            0 <= v < self.est@.len() ==> (#[trigger] self.est@[v]) as int <= self.graph@[v].len()
    }

    /// Initial state over a finished graph: every vertex starts from its
    /// degree, the largest core number it could possibly have.
    pub fn new(graph: Graph) -> (d: Data)
        requires
            wf_graph(graph@),
        ensures
            d.wf(),
            d.graph == graph,
            d.est@.len() == graph@.len(),
            forall|v: int| 0 <= v < graph@.len() ==> (#[trigger] d.est@[v]) as int == graph@[v].len(),
            forall|v: int| 0 <= v < graph@.len() ==> !(#[trigger] d.changed@[v]),
            d.count@.len() == 0,
            d.queue@.len() == 0,
    {
        let n = graph.inmap.len();
        let mut est: Vec<usize> = Vec::with_capacity(n);
        let mut changed: Vec<bool> = Vec::with_capacity(n);
        let mut i: usize = 0;
        while i < n
            invariant
                i <= n,
                n == graph.inmap@.len(),
                est@.len() == i,
                changed@.len() == i,
                forall|v: int| 0 <= v < i ==> (#[trigger] est@[v]) as int == graph@[v].len(),
                forall|v: int| 0 <= v < i ==> !(#[trigger] changed@[v]),
            decreases n - i,
        {
            est.push(graph.inmap[i].len());
            changed.push(false);
            i += 1;
        }
        Data { graph, est, changed, count: Vec::new(), queue: VecDeque::new() }
    }
}

/// Recomputes the local index of vertex `u` from its neighbors' current
/// estimates: a histogram of the neighbors' estimates (clamped at `u`'s own
/// estimate `core`) is turned into suffix counts, and the result is the
/// largest `i` in `[1, core]` with at least `i` neighbors at `i` or above,
/// or `1` when none exists, or `0` when `core` is `0`. The state is returned
/// unchanged but for the scratch buffer, which ends empty again.
pub fn compute_index(coreness: &mut Data, u: usize) -> (r: usize)
    requires
        old(coreness).wf(),
        u < old(coreness).est@.len(),
        old(coreness).count@.len() == 0,
    ensures
        final(coreness).wf(),
        final(coreness).graph == old(coreness).graph,
        final(coreness).est == old(coreness).est,
        final(coreness).changed == old(coreness).changed,
        final(coreness).queue == old(coreness).queue,
        final(coreness).count@.len() == 0,
        r as int == h_step(
            old(coreness).graph@[u as int],
            old(coreness).est@,
            old(coreness).est@[u as int] as int,
        ),
        r <= old(coreness).est@[u as int],
        old(coreness).est@[u as int] > 0 ==> r >= 1,
{
    let core = coreness.est[u];
    if core == 0 {
        return 0;
    }
    let ghost adj = coreness.graph@[u as int];
    let ghost estv = coreness.est@;

    // Size the histogram: one bucket per clamped estimate value in [0, core].
    while coreness.count.len() <= core
        invariant
            coreness.wf(),
            coreness.graph == old(coreness).graph,
            coreness.est == old(coreness).est,
            coreness.changed == old(coreness).changed,
            coreness.queue == old(coreness).queue,
            coreness.count@.len() <= core as int + 1,
            forall|m: int| 0 <= m < coreness.count@.len() ==> (#[trigger] coreness.count@[m]) == 0,
        decreases core as int + 1 - coreness.count@.len(),
    {
        coreness.count.push(0);
    }

    let deg = coreness.graph.inmap[u].len();
    proof {
        assert(adj.len() == deg);
        assert(core as int <= adj.len());
    }

    // Histogram pass: bucket `min(core, est[w])` for each neighbor `w`.
    let mut j: usize = 0;
    while j < deg
        invariant
            coreness.wf(),
            coreness.graph == old(coreness).graph,
            coreness.est == old(coreness).est,
            coreness.changed == old(coreness).changed,
            coreness.queue == old(coreness).queue,
            u < coreness.est@.len(),
            core == coreness.est@[u as int],
            core >= 1,
            adj == coreness.graph@[u as int],
            estv == coreness.est@,
            deg == adj.len(),
            j <= deg,
            coreness.count@.len() == core as int + 1,
            forall|m: int|
                0 <= m <= core ==> (#[trigger] coreness.count@[m]) as int == count_clamped_eq(
                    adj.take(j as int),
                    estv,
                    core as int,
                    m,
                ),
        decreases deg - j,
    {
        let w = coreness.graph.inmap[u][j];
        proof {
            assert(coreness.graph@[u as int][j as int] < coreness.graph@.len());
        }
        let ew = coreness.est[w];
        let k = if ew < core {
            ew
        } else {
            core
        };
        let cur = coreness.count[k];
        proof {
            lemma_count_clamped_bounds(adj.take(j as int), estv, core as int, k as int);
            assert(adj.take(j as int).len() == j);
        }
        coreness.count[k] = cur + 1;
        proof {
            let prefix = adj.take(j as int);
            let longer = adj.take(j + 1);
            assert(longer.drop_last() =~= prefix);
            assert(longer.last() == adj[j as int]);
            assert(adj[j as int] == w);
            assert forall|m: int|
                0 <= m <= core implies (#[trigger] coreness.count@[m]) as int == count_clamped_eq(
                longer,
                estv,
                core as int,
                m,
            ) by {
                assert(count_clamped_eq(longer, estv, core as int, m) == count_clamped_eq(
                    prefix,
                    estv,
                    core as int,
                    m,
                ) + {
                    let e = estv[w as int] as int;
                    let c = if e <= core as int {
                        e
                    } else {
                        core as int
                    };
                    if c == m {
                        1int
                    } else {
                        0int
                    }
                });
            }
        }
        j += 1;
    }

    // Suffix pass: afterwards bucket `m` counts neighbors at `m` or above.
    proof {
        assert(adj.take(deg as int) =~= adj);
        lemma_count_top(adj, estv, core as int);
    }
    let mut i: usize = core;
    while i >= 1
        invariant
            coreness.wf(),
            coreness.graph == old(coreness).graph,
            coreness.est == old(coreness).est,
            coreness.changed == old(coreness).changed,
            coreness.queue == old(coreness).queue,
            core >= 1,
            adj == coreness.graph@[u as int],
            estv == coreness.est@,
            deg == adj.len(),
            i <= core,
            coreness.count@.len() == core as int + 1,
            forall|m: int|
                0 <= m < i ==> (#[trigger] coreness.count@[m]) as int == count_clamped_eq(
                    adj,
                    estv,
                    core as int,
                    m,
                ),
            forall|m: int|
                i <= m <= core ==> (#[trigger] coreness.count@[m]) as int == count_ge(
                    adj,
                    estv,
                    m,
                ),
        decreases i,
    {
        let a = coreness.count[i];
        let b = coreness.count[i - 1];
        proof {
            lemma_count_split(adj, estv, core as int, i - 1);
            lemma_count_ge_bounds(adj, estv, i - 1);
            lemma_count_ge_bounds(adj, estv, i as int);
            lemma_count_clamped_bounds(adj, estv, core as int, i - 1);
        }
        coreness.count[i - 1] = b + a;
        i -= 1;
    }

    // Descending search for the largest self-consistent value.
    let mut i: usize = core;
    while i > 1 && coreness.count[i] < i
        invariant
            coreness.wf(),
            coreness.graph == old(coreness).graph,
            coreness.est == old(coreness).est,
            coreness.changed == old(coreness).changed,
            coreness.queue == old(coreness).queue,
            core >= 1,
            adj == coreness.graph@[u as int],
            estv == coreness.est@,
            1 <= i <= core,
            coreness.count@.len() == core as int + 1,
            forall|m: int|
                0 <= m <= core ==> (#[trigger] coreness.count@[m]) as int == count_ge(
                    adj,
                    estv,
                    m,
                ),
            h_search(adj, estv, core as int) == h_search(adj, estv, i as int),
        decreases i,
    {
        i -= 1;
    }
    proof {
        assert(h_search(adj, estv, i as int) == i as int);
        lemma_h_search_bounds(adj, estv, core as int);
    }
    coreness.count.clear();
    i
}

/// Full-sweep convergence driver: keeps re-evaluating every vertex in index
/// order until a whole pass changes nothing. Estimates only ever decrease,
/// the final estimates are a fixed point of the local rule, and they lie
/// above every fixed point that lies below the initial estimates.
pub fn compute_coreness(core: &mut Data)
    requires
        old(core).wf(),
        old(core).count@.len() == 0,
    ensures
        final(core).wf(),
        final(core).graph == old(core).graph,
        final(core).count@.len() == 0,
        final(core).queue == old(core).queue,
        le_seq(final(core).est@, old(core).est@),
        is_fixed_point(final(core).graph@, final(core).est@),
        dominates_fixed_points(final(core).graph@, old(core).est@, final(core).est@),
        positive_est(old(core).graph@, old(core).est@) ==> positive_est(
            final(core).graph@,
            final(core).est@,
        ),
{
    let ghost g = core.graph@;
    let ghost est0 = core.est@;
    let n = core.graph.inmap.len();
    let mut continua = true;
    while continua
        invariant
            core.wf(),
            core.graph == old(core).graph,
            core.count@.len() == 0,
            core.queue == old(core).queue,
            g == core.graph@,
            est0 == old(core).est@,
            n == g.len(),
            le_seq(core.est@, est0),
            positive_est(g, est0) ==> positive_est(g, core.est@),
            dominates_fixed_points(g, est0, core.est@),
            !continua ==> is_fixed_point(g, core.est@),
        decreases sum_est(core.est@), (if continua {
            1int
        } else {
            0int
        }),
    {
        continua = false;
        let ghost pass0 = core.est@;
        let mut i: usize = 0;
        while i < n
            invariant
                core.wf(),
                core.graph == old(core).graph,
                core.count@.len() == 0,
                core.queue == old(core).queue,
                g == core.graph@,
                est0 == old(core).est@,
                n == g.len(),
                i <= n,
                le_seq(core.est@, pass0),
                le_seq(pass0, est0),
                le_seq(core.est@, est0),
                positive_est(g, est0) ==> positive_est(g, core.est@),
                dominates_fixed_points(g, est0, core.est@),
                !continua ==> core.est@ == pass0,
                continua ==> sum_est(core.est@) < sum_est(pass0),
                !continua ==> forall|v: int|
                    0 <= v < i ==> h_step(#[trigger] g[v], core.est@, core.est@[v] as int)
                        == core.est@[v] as int,
            decreases n - i,
        {
            let new_estimate = compute_index(core, i);
            let ghost est_b = core.est@;
            if new_estimate < core.est[i] {
                core.est[i] = new_estimate;
                core.changed[i] = true;
                continua = true;
                proof {
                    lemma_sum_update(est_b, i as int, new_estimate);
                    assert forall|f: Seq<usize>|
                        #[trigger] is_fixed_point(g, f) && le_seq(f, est0) implies le_seq(
                        f,
                        core.est@,
                    ) by {
                        assert(le_seq(f, est_b));
                        assert(entries_in(g[i as int], f)) by {
                            assert(valid_graph(g));
                            assert forall|k: int|
                                0 <= k < g[i as int].len() implies (#[trigger] g[i as int][k])
                                < f.len() by {
                                assert(g[i as int][k] < g.len());
                            }
                        }
                        assert(h_step(g[i as int], f, f[i as int] as int) == f[i as int] as int);
                        lemma_h_step_mono(
                            g[i as int],
                            f,
                            est_b,
                            f[i as int] as int,
                            est_b[i as int] as int,
                        );
                    }
                }
            }
            i += 1;
        }
        proof {
            lemma_sum_nonneg(core.est@);
        }
    }
}

proof fn lemma_prepend_contains(q: Seq<usize>, w: usize)
    ensures
        forall|x: usize| #[trigger] (seq![w] + q).contains(x) <==> (x == w || q.contains(x)),
{
    let q2 = seq![w] + q;
    assert forall|x: usize| #[trigger] q2.contains(x) <==> (x == w || q.contains(x)) by {
        if q2.contains(x) {
            let k = choose|k: int| 0 <= k < q2.len() && q2[k] == x;
            if k > 0 {
                assert(q[k - 1] == x);
                assert(q.contains(x));
            }
        }
        if x == w {
            assert(q2[0] == x);
            assert(q2.contains(x));
        }
        if q.contains(x) {
            let k = choose|k: int| 0 <= k < q.len() && q[k] == x;
            assert(q2[k + 1] == x);
            assert(q2.contains(x));
        }
    }
}

/// Worklist convergence driver: seeds the worklist with every vertex; each
/// pop re-evaluates one vertex, and a decrease re-enqueues exactly those
/// neighbors whose estimate lies in the affected interval `(new, old]` and
/// are not already pending. The worklist is pushed and popped at the same
/// end, so vertices are revisited in depth-first order; the order does not
/// matter for the result, which is the same fixed point the full sweep
/// reaches: estimates only decrease, the final estimates are a fixed point,
/// and they dominate every fixed point below the initial estimates.
#[verifier::loop_isolation(false)]
pub fn compute_coreness_queue(core: &mut Data)
    requires
        old(core).wf(),
        old(core).count@.len() == 0,
        old(core).queue@.len() == 0,
        forall|v: int| 0 <= v < old(core).changed@.len() ==> !(#[trigger] old(core).changed@[v]),
    ensures
        final(core).wf(),
        final(core).graph == old(core).graph,
        final(core).count@.len() == 0,
        final(core).queue@.len() == 0,
        le_seq(final(core).est@, old(core).est@),
        is_fixed_point(final(core).graph@, final(core).est@),
        dominates_fixed_points(final(core).graph@, old(core).est@, final(core).est@),
        positive_est(old(core).graph@, old(core).est@) ==> positive_est(
            final(core).graph@,
            final(core).est@,
        ),
{
    let ghost g = core.graph@;
    let ghost est0 = core.est@;
    let n = core.graph.inmap.len();

    let mut i: usize = 0;
    while i < n
        invariant
            i <= n,
            core.graph == old(core).graph,
            core.est == old(core).est,
            core.changed == old(core).changed,
            core.count == old(core).count,
            forall|k: int| 0 <= k < core.queue@.len() ==> (#[trigger] core.queue@[k]) < n,
            forall|v: usize| v < i ==> core.queue@.contains(v),
        decreases n - i,
    {
        let ghost qpre = core.queue@;
        core.queue.push_front(i);
        proof {
            lemma_prepend_contains(qpre, i);
            assert forall|v: usize| v < i + 1 implies core.queue@.contains(v) by {
                if v < i {
                    assert(qpre.contains(v));
                }
            }
        }
        i += 1;
    }

    while core.queue.len() != 0
        invariant
            core.wf(),
            core.graph == old(core).graph,
            core.count@.len() == 0,
            le_seq(core.est@, est0),
            positive_est(g, est0) ==> positive_est(g, core.est@),
            dominates_fixed_points(g, est0, core.est@),
            forall|k: int| 0 <= k < core.queue@.len() ==> (#[trigger] core.queue@[k]) < n,
            forall|v: int|
                0 <= v < n && (#[trigger] core.changed@[v]) ==> core.queue@.contains(v as usize),
            forall|v: usize|
                v < n && !(#[trigger] core.queue@.contains(v)) ==> h_step(
                    g[v as int],
                    core.est@,
                    core.est@[v as int] as int,
                ) == core.est@[v as int] as int,
        decreases sum_est(core.est@), core.queue@.len(),
    {
        let ghost q0 = core.queue@;
        let ghost est_b = core.est@;
        proof {
            lemma_sum_nonneg(est_b);
        }
        if let Some(node) = core.queue.pop_front() {
            let ghost q1 = core.queue@;
            proof {
                assert(q0[0] < n);
                assert forall|v: usize| v < n && v != node && !q1.contains(v) implies !q0.contains(
                    v,
                ) by {
                    if q0.contains(v) {
                        let k = choose|k: int| 0 <= k < q0.len() && q0[k] == v;
                        assert(k > 0);
                        assert(q1[k - 1] == v);
                        assert(q1.contains(v));
                    }
                }
            }
            core.changed[node] = false;
            proof {
                assert forall|v: int|
                    0 <= v < n && (#[trigger] core.changed@[v]) implies q1.contains(
                    v as usize,
                ) by {
                    assert(v != node);
                    assert(q0.contains(v as usize));
                    let k = choose|k: int| 0 <= k < q0.len() && q0[k] == v as usize;
                    assert(k > 0);
                    assert(q1[k - 1] == v as usize);
                }
            }
            let old_estimate = core.est[node];
            let new_estimate = compute_index(core, node);
            if new_estimate < old_estimate {
                let deg = core.graph.inmap[node].len();
                let mut jj: usize = 0;
                while jj < deg
                    invariant
                        jj <= deg,
                        core.wf(),
                        core.graph == old(core).graph,
                        core.count@.len() == 0,
                        core.est@ == est_b,
                        forall|k: int|
                            0 <= k < core.queue@.len() ==> (#[trigger] core.queue@[k]) < n,
                        forall|v: int|
                            0 <= v < n && (#[trigger] core.changed@[v])
                                ==> core.queue@.contains(v as usize),
                        forall|x: usize| q1.contains(x) ==> core.queue@.contains(x),
                        forall|k: int|
                            0 <= k < jj ==> {
                                let w = (#[trigger] g[node as int][k]) as int;
                                core.queue@.contains(g[node as int][k]) || est_b[w] <= new_estimate
                                    || est_b[w] > old_estimate
                            },
                    decreases deg - jj,
                {
                    let w = core.graph.inmap[node][jj];
                    proof {
                        assert(g[node as int][jj as int] < n);
                    }
                    if !core.changed[w] {
                        let ew = core.est[w];
                        if new_estimate < ew && old_estimate >= ew {
                            let ghost qpre = core.queue@;
                            core.queue.push_front(w);
                            core.changed[w] = true;
                            proof {
                                lemma_prepend_contains(qpre, w);
                            }
                        }
                    }
                    jj += 1;
                }
                let ghost q2 = core.queue@;
                core.est[node] = new_estimate;
                proof {
                    let est_a = core.est@;
                    assert(est_a == est_b.update(node as int, new_estimate));
                    lemma_sum_update(est_b, node as int, new_estimate);
                    lemma_sum_nonneg(est_a);
                    assert(valid_graph(g));
                    assert forall|v: usize|
                        v < n && !(#[trigger] q2.contains(v)) implies h_step(
                        g[v as int],
                        est_a,
                        est_a[v as int] as int,
                    ) == est_a[v as int] as int by {
                        assert(entries_in(g[v as int], est_b)) by {
                            assert forall|k: int|
                                0 <= k < g[v as int].len() implies (#[trigger] g[v as int][k])
                                < est_b.len() by {
                                assert(g[v as int][k] < g.len());
                            }
                        }
                        if v == node {
                            lemma_commit_self(g[node as int], est_b, node as int, new_estimate);
                        } else {
                            assert(!q1.contains(v));
                            assert(!q0.contains(v));
                            assert(h_step(g[v as int], est_b, est_b[v as int] as int)
                                == est_b[v as int] as int);
                            if g[node as int].contains(v) {
                                let k = choose|k: int|
                                    0 <= k < g[node as int].len() && g[node as int][k] == v;
                                assert(core.queue@.contains(g[node as int][k]) || est_b[v as int]
                                    <= new_estimate || est_b[v as int] > old_estimate);
                                lemma_unaffected(
                                    g[v as int],
                                    est_b,
                                    node as int,
                                    new_estimate,
                                    v as int,
                                );
                            } else {
                                assert(!g[v as int].contains(node)) by {
                                    if g[v as int].contains(node) {
                                        let k = choose|k: int|
                                            0 <= k < g[v as int].len() && g[v as int][k] == node;
                                        assert(g[(g[v as int][k]) as int].contains(v));
                                        assert(g[node as int].contains(v));
                                    }
                                }
                                lemma_h_step_absent(
                                    g[v as int],
                                    est_b,
                                    node as int,
                                    new_estimate,
                                    est_b[v as int] as int,
                                );
                            }
                        }
                    }
                    assert forall|f: Seq<usize>|
                        #[trigger] is_fixed_point(g, f) && le_seq(f, est0) implies le_seq(
                        f,
                        est_a,
                    ) by {
                        assert(le_seq(f, est_b));
                        assert(entries_in(g[node as int], f)) by {
                            assert forall|k: int|
                                0 <= k < g[node as int].len() implies (#[trigger] g[node as int][k])
                                < f.len() by {
                                assert(g[node as int][k] < g.len());
                            }
                        }
                        assert(h_step(g[node as int], f, f[node as int] as int) == f[node as int] as int);
                        lemma_h_step_mono(
                            g[node as int],
                            f,
                            est_b,
                            f[node as int] as int,
                            est_b[node as int] as int,
                        );
                    }
                }
            } else {
                proof {
                    assert(new_estimate == old_estimate);
                    assert forall|v: usize|
                        v < n && !(#[trigger] core.queue@.contains(v)) implies h_step(
                        g[v as int],
                        core.est@,
                        core.est@[v as int] as int,
                    ) == core.est@[v as int] as int by {
                        if v != node {
                            assert(!q0.contains(v));
                        }
                    }
                }
            }
        }
    }
    proof {
        assert forall|v: int|
            0 <= v < g.len() implies h_step(#[trigger] g[v], core.est@, core.est@[v] as int)
            == core.est@[v] as int by {
            assert(!core.queue@.contains(v as usize));
        }
    }
}

} // verus!
