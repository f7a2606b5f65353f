//! Undirected adjacency-list graph: incremental construction followed by a
//! one-time normalization (each neighbor list sorted and deduplicated).

use vstd::prelude::*;

verus! {

/// `adjacency[v]` holds a neighbor index for each edge endpoint incident to
/// `v`; both directions of an edge are recorded, and a self-loop is recorded
/// twice in its own list until normalization collapses the duplicates.
pub struct Graph {
    pub inmap: Vec<Vec<usize>>,
}

impl View for Graph {
    type V = Seq<Seq<usize>>;

    open spec fn view(&self) -> Seq<Seq<usize>> {
        Seq::new(self.inmap@.len(), |v: int| self.inmap@[v]@)
    }
}

/// Every recorded neighbor index refers to a vertex of the graph.
pub open spec fn valid_graph(g: Seq<Seq<usize>>) -> bool {
    forall|v: int, j: int|
        0 <= v < g.len() && 0 <= j < g[v].len() ==> (#[trigger] g[v][j]) < g.len()
}

/// Whenever `w` appears in `v`'s list, `v` appears in `w`'s list.
pub open spec fn symmetric(g: Seq<Seq<usize>>) -> bool {
    forall|v: int, j: int|
        0 <= v < g.len() && 0 <= j < g[v].len() ==> g[(#[trigger] g[v][j]) as int].contains(
            v as usize,
        )
}

pub open spec fn wf_graph(g: Seq<Seq<usize>>) -> bool {
    valid_graph(g) && symmetric(g)
}

/// Strictly increasing: sorted with no duplicate entries at all.
pub open spec fn normalized(s: Seq<usize>) -> bool {
    forall|a: int, b: int| 0 <= a < b < s.len() ==> s[a] < s[b]
}

pub open spec fn sorted_le(s: Seq<usize>) -> bool {
    forall|a: int, b: int| 0 <= a < b < s.len() ==> s[a] <= s[b]
}

/// The two sequences hold exactly the same values, multiplicity aside.
pub open spec fn same_members(a: Seq<usize>, b: Seq<usize>) -> bool {
    forall|x: usize| a.contains(x) <==> b.contains(x)
}

/// The row of `g` at `v`, or the empty row for an index not yet allocated.
pub open spec fn row_or_empty(g: Seq<Seq<usize>>, v: int) -> Seq<usize> {
    if 0 <= v < g.len() {
        g[v]
    } else {
        Seq::empty()
    }
}

/// Vertex count after inserting an edge `(i, j)` into a graph of `n` vertices.
pub open spec fn grown_len(n: int, i: int, j: int) -> int {
    let m = if i <= j {
        j + 1
    } else {
        i + 1
    };
    if n >= m {
        n
    } else {
        m
    }
}

impl Graph {
    pub fn new() -> (g: Graph)
        ensures
            g@.len() == 0,
    {
        Graph { inmap: Vec::new() }
    }

    /// Records the undirected edge `(i, j)`: grows the vertex table so both
    /// endpoints exist, then appends `j` to `i`'s list and `i` to `j`'s list
    /// (twice to `i`'s own list for a self-loop). Always succeeds.
    pub fn add_edge(&mut self, i: usize, j: usize) -> (r: Result<(), ()>)
        requires
            i < usize::MAX,
            j < usize::MAX,
        ensures
            r is Ok,
            final(self)@.len() == grown_len(old(self)@.len() as int, i as int, j as int),
            forall|v: int|
                0 <= v < final(self)@.len() && v != i && v != j ==> final(self)@[v]
                    == row_or_empty(old(self)@, v),
            i != j ==> final(self)@[i as int] == row_or_empty(old(self)@, i as int).push(j),
            i != j ==> final(self)@[j as int] == row_or_empty(old(self)@, j as int).push(i),
            i == j ==> final(self)@[i as int] == row_or_empty(old(self)@, i as int).push(j).push(
                j,
            ),
            wf_graph(old(self)@) ==> wf_graph(final(self)@),
    {
        let m = if i <= j {
            j + 1
        } else {
            i + 1
        };
        while self.inmap.len() < m
            invariant
                m as int == (if i as int <= j as int {
                    j as int + 1
                } else {
                    i as int + 1
                }),
                old(self)@.len() <= self.inmap@.len(),
                self.inmap@.len() <= grown_len(old(self)@.len() as int, i as int, j as int),
                forall|v: int| 0 <= v < old(self)@.len() ==> self.inmap@[v] == old(self).inmap@[v],
                forall|v: int|
                    old(self)@.len() <= v < self.inmap@.len() ==> (#[trigger] self.inmap@[v])@
                        =~= Seq::<usize>::empty(),
            decreases m - self.inmap@.len(),
        {
            self.inmap.push(Vec::new());
        }
        let ghost grown = self@;
        proof {
            assert(i < grown.len() && j < grown.len());
            assert forall|v: int| 0 <= v < grown.len() implies grown[v] == row_or_empty(
                old(self)@,
                v,
            ) by {
                if v < old(self)@.len() {
                } else {
                    assert(grown[v] =~= Seq::<usize>::empty());
                }
            }
        }
        self.inmap[i].push(j);
        proof {
            assert(self@ =~= grown.update(i as int, grown[i as int].push(j)));
        }
        let ghost mid = self@;
        self.inmap[j].push(i);
        proof {
            assert(self@ =~= mid.update(j as int, mid[j as int].push(i)));
            if wf_graph(old(self)@) {
                lemma_add_edge_preserves_wf(old(self)@, grown, self@, i, j);
            }
        }
        Ok(())
    }

    /// Normalizes every adjacency list: afterwards each list is strictly
    /// increasing and holds exactly the values it held before, once each.
    /// Meant to run exactly once, after the last edge insertion.
    pub fn no_duplicates(&mut self)
        ensures
            final(self)@.len() == old(self)@.len(),
            forall|v: int| 0 <= v < final(self)@.len() ==> normalized(#[trigger] final(self)@[v]),
            forall|v: int|
                0 <= v < final(self)@.len() ==> same_members(
                    #[trigger] final(self)@[v],
                    old(self)@[v],
                ),
            wf_graph(old(self)@) ==> wf_graph(final(self)@),
    {
        let n = self.inmap.len();
        let mut v: usize = 0;
        while v < n
            invariant
                v <= n,
                n == self.inmap@.len(),
                self@.len() == old(self)@.len(),
                forall|w: int| v <= w < n ==> self.inmap@[w] == old(self).inmap@[w],
                forall|w: int| 0 <= w < v ==> normalized(#[trigger] self@[w]),
                forall|w: int| 0 <= w < v ==> same_members(#[trigger] self@[w], old(self)@[w]),
            decreases n - v,
        {
            let ghost pre = self@;
            let s = sorted_copy(&self.inmap[v]);
            let d = dedup_sorted(&s);
            self.inmap[v] = d;
            proof {
                assert(self@ =~= pre.update(v as int, d@));
            }
            v += 1;
        }
        proof {
            if wf_graph(old(self)@) {
                lemma_members_preserve_wf(old(self)@, self@);
            }
        }
    }
}

/// A copy of `src` with the same values arranged in non-decreasing order.
fn sorted_copy(src: &Vec<usize>) -> (out: Vec<usize>)
    ensures
        sorted_le(out@),
        same_members(out@, src@),
{
    broadcast use vstd::seq_lib::group_seq_properties;

    let mut out: Vec<usize> = Vec::new();
    let mut idx: usize = 0;
    while idx < src.len()
        invariant
            idx <= src@.len(),
            sorted_le(out@),
            same_members(out@, src@.take(idx as int)),
        decreases src@.len() - idx,
    {
        let x = src[idx];
        let mut p: usize = 0;
        while p < out.len() && out[p] <= x
            invariant
                p <= out@.len(),
                forall|q: int| 0 <= q < p ==> out@[q] <= x,
            decreases out@.len() - p,
        {
            p += 1;
        }
        let ghost prev = out@;
        out.insert(p, x);
        proof {
            prev.insert_ensures(p as int, x);
            assert forall|a: int, b: int| 0 <= a < b < out@.len() implies out@[a] <= out@[b] by {
                if b < p {
                } else if b == p {
                    assert(out@[a] == prev[a] && out@[b] == x);
                } else if a < p {
                    assert(out@[b] == prev[b - 1]);
                    if b - 1 > p - 1 && p < prev.len() {
                        assert(prev[p as int] > x);
                    }
                } else if a == p {
                    assert(out@[a] == x && out@[b] == prev[b - 1]);
                    assert(p < prev.len() && prev[p as int] > x);
                    if b - 1 > p {
                        assert(prev[p as int] <= prev[b - 1]);
                    }
                } else {
                    assert(out@[a] == prev[a - 1] && out@[b] == prev[b - 1]);
                }
            }
            lemma_members_insert(prev, p as int, x);
            lemma_members_push(src@.take(idx as int), x);
            assert(src@.take(idx + 1) =~= src@.take(idx as int).push(x));
            assert forall|y: usize| out@.contains(y) <==> src@.take(idx + 1).contains(y) by {
                assert(out@.contains(y) == prev.insert(p as int, x).contains(y));
                assert(src@.take(idx + 1).contains(y) == src@.take(idx as int).push(x).contains(
                    y,
                ));
            }
        }
        idx += 1;
    }
    proof {
        assert(src@.take(idx as int) =~= src@);
    }
    out
}

/// A copy of the sorted `src` with runs of equal values collapsed to one.
fn dedup_sorted(src: &Vec<usize>) -> (out: Vec<usize>)
    requires
        sorted_le(src@),
    ensures
        normalized(out@),
        same_members(out@, src@),
{
    broadcast use vstd::seq_lib::group_seq_properties;

    let mut out: Vec<usize> = Vec::new();
    let mut idx: usize = 0;
    while idx < src.len()
        invariant
            idx <= src@.len(),
            sorted_le(src@),
            normalized(out@),
            same_members(out@, src@.take(idx as int)),
            idx == 0 ==> out@.len() == 0,
            idx > 0 ==> out@.len() > 0 && out@.last() == src@[idx - 1],
        decreases src@.len() - idx,
    {
        let x = src[idx];
        let ghost prev = out@;
        if out.len() == 0 {
            out.push(x);
            proof {
                lemma_members_push(prev, x);
            }
        } else {
            let lastv = out[out.len() - 1];
            proof {
                assert(idx > 0);
                assert(src@[idx - 1] <= src@[idx as int]);
            }
            if lastv != x {
                out.push(x);
                proof {
                    lemma_members_push(prev, x);
                    assert forall|a: int, b: int|
                        0 <= a < b < out@.len() implies out@[a] < out@[b] by {
                        if b == out@.len() - 1 {
                            if a < prev.len() - 1 {
                                assert(prev[a] < prev[prev.len() - 1]);
                            }
                        }
                    }
                }
            } else {
                proof {
                    assert(out@.contains(x)) by {
                        assert(out@[out@.len() - 1] == x);
                    }
                }
            }
        }
        proof {
            lemma_members_push(src@.take(idx as int), x);
            assert(src@.take(idx + 1) =~= src@.take(idx as int).push(x));
            assert forall|y: usize| out@.contains(y) <==> src@.take(idx + 1).contains(y) by {
                assert(src@.take(idx + 1).contains(y) == src@.take(idx as int).push(x).contains(
                    y,
                ));
                if prev.contains(y) {
                    assert(src@.take(idx as int).contains(y));
                }
            }
        }
        idx += 1;
    }
    proof {
        assert(src@.take(idx as int) =~= src@);
    }
    out
}

proof fn lemma_members_push(s: Seq<usize>, x: usize)
    ensures
        forall|y: usize| #[trigger] s.push(x).contains(y) <==> (s.contains(y) || y == x),
{
    assert forall|y: usize| #[trigger] s.push(x).contains(y) <==> (s.contains(y) || y == x) by {
        vstd::seq_lib::lemma_seq_contains_after_push(s, x, y);
    }
}

proof fn lemma_members_insert(prev: Seq<usize>, p: int, x: usize)
    requires
        0 <= p <= prev.len(),
    ensures
        forall|y: usize| #[trigger] prev.insert(p, x).contains(y) <==> (prev.contains(y) || y
            == x),
{
    let out = prev.insert(p, x);
    prev.insert_ensures(p, x);
    assert forall|y: usize| #[trigger] out.contains(y) <==> (prev.contains(y) || y == x) by {
        if out.contains(y) {
            let k = choose|k: int| 0 <= k < out.len() && out[k] == y;
            if k < p {
                assert(prev[k] == y);
                assert(prev.contains(y));
            } else if k > p {
                assert(prev[k - 1] == y);
                assert(prev.contains(y));
            }
        }
        if y == x {
            assert(out[p] == y);
            assert(out.contains(y));
        }
        if prev.contains(y) {
            let k = choose|k: int| 0 <= k < prev.len() && prev[k] == y;
            if k < p {
                assert(out[k] == y);
            } else {
                assert(out[k + 1] == y);
            }
            assert(out.contains(y));
        }
    }
}

/// Normalized sequences are canonical: equal membership forces equality.
pub proof fn lemma_normalized_unique(a: Seq<usize>, b: Seq<usize>)
    requires
        normalized(a),
        normalized(b),
        same_members(a, b),
    ensures
        a == b,
    decreases a.len(),
{
    if a.len() == 0 {
        if b.len() > 0 {
            assert(b.contains(b[0]));
            assert(a.contains(b[0]));
        }
        assert(a =~= b);
    } else {
        assert(a.contains(a.last()));
        assert(b.contains(a.last()));
        let ib = choose|ib: int| 0 <= ib < b.len() && b[ib] == a.last();
        assert(b.len() > 0);
        assert(b.contains(b.last()));
        assert(a.contains(b.last()));
        let ia = choose|ia: int| 0 <= ia < a.len() && a[ia] == b.last();
        assert(a[ia] <= a.last());
        assert(b[ib] <= b.last());
        assert(a.last() == b.last());
        assert forall|y: usize| a.drop_last().contains(y) implies b.drop_last().contains(y) by {
            let k = choose|k: int| 0 <= k < a.len() - 1 && a[k] == y;
            assert(a.contains(y));
            assert(y < a.last());
            let kb = choose|kb: int| 0 <= kb < b.len() && b[kb] == y;
            assert(kb < b.len() - 1);
            assert(b.drop_last()[kb] == y);
        }
        assert forall|y: usize| b.drop_last().contains(y) implies a.drop_last().contains(y) by {
            let k = choose|k: int| 0 <= k < b.len() - 1 && b[k] == y;
            assert(b.contains(y));
            assert(y < b.last());
            let ka = choose|ka: int| 0 <= ka < a.len() && a[ka] == y;
            assert(ka < a.len() - 1);
            assert(a.drop_last()[ka] == y);
        }
        lemma_normalized_unique(a.drop_last(), b.drop_last());
        assert(a.len() == b.len());
        assert forall|k: int| 0 <= k < a.len() implies a[k] == b[k] by {
            if k < a.len() - 1 {
                assert(a.drop_last()[k] == a[k]);
                assert(b.drop_last()[k] == b[k]);
            }
        }
        assert(a =~= b);
    }
}

/// Normalization is idempotent: normalizing the rows of an already-normalized
/// graph `g` yields `g` itself, so a second pass changes nothing.
pub proof fn lemma_normalize_idempotent(g: Seq<Seq<usize>>, h: Seq<Seq<usize>>)
    requires
        g.len() == h.len(),
        forall|v: int| 0 <= v < g.len() ==> normalized(#[trigger] g[v]),
        forall|v: int| 0 <= v < h.len() ==> normalized(#[trigger] h[v]),
        forall|v: int| 0 <= v < h.len() ==> same_members(#[trigger] h[v], g[v]),
    ensures
        h == g,
{
    assert forall|v: int| 0 <= v < h.len() implies h[v] == g[v] by {
        lemma_normalized_unique(h[v], g[v]);
    }
    assert(h =~= g);
}

/// Replacing every row by a row with the same members keeps the graph
/// well-formed: validity and symmetry only depend on which values occur.
pub proof fn lemma_members_preserve_wf(g: Seq<Seq<usize>>, h: Seq<Seq<usize>>)
    requires
        g.len() == h.len(),
        wf_graph(g),
        forall|v: int| 0 <= v < h.len() ==> same_members(#[trigger] h[v], g[v]),
    ensures
        wf_graph(h),
{
    assert forall|v: int, j: int|
        0 <= v < h.len() && 0 <= j < h[v].len() implies (#[trigger] h[v][j]) < h.len() && h[(
    h[v][j]) as int].contains(v as usize) by {
        let x = h[v][j];
        assert(h[v].contains(x));
        assert(g[v].contains(x));
        let k = choose|k: int| 0 <= k < g[v].len() && g[v][k] == x;
        assert(g[v][k] < g.len());
        assert(g[(x as int)].contains(v as usize));
        assert(h[(x as int)].contains(v as usize));
    }
}

proof fn lemma_add_edge_preserves_wf(
    g0: Seq<Seq<usize>>,
    grown: Seq<Seq<usize>>,
    g2: Seq<Seq<usize>>,
    i: usize,
    j: usize,
)
    requires
        wf_graph(g0),
        g0.len() <= grown.len(),
        i < grown.len(),
        j < grown.len(),
        forall|v: int| 0 <= v < grown.len() ==> #[trigger] grown[v] == row_or_empty(g0, v),
        g2.len() == grown.len(),
        forall|v: int| 0 <= v < g2.len() && v != i && v != j ==> #[trigger] g2[v] == grown[v],
        i != j ==> g2[i as int] == grown[i as int].push(j),
        i != j ==> g2[j as int] == grown[j as int].push(i),
        i == j ==> g2[i as int] == grown[i as int].push(j).push(j),
    ensures
        wf_graph(g2),
{
    broadcast use vstd::seq_lib::group_seq_properties;

    assert forall|v: int, k: int|
        0 <= v < g2.len() && 0 <= k < g2[v].len() implies (#[trigger] g2[v][k]) < g2.len() && g2[(
    g2[v][k]) as int].contains(v as usize) by {
        let x = g2[v][k];
        // Old entries stay valid and symmetric; the appended entries point at
        // the other endpoint, whose list just received this vertex.
        if v < g0.len() && k < g0[v].len() && g2[v][k] == g0[v][k] {
            assert(g0[v][k] < g0.len());
            assert(g0[(x as int)].contains(v as usize));
            assert(grown[(x as int)] == row_or_empty(g0, x as int));
            assert(grown[(x as int)].contains(v as usize));
            assert(g2[(x as int)].contains(v as usize));
        } else {
            // An appended entry: v is i or j and x is the other endpoint.
            if i != j {
                if v == i && k == g2[v].len() - 1 {
                    assert(x == j);
                    assert(g2[j as int].last() == i);
                    assert(g2[j as int].contains(i));
                } else if v == j && k == g2[v].len() - 1 {
                    assert(x == i);
                    assert(g2[i as int].last() == j);
                    assert(g2[i as int].contains(j));
                } else {
                    // Within the old part of an endpoint's row.
                    assert(v == i || v == j);
                    assert(g2[v][k] == grown[v][k]);
                    assert(grown[v] == row_or_empty(g0, v));
                    assert(v < g0.len() && k < g0[v].len() && g0[v][k] == x);
                    assert(g0[(x as int)].contains(v as usize));
                    assert(grown[(x as int)].contains(v as usize));
                    assert(g2[(x as int)].contains(v as usize));
                }
            } else {
                if v == i && k >= g2[v].len() - 2 {
                    assert(x == j);
                    assert(g2[i as int].contains(j));
                } else {
                    assert(v == i);
                    assert(g2[v][k] == grown[v][k]);
                    assert(grown[v] == row_or_empty(g0, v));
                    assert(v < g0.len() && k < g0[v].len() && g0[v][k] == x);
                    assert(g0[(x as int)].contains(v as usize));
                    assert(grown[(x as int)].contains(v as usize));
                    assert(g2[(x as int)].contains(v as usize));
                }
            }
        }
    }
}

} // verus!
