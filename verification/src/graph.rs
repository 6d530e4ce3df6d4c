//! The graph and minimum-spanning-tree builder: an undirected weighted
//! graph over plane points, and a greedy edge-sorted union-find
//! extraction of a spanning tree. Ties between equal weights are broken
//! by edge discovery order (the sort is stable).

use vstd::prelude::*;
use vstd::seq_lib::seq_to_set_is_finite;
use vstd::set::axiom_set_remove_len;
use vstd::set::axiom_set_insert_len;
use crate::geom::Point;
use crate::INF_COST;

verus! {

/// An undirected edge between two points, stored with its endpoints in
/// canonical order so that derived equality and hashing treat the two
/// orientations as the same edge.
#[derive(Clone, Copy, PartialEq, Eq, Hash, Debug, Structural)]
pub struct Edge {
    pub start: Point,
    pub end: Point,
}

impl Edge {
    /// Builds an edge with its endpoints in canonical order.
    pub fn new(a: Point, b: Point) -> (r: Edge)
        ensures
            (r.start == a && r.end == b) || (r.start == b && r.end == a),
            r.start.x < r.end.x || (r.start.x == r.end.x && r.start.y <= r.end.y),
    {
        if a.x < b.x || (a.x == b.x && a.y <= b.y) {
            Edge { start: a, end: b }
        } else {
            Edge { start: b, end: a }
        }
    }
}

pub open spec fn wf_edges(n: int, es: Seq<(usize, usize, i64)>) -> bool {
    forall|k: int|
        0 <= k < es.len() ==> ((#[trigger] es[k]).0 < n && es[k].1 < n && -INF_COST <= es[k].2
            <= INF_COST)
}

/// Sum of the weights of the edges from index `i` on.
pub open spec fn edge_weight_sum(es: Seq<(usize, usize, i64)>, i: int) -> int
    decreases es.len() - i,
{
    if i < 0 || i >= es.len() {
        0
    } else {
        es[i].2 + edge_weight_sum(es, i + 1)
    }
}

pub proof fn lemma_ews_push(es: Seq<(usize, usize, i64)>, e: (usize, usize, i64), i: int)
    requires
        0 <= i <= es.len(),
    ensures
        edge_weight_sum(es.push(e), i) == edge_weight_sum(es, i) + e.2,
    decreases es.len() - i,
{
    if i < es.len() {
        lemma_ews_push(es, e, i + 1);
        assert(es.push(e)[i] == es[i]);
    } else {
        assert(es.push(e)[i] == e);
        assert(edge_weight_sum(es.push(e), i + 1) == 0);
    }
}

/// Some edge joins vertices `i` and `j`, stored in that order.
pub open spec fn has_edge(es: Seq<(usize, usize, i64)>, i: int, j: int) -> bool {
    exists|k: int| 0 <= k < es.len() && (#[trigger] es[k]).0 == i && es[k].1 == j
}

/// Every unordered pair of vertices carries at least one edge, stored
/// with its smaller index first.
pub open spec fn spec_complete(n: int, es: Seq<(usize, usize, i64)>) -> bool {
    forall|i: int, j: int| 0 <= i < j < n ==> #[trigger] has_edge(es, i, j)
}

/// Relabelling for the connectivity model: every occurrence of `from`
/// becomes `to`.
pub open spec fn relabel(lab: Seq<usize>, from: usize, to: usize) -> Seq<usize> {
    lab.map_values(|l: usize| if l == from { to } else { l })
}

/// One step of the connectivity model: an edge between two different
/// classes merges them; anything else changes nothing.
pub open spec fn apply_edge_labels(lab: Seq<usize>, e: (usize, usize, i64)) -> Seq<usize> {
    if e.0 < lab.len() && e.1 < lab.len() && lab[e.0 as int] != lab[e.1 as int] {
        relabel(lab, lab[e.1 as int], lab[e.0 as int])
    } else {
        lab
    }
}

/// The class of each vertex after merging the edges from index `i` on.
pub open spec fn fold_labels(lab: Seq<usize>, es: Seq<(usize, usize, i64)>, i: int) -> Seq<usize>
    decreases es.len() - i,
{
    if i < 0 || i >= es.len() {
        lab
    } else {
        fold_labels(apply_edge_labels(lab, es[i]), es, i + 1)
    }
}

/// The discrete partition: every vertex in its own class.
pub open spec fn init_labels(n: int) -> Seq<usize> {
    Seq::new(n as nat, |i: int| i as usize)
}

/// The edge set connects all `n` vertices: merging its edges from the
/// discrete partition leaves a single class.
pub open spec fn connects(n: int, es: Seq<(usize, usize, i64)>) -> bool {
    forall|u: int, v: int|
        0 <= u < n && 0 <= v < n ==> #[trigger] fold_labels(init_labels(n), es, 0)[u]
            == #[trigger] fold_labels(init_labels(n), es, 0)[v]
}

proof fn lemma_fold_labels_push(
    lab: Seq<usize>,
    es: Seq<(usize, usize, i64)>,
    e: (usize, usize, i64),
    i: int,
)
    requires
        0 <= i <= es.len(),
    ensures
        fold_labels(lab, es.push(e), i) == apply_edge_labels(fold_labels(lab, es, i), e),
    decreases es.len() - i,
{
    if i < es.len() {
        assert(es.push(e)[i] == es[i]);
        lemma_fold_labels_push(apply_edge_labels(lab, es[i]), es, e, i + 1);
    } else {
        assert(es.push(e)[i] == e);
        assert(fold_labels(apply_edge_labels(lab, e), es.push(e), i + 1) == apply_edge_labels(
            lab,
            e,
        ));
    }
}

/// Adjacent order extends to every pair.
proof fn lemma_sorted_pair(es: Seq<(usize, usize, i64)>, i: int, j: int)
    requires
        forall|m: int| 0 <= m < es.len() - 1 ==> (#[trigger] es[m]).2 <= es[m + 1].2,
        0 <= i <= j < es.len(),
    ensures
        es[i].2 <= es[j].2,
    decreases j - i,
{
    if i < j {
        lemma_sorted_pair(es, i, j - 1);
    }
}

/// An undirected weighted graph: a list of nodes (which may repeat a
/// coordinate; such nodes are distinct vertices) and a list of edges by
/// node index.
pub struct Graph {
    pub nodes: Vec<Point>,
    pub edges: Vec<(usize, usize, i64)>,
}

/// A spanning tree extracted from a graph, with its precomputed total
/// edge weight.
pub struct MinimumSpanningTree {
    pub nodes: Vec<Point>,
    pub edges: Vec<(usize, usize, i64)>,
    pub total_weight: i128,
}

impl MinimumSpanningTree {
    pub open spec fn wf(&self) -> bool {
        &&& wf_edges(self.nodes@.len() as int, self.edges@)
        &&& self.total_weight as int == edge_weight_sum(self.edges@, 0)
        &&& self.edges@.len() < self.nodes@.len() || (self.nodes@.len() == 0
            && self.edges@.len() == 0)
    }

    /// How many tree edges touch the node with the given index.
    pub fn degree(&self, v: usize) -> (d: usize)
        ensures
            d as int == spec_degree(self.edges@, v as int),
    {
        degree_count(&self.edges, v)
    }
}

/// How many edges from index `i` on touch vertex `v`.
pub open spec fn degree_from(es: Seq<(usize, usize, i64)>, v: int, i: int) -> int
    decreases es.len() - i,
{
    if i < 0 || i >= es.len() {
        0
    } else {
        (if es[i].0 == v || es[i].1 == v {
            1int
        } else {
            0int
        }) + degree_from(es, v, i + 1)
    }
}

pub open spec fn spec_degree(es: Seq<(usize, usize, i64)>, v: int) -> int {
    degree_from(es, v, 0)
}

proof fn lemma_degree_from_bound(es: Seq<(usize, usize, i64)>, v: int, i: int)
    requires
        0 <= i <= es.len(),
    ensures
        0 <= degree_from(es, v, i) <= es.len() - i,
    decreases es.len() - i,
{
    if i < es.len() {
        lemma_degree_from_bound(es, v, i + 1);
    }
}

/// Counts the edges that touch vertex `v`.
pub fn degree_count(es: &Vec<(usize, usize, i64)>, v: usize) -> (d: usize)
    ensures
        d as int == spec_degree(es@, v as int),
{
    let n = es.len();
    let mut d: usize = 0;
    let mut i: usize = 0;
    proof {
        lemma_degree_from_bound(es@, v as int, 0);
    }
    while i < n
        invariant
            0 <= i <= n,
            n == es@.len(),
            0 <= d as int <= i as int,
            d as int + degree_from(es@, v as int, i as int) == spec_degree(es@, v as int),
        decreases n - i,
    {
        proof {
            lemma_degree_from_bound(es@, v as int, i as int + 1);
        }
        let e = es[i];
        if e.0 == v || e.1 == v {
            d = d + 1;
        }
        i = i + 1;
    }
    d
}

/// Stable insertion sort of edges by weight: equal weights keep their
/// discovery order.
fn sort_edges(es: &Vec<(usize, usize, i64)>) -> (out: Vec<(usize, usize, i64)>)
    ensures
        out@.len() == es@.len(),
        forall|k: int| 0 <= k < out@.len() ==> es@.contains(#[trigger] out@[k]),
        forall|j: int| 0 <= j < es@.len() ==> out@.contains(#[trigger] es@[j]),
        forall|k: int| 0 <= k < out@.len() - 1 ==> (#[trigger] out@[k]).2 <= out@[k + 1].2,
{
    let mut out: Vec<(usize, usize, i64)> = Vec::new();
    let n = es.len();
    let mut k: usize = 0;
    while k < n
        invariant
            0 <= k <= n,
            n == es@.len(),
            out@.len() == k,
            forall|k2: int| 0 <= k2 < out@.len() ==> es@.contains(#[trigger] out@[k2]),
            forall|j: int| 0 <= j < k ==> out@.contains(#[trigger] es@[j]),
            forall|k2: int| 0 <= k2 < out@.len() - 1 ==> (#[trigger] out@[k2]).2 <= out@[k2
                + 1].2,
        decreases n - k,
    {
        let x = es[k];
        let mut pos: usize = 0;
        while pos < out.len() && !(x.2 < out[pos].2)
            invariant
                0 <= pos <= out@.len(),
                forall|k2: int| 0 <= k2 < pos ==> (#[trigger] out@[k2]).2 <= x.2,
            decreases out@.len() - pos,
        {
            pos = pos + 1;
        }
        let ghost old_out = out@;
        proof {
            old_out.insert_ensures(pos as int, x);
        }
        out.insert(pos, x);
        proof {
            assert forall|k2: int| 0 <= k2 < out@.len() implies es@.contains(
                #[trigger] out@[k2],
            ) by {
                if k2 < pos {
                    assert(out@[k2] == old_out[k2]);
                } else if k2 == pos {
                    assert(out@[k2] == x && x == es@[k as int]);
                } else {
                    assert(out@[k2] == old_out[k2 - 1]);
                }
            }
            assert forall|j: int| 0 <= j < k + 1 implies out@.contains(#[trigger] es@[j]) by {
                if j == k {
                    assert(out@[pos as int] == es@[j]);
                } else {
                    let w = choose|w: int| 0 <= w < old_out.len() && old_out[w] == es@[j];
                    if w < pos {
                        assert(out@[w] == es@[j]);
                    } else {
                        assert(out@[w + 1] == es@[j]);
                    }
                }
            }
            assert forall|k2: int| 0 <= k2 < out@.len() - 1 implies (#[trigger] out@[k2]).2
                <= out@[k2 + 1].2 by {
                if k2 + 1 < pos {
                    assert(out@[k2] == old_out[k2] && out@[k2 + 1] == old_out[k2 + 1]);
                } else if k2 + 1 == pos {
                    assert(out@[k2] == old_out[k2] && out@[k2 + 1] == x);
                } else if k2 == pos {
                    assert(out@[k2] == x && out@[k2 + 1] == old_out[k2]);
                } else {
                    assert(out@[k2] == old_out[k2 - 1] && out@[k2 + 1] == old_out[k2]);
                }
            }
        }
        k = k + 1;
    }
    out
}

/// A plain element-wise copy of a point list.
pub fn copy_points(src: &Vec<Point>) -> (r: Vec<Point>)
    ensures
        r@ == src@,
{
    let mut r: Vec<Point> = Vec::new();
    let n = src.len();
    let mut i: usize = 0;
    while i < n
        invariant
            0 <= i <= n,
            n == src@.len(),
            r@ == src@.take(i as int),
        decreases n - i,
    {
        r.push(src[i]);
        proof {
            assert(r@ =~= src@.take(i as int + 1));
        }
        i = i + 1;
    }
    proof {
        assert(src@.take(n as int) =~= src@);
    }
    r
}

impl Graph {
    pub open spec fn wf(&self) -> bool {
        wf_edges(self.nodes@.len() as int, self.edges@)
    }

    /// An empty graph.
    pub fn new() -> (r: Graph)
        ensures
            r.nodes@.len() == 0,
            r.edges@.len() == 0,
            r.wf(),
    {
        Graph { nodes: Vec::new(), edges: Vec::new() }
    }

    /// The index of the node carrying the given coordinate, if any.
    fn find_node(&self, p: Point) -> (r: Option<usize>)
        ensures
            match r {
                Some(i) => i < self.nodes@.len() && self.nodes@[i as int] == p,
                None => forall|k: int| 0 <= k < self.nodes@.len() ==> self.nodes@[k] != p,
            },
    {
        let n = self.nodes.len();
        let mut i: usize = 0;
        while i < n
            invariant
                0 <= i <= n,
                n == self.nodes@.len(),
                forall|k: int| 0 <= k < i ==> self.nodes@[k] != p,
            decreases n - i,
        {
            if self.nodes[i].x == p.x && self.nodes[i].y == p.y {
                proof {
                    assert(self.nodes@[i as int] == p);
                }
                return Some(i);
            }
            i = i + 1;
        }
        None
    }

    /// Adds an edge between the nodes carrying the two coordinates,
    /// creating nodes for coordinates not seen before.
    pub fn add_edge_from_points(&mut self, p1: Point, p2: Point, w: i64) -> (r: ())
        requires
            old(self).wf(),
            -INF_COST <= w <= INF_COST,
        ensures
            final(self).wf(),
            final(self).edges@.len() == old(self).edges@.len() + 1,
            forall|k: int|
                0 <= k < old(self).edges@.len() ==> final(self).edges@[k] == old(self).edges@[k],
            final(self).nodes@.len() >= old(self).nodes@.len(),
            forall|k: int|
                0 <= k < old(self).nodes@.len() ==> final(self).nodes@[k] == old(self).nodes@[k],
            final(self).nodes@.contains(p1) && final(self).nodes@.contains(p2),
            ({
                let e = final(self).edges@.last();
                final(self).nodes@[e.0 as int] == p1 && final(self).nodes@[e.1 as int] == p2
            }),
    {
        let i1 = match self.find_node(p1) {
            Some(i) => i,
            None => {
                let i = self.nodes.len();
                self.nodes.push(p1);
                i
            },
        };
        let i2 = match self.find_node(p2) {
            Some(i) => i,
            None => {
                let i = self.nodes.len();
                self.nodes.push(p2);
                i
            },
        };
        proof {
            assert(self.nodes@[i1 as int] == p1);
            assert(self.nodes@[i2 as int] == p2);
        }
        self.edges.push((i1, i2, w));
    }

    /// Extracts a spanning tree by greedy edge-sorted union-find
    /// selection: edges are tried cheapest first (ties broken by
    /// discovery order) and an edge is kept exactly when it joins two
    /// components not yet connected. On a complete graph the result
    /// spans every vertex with one edge fewer than there are vertices.
    pub fn minimum_spanning_tree(&self) -> (mst: MinimumSpanningTree)
        requires
            self.wf(),
            self.nodes@.len() >= 1,
        ensures
            mst.nodes@ == self.nodes@,
            mst.wf(),
            forall|k: int|
                0 <= k < mst.edges@.len() ==> self.edges@.contains(#[trigger] mst.edges@[k]),
            forall|k: int| 0 <= k < mst.edges@.len() ==> (#[trigger] mst.edges@[k]).0 != mst.edges@[
                k].1,
            forall|k1: int, k2: int|
                0 <= k1 < k2 < mst.edges@.len() ==> !((#[trigger] mst.edges@[k1]).0 == (
                #[trigger] mst.edges@[k2]).0 && mst.edges@[k1].1 == mst.edges@[k2].1),
            mst.edges@.len() <= self.nodes@.len() - 1,
            mst.total_weight as int == edge_weight_sum(mst.edges@, 0),
            forall|m: int|
                0 <= m < mst.edges@.len() - 1 ==> (#[trigger] mst.edges@[m]).2 <= mst.edges@[m
                    + 1].2,
            spec_complete(self.nodes@.len() as int, self.edges@) ==> mst.edges@.len()
                == self.nodes@.len() - 1,
            spec_complete(self.nodes@.len() as int, self.edges@) ==> connects(
                self.nodes@.len() as int,
                mst.edges@,
            ),
    {
        let ghost es_in = self.edges@;
        let n = self.nodes.len();
        let sorted = sort_edges(&self.edges);
        let ghost srt = sorted@;
        proof {
            assert forall|j1: int, j2: int| 0 <= j1 <= j2 < srt.len() implies (#[trigger] srt[
            j1]).2 <= (#[trigger] srt[j2]).2 by {
                lemma_sorted_pair(srt, j1, j2);
            }
        }
        let mut labels: Vec<usize> = Vec::new();
        let mut t: usize = 0;
        while t < n
            invariant
                0 <= t <= n,
                labels@.len() == t,
                forall|i: int| 0 <= i < t ==> labels@[i] == i,
            decreases n - t,
        {
            labels.push(t);
            t = t + 1;
        }
        proof {
            assert(labels@.no_duplicates());
            labels@.unique_seq_to_set();
            assert(labels@ =~= init_labels(n as int));
        }
        let mut chosen: Vec<(usize, usize, i64)> = Vec::new();
        let mut total: i128 = 0;
        let ne = sorted.len();
        let mut k: usize = 0;
        while k < ne
            invariant
                0 <= k <= ne,
                ne == srt.len(),
                srt == sorted@,
                es_in == self.edges@,
                self.wf(),
                n == self.nodes@.len(),
                1 <= n,
                labels@.len() == n,
                forall|i: int| 0 <= i < n ==> (#[trigger] labels@[i]) < n,
                forall|k2: int| 0 <= k2 < srt.len() ==> es_in.contains(#[trigger] srt[k2]),
                forall|j: int| 0 <= j < es_in.len() ==> srt.contains(#[trigger] es_in[j]),
                forall|j: int|
                    0 <= j < k ==> labels@[(#[trigger] srt[j]).0 as int] == labels@[srt[j].1
                        as int],
                labels@.to_set().len() + chosen@.len() == n,
                forall|m: int| 0 <= m < chosen@.len() ==> es_in.contains(#[trigger] chosen@[m]),
                forall|m: int|
                    0 <= m < chosen@.len() ==> labels@[(#[trigger] chosen@[m]).0 as int]
                        == labels@[chosen@[m].1 as int],
                forall|m: int| 0 <= m < chosen@.len() ==> (#[trigger] chosen@[m]).0 != chosen@[
                    m].1,
                forall|m1: int, m2: int|
                    0 <= m1 < m2 < chosen@.len() ==> !((#[trigger] chosen@[m1]).0 == (
                    #[trigger] chosen@[m2]).0 && chosen@[m1].1 == chosen@[m2].1),
                wf_edges(n as int, chosen@),
                total as int == edge_weight_sum(chosen@, 0),
                -(chosen@.len() as int) * (INF_COST as int) <= total as int <= (chosen@.len()
                    as int) * (INF_COST as int),
                forall|j1: int, j2: int|
                    0 <= j1 <= j2 < srt.len() ==> (#[trigger] srt[j1]).2 <= (#[trigger] srt[
                    j2]).2,
                forall|m: int|
                    0 <= m < chosen@.len() - 1 ==> (#[trigger] chosen@[m]).2 <= chosen@[m + 1].2,
                chosen@.len() > 0 ==> forall|j: int|
                    k as int <= j < srt.len() ==> chosen@.last().2 <= (#[trigger] srt[j]).2,
                labels@ == fold_labels(init_labels(n as int), chosen@, 0),
            decreases ne - k,
        {
            let e = sorted[k];
            proof {
                assert(es_in.contains(srt[k as int]));
                let w0 = choose|w0: int| 0 <= w0 < es_in.len() && es_in[w0] == srt[k as int];
                assert(e.0 < n && e.1 < n && -INF_COST <= e.2 <= INF_COST);
            }
            let lu = labels[e.0];
            let lv = labels[e.1];
            if lu != lv {
                let ghost old_labels = labels@;
                let mut r: usize = 0;
                while r < n
                    invariant
                        0 <= r <= n,
                        labels@.len() == n,
                        old_labels.len() == n,
                        lu != lv,
                        lu < n,
                        lv < n,
                        forall|i: int| 0 <= i < n ==> (#[trigger] old_labels[i]) < n,
                        forall|i: int|
                            0 <= i < r ==> labels@[i] == (if old_labels[i] == lv {
                                lu
                            } else {
                                (#[trigger] old_labels[i])
                            }),
                        forall|i: int| r <= i < n ==> labels@[i] == old_labels[i],
                    decreases n - r,
                {
                    if labels[r] == lv {
                        labels.set(r, lu);
                    }
                    r = r + 1;
                }
                proof {
                    assert forall|i: int| 0 <= i < n implies (#[trigger] labels@[i]) < n by {
                        assert(old_labels[i] < n);
                    }
                    assert(old_labels[e.0 as int] == lu && old_labels[e.1 as int] == lv);
                    assert(labels@.to_set() =~= old_labels.to_set().remove(lv)) by {
                        assert forall|l: usize| #[trigger]
                            labels@.to_set().contains(l) implies old_labels.to_set().remove(
                            lv,
                        ).contains(l) by {
                            let w = choose|w: int| 0 <= w < labels@.len() && labels@[w] == l;
                            if old_labels[w] == lv {
                                assert(l == lu);
                                assert(old_labels[e.0 as int] == lu);
                                assert(old_labels.contains(lu));
                            } else {
                                assert(old_labels[w] == l);
                                assert(old_labels.contains(l));
                            }
                        }
                        assert forall|l: usize|
                            old_labels.to_set().remove(lv).contains(l) implies #[trigger]
                        labels@.to_set().contains(l) by {
                            let w = choose|w: int|
                                0 <= w < old_labels.len() && old_labels[w] == l;
                            assert(labels@[w] == l);
                            assert(labels@.contains(l));
                        }
                    }
                    seq_to_set_is_finite(old_labels);
                    assert(old_labels.contains(lv)) by {
                        assert(old_labels[e.1 as int] == lv);
                    }
                    axiom_set_remove_len(old_labels.to_set(), lv);
                    lemma_ews_push(chosen@, e, 0);
                    assert(labels@ =~= relabel(old_labels, lv, lu));
                    lemma_fold_labels_push(init_labels(n as int), chosen@, e, 0);
                    assert(apply_edge_labels(old_labels, e) == relabel(old_labels, lv, lu));
                    assert((chosen@.len() as int + 1) * (INF_COST as int) == (chosen@.len()
                        as int) * (INF_COST as int) + INF_COST as int) by (nonlinear_arith);
                    assert((chosen@.len() as int) * (INF_COST as int) < i128::MAX - INF_COST
                        as int) by (nonlinear_arith)
                        requires
                            chosen@.len() < n <= usize::MAX,
                    ;
                }
                let ghost chosen_b4 = chosen@;
                chosen.push(e);
                total = total + (e.2 as i128);
                proof {
                    assert forall|m: int|
                        0 <= m < chosen@.len() implies labels@[(#[trigger] chosen@[m]).0 as int]
                        == labels@[chosen@[m].1 as int] by {
                        if m < chosen_b4.len() {
                            assert(chosen@[m] == chosen_b4[m]);
                            assert(old_labels[chosen_b4[m].0 as int] == old_labels[chosen_b4[
                                m].1 as int]);
                        } else {
                            assert(chosen@[m] == e);
                        }
                    }
                    assert forall|m1: int, m2: int|
                        0 <= m1 < m2 < chosen@.len() implies !((#[trigger] chosen@[m1]).0 == (
                    #[trigger] chosen@[m2]).0 && chosen@[m1].1 == chosen@[m2].1) by {
                        if m2 == chosen@.len() - 1 {
                            assert(chosen@[m1] == chosen_b4[m1] && chosen@[m2] == e);
                            if chosen_b4[m1].0 == e.0 && chosen_b4[m1].1 == e.1 {
                                assert(old_labels[chosen_b4[m1].0 as int] == old_labels[chosen_b4[
                                    m1].1 as int]);
                                assert(false);
                            }
                        } else {
                            assert(chosen@[m1] == chosen_b4[m1] && chosen@[m2] == chosen_b4[m2]);
                        }
                    }
                    assert forall|j: int|
                        0 <= j < k + 1 implies labels@[(#[trigger] srt[j]).0 as int] == labels@[
                    srt[j].1 as int] by {
                        if j < k {
                            let a = srt[j].0 as int;
                            let b = srt[j].1 as int;
                            assert(es_in.contains(srt[j]));
                            let w1 = choose|w1: int| 0 <= w1 < es_in.len() && es_in[w1] == srt[j];
                            assert(old_labels[a] == old_labels[b]);
                        } else {
                            assert(labels@[srt[j].0 as int] == lu && labels@[srt[j].1 as int]
                                == lu);
                        }
                    }
                    assert forall|m: int|
                        0 <= m < chosen@.len() - 1 implies (#[trigger] chosen@[m]).2 <= chosen@[m
                        + 1].2 by {
                        if m + 1 < chosen@.len() - 1 {
                            assert(chosen@[m] == chosen_b4[m] && chosen@[m + 1] == chosen_b4[m
                                + 1]);
                        } else {
                            assert(chosen@[m + 1] == e);
                            if m < chosen_b4.len() {
                                assert(chosen@[m] == chosen_b4[m]);
                                if chosen_b4.len() > 0 && m == chosen_b4.len() - 1 {
                                    assert(chosen_b4.last().2 <= srt[k as int].2);
                                }
                            }
                        }
                    }
                    assert(chosen@.last() == e);
                }
            }
            k = k + 1;
        }
        proof {
            seq_to_set_is_finite(labels@);
            assert(labels@.contains(labels@[0]));
            axiom_set_remove_len(labels@.to_set(), labels@[0]);
            assert(labels@.to_set().len() >= 1);
            if spec_complete(n as int, es_in) {
                assert forall|t2: int| 0 <= t2 < n implies #[trigger] labels@[t2] == labels@[0] by {
                    if t2 > 0 {
                        assert(has_edge(es_in, 0, t2));
                        let ke = choose|ke: int|
                            0 <= ke < es_in.len() && (#[trigger] es_in[ke]).0 == 0 && es_in[ke].1
                                == t2;
                        assert(srt.contains(es_in[ke]));
                        let js = choose|js: int| 0 <= js < srt.len() && srt[js] == es_in[ke];
                        assert(labels@[srt[js].0 as int] == labels@[srt[js].1 as int]);
                    }
                }
                assert(labels@.to_set() =~= Set::empty().insert(labels@[0])) by {
                    assert forall|l: usize| #[trigger]
                        labels@.to_set().contains(l) implies Set::empty().insert(
                        labels@[0],
                    ).contains(l) by {
                        let w = choose|w: int| 0 <= w < labels@.len() && labels@[w] == l;
                        assert(labels@[w] == labels@[0]);
                    }
                    assert(labels@.to_set().contains(labels@[0]));
                }
                axiom_set_insert_len(Set::empty(), labels@[0]);
                assert(Set::<usize>::empty().len() == 0);
                assert(labels@.to_set().len() == 1);
            }
        }
        let nodes_copy = copy_points(&self.nodes);
        MinimumSpanningTree { nodes: nodes_copy, edges: chosen, total_weight: total }
    }

    /// The edges that touch the node carrying the given coordinate, as
    /// `(other endpoint's coordinate, weight)` pairs.
    pub fn edges_connected_to_point(&self, p: Point) -> (r: Vec<(Point, i64)>)
        requires
            self.wf(),
    {
        let mut r: Vec<(Point, i64)> = Vec::new();
        match self.find_node(p) {
            Some(i) => {
                let ne = self.edges.len();
                let mut k: usize = 0;
                while k < ne
                    invariant
                        0 <= k <= ne,
                        ne == self.edges@.len(),
                        self.wf(),
                    decreases ne - k,
                {
                    let e = self.edges[k];
                    if e.0 == i {
                        r.push((self.nodes[e.1], e.2));
                    } else if e.1 == i {
                        r.push((self.nodes[e.0], e.2));
                    }
                    k = k + 1;
                }
            },
            None => {},
        }
        r
    }
}

} // verus!
