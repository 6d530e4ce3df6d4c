//! The genetic material: a chromosome holds the active Steiner points
//! (an insertion-ordered set of unique points) and the active obstacle
//! corners (an ascending set of indices into the problem's corner
//! list), and an individual pairs a chromosome with its lazily built
//! minimum spanning tree. Every mutation invalidates the cached tree.

use vstd::prelude::*;
use crate::geom::{Point, wf_point, fermat_point, euclidean_distance};
use crate::graph::{MinimumSpanningTree, spec_degree, degree_count};
use crate::problem::{SteinerProblem, wf_points};
use crate::rng::{rng_index, rng_range_i64, rng_chance};
use crate::X_MAX;

verus! {

/// The genotype: active Steiner points and active corner indices.
pub struct Chromosome {
    pub steiner_points: Vec<Point>,
    pub included_corners: Vec<usize>,
}

/// Strictly ascending index sequence (hence free of duplicates).
pub open spec fn strict_sorted(cs: Seq<usize>) -> bool {
    forall|a: int, b: int| 0 <= a < b < cs.len() ==> (#[trigger] cs[a]) < (#[trigger] cs[b])
}

/// Corner indices are strictly ascending (hence unique) and below `k`.
pub open spec fn wf_corners(cs: Seq<usize>, k: int) -> bool {
    &&& strict_sorted(cs)
    &&& forall|i: int| 0 <= i < cs.len() ==> (#[trigger] cs[i]) < k
}

impl Chromosome {
    /// Steiner points are unique well-formed points; corner indices
    /// are an ascending subset of `[0, k)`.
    pub open spec fn wf(&self, k: int) -> bool {
        &&& self.steiner_points@.no_duplicates()
        &&& wf_points(self.steiner_points@)
        &&& wf_corners(self.included_corners@, k)
    }

    pub fn new() -> (r: Chromosome)
        ensures
            r.steiner_points@.len() == 0,
            r.included_corners@.len() == 0,
            forall|k: int| r.wf(k),
    {
        Chromosome { steiner_points: Vec::new(), included_corners: Vec::new() }
    }

    /// Whether the point is an active Steiner point.
    pub fn steiner_contains(&self, p: Point) -> (r: bool)
        ensures
            r == self.steiner_points@.contains(p),
    {
        let n = self.steiner_points.len();
        let mut i: usize = 0;
        while i < n
            invariant
                0 <= i <= n,
                n == self.steiner_points@.len(),
                forall|j: int| 0 <= j < i ==> self.steiner_points@[j] != p,
            decreases n - i,
        {
            if self.steiner_points[i].x == p.x && self.steiner_points[i].y == p.y {
                proof {
                    assert(self.steiner_points@[i as int] == p);
                }
                return true;
            }
            i = i + 1;
        }
        false
    }

    /// Activates a Steiner point; a point already active is left alone
    /// (set semantics, insertion order kept).
    pub fn steiner_insert(&mut self, p: Point) -> (added: bool)
        requires
            wf_point(p),
        ensures
            added == !old(self).steiner_points@.contains(p),
            final(self).steiner_points@ == (if old(self).steiner_points@.contains(p) {
                old(self).steiner_points@
            } else {
                old(self).steiner_points@.push(p)
            }),
            final(self).steiner_points@.to_set() == old(self).steiner_points@.to_set().insert(p),
            final(self).included_corners@ == old(self).included_corners@,
            old(self).steiner_points@.no_duplicates() ==> final(self).steiner_points@
                .no_duplicates(),
            wf_points(old(self).steiner_points@) ==> wf_points(final(self).steiner_points@),
    {
        proof {
            self.steiner_points@.lemma_push_to_set_commute(p);
        }
        if self.steiner_contains(p) {
            proof {
                assert(old(self).steiner_points@.to_set().contains(p));
                assert(final(self).steiner_points@.to_set() =~= old(
                    self,
                ).steiner_points@.to_set().insert(p));
            }
            false
        } else {
            let ghost before = self.steiner_points@;
            self.steiner_points.push(p);
            proof {
                if wf_points(before) {
                    assert forall|j: int|
                        0 <= j < final(self).steiner_points@.len() implies wf_point(
                        #[trigger] final(self).steiner_points@[j],
                    ) by {
                        if j < before.len() {
                            assert(final(self).steiner_points@[j] == before[j]);
                        }
                    }
                }
            }
            true
        }
    }

    /// Deactivates a Steiner point by position, moving the last point
    /// into its place.
    pub fn steiner_swap_remove(&mut self, i: usize) -> (removed: Point)
        requires
            i < old(self).steiner_points@.len(),
            old(self).steiner_points@.no_duplicates(),
        ensures
            removed == old(self).steiner_points@[i as int],
            final(self).steiner_points@.to_set() == old(self).steiner_points@.to_set().remove(
                removed,
            ),
            final(self).steiner_points@.len() == old(self).steiner_points@.len() - 1,
            final(self).steiner_points@.no_duplicates(),
            wf_points(old(self).steiner_points@) ==> wf_points(final(self).steiner_points@),
            final(self).included_corners@ == old(self).included_corners@,
    {
        let ghost before = self.steiner_points@;
        let removed = self.steiner_points.swap_remove(i);
        proof {
            let after = final(self).steiner_points@;
            let n = before.len() as int;
            assert(after =~= before.update(i as int, before.last()).drop_last());
            assert forall|a: int, b: int|
                0 <= a < b < after.len() implies after[a] != after[b] by {
                let la = if a == i { n - 1 } else { a };
                let lb = if b == i { n - 1 } else { b };
                assert(after[a] == before[la] && after[b] == before[lb]);
            }
            assert(after.to_set() =~= before.to_set().remove(removed)) by {
                assert forall|x: Point| #[trigger]
                    after.to_set().contains(x) implies before.to_set().remove(removed).contains(
                    x,
                ) by {
                    let w = choose|w: int| 0 <= w < after.len() && after[w] == x;
                    let lw = if w == i { n - 1 } else { w };
                    assert(before[lw] == x);
                    assert(before.contains(x));
                    assert(x != removed) by {
                        if lw != i {
                            assert(before[i as int] == removed);
                        }
                    }
                }
                assert forall|x: Point|
                    before.to_set().remove(removed).contains(x) implies #[trigger]
                after.to_set().contains(x) by {
                    let w = choose|w: int| 0 <= w < before.len() && before[w] == x;
                    assert(w != i);
                    if w == n - 1 {
                        assert(i < n - 1);
                        assert(after[i as int] == x);
                    } else {
                        assert(after[w] == x);
                    }
                    assert(after.contains(x));
                }
            }
            if wf_points(before) {
                assert forall|j: int| 0 <= j < after.len() implies wf_point(
                    #[trigger] after[j],
                ) by {
                    let lj = if j == i { n - 1 } else { j };
                    assert(after[j] == before[lj]);
                }
            }
        }
        removed
    }

    /// Deactivates a Steiner point by value, if it is active; the last
    /// point moves into its place.
    pub fn steiner_remove(&mut self, p: Point) -> (removed: bool)
        requires
            old(self).steiner_points@.no_duplicates(),
        ensures
            removed == old(self).steiner_points@.contains(p),
            final(self).steiner_points@.to_set() == old(self).steiner_points@.to_set().remove(p),
            final(self).steiner_points@.no_duplicates(),
            wf_points(old(self).steiner_points@) ==> wf_points(final(self).steiner_points@),
            final(self).included_corners@ == old(self).included_corners@,
            removed ==> final(self).steiner_points@.len() == old(self).steiner_points@.len() - 1,
            !removed ==> final(self).steiner_points@ == old(self).steiner_points@,
    {
        let n = self.steiner_points.len();
        let mut i: usize = 0;
        while i < n
            invariant
                0 <= i <= n,
                n == self.steiner_points@.len(),
                self == old(self),
                old(self).steiner_points@.no_duplicates(),
                forall|j: int| 0 <= j < i ==> self.steiner_points@[j] != p,
            decreases n - i,
        {
            if self.steiner_points[i].x == p.x && self.steiner_points[i].y == p.y {
                proof {
                    assert(self.steiner_points@[i as int] == p);
                }
                self.steiner_swap_remove(i);
                return true;
            }
            i = i + 1;
        }
        proof {
            assert(!old(self).steiner_points@.contains(p));
            assert(final(self).steiner_points@.to_set() =~= old(
                self,
            ).steiner_points@.to_set().remove(p));
        }
        false
    }

    /// Whether the corner index is active.
    pub fn corner_contains(&self, c: usize) -> (r: bool)
        ensures
            r == self.included_corners@.contains(c),
    {
        let n = self.included_corners.len();
        let mut i: usize = 0;
        while i < n
            invariant
                0 <= i <= n,
                n == self.included_corners@.len(),
                forall|j: int| 0 <= j < i ==> self.included_corners@[j] != c,
            decreases n - i,
        {
            if self.included_corners[i] == c {
                proof {
                    assert(self.included_corners@[i as int] == c);
                }
                return true;
            }
            i = i + 1;
        }
        false
    }

    /// Activates a corner index, keeping the list ascending; an index
    /// already active is left alone.
    pub fn corner_insert(&mut self, c: usize) -> (added: bool)
        requires
            strict_sorted(old(self).included_corners@),
        ensures
            added == !old(self).included_corners@.contains(c),
            final(self).included_corners@.to_set() == old(self).included_corners@.to_set().insert(
                c,
            ),
            final(self).steiner_points@ == old(self).steiner_points@,
            strict_sorted(final(self).included_corners@),
            forall|k2: int|
                wf_corners(old(self).included_corners@, k2) && c < k2 ==> wf_corners(
                    final(self).included_corners@,
                    k2,
                ),
            final(self).included_corners@.len() <= old(self).included_corners@.len() + 1,
            final(self).included_corners@.contains(c),
    {
        let n = self.included_corners.len();
        let mut pos: usize = 0;
        while pos < n && self.included_corners[pos] < c
            invariant
                0 <= pos <= n,
                n == self.included_corners@.len(),
                forall|j: int| 0 <= j < pos ==> (#[trigger] self.included_corners@[j]) < c,
            decreases n - pos,
        {
            pos = pos + 1;
        }
        if pos < n && self.included_corners[pos] == c {
            proof {
                assert(self.included_corners@[pos as int] == c);
                assert(self.included_corners@.contains(c));
                assert(final(self).included_corners@.to_set() =~= old(
                    self,
                ).included_corners@.to_set().insert(c));
            }
            return false;
        }
        let ghost before = self.included_corners@;
        proof {
            before.insert_ensures(pos as int, c);
            assert(!before.contains(c)) by {
                if before.contains(c) {
                    let w = choose|w: int| 0 <= w < before.len() && before[w] == c;
                    if w < pos {
                        assert(before[w] < c);
                    } else if w > pos {
                        assert(pos < before.len());
                        assert(!(before[pos as int] < c) && before[pos as int] != c);
                        assert(before[pos as int] < before[w]);
                    }
                }
            }
        }
        self.included_corners.insert(pos, c);
        proof {
            let after = final(self).included_corners@;
            assert(after.to_set() =~= before.to_set().insert(c)) by {
                assert forall|x: usize| #[trigger] after.to_set().contains(x) implies
                    before.to_set().insert(c).contains(x) by {
                    let w = choose|w: int| 0 <= w < after.len() && after[w] == x;
                    if w < pos {
                        assert(before[w] == x);
                        assert(before.contains(x));
                    } else if w == pos {
                    } else {
                        assert(before[w - 1] == x);
                        assert(before.contains(x));
                    }
                }
                assert forall|x: usize|
                    before.to_set().insert(c).contains(x) implies #[trigger]
                after.to_set().contains(x) by {
                    if x == c {
                        assert(after[pos as int] == c);
                        assert(after.contains(c));
                    } else {
                        let w = choose|w: int| 0 <= w < before.len() && before[w] == x;
                        if w < pos {
                            assert(after[w] == x);
                        } else {
                            assert(after[w + 1] == x);
                        }
                        assert(after.contains(x));
                    }
                }
            }
            assert(after[pos as int] == c);
            assert(after.contains(c));
            assert forall|a: int, b: int|
                0 <= a < b < after.len() implies (#[trigger] after[a]) < (
            #[trigger] after[b]) by {
                if a < pos && b < pos {
                    assert(after[a] == before[a] && after[b] == before[b]);
                } else if a < pos && b == pos {
                    assert(after[a] == before[a] && after[b] == c);
                } else if a < pos && b > pos {
                    assert(after[a] == before[a] && after[b] == before[b - 1]);
                    if b - 1 == a {
                        assert(false);
                    }
                } else if a == pos && b > pos {
                    assert(after[a] == c && after[b] == before[b - 1]);
                    assert(pos < before.len());
                    assert(!(before[pos as int] < c) && before[pos as int] != c);
                    if b - 1 > pos {
                        assert(before[pos as int] < before[b - 1]);
                    }
                } else {
                    assert(after[a] == before[a - 1] && after[b] == before[b - 1]);
                }
            }
            assert forall|k2: int|
                wf_corners(before, k2) && c < k2 implies wf_corners(after, k2) by {
                assert forall|j: int| 0 <= j < after.len() implies (#[trigger] after[j])
                    < k2 by {
                    if j < pos {
                        assert(after[j] == before[j]);
                    } else if j == pos {
                    } else {
                        assert(after[j] == before[j - 1]);
                    }
                }
            }
        }
        true
    }

    /// Deactivates a corner index, keeping the list ascending; an
    /// index not active is left alone.
    pub fn corner_remove(&mut self, c: usize) -> (removed: bool)
        requires
            strict_sorted(old(self).included_corners@),
        ensures
            removed == old(self).included_corners@.contains(c),
            final(self).included_corners@.to_set() == old(self).included_corners@.to_set().remove(
                c,
            ),
            final(self).steiner_points@ == old(self).steiner_points@,
            strict_sorted(final(self).included_corners@),
            forall|k2: int|
                wf_corners(old(self).included_corners@, k2) ==> wf_corners(
                    final(self).included_corners@,
                    k2,
                ),
    {
        let n = self.included_corners.len();
        let mut pos: usize = 0;
        while pos < n && self.included_corners[pos] != c
            invariant
                0 <= pos <= n,
                n == self.included_corners@.len(),
                forall|j: int| 0 <= j < pos ==> (#[trigger] self.included_corners@[j]) != c,
            decreases n - pos,
        {
            pos = pos + 1;
        }
        if pos == n {
            proof {
                assert(!old(self).included_corners@.contains(c));
                assert(final(self).included_corners@.to_set() =~= old(
                    self,
                ).included_corners@.to_set().remove(c));
            }
            return false;
        }
        let ghost before = self.included_corners@;
        proof {
            assert(before[pos as int] == c);
            assert(before.contains(c));
        }
        self.corner_remove_at(pos);
        proof {
            let after = final(self).included_corners@;
            assert(after =~= before.remove(pos as int));
            assert(after.to_set() =~= before.to_set().remove(c)) by {
                assert forall|x: usize| #[trigger] after.to_set().contains(x) implies
                    before.to_set().remove(c).contains(x) by {
                    let w = choose|w: int| 0 <= w < after.len() && after[w] == x;
                    if w < pos {
                        assert(before[w] == x);
                        if x == c {
                            assert(before[w] != c);
                        }
                    } else {
                        assert(before[w + 1] == x);
                        if x == c {
                            assert(before[pos as int] < before[w + 1]);
                        }
                    }
                    assert(before.contains(x));
                }
                assert forall|x: usize|
                    before.to_set().remove(c).contains(x) implies #[trigger]
                after.to_set().contains(x) by {
                    let w = choose|w: int| 0 <= w < before.len() && before[w] == x;
                    assert(w != pos);
                    if w < pos {
                        assert(after[w] == x);
                    } else {
                        assert(after[w - 1] == x);
                    }
                    assert(after.contains(x));
                }
            }
            assert forall|a: int, b: int|
                0 <= a < b < after.len() implies (#[trigger] after[a]) < (
            #[trigger] after[b]) by {
                let la = if a < pos { a } else { a + 1 };
                let lb = if b < pos { b } else { b + 1 };
                assert(after[a] == before[la] && after[b] == before[lb]);
            }
            assert forall|k2: int|
                wf_corners(before, k2) implies wf_corners(after, k2) by {
                assert forall|j: int| 0 <= j < after.len() implies (#[trigger] after[j])
                    < k2 by {
                    if j < pos {
                        assert(after[j] == before[j]);
                    } else {
                        assert(after[j] == before[j + 1]);
                    }
                }
            }
        }
        true
    }

    /// Removes the corner at a known position.
    fn corner_remove_at(&mut self, pos: usize)
        requires
            pos < old(self).included_corners@.len(),
        ensures
            final(self).included_corners@ == old(self).included_corners@.remove(pos as int),
            final(self).steiner_points@ == old(self).steiner_points@,
    {
        self.included_corners.remove(pos);
    }
}

/// A candidate solution: the genotype and its lazily built spanning
/// tree; any mutation of the chromosome clears the cached tree.
pub struct Individual {
    pub chromosome: Chromosome,
    pub minimum_spanning_tree: Option<MinimumSpanningTree>,
}

/// The edge list of an individual's cached tree.
pub open spec fn mst_edges_of(ind: Individual) -> Seq<(usize, usize, i64)> {
    match ind.minimum_spanning_tree {
        Some(m) => m.edges@,
        None => Seq::empty(),
    }
}

impl Individual {
    /// Removes one junction of tree degree at most two: a Steiner
    /// point or an active corner that is a leaf or a pass-through
    /// point. A junction of degree three or more is never removed.
    /// Always invalidates the cached tree.
    pub fn mutation_remove_steiner(
        &mut self,
        problem: &SteinerProblem,
        rng: &mut rand_pcg::Pcg32,
    )
        requires
            old(self).minimum_spanning_tree is Some,
            old(self).chromosome.wf(problem.obstacle_corners@.len() as int),
            old(self).chromosome.steiner_points@.len() + old(
                self,
            ).chromosome.included_corners@.len() < usize::MAX,
        ensures
            final(self).minimum_spanning_tree is None,
            final(self).chromosome.wf(problem.obstacle_corners@.len() as int),
            (final(self).chromosome.steiner_points@ == old(self).chromosome.steiner_points@
                && final(self).chromosome.included_corners@ == old(
                self,
            ).chromosome.included_corners@) || (exists|i: int|
                0 <= i < old(self).chromosome.steiner_points@.len() && spec_degree(
                    mst_edges_of(*old(self)),
                    i,
                ) <= 2 && final(self).chromosome.steiner_points@.to_set() == old(
                    self,
                ).chromosome.steiner_points@.to_set().remove(
                    old(self).chromosome.steiner_points@[i],
                ) && final(self).chromosome.included_corners@ == old(
                    self,
                ).chromosome.included_corners@) || (exists|j: int|
                0 <= j < old(self).chromosome.included_corners@.len() && spec_degree(
                    mst_edges_of(*old(self)),
                    old(self).chromosome.steiner_points@.len() + j,
                ) <= 2 && final(self).chromosome.included_corners@.to_set() == old(
                    self,
                ).chromosome.included_corners@.to_set().remove(
                    old(self).chromosome.included_corners@[j],
                ) && final(self).chromosome.steiner_points@ == old(
                    self,
                ).chromosome.steiner_points@),
            ((exists|i: int|
                0 <= i < old(self).chromosome.steiner_points@.len() && #[trigger] spec_degree(
                    mst_edges_of(*old(self)),
                    i,
                ) <= 2) || (exists|j: int|
                0 <= j < old(self).chromosome.included_corners@.len() && #[trigger] spec_degree(
                    mst_edges_of(*old(self)),
                    old(self).chromosome.steiner_points@.len() + j,
                ) <= 2)) ==> !(final(self).chromosome.steiner_points@ == old(
                self,
            ).chromosome.steiner_points@ && final(self).chromosome.included_corners@ == old(
                self,
            ).chromosome.included_corners@),
    {
        let s = self.chromosome.steiner_points.len();
        let c = self.chromosome.included_corners.len();
        let mut cand_steiner: Vec<usize> = Vec::new();
        let mut cand_corners: Vec<usize> = Vec::new();
        let ghost tree_edges = mst_edges_of(*self);
        {
            let m = self.minimum_spanning_tree.as_ref().unwrap();
            let mut i: usize = 0;
            while i < s
                invariant
                    0 <= i <= s,
                    tree_edges == m.edges@,
                    cand_steiner@.len() <= i,
                    forall|e: int|
                        0 <= e < cand_steiner@.len() ==> (#[trigger] cand_steiner@[e]) < s
                            && spec_degree(tree_edges, cand_steiner@[e] as int) <= 2,
                    forall|i2: int|
                        0 <= i2 < i && spec_degree(tree_edges, i2) <= 2
                            ==> #[trigger] cand_steiner@.contains(i2 as usize),
                decreases s - i,
            {
                let ghost cand_b4 = cand_steiner@;
                let d = degree_count(&m.edges, i);
                if d <= 2 {
                    cand_steiner.push(i);
                }
                proof {
                    assert forall|i2: int|
                        0 <= i2 < i + 1 && spec_degree(tree_edges, i2) <= 2 implies #[trigger]
                    cand_steiner@.contains(i2 as usize) by {
                        if i2 < i {
                            assert(cand_b4.contains(i2 as usize));
                            let w = choose|w: int|
                                0 <= w < cand_b4.len() && cand_b4[w] == (i2 as usize);
                            assert(cand_steiner@[w] == i2 as usize);
                        } else {
                            assert(cand_steiner@[cand_steiner@.len() - 1] == i);
                        }
                    }
                }
                i = i + 1;
            }
            let mut j: usize = 0;
            while j < c
                invariant
                    0 <= j <= c,
                    tree_edges == m.edges@,
                    s + c < usize::MAX,
                    cand_corners@.len() <= j,
                    forall|e: int|
                        0 <= e < cand_corners@.len() ==> (#[trigger] cand_corners@[e]) < c
                            && spec_degree(tree_edges, s + cand_corners@[e] as int) <= 2,
                    forall|j2: int|
                        0 <= j2 < j && spec_degree(tree_edges, s + j2) <= 2
                            ==> #[trigger] cand_corners@.contains(j2 as usize),
                decreases c - j,
            {
                let ghost cand_b4 = cand_corners@;
                let d = degree_count(&m.edges, s + j);
                if d <= 2 {
                    cand_corners.push(j);
                }
                proof {
                    assert forall|j2: int|
                        0 <= j2 < j + 1 && spec_degree(tree_edges, s + j2) <= 2 implies #[trigger]
                    cand_corners@.contains(j2 as usize) by {
                        if j2 < j {
                            assert(cand_b4.contains(j2 as usize));
                            let w = choose|w: int|
                                0 <= w < cand_b4.len() && cand_b4[w] == (j2 as usize);
                            assert(cand_corners@[w] == j2 as usize);
                        } else {
                            assert(cand_corners@[cand_corners@.len() - 1] == j);
                        }
                    }
                }
                j = j + 1;
            }
        }
        let ns = cand_steiner.len();
        let nc = cand_corners.len();
        if ns == 0 && nc == 0 {
            proof {
                assert forall|i2: int|
                    0 <= i2 < old(self).chromosome.steiner_points@.len() implies !(
                #[trigger] spec_degree(mst_edges_of(*old(self)), i2) <= 2) by {
                    if spec_degree(tree_edges, i2) <= 2 {
                        assert(cand_steiner@.contains(i2 as usize));
                    }
                }
                assert forall|j2: int|
                    0 <= j2 < old(self).chromosome.included_corners@.len() implies !(
                #[trigger] spec_degree(
                    mst_edges_of(*old(self)),
                    old(self).chromosome.steiner_points@.len() + j2,
                ) <= 2) by {
                    if spec_degree(tree_edges, s + j2) <= 2 {
                        assert(cand_corners@.contains(j2 as usize));
                    }
                }
            }
        } else if ns == 0 {
            let pj = if nc > 1 {
                rng_index(rng, nc)
            } else {
                0
            };
            let j = cand_corners[pj];
            let val = self.chromosome.included_corners[j];
            proof {
                assert(old(self).chromosome.included_corners@.contains(val));
            }
            self.chromosome.corner_remove(val);
            proof {
                assert(old(self).chromosome.included_corners@.to_set().contains(val));
                if self.chromosome.included_corners@ == old(self).chromosome.included_corners@ {
                    assert(!self.chromosome.included_corners@.to_set().contains(val));
                    assert(false);
                }
            }
        } else if nc == 0 {
            let pi = if ns > 1 {
                rng_index(rng, ns)
            } else {
                0
            };
            let i = cand_steiner[pi];
            self.chromosome.steiner_swap_remove(i);
            proof {
                if self.chromosome.steiner_points@ == old(self).chromosome.steiner_points@ {
                    assert(false);
                }
            }
        } else {
            if rng_index(rng, ns + nc) < ns {
                let pi = if ns > 1 {
                    rng_index(rng, ns)
                } else {
                    0
                };
                let i = cand_steiner[pi];
                self.chromosome.steiner_swap_remove(i);
                proof {
                    if self.chromosome.steiner_points@ == old(self).chromosome.steiner_points@ {
                        assert(false);
                    }
                }
            } else {
                let pj = if nc > 1 {
                    rng_index(rng, nc)
                } else {
                    0
                };
                let j = cand_corners[pj];
                let val = self.chromosome.included_corners[j];
                proof {
                    assert(old(self).chromosome.included_corners@.contains(val));
                }
                self.chromosome.corner_remove(val);
                proof {
                    assert(old(self).chromosome.included_corners@.to_set().contains(val));
                    if self.chromosome.included_corners@ == old(self).chromosome.included_corners@ {
                        assert(!self.chromosome.included_corners@.to_set().contains(val));
                        assert(false);
                    }
                }
            }
        }
        self.minimum_spanning_tree = None;
    }

    /// Adds one Steiner point. If some tree junction has a pair of
    /// incident edges meeting at less than 120 degrees, the Fermat
    /// point of that junction and its two neighbours is inserted,
    /// unless it falls inside an impassable obstacle or within 0.01
    /// units of an active Steiner point; otherwise a uniformly random
    /// in-bounds point is inserted, resampled until it avoids every
    /// impassable obstacle. A point inside an impassable obstacle is
    /// never inserted. Always invalidates the cached tree.
    pub fn mutation_add_steiner(&mut self, problem: &SteinerProblem, rng: &mut rand_pcg::Pcg32)
        requires
            old(self).minimum_spanning_tree is Some,
            old(self).chromosome.wf(problem.obstacle_corners@.len() as int),
            problem.wf(),
            problem.bounds.min_x < problem.bounds.max_x,
            problem.bounds.min_y < problem.bounds.max_y,
            ({
                let m = old(self).minimum_spanning_tree->Some_0;
                m.wf() && wf_points(m.nodes@)
            }),
        ensures
            final(self).minimum_spanning_tree is None,
            final(self).chromosome.wf(problem.obstacle_corners@.len() as int),
            final(self).chromosome.included_corners@ == old(self).chromosome.included_corners@,
            (final(self).chromosome.steiner_points@ == old(self).chromosome.steiner_points@) || (
            exists|p: Point|
                !problem.spec_in_solid(p) && wf_point(p)
                    && final(self).chromosome.steiner_points@.to_set() == old(
                    self,
                ).chromosome.steiner_points@.to_set().insert(p)),
    {
        let mut cands: Vec<(Point, Point, Point)> = Vec::new();
        {
            let m = self.minimum_spanning_tree.as_ref().unwrap();
            let nv = m.nodes.len();
            let ne = m.edges.len();
            let mut i1: usize = 0;
            while i1 < nv
                invariant
                    0 <= i1 <= nv,
                    nv == m.nodes@.len(),
                    ne == m.edges@.len(),
                    m.wf(),
                    wf_points(m.nodes@),
                    forall|e: int|
                        0 <= e < cands@.len() ==> wf_point((#[trigger] cands@[e]).0) && wf_point(
                            cands@[e].1,
                        ) && wf_point(cands@[e].2),
                decreases nv - i1,
            {
                let mut e1: usize = 0;
                while e1 < ne
                    invariant
                        0 <= e1 <= ne,
                        0 <= i1 < nv,
                        nv == m.nodes@.len(),
                        ne == m.edges@.len(),
                        m.wf(),
                        wf_points(m.nodes@),
                        forall|e: int|
                            0 <= e < cands@.len() ==> wf_point((#[trigger] cands@[e]).0)
                                && wf_point(cands@[e].1) && wf_point(cands@[e].2),
                    decreases ne - e1,
                {
                    let mut e2: usize = e1 + 1;
                    while e2 < ne
                        invariant
                            e1 < e2 <= ne,
                            0 <= e1 < ne,
                            0 <= i1 < nv,
                            nv == m.nodes@.len(),
                            ne == m.edges@.len(),
                            m.wf(),
                            wf_points(m.nodes@),
                            forall|e: int|
                                0 <= e < cands@.len() ==> wf_point((#[trigger] cands@[e]).0)
                                    && wf_point(cands@[e].1) && wf_point(cands@[e].2),
                        decreases ne - e2,
                    {
                        let ea = m.edges[e1];
                        let eb = m.edges[e2];
                        let inc_a = ea.0 == i1 || ea.1 == i1;
                        let inc_b = eb.0 == i1 || eb.1 == i1;
                        if inc_a && inc_b {
                            let n2 = if ea.0 == i1 {
                                ea.1
                            } else {
                                ea.0
                            };
                            let n3 = if eb.0 == i1 {
                                eb.1
                            } else {
                                eb.0
                            };
                            let p1 = m.nodes[i1];
                            let p2 = m.nodes[n2];
                            let p3 = m.nodes[n3];
                            let vax: i64 = p2.x - p1.x;
                            let vay: i64 = p2.y - p1.y;
                            let vbx: i64 = p3.x - p1.x;
                            let vby: i64 = p3.y - p1.y;
                            if (vax != 0 || vay != 0) && (vbx != 0 || vby != 0) {
                                proof {
                                    assert({
                                        &&& -0x10000000000 <= vax as int * vbx as int
                                            <= 0x10000000000
                                        &&& -0x10000000000 <= vay as int * vby as int
                                            <= 0x10000000000
                                        &&& 0 <= vax as int * vax as int <= 0x10000000000
                                        &&& 0 <= vay as int * vay as int <= 0x10000000000
                                        &&& 0 <= vbx as int * vbx as int <= 0x10000000000
                                        &&& 0 <= vby as int * vby as int <= 0x10000000000
                                    }) by (nonlinear_arith)
                                        requires
                                            -524288 <= vax as int <= 524288,
                                            -524288 <= vay as int <= 524288,
                                            -524288 <= vbx as int <= 524288,
                                            -524288 <= vby as int <= 524288,
                                    ;
                                }
                                let dot: i128 = vax as i128 * vbx as i128 + vay as i128
                                    * vby as i128;
                                let na: i128 = vax as i128 * vax as i128 + vay as i128
                                    * vay as i128;
                                let nb: i128 = vbx as i128 * vbx as i128 + vby as i128
                                    * vby as i128;
                                let sharp = if dot >= 0 {
                                    true
                                } else {
                                    proof {
                                        assert({
                                            &&& 0 <= dot * dot <= 0x400000000000000000000
                                            &&& 0 <= na * nb <= 0x400000000000000000000
                                        }) by (nonlinear_arith)
                                            requires
                                                -0x20000000000 <= dot <= 0x20000000000,
                                                0 <= na <= 0x20000000000,
                                                0 <= nb <= 0x20000000000,
                                        ;
                                    }
                                    4 * (dot * dot) < na * nb
                                };
                                if sharp {
                                    cands.push((p1, p2, p3));
                                }
                            }
                        }
                        e2 = e2 + 1;
                    }
                    e1 = e1 + 1;
                }
                i1 = i1 + 1;
            }
        }
        if cands.len() == 0 {
            let mut tries: usize = 0;
            while tries < 10_000
                invariant_except_break
                    self == old(self),
                invariant
                    problem.wf(),
                    problem.bounds.min_x < problem.bounds.max_x,
                    problem.bounds.min_y < problem.bounds.max_y,
                    old(self).chromosome.wf(problem.obstacle_corners@.len() as int),
                ensures
                    self.minimum_spanning_tree == old(self).minimum_spanning_tree,
                    self.chromosome.included_corners@ == old(self).chromosome.included_corners@,
                    self.chromosome.wf(problem.obstacle_corners@.len() as int),
                    (self.chromosome.steiner_points@ == old(self).chromosome.steiner_points@) || (
                    exists|p: Point|
                        !problem.spec_in_solid(p) && wf_point(p)
                            && self.chromosome.steiner_points@.to_set() == old(
                            self,
                        ).chromosome.steiner_points@.to_set().insert(p)),
                decreases 10_000 - tries,
            {
                let px = rng_range_i64(rng, problem.bounds.min_x, problem.bounds.max_x);
                let py = rng_range_i64(rng, problem.bounds.min_y, problem.bounds.max_y);
                let np = Point { x: px, y: py };
                if !problem.coordinates_in_solid_obstacle(np) {
                    let ghost set_before = self.chromosome.steiner_points@.to_set();
                    self.chromosome.steiner_insert(np);
                    proof {
                        assert(!problem.spec_in_solid(np) && wf_point(np)
                            && self.chromosome.steiner_points@.to_set() == old(
                            self,
                        ).chromosome.steiner_points@.to_set().insert(np));
                    }
                    break;
                }
                tries = tries + 1;
            }
        } else {
            let ti = if cands.len() > 1 {
                rng_index(rng, cands.len())
            } else {
                0
            };
            let tr = cands[ti];
            let p4 = fermat_point(tr.0, tr.1, tr.2, 0);
            proof {
                assert(wf_point(p4));
            }
            if !problem.coordinates_in_solid_obstacle(p4) {
                let sn = self.chromosome.steiner_points.len();
                let mut far = true;
                let mut si: usize = 0;
                while si < sn
                    invariant
                        0 <= si <= sn,
                        sn == self.chromosome.steiner_points@.len(),
                        self == old(self),
                        old(self).chromosome.wf(problem.obstacle_corners@.len() as int),
                        wf_point(p4),
                    decreases sn - si,
                {
                    let d = euclidean_distance(self.chromosome.steiner_points[si], p4);
                    if d <= 100 {
                        far = false;
                    }
                    si = si + 1;
                }
                if far {
                    self.chromosome.steiner_insert(p4);
                }
            }
        }
        self.minimum_spanning_tree = None;
    }

    /// Per-gene mutation: each active Steiner point is, with
    /// probability one over the gene count, displaced on both axes by
    /// an independently signed step, and each corner index is, with the
    /// same probability, toggled. Displaced coordinates saturate at the
    /// coordinate bound. Always invalidates the cached tree.
    pub fn mutation_flip_move(
        &mut self,
        problem: &SteinerProblem,
        rng: &mut rand_pcg::Pcg32,
        generation: usize,
    )
        requires
            old(self).chromosome.wf(problem.obstacle_corners@.len() as int),
            problem.wf(),
        ensures
            final(self).minimum_spanning_tree is None,
            final(self).chromosome.wf(problem.obstacle_corners@.len() as int),
            final(self).chromosome.steiner_points@.len() <= old(
                self,
            ).chromosome.steiner_points@.len(),
    {
        let ghost kk = problem.obstacle_corners@.len() as int;
        let s = self.chromosome.steiner_points.len();
        let k = problem.obstacle_corners.len();
        let sk = if s < usize::MAX - k {
            s + k
        } else {
            usize::MAX
        };
        let avg = problem.average_terminal_distance;
        let factor: i64 = if generation < 990 {
            1000 - generation as i64
        } else {
            10
        };
        proof {
            assert(0 <= avg * factor <= 2097152000) by (nonlinear_arith)
                requires
                    0 <= avg <= 2097152,
                    1 <= factor <= 1000,
            ;
            vstd::arithmetic::div_mod::lemma_div_pos_is_pos(avg as int * factor as int, 1000);
            vstd::arithmetic::div_mod::lemma_div_is_ordered(
                avg as int * factor as int,
                2097152000,
                1000,
            );
        }
        let m_range: i64 = avg * factor / 1000;
        let mut to_remove: Vec<Point> = Vec::new();
        let mut to_add: Vec<Point> = Vec::new();
        let mut i: usize = 0;
        while i < s
            invariant
                0 <= i <= s,
                s == self.chromosome.steiner_points@.len(),
                self == old(self),
                old(self).chromosome.wf(kk),
                0 <= m_range <= 2097152,
                forall|e: int| 0 <= e < to_add@.len() ==> wf_point(#[trigger] to_add@[e]),
                to_add@.len() == to_remove@.len(),
                to_remove@.no_duplicates(),
                forall|e: int|
                    0 <= e < to_remove@.len() ==> old(self).chromosome.steiner_points@.take(
                        i as int,
                    ).contains(#[trigger] to_remove@[e]),
            decreases s - i,
        {
            if sk > 0 && rng_index(rng, sk) == 0 {
                let sp = self.chromosome.steiner_points[i];
                let dx: i64 = if m_range > 100 {
                    rng_range_i64(rng, 100, m_range)
                } else {
                    100
                };
                let dy: i64 = if m_range > 100 {
                    rng_range_i64(rng, 100, m_range)
                } else {
                    100
                };
                let sx = rng_chance(rng, 1, 2);
                let sy = rng_chance(rng, 1, 2);
                let nx0: i64 = if sx {
                    sp.x + dx
                } else {
                    sp.x - dx
                };
                let ny0: i64 = if sy {
                    sp.y + dy
                } else {
                    sp.y - dy
                };
                let nx: i64 = if nx0 > X_MAX {
                    X_MAX
                } else if nx0 < -X_MAX {
                    -X_MAX
                } else {
                    nx0
                };
                let ny: i64 = if ny0 > X_MAX {
                    X_MAX
                } else if ny0 < -X_MAX {
                    -X_MAX
                } else {
                    ny0
                };
                let ghost rem_b4 = to_remove@;
                to_remove.push(sp);
                to_add.push(Point { x: nx, y: ny });
                proof {
                    let stn = old(self).chromosome.steiner_points@;
                    assert forall|e: int|
                        0 <= e < to_remove@.len() implies stn.take(i as int + 1).contains(
                        #[trigger] to_remove@[e],
                    ) by {
                        if e < rem_b4.len() {
                            assert(to_remove@[e] == rem_b4[e]);
                            let w = choose|w: int|
                                0 <= w < stn.take(i as int).len() && #[trigger] stn.take(
                                    i as int,
                                )[w] == rem_b4[e];
                            assert(stn.take(i as int + 1)[w] == rem_b4[e]);
                        } else {
                            assert(to_remove@[e] == sp && sp == stn[i as int]);
                            assert(stn.take(i as int + 1)[i as int] == sp);
                        }
                    }
                    assert forall|e1: int, e2: int|
                        0 <= e1 < e2 < to_remove@.len() implies to_remove@[e1] != to_remove@[
                        e2] by {
                        if e2 == to_remove@.len() - 1 {
                            assert(to_remove@[e1] == rem_b4[e1] && to_remove@[e2] == sp);
                            let w = choose|w: int|
                                0 <= w < stn.take(i as int).len() && #[trigger] stn.take(
                                    i as int,
                                )[w] == rem_b4[e1];
                            if rem_b4[e1] == sp {
                                assert(stn[w] == stn[i as int] && w < i);
                            }
                        } else {
                            assert(to_remove@[e1] == rem_b4[e1] && to_remove@[e2] == rem_b4[e2]);
                        }
                    }
                }
            }
            i = i + 1;
        }
        let nr = to_remove.len();
        proof {
            assert(old(self).chromosome.steiner_points@.take(s as int) =~= old(
                self,
            ).chromosome.steiner_points@);
            assert forall|e: int|
                0 <= e < nr implies self.chromosome.steiner_points@.to_set().contains(
                #[trigger] to_remove@[e],
            ) by {
                assert(old(self).chromosome.steiner_points@.contains(to_remove@[e]));
            }
        }
        let mut r: usize = 0;
        while r < nr
            invariant
                0 <= r <= nr,
                nr == to_remove@.len(),
                to_remove@.no_duplicates(),
                self.chromosome.steiner_points@.len() + r == old(
                    self,
                ).chromosome.steiner_points@.len(),
                forall|e: int|
                    r <= e < nr ==> self.chromosome.steiner_points@.to_set().contains(
                        #[trigger] to_remove@[e],
                    ),
                self.chromosome.steiner_points@.no_duplicates(),
                wf_points(self.chromosome.steiner_points@),
                wf_corners(self.chromosome.included_corners@, kk),
            decreases nr - r,
        {
            let ghost set_b4 = self.chromosome.steiner_points@.to_set();
            proof {
                assert(self.chromosome.steiner_points@.to_set().contains(to_remove@[r as int]));
            }
            self.chromosome.steiner_remove(to_remove[r]);
            proof {
                assert forall|e: int|
                    r + 1 <= e < nr implies self.chromosome.steiner_points@.to_set().contains(
                    #[trigger] to_remove@[e],
                ) by {
                    assert(set_b4.contains(to_remove@[e]));
                    assert(to_remove@[e] != to_remove@[r as int]);
                }
            }
            r = r + 1;
        }
        let na = to_add.len();
        let mut a: usize = 0;
        while a < na
            invariant
                0 <= a <= na,
                na == to_add@.len(),
                na == nr,
                nr <= old(self).chromosome.steiner_points@.len(),
                forall|e: int| 0 <= e < to_add@.len() ==> wf_point(#[trigger] to_add@[e]),
                self.chromosome.steiner_points@.len() + nr <= old(
                    self,
                ).chromosome.steiner_points@.len() + a,
                self.chromosome.steiner_points@.no_duplicates(),
                wf_points(self.chromosome.steiner_points@),
                wf_corners(self.chromosome.included_corners@, kk),
            decreases na - a,
        {
            self.chromosome.steiner_insert(to_add[a]);
            a = a + 1;
        }
        let mut ci: usize = 0;
        while ci < k
            invariant
                0 <= ci <= k,
                k == problem.obstacle_corners@.len(),
                kk == problem.obstacle_corners@.len() as int,
                self.chromosome.steiner_points@.len() <= old(
                    self,
                ).chromosome.steiner_points@.len(),
                self.chromosome.steiner_points@.no_duplicates(),
                wf_points(self.chromosome.steiner_points@),
                wf_corners(self.chromosome.included_corners@, kk),
            decreases k - ci,
        {
            if sk > 0 && rng_index(rng, sk) == 0 {
                if self.chromosome.corner_contains(ci) {
                    self.chromosome.corner_remove(ci);
                } else {
                    self.chromosome.corner_insert(ci);
                }
            }
            ci = ci + 1;
        }
        self.minimum_spanning_tree = None;
    }
}

/// The fitness of an evaluated individual: its tree's total weight.
pub open spec fn fitness_of(ind: Individual) -> int {
    match ind.minimum_spanning_tree {
        Some(m) => m.total_weight as int,
        None => 0,
    }
}

pub open spec fn ind_ok(ind: Individual, k: int) -> bool {
    &&& ind.chromosome.wf(k)
    &&& match ind.minimum_spanning_tree {
        Some(m) => m.wf() && wf_points(m.nodes@),
        None => true,
    }
}

} // verus!
