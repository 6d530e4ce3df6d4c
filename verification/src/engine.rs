//! The steady-state evolutionary engine: population, child buffer,
//! random stream and the append-only cache of obstacle-aware edge
//! weights, with the per-generation cycle of selection, crossover,
//! mutation, elimination and re-evaluation, and the stagnation-driven
//! convergence state machine.

use vstd::prelude::*;
use vstd::set::axiom_set_insert_len;
use std::collections::HashMap;
use crate::geom::{Point, wf_point, fermat_point};
use crate::graph::{
    Graph, MinimumSpanningTree, spec_complete, has_edge, edge_weight_sum, degree_count,
    copy_points, connects,
};
use crate::chromosome::{Chromosome, Individual, fitness_of, ind_ok};
use crate::problem::{SteinerProblem, spec_distance, lemma_distance_symmetric, wf_points};
use crate::rng::{rng_index, rng_range_i64, rng_sample, rng_shuffle, rng_chance};
use crate::{X_MAX, INF_COST};

verus! {

/// Which buffer a tree build addresses.
pub enum BufferSelector {
    ChildBuffer,
    Population,
}

/// The cache key of an ordered point pair: the four coordinates,
/// shifted to be nonnegative, as base-2^32 digits.
pub open spec fn pair_key(p: Point, q: Point) -> int {
    (p.x + X_MAX) * 0x1000000000000000000000000 + (p.y + X_MAX) * 0x10000000000000000 + (q.x
        + X_MAX) * 0x100000000 + (q.y + X_MAX)
}

fn pair_key_exec(p: Point, q: Point) -> (r: u128)
    requires
        wf_point(p),
        wf_point(q),
    ensures
        r as int == pair_key(p, q),
{
    ((p.x + X_MAX) as u128) * 0x1000000000000000000000000 + ((p.y + X_MAX) as u128)
        * 0x10000000000000000 + ((q.x + X_MAX) as u128) * 0x100000000 + ((q.y + X_MAX) as u128)
}

/// Distinct well-formed point pairs get distinct cache keys.
proof fn lemma_pair_key_injective(p: Point, q: Point, p2: Point, q2: Point)
    requires
        wf_point(p),
        wf_point(q),
        wf_point(p2),
        wf_point(q2),
        pair_key(p, q) == pair_key(p2, q2),
    ensures
        p == p2,
        q == q2,
{
    let a1 = p.x + X_MAX;
    let b1 = p.y + X_MAX;
    let c1 = q.x + X_MAX;
    let d1 = q.y + X_MAX;
    let a2 = p2.x + X_MAX;
    let b2 = p2.y + X_MAX;
    let c2 = q2.x + X_MAX;
    let d2 = q2.y + X_MAX;
    let n = pair_key(p, q);
    let r1 = b1 * 0x10000000000000000 + c1 * 0x100000000 + d1;
    let r2 = b2 * 0x10000000000000000 + c2 * 0x100000000 + d2;
    vstd::arithmetic::div_mod::lemma_fundamental_div_mod_converse(
        n,
        0x1000000000000000000000000,
        a1,
        r1,
    );
    vstd::arithmetic::div_mod::lemma_fundamental_div_mod_converse(
        n,
        0x1000000000000000000000000,
        a2,
        r2,
    );
    let m = r1;
    vstd::arithmetic::div_mod::lemma_fundamental_div_mod_converse(
        m,
        0x10000000000000000,
        b1,
        c1 * 0x100000000 + d1,
    );
    vstd::arithmetic::div_mod::lemma_fundamental_div_mod_converse(
        m,
        0x10000000000000000,
        b2,
        c2 * 0x100000000 + d2,
    );
    let m2 = c1 * 0x100000000 + d1;
    vstd::arithmetic::div_mod::lemma_fundamental_div_mod_converse(m2, 0x100000000, c1, d1);
    vstd::arithmetic::div_mod::lemma_fundamental_div_mod_converse(m2, 0x100000000, c2, d2);
}

/// Every cache entry is the obstacle-aware distance of the point pair
/// its key encodes.
pub open spec fn cache_ok(db: Map<u128, i64>, problem: SteinerProblem) -> bool {
    forall|key: u128| #[trigger]
        db.contains_key(key) ==> exists|pq: (Point, Point)|
            wf_point(pq.0) && wf_point(pq.1) && key as int == #[trigger] pair_key(pq.0, pq.1)
                && db[key] as int == spec_distance(pq.0, pq.1, problem.obstacles@)
}

/// The coordinates of a chromosome's active corners.
pub open spec fn corner_points_of(ch: Chromosome, problem: SteinerProblem) -> Seq<Point> {
    ch.included_corners@.map_values(|ci: usize| problem.obstacle_corners@[ci as int])
}

/// The vertex list a chromosome's tree is built over: active Steiner
/// points, then active corner coordinates in ascending index order,
/// then the terminals in input order. This enumeration order breaks
/// ties between equal edge weights.
pub open spec fn vertex_seq(ch: Chromosome, problem: SteinerProblem) -> Seq<Point> {
    ch.steiner_points@ + corner_points_of(ch, problem) + problem.terminals@
}

/// The evolutionary engine's whole mutable state.
pub struct StOBGA {
    pub problem: SteinerProblem,
    pub population: Vec<Individual>,
    pub random_generator: rand_pcg::Pcg32,
    pub current_generation: usize,
    pub child_buffer: Vec<Individual>,
    pub function_evaluations: u64,
    pub edge_db: HashMap<u128, i64>,
    pub population_size: usize,
}

impl StOBGA {
    pub open spec fn k(&self) -> int {
        self.problem.obstacle_corners@.len() as int
    }

    /// The engine's invariant: a well-formed problem with a
    /// non-degenerate bounding box, a truthful edge cache, and
    /// well-formed individuals everywhere.
    pub open spec fn wf(&self) -> bool {
        &&& self.problem.wf()
        &&& self.problem.bounds.min_x < self.problem.bounds.max_x
        &&& self.problem.bounds.min_y < self.problem.bounds.max_y
        &&& cache_ok(self.edge_db@, self.problem)
        &&& forall|i: int|
            0 <= i < self.population@.len() ==> ind_ok(#[trigger] self.population@[i], self.k())
        &&& forall|i: int|
            0 <= i < self.child_buffer@.len() ==> ind_ok(#[trigger] self.child_buffer@[i], self.k())
    }

    /// The obstacle-aware distance of two points, memoized: the cache
    /// is consulted under both orderings of the pair and filled on a
    /// miss. A cached weight is never stale, since the problem never
    /// changes.
    pub fn compute_distance(&mut self, from: Point, to: Point) -> (w: i64)
        requires
            old(self).wf(),
            wf_point(from),
            wf_point(to),
        ensures
            final(self).wf(),
            w as int == spec_distance(from, to, old(self).problem.obstacles@),
            -INF_COST <= w <= INF_COST,
            final(self).problem == old(self).problem,
            final(self).population == old(self).population,
            final(self).child_buffer == old(self).child_buffer,
            final(self).random_generator == old(self).random_generator,
            final(self).current_generation == old(self).current_generation,
            final(self).function_evaluations == old(self).function_evaluations,
            final(self).population_size == old(self).population_size,
            old(self).edge_db@.submap_of(final(self).edge_db@),
    {
        let key = pair_key_exec(from, to);
        let r1 = self.edge_db.get(&key);
        match r1 {
            Some(wref) => {
                let w = *wref;
                proof {
                    assert(self.edge_db@.contains_key(key));
                    let pq = choose|pq: (Point, Point)|
                        wf_point(pq.0) && wf_point(pq.1) && key as int == #[trigger] pair_key(
                            pq.0,
                            pq.1,
                        ) && self.edge_db@[key] as int == spec_distance(
                            pq.0,
                            pq.1,
                            self.problem.obstacles@,
                        );
                    lemma_pair_key_injective(from, to, pq.0, pq.1);
                    crate::problem::lemma_distance_in_range(
                        from,
                        to,
                        self.problem.obstacles@,
                    );
                }
                return w;
            },
            None => {},
        }
        let key2 = pair_key_exec(to, from);
        let r2 = self.edge_db.get(&key2);
        match r2 {
            Some(wref) => {
                let w = *wref;
                proof {
                    assert(self.edge_db@.contains_key(key2));
                    let pq = choose|pq: (Point, Point)|
                        wf_point(pq.0) && wf_point(pq.1) && key2 as int == #[trigger] pair_key(
                            pq.0,
                            pq.1,
                        ) && self.edge_db@[key2] as int == spec_distance(
                            pq.0,
                            pq.1,
                            self.problem.obstacles@,
                        );
                    lemma_pair_key_injective(to, from, pq.0, pq.1);
                    lemma_distance_symmetric(from, to, self.problem.obstacles@);
                    crate::problem::lemma_distance_in_range(
                        from,
                        to,
                        self.problem.obstacles@,
                    );
                }
                return w;
            },
            None => {},
        }
        let w = self.problem.distance(from, to);
        proof {
            crate::problem::lemma_distance_in_range(from, to, self.problem.obstacles@);
        }
        let ghost db_before = self.edge_db@;
        self.edge_db.insert(key, w);
        proof {
            assert forall|k2: u128| #[trigger]
                self.edge_db@.contains_key(k2) implies exists|pq: (Point, Point)|
                wf_point(pq.0) && wf_point(pq.1) && k2 as int == #[trigger] pair_key(pq.0, pq.1)
                    && self.edge_db@[k2] as int == spec_distance(
                    pq.0,
                    pq.1,
                    self.problem.obstacles@,
                ) by {
                if k2 == key {
                    let witness = (from, to);
                    assert(wf_point(witness.0) && wf_point(witness.1) && k2 as int == pair_key(
                        witness.0,
                        witness.1,
                    ) && self.edge_db@[k2] as int == spec_distance(
                        witness.0,
                        witness.1,
                        self.problem.obstacles@,
                    ));
                } else {
                    assert(db_before.contains_key(k2));
                    assert(self.edge_db@[k2] == db_before[k2]);
                }
            }
            assert(db_before.submap_of(self.edge_db@)) by {
                assert forall|kk: u128| #[trigger] db_before.dom().contains(kk) implies
                    self.edge_db@.dom().contains(kk) && db_before[kk] == self.edge_db@[kk] by {
                    assert(kk != key);
                }
            }
        }
        w
    }

    /// Builds the spanning tree of one individual: the complete graph
    /// over the chromosome's vertex list, each edge weighted by the
    /// memoized obstacle-aware distance, reduced to a spanning tree.
    /// Counts one function evaluation.
    pub fn build_mst(&mut self, index: usize, buffer: BufferSelector)
        requires
            old(self).wf(),
            old(self).function_evaluations < u64::MAX,
            match buffer {
                BufferSelector::ChildBuffer => index < old(self).child_buffer@.len(),
                BufferSelector::Population => index < old(self).population@.len(),
            },
        ensures
            final(self).wf(),
            final(self).problem == old(self).problem,
            final(self).random_generator == old(self).random_generator,
            final(self).current_generation == old(self).current_generation,
            final(self).population_size == old(self).population_size,
            final(self).function_evaluations == old(self).function_evaluations + 1,
            old(self).edge_db@.submap_of(final(self).edge_db@),
            match buffer {
                BufferSelector::ChildBuffer => {
                    &&& final(self).population == old(self).population
                    &&& final(self).child_buffer@.len() == old(self).child_buffer@.len()
                    &&& forall|i: int|
                        0 <= i < old(self).child_buffer@.len() && i != index
                            ==> final(self).child_buffer@[i] == old(self).child_buffer@[i]
                    &&& built_from(
                        final(self).child_buffer@[index as int],
                        old(self).child_buffer@[index as int],
                        old(self).problem,
                    )
                },
                BufferSelector::Population => {
                    &&& final(self).child_buffer == old(self).child_buffer
                    &&& final(self).population@.len() == old(self).population@.len()
                    &&& forall|i: int|
                        0 <= i < old(self).population@.len() && i != index
                            ==> final(self).population@[i] == old(self).population@[i]
                    &&& built_from(
                        final(self).population@[index as int],
                        old(self).population@[index as int],
                        old(self).problem,
                    )
                },
            },
    {
        let ghost k_ghost = self.k();
        let mut vertices: Vec<Point> = Vec::new();
        let ghost ch = match buffer {
            BufferSelector::ChildBuffer => self.child_buffer@[index as int].chromosome,
            BufferSelector::Population => self.population@[index as int].chromosome,
        };
        {
            let ind = match buffer {
                BufferSelector::ChildBuffer => &self.child_buffer[index],
                BufferSelector::Population => &self.population[index],
            };
            proof {
                assert(ind.chromosome == ch);
                assert(ind_ok(*ind, k_ghost));
            }
            let ns = ind.chromosome.steiner_points.len();
            let mut i: usize = 0;
            while i < ns
                invariant
                    0 <= i <= ns,
                    ns == ch.steiner_points@.len(),
                    ind.chromosome == ch,
                    vertices@ == ch.steiner_points@.take(i as int),
                decreases ns - i,
            {
                vertices.push(ind.chromosome.steiner_points[i]);
                proof {
                    assert(vertices@ =~= ch.steiner_points@.take(i as int + 1));
                }
                i = i + 1;
            }
            proof {
                assert(ch.steiner_points@.take(ns as int) =~= ch.steiner_points@);
            }
            let nc = ind.chromosome.included_corners.len();
            let mut j: usize = 0;
            while j < nc
                invariant
                    0 <= j <= nc,
                    nc == ch.included_corners@.len(),
                    ind.chromosome == ch,
                    ch.wf(k_ghost),
                    k_ghost == self.problem.obstacle_corners@.len() as int,
                    vertices@ == ch.steiner_points@ + corner_points_of(ch, self.problem).take(
                        j as int,
                    ),
                decreases nc - j,
            {
                let ci = ind.chromosome.included_corners[j];
                vertices.push(self.problem.obstacle_corners[ci]);
                proof {
                    assert(corner_points_of(ch, self.problem)[j as int]
                        == self.problem.obstacle_corners@[ch.included_corners@[j as int] as int]);
                    assert(vertices@ =~= ch.steiner_points@ + corner_points_of(
                        ch,
                        self.problem,
                    ).take(j as int + 1));
                }
                j = j + 1;
            }
            proof {
                assert(corner_points_of(ch, self.problem).take(nc as int) =~= corner_points_of(
                    ch,
                    self.problem,
                ));
            }
            let nt = self.problem.terminals.len();
            let mut t: usize = 0;
            while t < nt
                invariant
                    0 <= t <= nt,
                    nt == self.problem.terminals@.len(),
                    ind.chromosome == ch,
                    vertices@ == ch.steiner_points@ + corner_points_of(ch, self.problem)
                        + self.problem.terminals@.take(t as int),
                decreases nt - t,
            {
                vertices.push(self.problem.terminals[t]);
                proof {
                    assert(vertices@ =~= ch.steiner_points@ + corner_points_of(ch, self.problem)
                        + self.problem.terminals@.take(t as int + 1));
                }
                t = t + 1;
            }
            proof {
                assert(self.problem.terminals@.take(nt as int) =~= self.problem.terminals@);
                assert(vertices@ == vertex_seq(ch, self.problem));
            }
        }
        proof {
            assert(wf_points(vertices@)) by {
                assert forall|i: int| 0 <= i < vertices@.len() implies wf_point(
                    #[trigger] vertices@[i],
                ) by {
                    let sl = ch.steiner_points@.len() as int;
                    let cl = ch.included_corners@.len() as int;
                    if i < sl {
                        assert(vertices@[i] == ch.steiner_points@[i]);
                    } else if i < sl + cl {
                        assert(vertices@[i] == corner_points_of(ch, self.problem)[i - sl]);
                        assert(corner_points_of(ch, self.problem)[i - sl]
                            == self.problem.obstacle_corners@[ch.included_corners@[i - sl] as int]);
                    } else {
                        assert(vertices@[i] == self.problem.terminals@[i - sl - cl]);
                    }
                }
            }
            assert(vertices@.len() >= 1);
        }
        let nv = vertices.len();
        let mut edges: Vec<(usize, usize, i64)> = Vec::new();
        let mut a: usize = 0;
        while a < nv
            invariant
                0 <= a <= nv,
                nv == vertices@.len(),
                self.wf(),
                wf_points(vertices@),
                self.problem == old(self).problem,
                self.population == old(self).population,
                self.child_buffer == old(self).child_buffer,
                self.random_generator == old(self).random_generator,
                self.current_generation == old(self).current_generation,
                self.function_evaluations == old(self).function_evaluations,
                self.population_size == old(self).population_size,
                old(self).edge_db@.submap_of(self.edge_db@),
                forall|e: int|
                    0 <= e < edges@.len() ==> ((#[trigger] edges@[e]).0 < nv && edges@[e].1 < nv
                        && -INF_COST <= edges@[e].2 <= INF_COST),
                forall|e: int|
                    0 <= e < edges@.len() ==> (#[trigger] edges@[e]).2 as int == spec_distance(
                        vertices@[edges@[e].0 as int],
                        vertices@[edges@[e].1 as int],
                        old(self).problem.obstacles@,
                    ),
                forall|x: int, y: int| 0 <= x < y < nv && x < a ==> #[trigger] has_edge(
                    edges@,
                    x,
                    y,
                ),
            decreases nv - a,
        {
            let mut b: usize = a + 1;
            while b < nv
                invariant
                    a < b <= nv,
                    0 <= a < nv,
                    nv == vertices@.len(),
                    self.wf(),
                    wf_points(vertices@),
                    self.problem == old(self).problem,
                    self.population == old(self).population,
                    self.child_buffer == old(self).child_buffer,
                    self.random_generator == old(self).random_generator,
                    self.current_generation == old(self).current_generation,
                    self.function_evaluations == old(self).function_evaluations,
                    self.population_size == old(self).population_size,
                    old(self).edge_db@.submap_of(self.edge_db@),
                    forall|e: int|
                        0 <= e < edges@.len() ==> ((#[trigger] edges@[e]).0 < nv && edges@[e].1
                            < nv && -INF_COST <= edges@[e].2 <= INF_COST),
                    forall|e: int|
                        0 <= e < edges@.len() ==> (#[trigger] edges@[e]).2 as int == spec_distance(
                            vertices@[edges@[e].0 as int],
                            vertices@[edges@[e].1 as int],
                            old(self).problem.obstacles@,
                        ),
                    forall|x: int, y: int| 0 <= x < y < nv && x < a ==> #[trigger] has_edge(
                        edges@,
                        x,
                        y,
                    ),
                    forall|y: int| a < y < b ==> #[trigger] has_edge(edges@, a as int, y),
                decreases nv - b,
            {
                let ghost db_pre = self.edge_db@;
                let w = self.compute_distance(vertices[a], vertices[b]);
                let ghost edges_before = edges@;
                edges.push((a, b, w));
                proof {
                    assert(old(self).edge_db@.submap_of(self.edge_db@)) by {
                        assert forall|kk: u128| #[trigger]
                            old(self).edge_db@.dom().contains(kk) implies
                            self.edge_db@.dom().contains(kk) && old(self).edge_db@[kk]
                            == self.edge_db@[kk] by {
                            assert(db_pre.dom().contains(kk) && old(self).edge_db@[kk] == db_pre[
                                kk]);
                        }
                    }
                    assert(edges@[edges@.len() - 1] == (a, b, w));
                    assert forall|e: int|
                        0 <= e < edges@.len() implies (#[trigger] edges@[e]).2 as int
                        == spec_distance(
                        vertices@[edges@[e].0 as int],
                        vertices@[edges@[e].1 as int],
                        old(self).problem.obstacles@,
                    ) by {
                        if e < edges_before.len() {
                            assert(edges@[e] == edges_before[e]);
                        }
                    }
                    assert(has_edge(edges@, a as int, b as int));
                    assert forall|x: int, y: int|
                        0 <= x < y < nv && x < a implies #[trigger] has_edge(edges@, x, y) by {
                        assert(has_edge(edges_before, x, y));
                        let e = choose|e: int|
                            0 <= e < edges_before.len() && (#[trigger] edges_before[e]).0 == x
                                && edges_before[e].1 == y;
                        assert(edges@[e] == edges_before[e]);
                        assert(0 <= e < edges@.len() && edges@[e].0 == x && edges@[e].1 == y);
                    }
                    assert forall|y: int| a < y < b + 1 implies #[trigger] has_edge(
                        edges@,
                        a as int,
                        y,
                    ) by {
                        if y < b {
                            assert(has_edge(edges_before, a as int, y));
                            let e = choose|e: int|
                                0 <= e < edges_before.len() && (#[trigger] edges_before[e]).0
                                    == a as int && edges_before[e].1 == y;
                            assert(edges@[e] == edges_before[e]);
                            assert(0 <= e < edges@.len() && edges@[e].0 == a as int && edges@[e].1
                                == y);
                        }
                    }
                }
                b = b + 1;
            }
            a = a + 1;
        }
        let graph = Graph { nodes: vertices, edges };
        proof {
            assert(graph.wf());
            assert(spec_complete(graph.nodes@.len() as int, graph.edges@));
        }
        let mst = graph.minimum_spanning_tree();
        proof {
            assert forall|k: int|
                0 <= k < mst.edges@.len() implies (#[trigger] mst.edges@[k]).2 as int
                == spec_distance(
                mst.nodes@[mst.edges@[k].0 as int],
                mst.nodes@[mst.edges@[k].1 as int],
                old(self).problem.obstacles@,
            ) by {
                assert(graph.edges@.contains(mst.edges@[k]));
                let e = choose|e: int|
                    0 <= e < graph.edges@.len() && graph.edges@[e] == mst.edges@[k];
                assert(graph.edges@[e].2 as int == spec_distance(
                    graph.nodes@[graph.edges@[e].0 as int],
                    graph.nodes@[graph.edges@[e].1 as int],
                    old(self).problem.obstacles@,
                ));
            }
            assert(connects(mst.nodes@.len() as int, mst.edges@));
        }
        let new_ind_mst = Some(mst);
        match buffer {
            BufferSelector::ChildBuffer => {
                let mut tmp = self.child_buffer.remove(index);
                tmp.minimum_spanning_tree = new_ind_mst;
                self.child_buffer.insert(index, tmp);
                proof {
                    assert(self.child_buffer@ =~= old(self).child_buffer@.update(
                        index as int,
                        self.child_buffer@[index as int],
                    ));
                }
            },
            BufferSelector::Population => {
                let mut tmp = self.population.remove(index);
                tmp.minimum_spanning_tree = new_ind_mst;
                self.population.insert(index, tmp);
                proof {
                    assert(self.population@ =~= old(self).population@.update(
                        index as int,
                        self.population@[index as int],
                    ));
                }
            },
        }
        self.function_evaluations = self.function_evaluations + 1;
    }
}

/// Whether every individual of the sequence carries a built tree.
pub open spec fn all_evaluated(pop: Seq<Individual>) -> bool {
    forall|i: int| 0 <= i < pop.len() ==> (#[trigger] pop[i]).minimum_spanning_tree is Some
}

/// One generation's turnover: the new population is some survivor
/// sub-multiset of the old population plus exactly `quota` children,
/// each carrying a sound tree for its own chromosome.
pub open spec fn population_turnover(
    old_pop: Seq<Individual>,
    new_pop: Seq<Individual>,
    quota: int,
    problem: SteinerProblem,
) -> bool {
    exists|survivors: Seq<Individual>, children: Seq<Individual>|
        #![trigger survivors.to_multiset().add(children.to_multiset())]
        {
            &&& survivors.len() == old_pop.len() - quota
            &&& children.len() == quota
            &&& survivors.to_multiset().subset_of(old_pop.to_multiset())
            &&& new_pop.to_multiset() == survivors.to_multiset().add(children.to_multiset())
            &&& forall|i: int| 0 <= i < children.len() ==> tree_ok(#[trigger] children[i], problem)
        }
}

/// Ascending fitness order.
pub open spec fn sorted_by_fitness(pop: Seq<Individual>) -> bool {
    forall|i: int|
        0 <= i < pop.len() - 1 ==> fitness_of(#[trigger] pop[i]) <= fitness_of(pop[i + 1])
}

/// What a tournament guarantees: the returned index came from a drawn
/// sample of the requested size and carries the sample's best (or, for
/// elimination, worst) fitness.
pub open spec fn tournament_winner(
    pop: Seq<Individual>,
    s: Seq<usize>,
    r: usize,
    size: int,
    to_die: bool,
) -> bool {
    &&& s.len() == size
    &&& forall|i: int| 0 <= i < s.len() ==> (#[trigger] s[i]) < pop.len()
    &&& s.contains(r)
    &&& forall|i: int|
        0 <= i < s.len() ==> (if to_die {
            fitness_of(pop[r as int]) >= fitness_of(pop[(#[trigger] s[i]) as int])
        } else {
            fitness_of(pop[r as int]) <= fitness_of(pop[(#[trigger] s[i]) as int])
        })
}

/// The fitness of an evaluated individual, as executable code.
pub fn fitness_exec(ind: &Individual) -> (r: i128)
    ensures
        r as int == fitness_of(*ind),
{
    match &ind.minimum_spanning_tree {
        Some(m) => m.total_weight,
        None => 0,
    }
}

impl StOBGA {
    /// Builds the tree of every population member still lacking one.
    pub fn build_msts(&mut self)
        requires
            old(self).wf(),
            old(self).function_evaluations as int + old(self).population@.len()
                <= u64::MAX as int,
        ensures
            final(self).wf(),
            final(self).problem == old(self).problem,
            final(self).random_generator == old(self).random_generator,
            final(self).current_generation == old(self).current_generation,
            final(self).population_size == old(self).population_size,
            final(self).child_buffer == old(self).child_buffer,
            final(self).population@.len() == old(self).population@.len(),
            all_evaluated(final(self).population@),
            old(self).function_evaluations <= final(self).function_evaluations,
            final(self).function_evaluations as int <= old(self).function_evaluations as int
                + old(self).population@.len(),
            old(self).edge_db@.submap_of(final(self).edge_db@),
            all_evaluated(old(self).population@) ==> final(self).function_evaluations == old(
                self,
            ).function_evaluations && final(self).population == old(self).population
                && final(self).edge_db == old(self).edge_db,
            forall|i: int|
                0 <= i < old(self).population@.len()
                    ==> (#[trigger] final(self).population@[i]).chromosome == old(
                    self,
                ).population@[i].chromosome,
            forall|i: int|
                0 <= i < old(self).population@.len() && old(
                    self,
                ).population@[i].minimum_spanning_tree is Some ==> final(self).population@[i]
                    == old(self).population@[i],
    {
        let n = self.population.len();
        let mut i: usize = 0;
        while i < n
            invariant
                0 <= i <= n,
                n == self.population@.len(),
                self.wf(),
                self.problem == old(self).problem,
                self.random_generator == old(self).random_generator,
                self.current_generation == old(self).current_generation,
                self.population_size == old(self).population_size,
                self.child_buffer == old(self).child_buffer,
                old(self).function_evaluations <= self.function_evaluations,
                self.function_evaluations as int <= old(self).function_evaluations as int
                    + i as int,
                old(self).function_evaluations as int + n as int <= u64::MAX as int,
                old(self).edge_db@.submap_of(self.edge_db@),
                all_evaluated(old(self).population@) ==> self.function_evaluations == old(
                    self,
                ).function_evaluations && self.population == old(self).population
                    && self.edge_db == old(self).edge_db,
                forall|j: int|
                    0 <= j < i ==> (#[trigger] self.population@[j]).minimum_spanning_tree is Some,
                forall|j: int|
                    0 <= j < n ==> (#[trigger] self.population@[j]).chromosome == old(
                        self,
                    ).population@[j].chromosome,
                forall|j: int|
                    0 <= j < n && old(self).population@[j].minimum_spanning_tree is Some
                        ==> #[trigger] self.population@[j] == old(self).population@[j],
            decreases n - i,
        {
            let needs = match &self.population[i].minimum_spanning_tree {
                Some(_) => false,
                None => true,
            };
            if needs {
                proof {
                    assert(!all_evaluated(old(self).population@)) by {
                        assert(old(self).population@[i as int].minimum_spanning_tree is None);
                    }
                }
                let ghost db_pre = self.edge_db@;
                self.build_mst(i, BufferSelector::Population);
                proof {
                    assert(old(self).edge_db@.submap_of(self.edge_db@)) by {
                        assert forall|kk: u128| #[trigger]
                            old(self).edge_db@.dom().contains(kk) implies
                            self.edge_db@.dom().contains(kk) && old(self).edge_db@[kk]
                            == self.edge_db@[kk] by {
                            assert(db_pre.dom().contains(kk));
                            assert(old(self).edge_db@[kk] == db_pre[kk]);
                            assert(self.edge_db@.dom().contains(kk) && db_pre[kk]
                                == self.edge_db@[kk]);
                        }
                    }
                }
            }
            i = i + 1;
        }
    }

    /// Draws `size` distinct population indices and returns the one
    /// with minimum fitness, or maximum fitness when selecting an
    /// individual for elimination; the first of equal fitnesses wins.
    pub fn tournament_select(&mut self, size: usize, to_die: bool) -> (r: usize)
        requires
            old(self).wf(),
            1 <= size <= old(self).population@.len(),
            all_evaluated(old(self).population@),
        ensures
            final(self).wf(),
            r < old(self).population@.len(),
            final(self).problem == old(self).problem,
            final(self).population == old(self).population,
            final(self).child_buffer == old(self).child_buffer,
            final(self).current_generation == old(self).current_generation,
            final(self).function_evaluations == old(self).function_evaluations,
            final(self).population_size == old(self).population_size,
            final(self).edge_db == old(self).edge_db,
            exists|s: Seq<usize>|
                #[trigger] tournament_winner(
                    old(self).population@,
                    s,
                    r,
                    size as int,
                    to_die,
                ),
    {
        let n = self.population.len();
        let idxs = rng_sample(&mut self.random_generator, n, size);
        let mut best = idxs[0];
        let mut bi: usize = 1;
        while bi < size
            invariant
                1 <= bi <= size,
                size == idxs@.len(),
                n == self.population@.len(),
                self.wf(),
                all_evaluated(self.population@),
                self.population == old(self).population,
                forall|i: int| 0 <= i < idxs@.len() ==> (#[trigger] idxs@[i]) < n,
                best < n,
                idxs@.contains(best),
                forall|i: int|
                    0 <= i < bi ==> (if to_die {
                        fitness_of(self.population@[best as int]) >= fitness_of(
                            self.population@[(#[trigger] idxs@[i]) as int],
                        )
                    } else {
                        fitness_of(self.population@[best as int]) <= fitness_of(
                            self.population@[(#[trigger] idxs@[i]) as int],
                        )
                    }),
            decreases size - bi,
        {
            let c = idxs[bi];
            let fb = self.population[best].minimum_spanning_tree.as_ref().unwrap().total_weight;
            let fc = self.population[c].minimum_spanning_tree.as_ref().unwrap().total_weight;
            if to_die {
                if fc > fb {
                    best = c;
                }
            } else {
                if fc < fb {
                    best = c;
                }
            }
            bi = bi + 1;
        }
        proof {
            assert(tournament_winner(old(self).population@, idxs@, best, size as int, to_die));
        }
        best
    }

    /// Sorts the population ascending by fitness with a stable
    /// insertion sort.
    fn sort_population(&mut self)
        requires
            old(self).wf(),
        ensures
            final(self).wf(),
            final(self).problem == old(self).problem,
            final(self).random_generator == old(self).random_generator,
            final(self).current_generation == old(self).current_generation,
            final(self).population_size == old(self).population_size,
            final(self).child_buffer == old(self).child_buffer,
            final(self).edge_db == old(self).edge_db,
            final(self).function_evaluations == old(self).function_evaluations,
            final(self).population@.len() == old(self).population@.len(),
            sorted_by_fitness(final(self).population@),
            final(self).population@.to_multiset() == old(self).population@.to_multiset(),
            all_evaluated(old(self).population@) ==> all_evaluated(final(self).population@),
    {
        let n = self.population.len();
        let mut k: usize = 1;
        while k < n
            invariant
                1 <= k <= n || (n == 0 && k == 1),
                n == self.population@.len(),
                self.wf(),
                self.problem == old(self).problem,
                self.random_generator == old(self).random_generator,
                self.current_generation == old(self).current_generation,
                self.population_size == old(self).population_size,
                self.child_buffer == old(self).child_buffer,
                self.edge_db == old(self).edge_db,
                self.function_evaluations == old(self).function_evaluations,
                all_evaluated(old(self).population@) ==> all_evaluated(self.population@),
                self.population@.to_multiset() == old(self).population@.to_multiset(),
                forall|i: int|
                    0 <= i < k - 1 ==> fitness_of(#[trigger] self.population@[i]) <= fitness_of(
                        self.population@[i + 1],
                    ),
            decreases n - k,
        {
            let ghost before_outer = self.population@;
            let x = self.population.remove(k);
            proof {
                vstd::seq_lib::to_multiset_remove(before_outer, k as int);
                vstd::seq_lib::to_multiset_contains(before_outer, x);
            }
            let fx = fitness_exec(&x);
            let mut pos: usize = 0;
            while pos < k && fitness_exec(&self.population[pos]) <= fx
                invariant
                    0 <= pos <= k,
                    k < before_outer.len(),
                    self.population@ == before_outer.remove(k as int),
                    n == before_outer.len(),
                    fx as int == fitness_of(x),
                    forall|i: int|
                        0 <= i < pos ==> fitness_of(#[trigger] self.population@[i]) <= fitness_of(
                            x,
                        ),
                decreases k - pos,
            {
                pos = pos + 1;
            }
            proof {
                self.population@.insert_ensures(pos as int, x);
            }
            let ghost before_ins = self.population@;
            self.population.insert(pos, x);
            proof {
                let after = self.population@;
                assert(after.len() == n);
                vstd::seq_lib::to_multiset_insert(before_ins, pos as int, x);
                assert(before_outer.to_multiset().remove(x).insert(x)
                    =~= before_outer.to_multiset());
                assert(after.to_multiset() == old(self).population@.to_multiset());
                assert forall|i: int| 0 <= i < k implies fitness_of(#[trigger] after[i])
                    <= fitness_of(after[i + 1]) by {
                    if i + 1 < pos {
                        assert(after[i] == before_ins[i] && after[i + 1] == before_ins[i + 1]);
                        assert(before_ins[i] == before_outer[i] && before_ins[i + 1]
                            == before_outer[i + 1]);
                    } else if i + 1 == pos {
                        assert(after[i] == before_ins[i] && after[i + 1] == x);
                        assert(fitness_of(before_ins[i]) <= fitness_of(x));
                    } else if i == pos {
                        assert(after[i] == x && after[i + 1] == before_ins[i]);
                        assert(pos < k ==> !(fitness_of(before_ins[pos as int]) <= fitness_of(
                            x,
                        )));
                    } else {
                        assert(after[i] == before_ins[i - 1] && after[i + 1] == before_ins[i]);
                        assert(before_ins[i - 1] == before_outer[i - 1] && before_ins[i]
                            == before_outer[i]);
                    }
                }
                assert forall|i: int| 0 <= i < after.len() implies ind_ok(
                    #[trigger] after[i],
                    self.k(),
                ) by {
                    if i < pos {
                        assert(after[i] == before_ins[i]);
                        assert(before_ins[i] == before_outer[i]);
                    } else if i == pos {
                        assert(after[i] == x && x == before_outer[k as int]);
                    } else if i <= k {
                        assert(after[i] == before_ins[i - 1]);
                        assert(before_ins[i - 1] == before_outer[i - 1]);
                    } else {
                        assert(after[i] == before_ins[i - 1]);
                        assert(before_ins[i - 1] == before_outer[i]);
                    }
                }
                assert(all_evaluated(old(self).population@) ==> all_evaluated(after)) by {
                    if all_evaluated(old(self).population@) {
                        assert forall|i: int|
                            0 <= i < after.len() implies (#[trigger] after[i]).minimum_spanning_tree
                            is Some by {
                            if i < pos {
                                assert(after[i] == before_outer[i]);
                            } else if i == pos {
                                assert(after[i] == before_outer[k as int]);
                            } else if i <= k {
                                assert(after[i] == before_outer[i - 1]);
                            } else {
                                assert(after[i] == before_outer[i]);
                            }
                        }
                    }
                }
            }
            k = k + 1;
        }
    }
}

/// Extending a prefix by one element extends what it contains by
/// exactly that element.
proof fn lemma_take_one_more<T>(s: Seq<T>, i: int)
    requires
        0 <= i < s.len(),
    ensures
        forall|q: T| s.take(i + 1).contains(q) <==> (s.take(i).contains(q) || q == s[i]),
{
    assert(s.take(i + 1) =~= s.take(i).push(s[i]));
    assert forall|q: T| s.take(i + 1).contains(q) implies (s.take(i).contains(q) || q
        == s[i]) by {
        let w = choose|w: int| 0 <= w < s.take(i + 1).len() && #[trigger] s.take(i + 1)[w] == q;
        if w < i {
            assert(s.take(i)[w] == q);
        }
    }
    assert forall|q: T| (s.take(i).contains(q) || q == s[i]) implies s.take(i + 1).contains(
        q,
    ) by {
        if s.take(i).contains(q) {
            let w = choose|w: int| 0 <= w < s.take(i).len() && #[trigger] s.take(i)[w] == q;
            assert(s.take(i + 1)[w] == q);
        } else {
            assert(s.take(i + 1)[i] == q);
        }
    }
}

/// What crossover guarantees about the genes: together the two
/// children carry exactly the union of the parents' genes, and where
/// the parents share no gene, neither do the children.
pub open spec fn crossover_post(
    p1: Chromosome,
    p2: Chromosome,
    c1: Chromosome,
    c2: Chromosome,
) -> bool {
    &&& c1.steiner_points@.to_set().union(c2.steiner_points@.to_set())
        == p1.steiner_points@.to_set().union(p2.steiner_points@.to_set())
    &&& (p1.steiner_points@.to_set().disjoint(p2.steiner_points@.to_set())
        ==> c1.steiner_points@.to_set().disjoint(c2.steiner_points@.to_set()))
    &&& c1.included_corners@.to_set().union(c2.included_corners@.to_set())
        == p1.included_corners@.to_set().union(p2.included_corners@.to_set())
    &&& (p1.included_corners@.to_set().disjoint(p2.included_corners@.to_set())
        ==> c1.included_corners@.to_set().disjoint(c2.included_corners@.to_set()))
}

/// Where a split line sends the genes: child one holds parent one's
/// genes strictly left of the line and parent two's strictly right of
/// it, child two holds the rest, and corner genes are placed by their
/// looked-up coordinates, never by the index value.
pub open spec fn split_assignment(
    p1: Chromosome,
    p2: Chromosome,
    c1: Chromosome,
    c2: Chromosome,
    problem: SteinerProblem,
    xs: int,
) -> bool {
    &&& forall|q: Point| #![trigger c1.steiner_points@.to_set().contains(q)]
        c1.steiner_points@.to_set().contains(q) == ((p1.steiner_points@.contains(q) && q.x < xs)
            || (p2.steiner_points@.contains(q) && q.x > xs))
    &&& forall|q: Point| #![trigger c2.steiner_points@.to_set().contains(q)]
        c2.steiner_points@.to_set().contains(q) == ((p1.steiner_points@.contains(q) && !(q.x
            < xs)) || (p2.steiner_points@.contains(q) && !(q.x > xs)))
    &&& forall|c: usize| #![trigger c1.included_corners@.to_set().contains(c)]
        c1.included_corners@.to_set().contains(c) == ((p1.included_corners@.contains(c)
            && problem.obstacle_corners@[c as int].x < xs) || (p2.included_corners@.contains(c)
            && problem.obstacle_corners@[c as int].x > xs))
    &&& forall|c: usize| #![trigger c2.included_corners@.to_set().contains(c)]
        c2.included_corners@.to_set().contains(c) == ((p1.included_corners@.contains(c) && !(
        problem.obstacle_corners@[c as int].x < xs)) || (p2.included_corners@.contains(c) && !(
        problem.obstacle_corners@[c as int].x > xs)))
}

impl StOBGA {
    /// Spatial crossover: a random vertical split line is drawn inside
    /// the problem's bounds; parent one's genes strictly left of the
    /// line go to child one and the rest to child two, while parent
    /// two's genes strictly right of the line go to child one and the
    /// rest to child two, so each child receives spatial coverage from
    /// both parents. Corner genes are placed by their actual
    /// coordinates. The two children join the child buffer with no
    /// tree built yet.
    pub fn crossover(&mut self, parent_1_index: usize, parent_2_index: usize)
        requires
            old(self).wf(),
            parent_1_index < old(self).population@.len(),
            parent_2_index < old(self).population@.len(),
        ensures
            final(self).wf(),
            final(self).problem == old(self).problem,
            final(self).population == old(self).population,
            final(self).current_generation == old(self).current_generation,
            final(self).function_evaluations == old(self).function_evaluations,
            final(self).population_size == old(self).population_size,
            final(self).edge_db == old(self).edge_db,
            final(self).child_buffer@.len() == old(self).child_buffer@.len() + 2,
            forall|i: int|
                0 <= i < old(self).child_buffer@.len() ==> final(self).child_buffer@[i] == old(
                    self,
                ).child_buffer@[i],
            ({
                let b = old(self).child_buffer@.len() as int;
                let c1 = final(self).child_buffer@[b];
                let c2 = final(self).child_buffer@[b + 1];
                &&& c1.minimum_spanning_tree is None
                &&& c2.minimum_spanning_tree is None
                &&& crossover_post(
                    old(self).population@[parent_1_index as int].chromosome,
                    old(self).population@[parent_2_index as int].chromosome,
                    c1.chromosome,
                    c2.chromosome,
                )
                &&& exists|xs: int|
                    old(self).problem.bounds.min_x <= xs < old(self).problem.bounds.max_x
                        && #[trigger] split_assignment(
                        old(self).population@[parent_1_index as int].chromosome,
                        old(self).population@[parent_2_index as int].chromosome,
                        c1.chromosome,
                        c2.chromosome,
                        old(self).problem,
                        xs,
                    )
            }),
    {
        let ghost pc1 = self.population@[parent_1_index as int].chromosome;
        let ghost pc2 = self.population@[parent_2_index as int].chromosome;
        let ghost kk = self.k();
        let split = rng_range_i64(
            &mut self.random_generator,
            self.problem.bounds.min_x,
            self.problem.bounds.max_x,
        );
        let mut ch1 = Chromosome::new();
        let mut ch2 = Chromosome::new();
        let np1 = self.population[parent_1_index].chromosome.steiner_points.len();
        let mut i: usize = 0;
        while i < np1
            invariant
                0 <= i <= np1,
                self.wf(),
                parent_1_index < self.population@.len(),
                pc1 == self.population@[parent_1_index as int].chromosome,
                np1 == pc1.steiner_points@.len(),
                self.problem.bounds.min_x <= split < self.problem.bounds.max_x,
                ch1.wf(kk),
                ch2.wf(kk),
                ch1.included_corners@.len() == 0,
                ch2.included_corners@.len() == 0,
                forall|q: Point| #![trigger ch1.steiner_points@.to_set().contains(q)]
                    ch1.steiner_points@.to_set().contains(q) == (pc1.steiner_points@.take(
                        i as int,
                    ).contains(q) && q.x < split),
                forall|q: Point| #![trigger ch2.steiner_points@.to_set().contains(q)]
                    ch2.steiner_points@.to_set().contains(q) == (pc1.steiner_points@.take(
                        i as int,
                    ).contains(q) && !(q.x < split)),
            decreases np1 - i,
        {
            let p = self.population[parent_1_index].chromosome.steiner_points[i];
            proof {
                lemma_take_one_more(pc1.steiner_points@, i as int);
            }
            let ghost ch1_before = ch1;
            let ghost ch2_before = ch2;
            if p.x < split {
                ch1.steiner_insert(p);
            } else {
                ch2.steiner_insert(p);
            }
            proof {
                assert forall|q: Point|
                    ch1.steiner_points@.to_set().contains(q) == (pc1.steiner_points@.take(
                        i as int + 1,
                    ).contains(q) && q.x < split) by {
                    assert(ch1_before.steiner_points@.to_set().contains(q) == (
                    pc1.steiner_points@.take(i as int).contains(q) && q.x < split));
                    assert(pc1.steiner_points@.take(i as int + 1).contains(q) <==> (
                    pc1.steiner_points@.take(i as int).contains(q) || q == pc1.steiner_points@[
                        i as int]));
                }
                assert forall|q: Point|
                    ch2.steiner_points@.to_set().contains(q) == (pc1.steiner_points@.take(
                        i as int + 1,
                    ).contains(q) && !(q.x < split)) by {
                    assert(ch2_before.steiner_points@.to_set().contains(q) == (
                    pc1.steiner_points@.take(i as int).contains(q) && !(q.x < split)));
                    assert(pc1.steiner_points@.take(i as int + 1).contains(q) <==> (
                    pc1.steiner_points@.take(i as int).contains(q) || q == pc1.steiner_points@[
                        i as int]));
                }
            }
            i = i + 1;
        }
        proof {
            assert(pc1.steiner_points@.take(np1 as int) =~= pc1.steiner_points@);
            assert(pc2.steiner_points@.take(0) =~= Seq::<Point>::empty());
            assert forall|q: Point| !pc2.steiner_points@.take(0).contains(q) by {}
        }
        let np2 = self.population[parent_2_index].chromosome.steiner_points.len();
        let mut i2: usize = 0;
        while i2 < np2
            invariant
                0 <= i2 <= np2,
                self.wf(),
                parent_2_index < self.population@.len(),
                pc2 == self.population@[parent_2_index as int].chromosome,
                np2 == pc2.steiner_points@.len(),
                self.problem.bounds.min_x <= split < self.problem.bounds.max_x,
                ch1.wf(kk),
                ch2.wf(kk),
                ch1.included_corners@.len() == 0,
                ch2.included_corners@.len() == 0,
                forall|q: Point| #![trigger ch1.steiner_points@.to_set().contains(q)]
                    ch1.steiner_points@.to_set().contains(q) == ((pc1.steiner_points@.contains(q)
                        && q.x < split) || (pc2.steiner_points@.take(i2 as int).contains(q) && q.x
                        > split)),
                forall|q: Point| #![trigger ch2.steiner_points@.to_set().contains(q)]
                    ch2.steiner_points@.to_set().contains(q) == ((pc1.steiner_points@.contains(q)
                        && !(q.x < split)) || (pc2.steiner_points@.take(i2 as int).contains(q)
                        && !(q.x > split))),
            decreases np2 - i2,
        {
            let p = self.population[parent_2_index].chromosome.steiner_points[i2];
            proof {
                lemma_take_one_more(pc2.steiner_points@, i2 as int);
            }
            let ghost ch1_before = ch1;
            let ghost ch2_before = ch2;
            if p.x > split {
                ch1.steiner_insert(p);
            } else {
                ch2.steiner_insert(p);
            }
            proof {
                assert forall|q: Point|
                    ch1.steiner_points@.to_set().contains(q) == ((pc1.steiner_points@.contains(q)
                        && q.x < split) || (pc2.steiner_points@.take(i2 as int + 1).contains(q)
                        && q.x > split)) by {
                    assert(ch1_before.steiner_points@.to_set().contains(q) == ((
                    pc1.steiner_points@.contains(q) && q.x < split) || (pc2.steiner_points@.take(
                        i2 as int,
                    ).contains(q) && q.x > split)));
                    assert(pc2.steiner_points@.take(i2 as int + 1).contains(q) <==> (
                    pc2.steiner_points@.take(i2 as int).contains(q) || q == pc2.steiner_points@[
                        i2 as int]));
                }
                assert forall|q: Point|
                    ch2.steiner_points@.to_set().contains(q) == ((pc1.steiner_points@.contains(q)
                        && !(q.x < split)) || (pc2.steiner_points@.take(i2 as int + 1).contains(q)
                        && !(q.x > split))) by {
                    assert(ch2_before.steiner_points@.to_set().contains(q) == ((
                    pc1.steiner_points@.contains(q) && !(q.x < split)) || (
                    pc2.steiner_points@.take(i2 as int).contains(q) && !(q.x > split))));
                    assert(pc2.steiner_points@.take(i2 as int + 1).contains(q) <==> (
                    pc2.steiner_points@.take(i2 as int).contains(q) || q == pc2.steiner_points@[
                        i2 as int]));
                }
            }
            i2 = i2 + 1;
        }
        proof {
            assert(pc2.steiner_points@.take(np2 as int) =~= pc2.steiner_points@);
            assert(pc1.included_corners@.take(0) =~= Seq::<usize>::empty());
            assert forall|c: usize| !pc1.included_corners@.take(0).contains(c) by {}
            assert forall|c: usize| !ch1.included_corners@.to_set().contains(c) by {
                assert(ch1.included_corners@.len() == 0);
            }
            assert forall|c: usize| !ch2.included_corners@.to_set().contains(c) by {
                assert(ch2.included_corners@.len() == 0);
            }
        }
        let nc1 = self.population[parent_1_index].chromosome.included_corners.len();
        let mut j: usize = 0;
        while j < nc1
            invariant
                0 <= j <= nc1,
                self.wf(),
                parent_1_index < self.population@.len(),
                pc1 == self.population@[parent_1_index as int].chromosome,
                nc1 == pc1.included_corners@.len(),
                self.problem.bounds.min_x <= split < self.problem.bounds.max_x,
                pc1.wf(kk),
                kk == self.k(),
                ch1.wf(kk),
                ch2.wf(kk),
                forall|q: Point| #![trigger ch1.steiner_points@.to_set().contains(q)]
                    ch1.steiner_points@.to_set().contains(q) == ((pc1.steiner_points@.contains(q)
                        && q.x < split) || (pc2.steiner_points@.contains(q) && q.x > split)),
                forall|q: Point| #![trigger ch2.steiner_points@.to_set().contains(q)]
                    ch2.steiner_points@.to_set().contains(q) == ((pc1.steiner_points@.contains(q)
                        && !(q.x < split)) || (pc2.steiner_points@.contains(q) && !(q.x
                        > split))),
                forall|c: usize| #![trigger ch1.included_corners@.to_set().contains(c)]
                    ch1.included_corners@.to_set().contains(c) == (pc1.included_corners@.take(
                        j as int,
                    ).contains(c) && self.problem.obstacle_corners@[c as int].x < split),
                forall|c: usize| #![trigger ch2.included_corners@.to_set().contains(c)]
                    ch2.included_corners@.to_set().contains(c) == (pc1.included_corners@.take(
                        j as int,
                    ).contains(c) && !(self.problem.obstacle_corners@[c as int].x < split)),
            decreases nc1 - j,
        {
            let ci = self.population[parent_1_index].chromosome.included_corners[j];
            let cpt = self.problem.obstacle_corners[ci];
            proof {
                lemma_take_one_more(pc1.included_corners@, j as int);
            }
            let ghost ch1_before = ch1;
            let ghost ch2_before = ch2;
            if cpt.x < split {
                ch1.corner_insert(ci);
            } else {
                ch2.corner_insert(ci);
            }
            proof {
                assert forall|c: usize|
                    ch1.included_corners@.to_set().contains(c) == (pc1.included_corners@.take(
                        j as int + 1,
                    ).contains(c) && self.problem.obstacle_corners@[c as int].x < split) by {
                    assert(ch1_before.included_corners@.to_set().contains(c) == (
                    pc1.included_corners@.take(j as int).contains(c)
                        && self.problem.obstacle_corners@[c as int].x < split));
                    assert(pc1.included_corners@.take(j as int + 1).contains(c) <==> (
                    pc1.included_corners@.take(j as int).contains(c) || c == pc1.included_corners@[
                        j as int]));
                }
                assert forall|c: usize|
                    ch2.included_corners@.to_set().contains(c) == (pc1.included_corners@.take(
                        j as int + 1,
                    ).contains(c) && !(self.problem.obstacle_corners@[c as int].x < split)) by {
                    assert(ch2_before.included_corners@.to_set().contains(c) == (
                    pc1.included_corners@.take(j as int).contains(c) && !(
                    self.problem.obstacle_corners@[c as int].x < split)));
                    assert(pc1.included_corners@.take(j as int + 1).contains(c) <==> (
                    pc1.included_corners@.take(j as int).contains(c) || c == pc1.included_corners@[
                        j as int]));
                }
            }
            j = j + 1;
        }
        proof {
            assert(pc1.included_corners@.take(nc1 as int) =~= pc1.included_corners@);
            assert(pc2.included_corners@.take(0) =~= Seq::<usize>::empty());
            assert forall|c: usize| !pc2.included_corners@.take(0).contains(c) by {}
        }
        let nc2 = self.population[parent_2_index].chromosome.included_corners.len();
        let mut j2: usize = 0;
        while j2 < nc2
            invariant
                0 <= j2 <= nc2,
                self.wf(),
                parent_2_index < self.population@.len(),
                pc2 == self.population@[parent_2_index as int].chromosome,
                nc2 == pc2.included_corners@.len(),
                self.problem.bounds.min_x <= split < self.problem.bounds.max_x,
                pc2.wf(kk),
                kk == self.k(),
                ch1.wf(kk),
                ch2.wf(kk),
                forall|q: Point| #![trigger ch1.steiner_points@.to_set().contains(q)]
                    ch1.steiner_points@.to_set().contains(q) == ((pc1.steiner_points@.contains(q)
                        && q.x < split) || (pc2.steiner_points@.contains(q) && q.x > split)),
                forall|q: Point| #![trigger ch2.steiner_points@.to_set().contains(q)]
                    ch2.steiner_points@.to_set().contains(q) == ((pc1.steiner_points@.contains(q)
                        && !(q.x < split)) || (pc2.steiner_points@.contains(q) && !(q.x
                        > split))),
                forall|c: usize| #![trigger ch1.included_corners@.to_set().contains(c)]
                    ch1.included_corners@.to_set().contains(c) == ((pc1.included_corners@.contains(
                        c,
                    ) && self.problem.obstacle_corners@[c as int].x < split) || (
                    pc2.included_corners@.take(j2 as int).contains(c)
                        && self.problem.obstacle_corners@[c as int].x > split)),
                forall|c: usize| #![trigger ch2.included_corners@.to_set().contains(c)]
                    ch2.included_corners@.to_set().contains(c) == ((pc1.included_corners@.contains(
                        c,
                    ) && !(self.problem.obstacle_corners@[c as int].x < split)) || (
                    pc2.included_corners@.take(j2 as int).contains(c) && !(
                    self.problem.obstacle_corners@[c as int].x > split))),
            decreases nc2 - j2,
        {
            let ci = self.population[parent_2_index].chromosome.included_corners[j2];
            let cpt = self.problem.obstacle_corners[ci];
            proof {
                lemma_take_one_more(pc2.included_corners@, j2 as int);
            }
            let ghost ch1_before = ch1;
            let ghost ch2_before = ch2;
            if cpt.x > split {
                ch1.corner_insert(ci);
            } else {
                ch2.corner_insert(ci);
            }
            proof {
                assert forall|c: usize|
                    ch1.included_corners@.to_set().contains(c) == ((pc1.included_corners@.contains(
                        c,
                    ) && self.problem.obstacle_corners@[c as int].x < split) || (
                    pc2.included_corners@.take(j2 as int + 1).contains(c)
                        && self.problem.obstacle_corners@[c as int].x > split)) by {
                    assert(ch1_before.included_corners@.to_set().contains(c) == ((
                    pc1.included_corners@.contains(c) && self.problem.obstacle_corners@[
                        c as int].x < split) || (pc2.included_corners@.take(j2 as int).contains(c)
                        && self.problem.obstacle_corners@[c as int].x > split)));
                    assert(pc2.included_corners@.take(j2 as int + 1).contains(c) <==> (
                    pc2.included_corners@.take(j2 as int).contains(c) || c == pc2.included_corners@[
                        j2 as int]));
                }
                assert forall|c: usize|
                    ch2.included_corners@.to_set().contains(c) == ((pc1.included_corners@.contains(
                        c,
                    ) && !(self.problem.obstacle_corners@[c as int].x < split)) || (
                    pc2.included_corners@.take(j2 as int + 1).contains(c) && !(
                    self.problem.obstacle_corners@[c as int].x > split))) by {
                    assert(ch2_before.included_corners@.to_set().contains(c) == ((
                    pc1.included_corners@.contains(c) && !(self.problem.obstacle_corners@[
                        c as int].x < split)) || (pc2.included_corners@.take(j2 as int).contains(c)
                        && !(self.problem.obstacle_corners@[c as int].x > split))));
                    assert(pc2.included_corners@.take(j2 as int + 1).contains(c) <==> (
                    pc2.included_corners@.take(j2 as int).contains(c) || c == pc2.included_corners@[
                        j2 as int]));
                }
            }
            j2 = j2 + 1;
        }
        proof {
            assert(pc2.included_corners@.take(nc2 as int) =~= pc2.included_corners@);
            assert(ch1.steiner_points@.to_set().union(ch2.steiner_points@.to_set())
                =~= pc1.steiner_points@.to_set().union(pc2.steiner_points@.to_set()));
            assert(ch1.included_corners@.to_set().union(ch2.included_corners@.to_set())
                =~= pc1.included_corners@.to_set().union(pc2.included_corners@.to_set()));
            if pc1.steiner_points@.to_set().disjoint(pc2.steiner_points@.to_set()) {
                assert forall|q: Point| !(ch1.steiner_points@.to_set().contains(q)
                    && ch2.steiner_points@.to_set().contains(q)) by {
                    if pc1.steiner_points@.contains(q) && pc2.steiner_points@.contains(q) {
                        assert(pc1.steiner_points@.to_set().contains(q)
                            && pc2.steiner_points@.to_set().contains(q));
                    }
                }
            }
            if pc1.included_corners@.to_set().disjoint(pc2.included_corners@.to_set()) {
                assert forall|c: usize| !(ch1.included_corners@.to_set().contains(c)
                    && ch2.included_corners@.to_set().contains(c)) by {
                    if pc1.included_corners@.contains(c) && pc2.included_corners@.contains(c) {
                        assert(pc1.included_corners@.to_set().contains(c)
                            && pc2.included_corners@.to_set().contains(c));
                    }
                }
            }
            assert(split_assignment(pc1, pc2, ch1, ch2, self.problem, split as int));
        }
        let ghost buf_before = self.child_buffer@;
        self.child_buffer.push(Individual { chromosome: ch1, minimum_spanning_tree: None });
        self.child_buffer.push(Individual { chromosome: ch2, minimum_spanning_tree: None });
        proof {
            assert forall|i3: int| 0 <= i3 < self.child_buffer@.len() implies ind_ok(
                #[trigger] self.child_buffer@[i3],
                self.k(),
            ) by {
                if i3 < buf_before.len() {
                    assert(self.child_buffer@[i3] == buf_before[i3]);
                }
            }
        }
    }
}

/// The set of machine integers below `n` is finite with `n` elements.
proof fn lemma_usize_range_card(n: int)
    requires
        0 <= n <= usize::MAX,
    ensures
        Set::new(|u: usize| (u as int) < n).finite(),
        Set::new(|u: usize| (u as int) < n).len() == n,
    decreases n,
{
    let s = Set::new(|u: usize| (u as int) < n);
    if n == 0 {
        assert(s =~= Set::empty());
    } else {
        let s0 = Set::new(|u: usize| (u as int) < n - 1);
        lemma_usize_range_card(n - 1);
        assert(s =~= s0.insert((n - 1) as usize));
        axiom_set_insert_len(s0, (n - 1) as usize);
    }
}

/// Map inclusion is transitive.
proof fn lemma_submap_trans(a: Map<u128, i64>, b: Map<u128, i64>, c: Map<u128, i64>)
    requires
        a.submap_of(b),
        b.submap_of(c),
    ensures
        a.submap_of(c),
{
    assert forall|k: u128| #[trigger] a.dom().contains(k) implies c.dom().contains(k) && a[k]
        == c[k] by {
        assert(b.dom().contains(k));
        assert(a[k] == b[k]);
        assert(c.dom().contains(k));
        assert(b[k] == c[k]);
    }
}

/// Whether a plain vector of indices holds a value.
fn vec_contains_usize(v: &Vec<usize>, x: usize) -> (r: bool)
    ensures
        r == v@.contains(x),
{
    let n = v.len();
    let mut i: usize = 0;
    while i < n
        invariant
            0 <= i <= n,
            n == v@.len(),
            forall|j: int| 0 <= j < i ==> v@[j] != x,
        decreases n - i,
    {
        if v[i] == x {
            proof {
                assert(v@[i as int] == x);
            }
            return true;
        }
        i = i + 1;
    }
    false
}

impl StOBGA {
    /// Applies the flip-move mutation to the indexed buffered child,
    /// then rebuilds its tree.
    pub fn mutate_flip_move(&mut self, index: usize)
        requires
            old(self).wf(),
            index < old(self).child_buffer@.len(),
            old(self).function_evaluations as int + 2 <= u64::MAX as int,
        ensures
            final(self).wf(),
            final(self).problem == old(self).problem,
            final(self).population == old(self).population,
            final(self).population_size == old(self).population_size,
            final(self).current_generation == old(self).current_generation,
            final(self).child_buffer@.len() == old(self).child_buffer@.len(),
            forall|i: int|
                0 <= i < old(self).child_buffer@.len() && i != index
                    ==> final(self).child_buffer@[i] == old(self).child_buffer@[i],
            tree_ok(final(self).child_buffer@[index as int], old(self).problem),
            old(self).function_evaluations as int + 1 <= final(self).function_evaluations as int,
            final(self).function_evaluations as int <= old(self).function_evaluations as int + 2,
            old(self).edge_db@.submap_of(final(self).edge_db@),
    {
        let gen = self.current_generation;
        let mut tmp = self.child_buffer.remove(index);
        tmp.mutation_flip_move(&self.problem, &mut self.random_generator, gen);
        self.child_buffer.insert(index, tmp);
        proof {
            assert(self.child_buffer@ =~= old(self).child_buffer@.update(
                index as int,
                self.child_buffer@[index as int],
            ));
        }
        let ghost db_mid = self.edge_db@;
        self.build_mst(index, BufferSelector::ChildBuffer);
        proof {
            lemma_submap_trans(old(self).edge_db@, db_mid, self.edge_db@);
        }
    }

    /// Applies the add-steiner mutation to the indexed buffered child:
    /// its tree is built first if missing, and rebuilt afterwards.
    #[verifier::rlimit(100)]
    pub fn mutate_add_steiner(&mut self, index: usize)
        requires
            old(self).wf(),
            index < old(self).child_buffer@.len(),
            old(self).function_evaluations as int + 2 <= u64::MAX as int,
        ensures
            final(self).wf(),
            final(self).problem == old(self).problem,
            final(self).population == old(self).population,
            final(self).population_size == old(self).population_size,
            final(self).current_generation == old(self).current_generation,
            final(self).child_buffer@.len() == old(self).child_buffer@.len(),
            forall|i: int|
                0 <= i < old(self).child_buffer@.len() && i != index
                    ==> final(self).child_buffer@[i] == old(self).child_buffer@[i],
            tree_ok(final(self).child_buffer@[index as int], old(self).problem),
            old(self).function_evaluations as int + 1 <= final(self).function_evaluations as int,
            final(self).function_evaluations as int <= old(self).function_evaluations as int + 2,
            old(self).edge_db@.submap_of(final(self).edge_db@),
    {
        let needs = match &self.child_buffer[index].minimum_spanning_tree {
            Some(_) => false,
            None => true,
        };
        if needs {
            self.build_mst(index, BufferSelector::ChildBuffer);
        }
        let ghost db_mid = self.edge_db@;
        proof {
            assert(ind_ok(self.child_buffer@[index as int], self.k()));
        }
        let mut tmp = self.child_buffer.remove(index);
        tmp.mutation_add_steiner(&self.problem, &mut self.random_generator);
        self.child_buffer.insert(index, tmp);
        proof {
            assert(self.child_buffer@.len() == old(self).child_buffer@.len());
            assert forall|i: int| 0 <= i < self.child_buffer@.len() implies ind_ok(
                #[trigger] self.child_buffer@[i],
                self.k(),
            ) by {
                if i != index {
                }
            }
        }
        self.build_mst(index, BufferSelector::ChildBuffer);
        proof {
            lemma_submap_trans(old(self).edge_db@, db_mid, self.edge_db@);
        }
    }

    /// Applies the remove-steiner mutation to the indexed buffered
    /// child: its tree is built first if missing, and rebuilt
    /// afterwards.
    /// Applies the removal operator to one individual; the candidate
    /// scan is skipped only at the machine limit on the gene count.
    fn apply_remove_mutation(
        tmp: &mut Individual,
        problem: &SteinerProblem,
        rng: &mut rand_pcg::Pcg32,
    )
        requires
            old(tmp).minimum_spanning_tree is Some,
            ind_ok(*old(tmp), problem.obstacle_corners@.len() as int),
        ensures
            ind_ok(*final(tmp), problem.obstacle_corners@.len() as int),
    {
        let s = tmp.chromosome.steiner_points.len();
        let c = tmp.chromosome.included_corners.len();
        if s < usize::MAX - c {
            tmp.mutation_remove_steiner(problem, rng);
        }
    }

    #[verifier::rlimit(100)]
    pub fn mutate_remove_steiner(&mut self, index: usize)
        requires
            old(self).wf(),
            index < old(self).child_buffer@.len(),
            old(self).function_evaluations as int + 2 <= u64::MAX as int,
        ensures
            final(self).wf(),
            final(self).problem == old(self).problem,
            final(self).population == old(self).population,
            final(self).population_size == old(self).population_size,
            final(self).current_generation == old(self).current_generation,
            final(self).child_buffer@.len() == old(self).child_buffer@.len(),
            forall|i: int|
                0 <= i < old(self).child_buffer@.len() && i != index
                    ==> final(self).child_buffer@[i] == old(self).child_buffer@[i],
            tree_ok(final(self).child_buffer@[index as int], old(self).problem),
            old(self).function_evaluations as int + 1 <= final(self).function_evaluations as int,
            final(self).function_evaluations as int <= old(self).function_evaluations as int + 2,
            old(self).edge_db@.submap_of(final(self).edge_db@),
    {
        let needs = match &self.child_buffer[index].minimum_spanning_tree {
            Some(_) => false,
            None => true,
        };
        if needs {
            self.build_mst(index, BufferSelector::ChildBuffer);
        }
        let ghost db_mid = self.edge_db@;
        proof {
            assert(ind_ok(self.child_buffer@[index as int], self.k()));
        }
        let mut tmp = self.child_buffer.remove(index);
        Self::apply_remove_mutation(&mut tmp, &self.problem, &mut self.random_generator);
        self.child_buffer.insert(index, tmp);
        proof {
            assert(self.child_buffer@.len() == old(self).child_buffer@.len());
            assert forall|i: int| 0 <= i < self.child_buffer@.len() implies ind_ok(
                #[trigger] self.child_buffer@[i],
                self.k(),
            ) by {
                if i != index {
                }
            }
        }
        self.build_mst(index, BufferSelector::ChildBuffer);
        proof {
            lemma_submap_trans(old(self).edge_db@, db_mid, self.edge_db@);
        }
    }

    /// Mutates one buffered child with exactly one operator: flip-move
    /// with the generation-dependent probability, else a fair coin
    /// between add-steiner and remove-steiner. The child ends with a
    /// built tree.
    pub fn mutate(&mut self, index: usize)
        requires
            old(self).wf(),
            index < old(self).child_buffer@.len(),
            old(self).function_evaluations as int + 2 <= u64::MAX as int,
        ensures
            final(self).wf(),
            final(self).problem == old(self).problem,
            final(self).population == old(self).population,
            final(self).population_size == old(self).population_size,
            final(self).current_generation == old(self).current_generation,
            final(self).child_buffer@.len() == old(self).child_buffer@.len(),
            forall|i: int|
                0 <= i < old(self).child_buffer@.len() && i != index
                    ==> final(self).child_buffer@[i] == old(self).child_buffer@[i],
            tree_ok(final(self).child_buffer@[index as int], old(self).problem),
            old(self).function_evaluations as int + 1 <= final(self).function_evaluations as int,
            final(self).function_evaluations as int <= old(self).function_evaluations as int + 2,
            old(self).edge_db@.submap_of(final(self).edge_db@),
    {
        let g = self.current_generation;
        let a: i64 = if g < 1000 {
            990 * (1000 - g as i64)
        } else {
            0
        };
        let p_flip_move: i64 = if a > 600_000 {
            a
        } else {
            600_000
        };
        if rng_chance(&mut self.random_generator, p_flip_move, 1_000_000) {
            self.mutate_flip_move(index);
        } else {
            if rng_chance(&mut self.random_generator, 1, 2) {
                self.mutate_add_steiner(index);
            } else {
                self.mutate_remove_steiner(index);
            }
        }
    }
}

impl StOBGA {
    /// One generation: tournament-select an offspring quota of
    /// distinct parents, shuffle and pair them, cross each pair over,
    /// mutate every child, eliminate the same quota by reverse
    /// tournament, merge the children in, re-evaluate, and sort the
    /// population ascending by fitness. Afterwards the population is
    /// back at its configured size and the child buffer is empty.
    #[verifier::rlimit(100)]
    pub fn step(&mut self)
        requires
            old(self).wf(),
            old(self).child_buffer@.len() == 0,
            old(self).population@.len() == old(self).population_size,
            old(self).population_size / 3 >= 2,
            (old(self).population_size / 3) % 2 == 0,
            old(self).population_size - old(self).population_size / 3 >= 5,
            all_evaluated(old(self).population@),
            old(self).current_generation < 1_000_000_000,
            old(self).function_evaluations as int + 4 * old(self).population_size as int
                <= u64::MAX as int,
        ensures
            final(self).wf(),
            final(self).problem == old(self).problem,
            final(self).population_size == old(self).population_size,
            final(self).population@.len() == final(self).population_size,
            final(self).child_buffer@.len() == 0,
            all_evaluated(final(self).population@),
            sorted_by_fitness(final(self).population@),
            final(self).current_generation == old(self).current_generation + 1,
            final(self).function_evaluations as int >= old(self).function_evaluations as int
                + old(self).population_size as int / 3,
            old(self).edge_db@.submap_of(final(self).edge_db@),
            population_turnover(
                old(self).population@,
                final(self).population@,
                old(self).population_size as int / 3,
                old(self).problem,
            ),
    {
        let n = self.population.len();
        let off = self.population_size / 3;
        let mut sel: Vec<usize> = Vec::new();
        let mut attempts: usize = 0;
        while sel.len() < off && attempts < 1_000_000
            invariant
                self.wf(),
                self.problem == old(self).problem,
                self.population == old(self).population,
                self.child_buffer@.len() == 0,
                self.population_size == old(self).population_size,
                self.current_generation == old(self).current_generation,
                all_evaluated(self.population@),
                n == self.population@.len(),
                n == self.population_size,
                off == self.population_size / 3,
                2 <= off <= n,
                self.function_evaluations == old(self).function_evaluations,
                self.edge_db == old(self).edge_db,
                sel@.len() <= off,
                sel@.no_duplicates(),
                forall|i: int| 0 <= i < sel@.len() ==> (#[trigger] sel@[i]) < n,
            decreases 1_000_000 - attempts,
        {
            let t = self.tournament_select(5, false);
            if !vec_contains_usize(&sel, t) {
                sel.push(t);
            }
            attempts = attempts + 1;
        }
        let mut idx: usize = 0;
        while idx < n && sel.len() < off
            invariant
                self.wf(),
                self.problem == old(self).problem,
                self.population == old(self).population,
                self.child_buffer@.len() == 0,
                self.population_size == old(self).population_size,
                self.current_generation == old(self).current_generation,
                all_evaluated(self.population@),
                n == self.population@.len(),
                n == self.population_size,
                off == self.population_size / 3,
                2 <= off <= n,
                0 <= idx <= n,
                self.function_evaluations == old(self).function_evaluations,
                self.edge_db == old(self).edge_db,
                sel@.len() <= off,
                sel@.no_duplicates(),
                forall|i: int| 0 <= i < sel@.len() ==> (#[trigger] sel@[i]) < n,
                sel@.len() == off || (forall|m: int|
                    0 <= m < idx ==> #[trigger] sel@.contains(m as usize)),
            decreases n - idx,
        {
            let ghost sel_b4 = sel@;
            let already = vec_contains_usize(&sel, idx);
            if !already {
                sel.push(idx);
            }
            proof {
                if sel_b4.len() < off {
                    assert forall|m: int| 0 <= m < idx + 1 implies #[trigger] sel@.contains(
                        m as usize,
                    ) by {
                        if m < idx {
                            assert(sel_b4.contains(m as usize));
                            let w = choose|w: int|
                                0 <= w < sel_b4.len() && sel_b4[w] == (m as usize);
                            assert(sel@[w] == m as usize);
                        } else {
                            if already {
                                let w = choose|w: int|
                                    0 <= w < sel_b4.len() && sel_b4[w] == idx;
                                assert(sel@[w] == idx);
                            } else {
                                assert(sel@[sel@.len() - 1] == idx);
                            }
                        }
                    }
                }
            }
            idx = idx + 1;
        }
        proof {
            if sel@.len() < off {
                assert(forall|m: int| 0 <= m < n ==> #[trigger] sel@.contains(m as usize));
                sel@.unique_seq_to_set();
                let range = Set::new(|u: usize| (u as int) < n as int);
                lemma_usize_range_card(n as int);
                assert(range.subset_of(sel@.to_set())) by {
                    assert forall|u: usize| range.contains(u) implies sel@.to_set().contains(
                        u,
                    ) by {
                        assert(sel@.contains((u as int) as usize));
                    }
                }
                vstd::set_lib::lemma_len_subset(range, sel@.to_set());
                assert(false);
            }
            assert(sel@.len() == off);
        }
        let ghost sel_before = sel@;
        rng_shuffle(&mut self.random_generator, &mut sel);
        proof {
            assert forall|i: int| 0 <= i < sel@.len() implies (#[trigger] sel@[i]) < n by {
                assert(sel@.contains(sel@[i]));
                vstd::seq_lib::to_multiset_contains(sel@, sel@[i]);
                vstd::seq_lib::to_multiset_contains(sel_before, sel@[i]);
                assert(sel_before.contains(sel@[i]));
                let w = choose|w: int| 0 <= w < sel_before.len() && sel_before[w] == sel@[i];
            }
        }
        let npairs = off / 2;
        let mut m: usize = 0;
        while m < npairs
            invariant
                self.wf(),
                self.problem == old(self).problem,
                self.population == old(self).population,
                self.population_size == old(self).population_size,
                self.current_generation == old(self).current_generation,
                all_evaluated(self.population@),
                n == self.population@.len(),
                off == self.population_size / 3,
                npairs == off / 2,
                off == npairs * 2,
                0 <= m <= npairs,
                self.function_evaluations == old(self).function_evaluations,
                self.edge_db == old(self).edge_db,
                sel@.len() == off,
                forall|i: int| 0 <= i < sel@.len() ==> (#[trigger] sel@[i]) < n,
                self.child_buffer@.len() == 2 * m,
            decreases npairs - m,
        {
            let p1 = sel[2 * m];
            let p2 = sel[2 * m + 1];
            self.crossover(p1, p2);
            m = m + 1;
        }
        let nb = self.child_buffer.len();
        let mut ci: usize = 0;
        while ci < nb
            invariant
                self.wf(),
                self.problem == old(self).problem,
                self.population == old(self).population,
                self.population_size == old(self).population_size,
                self.current_generation == old(self).current_generation,
                all_evaluated(self.population@),
                n == self.population@.len(),
                n == self.population_size,
                off == self.population_size / 3,
                0 <= ci <= nb,
                nb == self.child_buffer@.len(),
                nb == off,
                self.function_evaluations as int >= old(self).function_evaluations as int
                    + ci as int,
                self.function_evaluations as int <= old(self).function_evaluations as int + 2 * (
                ci as int),
                old(self).function_evaluations as int + 4 * (n as int) <= u64::MAX as int,
                old(self).edge_db@.submap_of(self.edge_db@),
                forall|j: int| 0 <= j < ci ==> tree_ok(
                    #[trigger] self.child_buffer@[j],
                    old(self).problem,
                ),
            decreases nb - ci,
        {
            proof {
                assert(2 * (ci as int) + 2 <= 4 * (n as int));
            }
            let ghost db_pre = self.edge_db@;
            self.mutate(ci);
            proof {
                lemma_submap_trans(old(self).edge_db@, db_pre, self.edge_db@);
            }
            ci = ci + 1;
        }
        let mut d: usize = 0;
        while d < off
            invariant
                self.wf(),
                self.problem == old(self).problem,
                self.population_size == old(self).population_size,
                self.current_generation == old(self).current_generation,
                all_evaluated(self.population@),
                0 <= d <= off,
                self.population@.len() == n - d,
                n == self.population_size,
                off == self.population_size / 3,
                n - off >= 5,
                nb == self.child_buffer@.len(),
                nb == off,
                all_evaluated(self.child_buffer@),
                self.function_evaluations as int >= old(self).function_evaluations as int
                    + off as int,
                self.function_evaluations as int <= old(self).function_evaluations as int + 2 * (
                off as int),
                old(self).function_evaluations as int + 4 * (n as int) <= u64::MAX as int,
                old(self).edge_db@.submap_of(self.edge_db@),
                self.population@.to_multiset().subset_of(old(self).population@.to_multiset()),
                forall|j: int| 0 <= j < nb ==> tree_ok(
                    #[trigger] self.child_buffer@[j],
                    old(self).problem,
                ),
            decreases off - d,
        {
            let t = self.tournament_select(5, true);
            let ghost pop_before = self.population@;
            self.population.remove(t);
            proof {
                vstd::seq_lib::to_multiset_remove(pop_before, t as int);
                assert forall|v: Individual|
                    #[trigger] self.population@.to_multiset().count(v) <= old(
                    self,
                ).population@.to_multiset().count(v) by {
                    assert(self.population@.to_multiset().count(v) <= pop_before.to_multiset()
                        .count(v));
                    assert(pop_before.to_multiset().count(v) <= old(
                        self,
                    ).population@.to_multiset().count(v));
                }
                assert forall|i: int| 0 <= i < self.population@.len() implies ind_ok(
                    #[trigger] self.population@[i],
                    self.k(),
                ) && self.population@[i].minimum_spanning_tree is Some by {
                    if i < t {
                        assert(self.population@[i] == pop_before[i]);
                    } else {
                        assert(self.population@[i] == pop_before[i + 1]);
                    }
                }
            }
            d = d + 1;
        }
        let ghost pop_before_merge = self.population@;
        let ghost buf_before_merge = self.child_buffer@;
        self.population.append(&mut self.child_buffer);
        proof {
            assert forall|i: int| 0 <= i < self.population@.len() implies ind_ok(
                #[trigger] self.population@[i],
                self.k(),
            ) && self.population@[i].minimum_spanning_tree is Some by {
                if i < pop_before_merge.len() {
                    assert(self.population@[i] == pop_before_merge[i]);
                } else {
                    assert(self.population@[i] == buf_before_merge[i - pop_before_merge.len()]);
                }
            }
        }
        proof {
            vstd::seq_lib::lemma_multiset_commutative(pop_before_merge, buf_before_merge);
            assert(self.population@.to_multiset() == pop_before_merge.to_multiset().add(
                buf_before_merge.to_multiset(),
            ));
        }
        let ghost db_pre_build = self.edge_db@;
        self.build_msts();
        proof {
            lemma_submap_trans(old(self).edge_db@, db_pre_build, self.edge_db@);
        }
        self.sort_population();
        self.current_generation = self.current_generation + 1;
        proof {
            assert(self.population@.to_multiset() == pop_before_merge.to_multiset().add(
                buf_before_merge.to_multiset(),
            ));
            assert(population_turnover(
                old(self).population@,
                self.population@,
                old(self).population_size as int / 3,
                old(self).problem,
            ));
        }
    }
}

/// A plain element-wise copy of an edge list.
fn copy_edges(src: &Vec<(usize, usize, i64)>) -> (r: Vec<(usize, usize, i64)>)
    ensures
        r@ == src@,
{
    let mut r: Vec<(usize, usize, i64)> = Vec::new();
    let n = src.len();
    let mut i: usize = 0;
    while i < n
        invariant
            0 <= i <= n,
            n == src@.len(),
            r@ == src@.take(i as int),
        decreases n - i,
    {
        r.push(src[i]);
        proof {
            assert(r@ =~= src@.take(i as int + 1));
        }
        i = i + 1;
    }
    proof {
        assert(src@.take(n as int) =~= src@);
    }
    r
}

impl StOBGA {
    /// Builds the engine and seeds its initial population with three
    /// strategies: t1 individuals holding every triangulation centroid
    /// and no corners; t2 individuals holding a random count of random
    /// in-bounds points and every corner; t3 individuals holding only
    /// a random subset of corners. The remaining slots are filled by
    /// crossing over tournament-selected parents and mutating the
    /// children, stopping exactly at the configured population size.
    #[verifier::rlimit(100)]
    pub fn new(
        rng: rand_pcg::Pcg32,
        problem: SteinerProblem,
        population_size: usize,
        t1: usize,
        t2: usize,
        t3: usize,
    ) -> (r: StOBGA)
        requires
            problem.wf(),
            problem.bounds.min_x < problem.bounds.max_x,
            problem.bounds.min_y < problem.bounds.max_y,
            1 <= t1 + t2 + t3 <= population_size,
            t1 + t2 + t3 < population_size ==> t1 + t2 + t3 >= 5,
            population_size <= 1_000_000_000,
        ensures
            r.wf(),
            r.problem == problem,
            r.population@.len() == population_size,
            r.population_size == population_size,
            r.child_buffer@.len() == 0,
            r.current_generation == 0,
            all_evaluated(r.population@),
            forall|i: int|
                0 <= i < t1 ==> (#[trigger] r.population@[i]).chromosome.steiner_points@.to_set()
                    == problem.centroids@.to_set()
                    && r.population@[i].chromosome.included_corners@.len() == 0,
            forall|i: int|
                t1 <= i < t1 + t2 ==> (#[trigger] r.population@[i]).chromosome.included_corners@
                    == Seq::new(problem.obstacle_corners@.len(), |j: int| j as usize),
            forall|i: int|
                t1 + t2 <= i < t1 + t2 + t3
                    ==> (#[trigger] r.population@[i]).chromosome.steiner_points@.len() == 0,
    {
        let ghost kk = problem.obstacle_corners@.len() as int;
        let mut rng = rng;
        let mut population: Vec<Individual> = Vec::new();
        let mut a: usize = 0;
        while a < t1
            invariant
                0 <= a <= t1,
                problem.wf(),
                population@.len() == a,
                kk == problem.obstacle_corners@.len() as int,
                forall|i: int|
                    0 <= i < population@.len() ==> ind_ok(#[trigger] population@[i], kk)
                        && population@[i].minimum_spanning_tree is None,
                forall|i: int|
                    0 <= i < population@.len()
                        ==> (#[trigger] population@[i]).chromosome.steiner_points@.to_set()
                        == problem.centroids@.to_set()
                        && population@[i].chromosome.included_corners@.len() == 0,
            decreases t1 - a,
        {
            let mut ch = Chromosome::new();
            let ncen = problem.centroids.len();
            let mut ii: usize = 0;
            while ii < ncen
                invariant
                    0 <= ii <= ncen,
                    ncen == problem.centroids@.len(),
                    problem.wf(),
                    ch.wf(kk),
                    ch.included_corners@.len() == 0,
                    forall|q: Point| #![trigger ch.steiner_points@.to_set().contains(q)]
                        ch.steiner_points@.to_set().contains(q) == problem.centroids@.take(
                            ii as int,
                        ).contains(q),
                decreases ncen - ii,
            {
                let ghost ch_before = ch;
                proof {
                    lemma_take_one_more(problem.centroids@, ii as int);
                }
                ch.steiner_insert(problem.centroids[ii]);
                proof {
                    assert forall|q: Point|
                        ch.steiner_points@.to_set().contains(q) == problem.centroids@.take(
                            ii as int + 1,
                        ).contains(q) by {
                        assert(ch_before.steiner_points@.to_set().contains(q)
                            == problem.centroids@.take(ii as int).contains(q));
                        assert(problem.centroids@.take(ii as int + 1).contains(q) <==> (
                        problem.centroids@.take(ii as int).contains(q) || q == problem.centroids@[
                            ii as int]));
                    }
                }
                ii = ii + 1;
            }
            proof {
                assert(problem.centroids@.take(ncen as int) =~= problem.centroids@);
                assert(ch.steiner_points@.to_set() =~= problem.centroids@.to_set()) by {
                    assert forall|q: Point| #[trigger]
                        ch.steiner_points@.to_set().contains(q)
                            == problem.centroids@.to_set().contains(q) by {
                        assert(ch.steiner_points@.to_set().contains(q)
                            == problem.centroids@.take(ncen as int).contains(q));
                    }
                }
            }
            population.push(Individual { chromosome: ch, minimum_spanning_tree: None });
            a = a + 1;
        }
        let k = problem.obstacle_corners.len();
        let nterm = problem.terminals.len();
        let mut b: usize = 0;
        while b < t2
            invariant
                0 <= b <= t2,
                problem.wf(),
                problem.bounds.min_x < problem.bounds.max_x,
                problem.bounds.min_y < problem.bounds.max_y,
                population@.len() == t1 + b,
                k == problem.obstacle_corners@.len(),
                nterm == problem.terminals@.len(),
                nterm >= 1,
                kk == problem.obstacle_corners@.len() as int,
                forall|i: int|
                    0 <= i < population@.len() ==> ind_ok(#[trigger] population@[i], kk)
                        && population@[i].minimum_spanning_tree is None,
                forall|i: int|
                    0 <= i < t1 ==> (#[trigger] population@[i]).chromosome.steiner_points@.to_set()
                        == problem.centroids@.to_set()
                        && population@[i].chromosome.included_corners@.len() == 0,
                forall|i: int|
                    t1 <= i < population@.len()
                        ==> (#[trigger] population@[i]).chromosome.included_corners@ == Seq::new(
                        problem.obstacle_corners@.len(),
                        |j: int| j as usize,
                    ),
            decreases t2 - b,
        {
            let mut ch = Chromosome::new();
            let nk = if nterm < usize::MAX - k {
                nterm + k
            } else {
                usize::MAX
            };
            let cnt = rng_index(&mut rng, nk);
            let mut ri: usize = 0;
            while ri < cnt
                invariant
                    0 <= ri <= cnt,
                    problem.wf(),
                    problem.bounds.min_x < problem.bounds.max_x,
                    problem.bounds.min_y < problem.bounds.max_y,
                    ch.wf(kk),
                decreases cnt - ri,
            {
                let x = rng_range_i64(&mut rng, problem.bounds.min_x, problem.bounds.max_x);
                let y = rng_range_i64(&mut rng, problem.bounds.min_y, problem.bounds.max_y);
                ch.steiner_insert(Point { x, y });
                ri = ri + 1;
            }
            let mut cs: Vec<usize> = Vec::new();
            let mut ci: usize = 0;
            while ci < k
                invariant
                    0 <= ci <= k,
                    cs@.len() == ci,
                    forall|i: int| 0 <= i < cs@.len() ==> (#[trigger] cs@[i]) == i,
                decreases k - ci,
            {
                cs.push(ci);
                ci = ci + 1;
            }
            ch.included_corners = cs;
            proof {
                assert(ch.wf(kk));
                assert(ch.included_corners@ =~= Seq::new(
                    problem.obstacle_corners@.len(),
                    |j: int| j as usize,
                ));
            }
            population.push(Individual { chromosome: ch, minimum_spanning_tree: None });
            b = b + 1;
        }
        let mut c3: usize = 0;
        while c3 < t3
            invariant
                0 <= c3 <= t3,
                problem.wf(),
                population@.len() == t1 + t2 + c3,
                k == problem.obstacle_corners@.len(),
                kk == problem.obstacle_corners@.len() as int,
                forall|i: int|
                    0 <= i < population@.len() ==> ind_ok(#[trigger] population@[i], kk)
                        && population@[i].minimum_spanning_tree is None,
                forall|i: int|
                    0 <= i < t1 ==> (#[trigger] population@[i]).chromosome.steiner_points@.to_set()
                        == problem.centroids@.to_set()
                        && population@[i].chromosome.included_corners@.len() == 0,
                forall|i: int|
                    t1 <= i < t1 + t2
                        ==> (#[trigger] population@[i]).chromosome.included_corners@ == Seq::new(
                        problem.obstacle_corners@.len(),
                        |j: int| j as usize,
                    ),
                forall|i: int|
                    t1 + t2 <= i < population@.len()
                        ==> (#[trigger] population@[i]).chromosome.steiner_points@.len() == 0,
            decreases t3 - c3,
        {
            let mut ch = Chromosome::new();
            let kp1 = if k < usize::MAX {
                k + 1
            } else {
                k
            };
            let amount = rng_index(&mut rng, kp1);
            let draws = rng_sample(&mut rng, k, amount);
            let nd = draws.len();
            let mut di: usize = 0;
            while di < nd
                invariant
                    0 <= di <= nd,
                    nd == draws@.len(),
                    forall|i: int| 0 <= i < draws@.len() ==> (#[trigger] draws@[i]) < k,
                    k == problem.obstacle_corners@.len(),
                    kk == problem.obstacle_corners@.len() as int,
                    ch.wf(kk),
                    ch.steiner_points@.len() == 0,
                decreases nd - di,
            {
                ch.corner_insert(draws[di]);
                di = di + 1;
            }
            population.push(Individual { chromosome: ch, minimum_spanning_tree: None });
            c3 = c3 + 1;
        }
        let mut stobga = StOBGA {
            problem,
            population,
            random_generator: rng,
            current_generation: 0,
            child_buffer: Vec::new(),
            function_evaluations: 0,
            edge_db: HashMap::new(),
            population_size,
        };
        let ghost pop_seeded = stobga.population@;
        stobga.build_msts();
        proof {
            assert forall|i: int| 0 <= i < stobga.population@.len() implies (
            #[trigger] stobga.population@[i]).chromosome == pop_seeded[i].chromosome by {}
        }
        while stobga.population.len() + stobga.child_buffer.len() < population_size
            invariant
                stobga.wf(),
                stobga.problem == problem,
                stobga.population_size == population_size,
                stobga.current_generation == 0,
                stobga.population@.len() == t1 + t2 + t3,
                all_evaluated(stobga.population@),
                all_evaluated(stobga.child_buffer@),
                forall|i: int|
                    0 <= i < t1 ==> (
                    #[trigger] stobga.population@[i]).chromosome.steiner_points@.to_set()
                        == problem.centroids@.to_set()
                        && stobga.population@[i].chromosome.included_corners@.len() == 0,
                forall|i: int|
                    t1 <= i < t1 + t2
                        ==> (#[trigger] stobga.population@[i]).chromosome.included_corners@
                        == Seq::new(problem.obstacle_corners@.len(), |j: int| j as usize),
                forall|i: int|
                    t1 + t2 <= i < t1 + t2 + t3
                        ==> (#[trigger] stobga.population@[i]).chromosome.steiner_points@.len()
                        == 0,
                stobga.population@.len() + stobga.child_buffer@.len() <= population_size,
                t1 + t2 + t3 <= population_size,
                t1 + t2 + t3 < population_size ==> t1 + t2 + t3 >= 5,
                population_size <= 1_000_000_000,
                stobga.function_evaluations as int <= 2 * (population_size as int) + 4 * (
                stobga.population@.len() as int + stobga.child_buffer@.len() as int),
            decreases population_size - (stobga.population@.len() + stobga.child_buffer@.len()),
        {
            let p1 = stobga.tournament_select(5, false);
            let p2 = stobga.tournament_select(5, false);
            stobga.crossover(p1, p2);
            let bl = stobga.child_buffer.len();
            stobga.mutate(bl - 1);
            stobga.mutate(bl - 2);
            proof {
                assert forall|i: int|
                    0 <= i < stobga.child_buffer@.len() implies (#[trigger] stobga.child_buffer@[
                    i]).minimum_spanning_tree is Some by {}
            }
            if stobga.population.len() + stobga.child_buffer.len() > population_size {
                let ghost buf_b4 = stobga.child_buffer@;
                stobga.child_buffer.pop();
                proof {
                    assert(stobga.child_buffer@ =~= buf_b4.drop_last());
                }
            }
        }
        let ghost pop_b4 = stobga.population@;
        let ghost buf_b4 = stobga.child_buffer@;
        stobga.population.append(&mut stobga.child_buffer);
        proof {
            assert forall|i: int| 0 <= i < stobga.population@.len() implies ind_ok(
                #[trigger] stobga.population@[i],
                stobga.k(),
            ) && stobga.population@[i].minimum_spanning_tree is Some by {
                if i < pop_b4.len() {
                    assert(stobga.population@[i] == pop_b4[i]);
                } else {
                    assert(stobga.population@[i] == buf_b4[i - pop_b4.len()]);
                }
            }
        }
        let ghost pop_merged = stobga.population@;
        stobga.build_msts();
        proof {
            assert forall|i: int| 0 <= i < t1 implies (
            #[trigger] stobga.population@[i]).chromosome.steiner_points@.to_set()
                == problem.centroids@.to_set()
                && stobga.population@[i].chromosome.included_corners@.len() == 0 by {
                assert(stobga.population@[i].chromosome == pop_merged[i].chromosome);
                assert(pop_merged[i] == pop_b4[i]);
            }
            assert forall|i: int|
                t1 <= i < t1 + t2 implies (
            #[trigger] stobga.population@[i]).chromosome.included_corners@ == Seq::new(
                problem.obstacle_corners@.len(),
                |j: int| j as usize,
            ) by {
                assert(stobga.population@[i].chromosome == pop_merged[i].chromosome);
                assert(pop_merged[i] == pop_b4[i]);
            }
            assert forall|i: int|
                t1 + t2 <= i < t1 + t2 + t3 implies (
            #[trigger] stobga.population@[i]).chromosome.steiner_points@.len() == 0 by {
                assert(stobga.population@[i].chromosome == pop_merged[i].chromosome);
                assert(pop_merged[i] == pop_b4[i]);
            }
        }
        stobga
    }

    /// One geometric refinement pass on the best individual: every
    /// tree vertex of exact degree three is moved to the Fermat point
    /// of its three neighbours, and the reweighted tree replaces the
    /// original only when it is strictly lighter, so the best fitness
    /// never worsens.
    pub fn finalize(&mut self)
        requires
            old(self).wf(),
            old(self).population@.len() >= 1,
            old(self).function_evaluations as int + old(self).population@.len()
                <= u64::MAX as int,
        ensures
            final(self).wf(),
            final(self).problem == old(self).problem,
            final(self).population_size == old(self).population_size,
            final(self).current_generation == old(self).current_generation,
            final(self).population@.len() == old(self).population@.len(),
            all_evaluated(final(self).population@),
            final(self).population@[0].chromosome == old(self).population@[0].chromosome,
            final(self).child_buffer == old(self).child_buffer,
            old(self).edge_db@.submap_of(final(self).edge_db@),
            forall|i: int|
                1 <= i < old(self).population@.len() && old(
                    self,
                ).population@[i].minimum_spanning_tree is Some ==> final(self).population@[i]
                    == old(self).population@[i],
            old(self).population@[0].minimum_spanning_tree is Some
                ==> (final(self).population@[0] == old(self).population@[0] || fitness_of(
                final(self).population@[0],
            ) < fitness_of(old(self).population@[0])),
            old(self).population@[0].minimum_spanning_tree is Some ==> fitness_of(
                final(self).population@[0],
            ) <= fitness_of(old(self).population@[0]),
    {
        let ghost db0 = self.edge_db@;
        self.build_msts();
        let ghost kk = self.k();
        let mut nodes0: Vec<Point>;
        let mut edges0: Vec<(usize, usize, i64)>;
        let total0: i128;
        {
            let m = self.population[0].minimum_spanning_tree.as_ref().unwrap();
            nodes0 = copy_points(&m.nodes);
            edges0 = copy_edges(&m.edges);
            total0 = m.total_weight;
            proof {
                assert(ind_ok(self.population@[0], kk));
            }
        }
        let nv = nodes0.len();
        let mut new_nodes = copy_points(&nodes0);
        let mut vi: usize = 0;
        while vi < nv
            invariant
                0 <= vi <= nv,
                nv == nodes0@.len(),
                new_nodes@.len() == nv,
                wf_points(nodes0@),
                wf_points(new_nodes@),
                crate::graph::wf_edges(nv as int, edges0@),
            decreases nv - vi,
        {
            let dg = degree_count(&edges0, vi);
            if dg == 3 {
                let mut nb: Vec<Point> = Vec::new();
                let ne0 = edges0.len();
                let mut ei: usize = 0;
                while ei < ne0
                    invariant
                        0 <= ei <= ne0,
                        ne0 == edges0@.len(),
                        nv == nodes0@.len(),
                        wf_points(nodes0@),
                        crate::graph::wf_edges(nv as int, edges0@),
                        0 <= vi < nv,
                        forall|i: int| 0 <= i < nb@.len() ==> wf_point(#[trigger] nb@[i]),
                    decreases ne0 - ei,
                {
                    let e = edges0[ei];
                    if e.0 == vi {
                        nb.push(nodes0[e.1]);
                    } else if e.1 == vi {
                        nb.push(nodes0[e.0]);
                    }
                    ei = ei + 1;
                }
                if nb.len() == 3 {
                    let f = fermat_point(nb[0], nb[1], nb[2], 0);
                    let ghost nn_b4 = new_nodes@;
                    new_nodes.set(vi, f);
                    proof {
                        assert forall|i: int| 0 <= i < new_nodes@.len() implies wf_point(
                            #[trigger] new_nodes@[i],
                        ) by {
                            if i != vi {
                                assert(new_nodes@[i] == nn_b4[i]);
                            }
                        }
                    }
                }
            }
            vi = vi + 1;
        }
        let ne = edges0.len();
        let mut new_edges: Vec<(usize, usize, i64)> = Vec::new();
        let mut total: i128 = 0;
        let mut ei2: usize = 0;
        while ei2 < ne
            invariant
                0 <= ei2 <= ne,
                ne == edges0@.len(),
                nv == nodes0@.len(),
                new_nodes@.len() == nv,
                wf_points(new_nodes@),
                crate::graph::wf_edges(nv as int, edges0@),
                self.wf(),
                self.problem == old(self).problem,
                self.population_size == old(self).population_size,
                self.current_generation == old(self).current_generation,
                self.population@.len() == old(self).population@.len(),
                self.population@.len() >= 1,
                all_evaluated(self.population@),
                self.population@[0].chromosome == old(self).population@[0].chromosome,
                self.child_buffer == old(self).child_buffer,
                db0 == old(self).edge_db@,
                old(self).edge_db@.submap_of(self.edge_db@),
                forall|i: int|
                    1 <= i < old(self).population@.len() && old(
                        self,
                    ).population@[i].minimum_spanning_tree is Some ==> self.population@[i] == old(
                        self,
                    ).population@[i],
                old(self).population@[0].minimum_spanning_tree is Some ==> self.population@[0]
                    == old(self).population@[0],
                self.population@[0].minimum_spanning_tree is Some,
                total0 as int == fitness_of(self.population@[0]),
                new_edges@.len() == ei2,
                crate::graph::wf_edges(nv as int, new_edges@),
                forall|i: int|
                    0 <= i < new_edges@.len() ==> ((#[trigger] new_edges@[i]).0 == edges0@[i].0
                        && new_edges@[i].1 == edges0@[i].1),
                total as int == edge_weight_sum(new_edges@, 0),
                -(ei2 as int) * (INF_COST as int) <= total as int <= (ei2 as int) * (
                INF_COST as int),
            decreases ne - ei2,
        {
            let e = edges0[ei2];
            let ghost db_pre = self.edge_db@;
            let w = self.compute_distance(new_nodes[e.0], new_nodes[e.1]);
            proof {
                lemma_submap_trans(old(self).edge_db@, db_pre, self.edge_db@);
                crate::graph::lemma_ews_push(new_edges@, (e.0, e.1, w), 0);
                assert((ei2 as int + 1) * (INF_COST as int) == (ei2 as int) * (INF_COST as int)
                    + INF_COST as int) by (nonlinear_arith);
                assert((ei2 as int) * (INF_COST as int) < i128::MAX - INF_COST as int)
                    by (nonlinear_arith)
                    requires
                        0 <= ei2 as int,
                        (ei2 as int) < (ne as int),
                        (ne as int) <= (usize::MAX as int),
                ;
            }
            new_edges.push((e.0, e.1, w));
            total = total + (w as i128);
            ei2 = ei2 + 1;
        }
        if total < total0 {
            proof {
                assert(edges0@.len() < nodes0@.len() || (nodes0@.len() == 0 && edges0@.len()
                    == 0));
            }
            let newm = MinimumSpanningTree {
                nodes: new_nodes,
                edges: new_edges,
                total_weight: total,
            };
            let ghost pop_b4 = self.population@;
            let mut tmp = self.population.remove(0);
            tmp.minimum_spanning_tree = Some(newm);
            self.population.insert(0, tmp);
            proof {
                assert(self.population@ =~= pop_b4.update(0, self.population@[0]));
            }
        }
    }
}

/// The generational loop's control state: running, or performing the
/// one last generation after stagnation was detected.
pub enum LoopState {
    Running,
    LastGeneration,
}

/// Whether a new best fitness improves on the recorded one by more
/// than the relative factor given in parts per million.
pub open spec fn spec_improves(previous: int, new_weight: int, factor_ppm: int) -> bool {
    (previous - new_weight) * 1_000_000 > previous * factor_ppm
}

/// Relative-improvement test used by stagnation detection.
pub fn is_improvement_by_factor(previous: i128, new_weight: i128, factor_ppm: i128) -> (r: bool)
    requires
        -0x10000000000000000000000000 <= previous <= 0x10000000000000000000000000,
        -0x10000000000000000000000000 <= new_weight <= 0x10000000000000000000000000,
        0 <= factor_ppm <= 1_000_000,
    ensures
        r == spec_improves(previous as int, new_weight as int, factor_ppm as int),
{
    proof {
        assert(-0x4000000000000000000000000000000 <= (previous - new_weight) * 1_000_000
            <= 0x4000000000000000000000000000000) by (nonlinear_arith)
            requires
                -0x20000000000000000000000000 <= previous - new_weight
                    <= 0x20000000000000000000000000,
        ;
        assert(-0x4000000000000000000000000000000 <= previous * factor_ppm
            <= 0x4000000000000000000000000000000) by (nonlinear_arith)
            requires
                -0x10000000000000000000000000 <= previous <= 0x10000000000000000000000000,
                0 <= factor_ppm <= 1_000_000,
        ;
    }
    (previous - new_weight) * 1_000_000 > previous * factor_ppm
}

/// Stagnation-driven convergence: a generation's best fitness that
/// improves on the recorded best by more than 0.01 percent resets the
/// stagnation streak; once the streak reaches the configured duration
/// the state moves to the final generation.
pub struct Convergence {
    pub state: LoopState,
    pub streak_length: usize,
    pub previous_best_weight: i128,
    pub recession_duration: usize,
}

impl Convergence {
    /// Fresh tracking state, with the recorded best far above any real
    /// fitness.
    pub fn new(recession_duration: usize) -> (r: Convergence)
        ensures
            r.state is Running,
            r.streak_length == 0,
            r.previous_best_weight == 0x10000000000000000000000000i128,
            r.recession_duration == recession_duration,
    {
        Convergence {
            state: LoopState::Running,
            streak_length: 0,
            previous_best_weight: 0x10000000000000000000000000,
            recession_duration,
        }
    }

    /// Feeds one completed generation's best fitness into the state
    /// machine. The result says whether this generation is a
    /// milestone: an improvement, or the final generation.
    pub fn update(&mut self, best_weight: i128) -> (milestone: bool)
        requires
            -0x10000000000000000000000000 <= best_weight <= 0x10000000000000000000000000,
            -0x10000000000000000000000000 <= old(self).previous_best_weight
                <= 0x10000000000000000000000000,
            old(self).streak_length < usize::MAX,
        ensures
            milestone == (spec_improves(
                old(self).previous_best_weight as int,
                best_weight as int,
                100,
            ) || old(self).state is LastGeneration),
            milestone ==> final(self).previous_best_weight == best_weight
                && final(self).streak_length == 0,
            !milestone ==> final(self).previous_best_weight == old(self).previous_best_weight
                && final(self).streak_length == old(self).streak_length + 1,
            final(self).state is LastGeneration <==> (old(self).state is LastGeneration || (
            !milestone && old(self).streak_length + 1 == old(self).recession_duration)),
            final(self).recession_duration == old(self).recession_duration,
    {
        let was_last = match self.state {
            LoopState::LastGeneration => true,
            LoopState::Running => false,
        };
        let improved = is_improvement_by_factor(self.previous_best_weight, best_weight, 100);
        let milestone = improved || was_last;
        if milestone {
            self.previous_best_weight = best_weight;
            self.streak_length = 0;
        } else {
            self.streak_length = self.streak_length + 1;
        }
        if !was_last && !milestone && self.streak_length == self.recession_duration {
            self.state = LoopState::LastGeneration;
        }
        milestone
    }
}

/// A built tree is sound for its owner: it covers exactly the owner's
/// vertex list, has one edge fewer than there are vertices, connects
/// them all, carries no self-loop and no repeated endpoint pair, lists
/// its edges cheapest first, and weighs every edge with the
/// obstacle-aware distance of its endpoints.
pub open spec fn tree_ok(ind: Individual, problem: SteinerProblem) -> bool {
    &&& ind.minimum_spanning_tree is Some
    &&& {
        let m = ind.minimum_spanning_tree->Some_0;
        &&& m.wf()
        &&& wf_points(m.nodes@)
        &&& m.nodes@ == vertex_seq(ind.chromosome, problem)
        &&& m.edges@.len() == m.nodes@.len() - 1
        &&& connects(m.nodes@.len() as int, m.edges@)
        &&& forall|k: int|
            0 <= k < m.edges@.len() ==> (#[trigger] m.edges@[k]).2 as int == spec_distance(
                m.nodes@[m.edges@[k].0 as int],
                m.nodes@[m.edges@[k].1 as int],
                problem.obstacles@,
            )
        &&& forall|k: int| 0 <= k < m.edges@.len() ==> (#[trigger] m.edges@[k]).0 != m.edges@[k].1
        &&& forall|k1: int, k2: int|
            0 <= k1 < k2 < m.edges@.len() ==> !((#[trigger] m.edges@[k1]).0 == (
            #[trigger] m.edges@[k2]).0 && m.edges@[k1].1 == m.edges@[k2].1)
        &&& forall|k: int|
            0 <= k < m.edges@.len() - 1 ==> (#[trigger] m.edges@[k]).2 <= m.edges@[k + 1].2
    }
}

/// What a finished tree build guarantees: the chromosome is unchanged
/// and the cached tree is sound for it.
pub open spec fn built_from(after: Individual, before: Individual, problem: SteinerProblem) -> bool {
    &&& after.chromosome == before.chromosome
    &&& tree_ok(after, problem)
}

} // verus!
