//! The problem model: weighted polygonal obstacles, the Steiner
//! problem instance, and the obstacle-aware distance between two
//! points, in which length traversed inside a passable obstacle is
//! multiplied by the obstacle's weight and any crossing of an
//! impassable obstacle makes the whole segment cost `INF_COST`.

use vstd::prelude::*;
use crate::geom::{
    Point, Bounds, wf_point, wf_poly, wf_bounds, spec_euclid, euclidean_distance,
    lemma_euclid_bounds, spec_point_in_polygon, point_in_polygon, centroid, overlap, spec_overlap,
};
use crate::isect::{
    spec_intersection_length, intersection_length, lemma_intersection_length_bounds, seg_bounds,
};
use crate::{
    X_MAX, SCALE, INF_COST, W_MAX, MAX_OBSTACLES, MAX_TERMINALS, EUCLID_MAX, STEP_MAX,
    UNBLOCKED_MAX,
};

verus! {

/// A weighted polygonal obstacle. A weight of `INF_COST` marks the
/// obstacle impassable; any other weight is a fixed-point multiplier
/// (`SCALE` meaning one) applied to length traversed inside.
pub struct Obstacle {
    pub weight: i64,
    pub bounds: Bounds,
    pub points: Vec<Point>,
}

pub open spec fn empty_bounds() -> Bounds {
    Bounds { min_x: X_MAX, min_y: X_MAX, max_x: (-262144) as i64, max_y: (-262144) as i64 }
}

pub open spec fn extend_bounds(b: Bounds, p: Point) -> Bounds {
    Bounds {
        min_x: if p.x < b.min_x { p.x } else { b.min_x },
        min_y: if p.y < b.min_y { p.y } else { b.min_y },
        max_x: if p.x > b.max_x { p.x } else { b.max_x },
        max_y: if p.y > b.max_y { p.y } else { b.max_y },
    }
}

/// The bounding box of a point sequence, folded from `acc`.
pub open spec fn bounds_from(ps: Seq<Point>, i: int, acc: Bounds) -> Bounds
    decreases ps.len() - i,
{
    if i < 0 || i >= ps.len() {
        acc
    } else {
        bounds_from(ps, i + 1, extend_bounds(acc, ps[i]))
    }
}

pub open spec fn spec_poly_bounds(ps: Seq<Point>) -> Bounds {
    bounds_from(ps, 0, empty_bounds())
}

/// Folding well-formed points into a well-formed box keeps it
/// well-formed.
pub proof fn lemma_bounds_from_wf(ps: Seq<Point>, i: int, acc: Bounds)
    requires
        wf_bounds(acc),
        wf_points(ps),
        0 <= i <= ps.len(),
    ensures
        wf_bounds(bounds_from(ps, i, acc)),
    decreases ps.len() - i,
{
    if i < ps.len() {
        lemma_bounds_from_wf(ps, i + 1, extend_bounds(acc, ps[i]));
    }
}

pub open spec fn wf_obstacle(o: Obstacle) -> bool {
    &&& wf_poly(o.points@)
    &&& (o.weight == INF_COST || 0 <= o.weight <= W_MAX)
    &&& o.bounds == spec_poly_bounds(o.points@)
}

impl Obstacle {
    /// A fresh obstacle; its bounding box is not yet computed.
    pub fn new(weight: i64, points: Vec<Point>) -> (r: Obstacle)
        ensures
            r.weight == weight,
            r.points == points,
            r.bounds == empty_bounds(),
    {
        Obstacle { weight, points, bounds: Bounds {
            min_x: X_MAX,
            min_y: X_MAX,
            max_x: -X_MAX,
            max_y: -X_MAX,
        } }
    }

    /// Fills in the bounding box of the obstacle's polygon.
    pub fn compute_bounds(self) -> (r: Obstacle)
        ensures
            r.weight == self.weight,
            r.points == self.points,
            r.bounds == spec_poly_bounds(self.points@),
    {
        let mut acc = Bounds { min_x: X_MAX, min_y: X_MAX, max_x: (-262144) as i64, max_y: (-262144) as i64 };
        let n = self.points.len();
        let mut i: usize = 0;
        while i < n
            invariant
                0 <= i <= n,
                n == self.points@.len(),
                bounds_from(self.points@, i as int, acc) == spec_poly_bounds(self.points@),
            decreases n - i,
        {
            let p = self.points[i];
            acc = Bounds {
                min_x: if p.x < acc.min_x { p.x } else { acc.min_x },
                min_y: if p.y < acc.min_y { p.y } else { acc.min_y },
                max_x: if p.x > acc.max_x { p.x } else { acc.max_x },
                max_y: if p.y > acc.max_y { p.y } else { acc.max_y },
            };
            i = i + 1;
        }
        Obstacle { weight: self.weight, points: self.points, bounds: acc }
    }
}

/// The corners of all obstacles from index `i` on, flattened in
/// obstacle order then vertex order.
pub open spec fn corners_of(obs: Seq<Obstacle>, i: int) -> Seq<Point>
    decreases obs.len() - i,
{
    if i < 0 || i >= obs.len() {
        Seq::empty()
    } else {
        obs[i].points@ + corners_of(obs, i + 1)
    }
}

/// The centroid of triangle `tr` over the vertex list `vs`, if the
/// indices are in range.
pub open spec fn tri_centroid(vs: Seq<Point>, tr: (usize, usize, usize)) -> Option<Point> {
    if tr.0 < vs.len() && tr.1 < vs.len() && tr.2 < vs.len() {
        let a = vs[tr.0 as int];
        let b = vs[tr.1 as int];
        let c = vs[tr.2 as int];
        Some(
            Point {
                x: ((a.x + b.x + c.x) as int / 3) as i64,
                y: ((a.y + b.y + c.y) as int / 3) as i64,
            },
        )
    } else {
        None
    }
}

/// The centroids of the triangles from index `i` on; triangles with an
/// out-of-range index are dropped.
pub open spec fn centroids_of(vs: Seq<Point>, trs: Seq<(usize, usize, usize)>, i: int) -> Seq<
    Point,
>
    decreases trs.len() - i,
{
    if i < 0 || i >= trs.len() {
        Seq::empty()
    } else {
        let rest = centroids_of(vs, trs, i + 1);
        match tri_centroid(vs, trs[i]) {
            Some(c) => seq![c] + rest,
            None => rest,
        }
    }
}

/// Sum of Euclidean distances from terminal `i` to terminals `j` on.
pub open spec fn row_dist_sum(ts: Seq<Point>, i: int, j: int) -> int
    decreases ts.len() - j,
{
    if j < 0 || j >= ts.len() || i < 0 || i >= ts.len() {
        0
    } else {
        spec_euclid(ts[i], ts[j]) + row_dist_sum(ts, i, j + 1)
    }
}

/// Sum of Euclidean distances over all ordered terminal pairs from row
/// `i` on.
pub open spec fn all_dist_sum(ts: Seq<Point>, i: int) -> int
    decreases ts.len() - i,
{
    if i < 0 || i >= ts.len() {
        0
    } else {
        row_dist_sum(ts, i, 0) + all_dist_sum(ts, i + 1)
    }
}

/// A Steiner problem instance: terminals to connect, obstacles to
/// avoid or pay for, the obstacles' corners flattened (corner genes are
/// indices into this list, so its order is load-bearing), candidate
/// junction points seeded from a triangulation, the overall bounding
/// box, and the mean pairwise terminal distance.
pub struct SteinerProblem {
    pub terminals: Vec<Point>,
    pub obstacles: Vec<Obstacle>,
    pub obstacle_corners: Vec<Point>,
    pub centroids: Vec<Point>,
    pub bounds: Bounds,
    pub average_terminal_distance: i64,
}

pub open spec fn wf_points(ps: Seq<Point>) -> bool {
    forall|i: int| 0 <= i < ps.len() ==> wf_point(#[trigger] ps[i])
}

pub open spec fn wf_obstacles(obs: Seq<Obstacle>) -> bool {
    forall|i: int| 0 <= i < obs.len() ==> wf_obstacle(#[trigger] obs[i])
}

impl SteinerProblem {
    pub open spec fn wf(&self) -> bool {
        &&& 1 <= self.terminals@.len() <= MAX_TERMINALS
        &&& wf_points(self.terminals@)
        &&& self.obstacles@.len() <= MAX_OBSTACLES
        &&& wf_obstacles(self.obstacles@)
        &&& self.obstacle_corners@ == corners_of(self.obstacles@, 0)
        &&& wf_points(self.obstacle_corners@)
        &&& wf_points(self.centroids@)
        &&& wf_bounds(self.bounds)
        &&& 0 <= self.average_terminal_distance <= 2 * EUCLID_MAX
    }

    /// Builds a problem instance: flattens the obstacle corners in
    /// obstacle order then vertex order, derives candidate junction
    /// points as the centroids of the given triangles over the vertex
    /// list terminals-then-corners, computes the overall bounding box,
    /// and the mean Euclidean distance over ordered terminal pairs.
    pub fn new(
        terminals: Vec<Point>,
        obstacles: Vec<Obstacle>,
        triangles: Vec<(usize, usize, usize)>,
    ) -> (r: SteinerProblem)
        requires
            1 <= terminals@.len() <= MAX_TERMINALS,
            wf_points(terminals@),
            obstacles@.len() <= MAX_OBSTACLES,
            wf_obstacles(obstacles@),
        ensures
            r.wf(),
            r.terminals == terminals,
            r.obstacles == obstacles,
            r.obstacle_corners@ == corners_of(obstacles@, 0),
            r.centroids@ == centroids_of(
                terminals@ + corners_of(obstacles@, 0),
                triangles@,
                0,
            ),
            r.bounds == bounds_from(terminals@ + corners_of(obstacles@, 0), 0, empty_bounds()),
            r.average_terminal_distance as int == (if terminals@.len() >= 2 {
                all_dist_sum(terminals@, 0) / (terminals@.len() * (terminals@.len() - 1))
            } else {
                0
            }),
    {
        let mut corners: Vec<Point> = Vec::new();
        let nobs = obstacles.len();
        let mut i: usize = 0;
        proof {
            assert(corners@ + corners_of(obstacles@, 0) =~= corners_of(obstacles@, 0));
        }
        while i < nobs
            invariant
                0 <= i <= nobs,
                nobs == obstacles@.len(),
                wf_obstacles(obstacles@),
                wf_points(corners@),
                corners@ + corners_of(obstacles@, i as int) == corners_of(obstacles@, 0),
            decreases nobs - i,
        {
            let ghost corners_start = corners@;
            let npts = obstacles[i].points.len();
            let mut j: usize = 0;
            while j < npts
                invariant
                    0 <= j <= npts,
                    0 <= i < nobs,
                    nobs == obstacles@.len(),
                    npts == obstacles@[i as int].points@.len(),
                    wf_obstacles(obstacles@),
                    wf_points(corners@),
                    corners@ == corners_start + obstacles@[i as int].points@.take(j as int),
                decreases npts - j,
            {
                corners.push(obstacles[i].points[j]);
                proof {
                    assert(corners@ =~= corners_start + obstacles@[i as int].points@.take(
                        j as int + 1,
                    ));
                }
                j = j + 1;
            }
            proof {
                assert(obstacles@[i as int].points@.take(npts as int) =~= obstacles@[
                    i as int].points@);
                assert(corners_of(obstacles@, i as int) == obstacles@[i as int].points@
                    + corners_of(obstacles@, i as int + 1));
                assert(corners@ + corners_of(obstacles@, i as int + 1) =~= corners_start + (
                obstacles@[i as int].points@ + corners_of(obstacles@, i as int + 1)));
            }
            i = i + 1;
        }
        proof {
            assert(corners_of(obstacles@, nobs as int) =~= Seq::<Point>::empty());
            assert(corners@ + Seq::<Point>::empty() =~= corners@);
        }
        let mut vertices: Vec<Point> = Vec::new();
        let mut k: usize = 0;
        while k < terminals.len()
            invariant
                0 <= k <= terminals@.len(),
                vertices@ == terminals@.take(k as int),
            decreases terminals@.len() - k,
        {
            vertices.push(terminals[k]);
            proof {
                assert(vertices@ =~= terminals@.take(k as int + 1));
            }
            k = k + 1;
        }
        let mut k2: usize = 0;
        while k2 < corners.len()
            invariant
                0 <= k2 <= corners@.len(),
                vertices@ == terminals@.take(terminals@.len() as int) + corners@.take(k2 as int),
            decreases corners@.len() - k2,
        {
            vertices.push(corners[k2]);
            proof {
                assert(vertices@ =~= terminals@.take(terminals@.len() as int) + corners@.take(
                    k2 as int + 1,
                ));
            }
            k2 = k2 + 1;
        }
        proof {
            assert(vertices@ =~= terminals@ + corners@);
            assert(wf_points(vertices@));
        }
        let mut cents: Vec<Point> = Vec::new();
        let ntr = triangles.len();
        let mut t: usize = 0;
        proof {
            assert(cents@ + centroids_of(vertices@, triangles@, 0) =~= centroids_of(
                vertices@,
                triangles@,
                0,
            ));
        }
        while t < ntr
            invariant
                0 <= t <= ntr,
                ntr == triangles@.len(),
                wf_points(vertices@),
                wf_points(cents@),
                cents@ + centroids_of(vertices@, triangles@, t as int) == centroids_of(
                    vertices@,
                    triangles@,
                    0,
                ),
            decreases ntr - t,
        {
            let tr = triangles[t];
            let ghost cents_before = cents@;
            let nv = vertices.len();
            if tr.0 < nv && tr.1 < nv && tr.2 < nv {
                let c = centroid(vertices[tr.0], vertices[tr.1], vertices[tr.2]);
                cents.push(c);
                proof {
                    assert(tri_centroid(vertices@, triangles@[t as int]) == Some(c));
                    assert(centroids_of(vertices@, triangles@, t as int) == seq![c]
                        + centroids_of(vertices@, triangles@, t as int + 1));
                    assert(cents@ + centroids_of(vertices@, triangles@, t as int + 1)
                        =~= cents_before + (seq![c] + centroids_of(
                        vertices@,
                        triangles@,
                        t as int + 1,
                    )));
                }
            } else {
                proof {
                    assert(tri_centroid(vertices@, triangles@[t as int]) is None);
                    assert(centroids_of(vertices@, triangles@, t as int) == centroids_of(
                        vertices@,
                        triangles@,
                        t as int + 1,
                    ));
                }
            }
            t = t + 1;
        }
        proof {
            assert(centroids_of(vertices@, triangles@, ntr as int) =~= Seq::<Point>::empty());
            assert(cents@ + Seq::<Point>::empty() =~= cents@);
        }
        let mut bacc = Bounds {
            min_x: X_MAX,
            min_y: X_MAX,
            max_x: (-262144) as i64,
            max_y: (-262144) as i64,
        };
        let nv2 = vertices.len();
        let mut b: usize = 0;
        while b < nv2
            invariant
                0 <= b <= nv2,
                nv2 == vertices@.len(),
                bounds_from(vertices@, b as int, bacc) == bounds_from(
                    vertices@,
                    0,
                    empty_bounds(),
                ),
            decreases nv2 - b,
        {
            let p = vertices[b];
            bacc = Bounds {
                min_x: if p.x < bacc.min_x { p.x } else { bacc.min_x },
                min_y: if p.y < bacc.min_y { p.y } else { bacc.min_y },
                max_x: if p.x > bacc.max_x { p.x } else { bacc.max_x },
                max_y: if p.y > bacc.max_y { p.y } else { bacc.max_y },
            };
            b = b + 1;
        }
        let n = terminals.len();
        let mut acc: i64 = 0;
        let mut di: usize = 0;
        while di < n
            invariant
                0 <= di <= n,
                n == terminals@.len(),
                n <= MAX_TERMINALS,
                wf_points(terminals@),
                0 <= acc,
                acc as int <= (di as int) * (n as int) * (EUCLID_MAX as int),
                acc as int + all_dist_sum(terminals@, di as int) == all_dist_sum(terminals@, 0),
            decreases n - di,
        {
            let mut dj: usize = 0;
            while dj < n
                invariant
                    0 <= dj <= n,
                    0 <= di < n,
                    n == terminals@.len(),
                    n <= MAX_TERMINALS,
                    wf_points(terminals@),
                    0 <= acc,
                    acc as int <= ((di as int) * (n as int) + dj as int) * (EUCLID_MAX as int),
                    acc as int + row_dist_sum(terminals@, di as int, dj as int) + all_dist_sum(
                        terminals@,
                        di as int + 1,
                    ) == all_dist_sum(terminals@, 0),
                decreases n - dj,
            {
                let d = euclidean_distance(terminals[di], terminals[dj]);
                proof {
                    assert(acc as int + d as int <= ((di as int) * (n as int) + dj as int + 1) * (
                    EUCLID_MAX as int) && ((di as int) * (n as int) + dj as int + 1) * (EUCLID_MAX
                        as int) <= (MAX_TERMINALS as int) * (MAX_TERMINALS as int) * (EUCLID_MAX
                        as int)) by (nonlinear_arith)
                        requires
                            acc as int <= ((di as int) * (n as int) + dj as int) * (EUCLID_MAX
                                as int),
                            0 <= d as int,
                            (d as int) < (EUCLID_MAX as int),
                            0 <= di as int,
                            (di as int) < (n as int),
                            0 <= dj as int,
                            (dj as int) < (n as int),
                            (n as int) <= (MAX_TERMINALS as int),
                            0 <= acc,
                    ;
                }
                acc = acc + d;
                dj = dj + 1;
            }
            proof {
                assert(row_dist_sum(terminals@, di as int, n as int) == 0);
                assert(((di as int) * (n as int) + n as int) * (EUCLID_MAX as int) == ((di as int
                    + 1) * (n as int)) * (EUCLID_MAX as int)) by (nonlinear_arith);
            }
            di = di + 1;
        }
        let average: i64 = if n >= 2 {
            proof {
                assert((n as int) * ((n as int) - 1) <= (MAX_TERMINALS as int) * (MAX_TERMINALS
                    as int) && (n as int) * ((n as int) - 1) >= 2) by (nonlinear_arith)
                    requires
                        2 <= n as int,
                        (n as int) <= (MAX_TERMINALS as int),
                ;
                assert(acc as int <= ((n as int) * ((n as int) - 1)) * (2 * EUCLID_MAX as int))
                    by (nonlinear_arith)
                    requires
                        acc as int <= (n as int) * (n as int) * (EUCLID_MAX as int),
                        2 <= n as int,
                ;
                vstd::arithmetic::div_mod::lemma_div_pos_is_pos(
                    acc as int,
                    (n as int) * ((n as int) - 1),
                );
                vstd::arithmetic::div_mod::lemma_div_is_ordered(
                    acc as int,
                    ((n as int) * ((n as int) - 1)) * (2 * EUCLID_MAX as int),
                    (n as int) * ((n as int) - 1),
                );
                vstd::arithmetic::div_mod::lemma_div_multiples_vanish(
                    2 * EUCLID_MAX as int,
                    (n as int) * ((n as int) - 1),
                );
            }
            let denom: u64 = (n as u64) * (n as u64 - 1);
            let avg: i64 = ((acc as u64) / denom) as i64;
            avg
        } else {
            0
        };
        proof {
            lemma_bounds_from_wf(vertices@, 0, empty_bounds());
        }
        SteinerProblem {
            terminals,
            obstacles,
            obstacle_corners: corners,
            centroids: cents,
            bounds: bacc,
            average_terminal_distance: average,
        }
    }
}

/// One obstacle's effect on a segment's running length: crossing an
/// impassable obstacle makes the whole cost `INF_COST` at once, and a
/// passable obstacle replaces the unweighted interior traversal with
/// the weighted one.
pub open spec fn dist_fold(p: Point, q: Point, obs: Seq<Obstacle>, i: int, acc: int) -> int
    decreases obs.len() - i,
{
    if i < 0 || i >= obs.len() {
        acc
    } else {
        let il = spec_intersection_length(p, q, obs[i].points@, obs[i].bounds);
        if il > 0 && obs[i].weight == INF_COST {
            INF_COST as int
        } else if il > 0 {
            dist_fold(p, q, obs, i + 1, acc - il + (il * obs[i].weight) / (SCALE as int))
        } else {
            dist_fold(p, q, obs, i + 1, acc)
        }
    }
}

/// Whether any obstacle from index `i` on is impassable and crossed
/// with positive interior length.
pub open spec fn spec_blocked_from(p: Point, q: Point, obs: Seq<Obstacle>, i: int) -> bool
    decreases obs.len() - i,
{
    if i < 0 || i >= obs.len() {
        false
    } else {
        (spec_intersection_length(p, q, obs[i].points@, obs[i].bounds) > 0 && obs[i].weight
            == INF_COST) || spec_blocked_from(p, q, obs, i + 1)
    }
}

pub open spec fn lex_leq(p: Point, q: Point) -> bool {
    p.x < q.x || (p.x == q.x && p.y <= q.y)
}

/// The obstacle-aware distance, computed over the canonical
/// orientation of the pair so that it is symmetric by construction.
pub open spec fn spec_distance(p: Point, q: Point, obs: Seq<Obstacle>) -> int {
    if lex_leq(p, q) {
        dist_fold(p, q, obs, 0, spec_euclid(p, q))
    } else {
        dist_fold(q, p, obs, 0, spec_euclid(q, p))
    }
}

/// Whether the canonical orientation of the pair crosses an impassable
/// obstacle.
pub open spec fn spec_blocked(p: Point, q: Point, obs: Seq<Obstacle>) -> bool {
    if lex_leq(p, q) {
        spec_blocked_from(p, q, obs, 0)
    } else {
        spec_blocked_from(q, p, obs, 0)
    }
}

/// A blocked segment's cost is the sentinel, whatever the running
/// length was.
proof fn lemma_dist_fold_blocked(p: Point, q: Point, obs: Seq<Obstacle>, i: int, acc: int)
    requires
        spec_blocked_from(p, q, obs, i),
    ensures
        dist_fold(p, q, obs, i, acc) == INF_COST as int,
    decreases obs.len() - i,
{
    let il = spec_intersection_length(p, q, obs[i].points@, obs[i].bounds);
    if il > 0 && obs[i].weight == INF_COST {
    } else if il > 0 {
        lemma_dist_fold_blocked(p, q, obs, i + 1, acc - il + (il * obs[i].weight) / (SCALE as int));
    } else {
        lemma_dist_fold_blocked(p, q, obs, i + 1, acc);
    }
}

/// An unblocked segment's cost stays within fixed bounds and in
/// particular below the sentinel.
proof fn lemma_dist_fold_unblocked(p: Point, q: Point, obs: Seq<Obstacle>, i: int, acc: int)
    requires
        wf_point(p),
        wf_point(q),
        wf_obstacles(obs),
        obs.len() <= MAX_OBSTACLES,
        0 <= i <= obs.len(),
        !spec_blocked_from(p, q, obs, i),
    ensures
        dist_fold(p, q, obs, i, acc) <= acc + (obs.len() - i) * (STEP_MAX as int),
        dist_fold(p, q, obs, i, acc) >= acc - (obs.len() - i) * (EUCLID_MAX as int),
    decreases obs.len() - i,
{
    if i < obs.len() {
        let il = spec_intersection_length(p, q, obs[i].points@, obs[i].bounds);
        lemma_intersection_length_bounds(p, q, obs[i].points@, obs[i].bounds);
        lemma_euclid_bounds(p, q);
        if il > 0 {
            assert(obs[i].weight != INF_COST);
            assert(0 <= obs[i].weight <= W_MAX);
            let step = (il * obs[i].weight) / (SCALE as int);
            assert(0 <= il * obs[i].weight <= (EUCLID_MAX as int) * (W_MAX as int))
                by (nonlinear_arith)
                requires
                    0 <= il < EUCLID_MAX,
                    0 <= obs[i].weight <= W_MAX,
            ;
            vstd::arithmetic::div_mod::lemma_div_pos_is_pos(il * obs[i].weight, SCALE as int);
            vstd::arithmetic::div_mod::lemma_div_is_ordered(
                il * obs[i].weight,
                (EUCLID_MAX as int) * (W_MAX as int),
                SCALE as int,
            );
            assert((EUCLID_MAX as int) * (W_MAX as int) / (SCALE as int) <= STEP_MAX as int);
            let acc2 = acc - il + step;
            lemma_dist_fold_unblocked(p, q, obs, i + 1, acc2);
            assert((obs.len() - i - 1) * (STEP_MAX as int) + (STEP_MAX as int) == (obs.len() - i)
                * (STEP_MAX as int)) by (nonlinear_arith);
            assert((obs.len() - i - 1) * (EUCLID_MAX as int) + (EUCLID_MAX as int) == (obs.len()
                - i) * (EUCLID_MAX as int)) by (nonlinear_arith);
        } else {
            lemma_dist_fold_unblocked(p, q, obs, i + 1, acc);
            assert((obs.len() - i - 1) * (STEP_MAX as int) <= (obs.len() - i) * (STEP_MAX as int))
                by (nonlinear_arith)
                requires
                    i < obs.len(),
            ;
            assert((obs.len() - i - 1) * (EUCLID_MAX as int) <= (obs.len() - i) * (EUCLID_MAX
                as int)) by (nonlinear_arith)
                requires
                    i < obs.len(),
            ;
        }
    }
}

/// A segment that crosses no obstacle keeps its running length.
proof fn lemma_dist_fold_clear(p: Point, q: Point, obs: Seq<Obstacle>, i: int, acc: int)
    requires
        0 <= i <= obs.len(),
        forall|k: int|
            i <= k < obs.len() ==> spec_intersection_length(
                p,
                q,
                #[trigger] obs[k].points@,
                obs[k].bounds,
            ) == 0,
    ensures
        dist_fold(p, q, obs, i, acc) == acc,
    decreases obs.len() - i,
{
    if i < obs.len() {
        lemma_dist_fold_clear(p, q, obs, i + 1, acc);
    }
}

/// The obstacle-aware distance of a segment that intersects no
/// obstacle, in either orientation, is the plain Euclidean distance.
pub proof fn lemma_distance_unobstructed(p: Point, q: Point, obs: Seq<Obstacle>)
    requires
        wf_point(p),
        wf_point(q),
        forall|k: int|
            0 <= k < obs.len() ==> spec_intersection_length(
                p,
                q,
                #[trigger] obs[k].points@,
                obs[k].bounds,
            ) == 0,
        forall|k: int|
            0 <= k < obs.len() ==> spec_intersection_length(
                q,
                p,
                #[trigger] obs[k].points@,
                obs[k].bounds,
            ) == 0,
    ensures
        spec_distance(p, q, obs) == spec_euclid(p, q),
{
    lemma_euclid_bounds(p, q);
    if lex_leq(p, q) {
        lemma_dist_fold_clear(p, q, obs, 0, spec_euclid(p, q));
    } else {
        lemma_dist_fold_clear(q, p, obs, 0, spec_euclid(q, p));
    }
}

/// A segment that crosses any impassable obstacle with positive
/// interior length costs exactly the sentinel, whatever other
/// obstacles are present.
pub proof fn lemma_distance_blocked(p: Point, q: Point, obs: Seq<Obstacle>)
    requires
        spec_blocked(p, q, obs),
    ensures
        spec_distance(p, q, obs) == INF_COST as int,
{
    if lex_leq(p, q) {
        lemma_dist_fold_blocked(p, q, obs, 0, spec_euclid(p, q));
    } else {
        lemma_dist_fold_blocked(q, p, obs, 0, spec_euclid(q, p));
    }
}

/// The obstacle-aware distance is symmetric.
pub proof fn lemma_distance_symmetric(p: Point, q: Point, obs: Seq<Obstacle>)
    ensures
        spec_distance(p, q, obs) == spec_distance(q, p, obs),
{
}

/// The obstacle-aware distance never leaves the sentinel's range.
pub proof fn lemma_distance_in_range(p: Point, q: Point, obs: Seq<Obstacle>)
    requires
        wf_point(p),
        wf_point(q),
        wf_obstacles(obs),
        obs.len() <= MAX_OBSTACLES,
    ensures
        -INF_COST <= spec_distance(p, q, obs) <= INF_COST,
{
    if spec_blocked(p, q, obs) {
        lemma_distance_blocked(p, q, obs);
    } else {
        lemma_distance_unblocked_bounds(p, q, obs);
    }
}

/// An unblocked distance stays strictly below the sentinel.
pub proof fn lemma_distance_unblocked_bounds(p: Point, q: Point, obs: Seq<Obstacle>)
    requires
        wf_point(p),
        wf_point(q),
        wf_obstacles(obs),
        obs.len() <= MAX_OBSTACLES,
        !spec_blocked(p, q, obs),
    ensures
        -(MAX_OBSTACLES as int) * (EUCLID_MAX as int) <= spec_distance(p, q, obs)
            < UNBLOCKED_MAX as int,
{
    lemma_euclid_bounds(p, q);
    if lex_leq(p, q) {
        lemma_dist_fold_unblocked(p, q, obs, 0, spec_euclid(p, q));
    } else {
        lemma_dist_fold_unblocked(q, p, obs, 0, spec_euclid(q, p));
    }
    assert(obs.len() * (STEP_MAX as int) <= (MAX_OBSTACLES as int) * (STEP_MAX as int)
        && obs.len() * (EUCLID_MAX as int) <= (MAX_OBSTACLES as int) * (EUCLID_MAX as int))
        by (nonlinear_arith)
        requires
            0 <= obs.len() <= MAX_OBSTACLES as int,
    ;
}

impl SteinerProblem {
    /// Whether a point lies inside some impassable obstacle.
    pub open spec fn spec_in_solid(&self, c: Point) -> bool {
        exists|i: int|
            0 <= i < self.obstacles@.len() && (#[trigger] self.obstacles@[i]).weight == INF_COST
                && spec_point_in_polygon(
                c.x as int,
                c.y as int,
                self.obstacles@[i].points@,
                self.obstacles@[i].bounds,
            )
    }

    /// Whether the given coordinates lie inside a solid (impassable)
    /// obstacle.
    pub fn coordinates_in_solid_obstacle(&self, coordinates: Point) -> (r: bool)
        requires
            self.wf(),
            wf_point(coordinates),
        ensures
            r == self.spec_in_solid(coordinates),
    {
        let n = self.obstacles.len();
        let mut i: usize = 0;
        while i < n
            invariant
                0 <= i <= n,
                n == self.obstacles@.len(),
                self.wf(),
                wf_point(coordinates),
                forall|k: int|
                    0 <= k < i ==> !((#[trigger] self.obstacles@[k]).weight == INF_COST
                        && spec_point_in_polygon(
                        coordinates.x as int,
                        coordinates.y as int,
                        self.obstacles@[k].points@,
                        self.obstacles@[k].bounds,
                    )),
            decreases n - i,
        {
            let ob = &self.obstacles[i];
            if ob.weight == INF_COST {
                if point_in_polygon(coordinates.x, coordinates.y, &ob.points, &ob.bounds) {
                    return true;
                }
            }
            i = i + 1;
        }
        false
    }

    /// The obstacle-aware distance between two points: Euclidean
    /// length, with interior traversals of passable obstacles weighted
    /// and any crossing of an impassable obstacle costing `INF_COST`.
    pub fn distance(&self, p: Point, q: Point) -> (r: i64)
        requires
            self.wf(),
            wf_point(p),
            wf_point(q),
        ensures
            r as int == spec_distance(p, q, self.obstacles@),
            (r == INF_COST) == spec_blocked(p, q, self.obstacles@),
            r != INF_COST ==> -(MAX_OBSTACLES as int) * (EUCLID_MAX as int) <= r as int,
            r != INF_COST ==> r < UNBLOCKED_MAX,
    {
        let (a, b) = if q.x < p.x || (q.x == p.x && q.y < p.y) {
            (q, p)
        } else {
            (p, q)
        };
        proof {
            assert(lex_leq(a, b));
            assert(spec_distance(p, q, self.obstacles@) == dist_fold(
                a,
                b,
                self.obstacles@,
                0,
                spec_euclid(a, b),
            ));
            assert(spec_blocked(p, q, self.obstacles@) == spec_blocked_from(
                a,
                b,
                self.obstacles@,
                0,
            ));
            lemma_euclid_bounds(a, b);
        }
        let len0 = euclidean_distance(a, b);
        let ghost obs = self.obstacles@;
        let mut acc: i64 = len0;
        let n = self.obstacles.len();
        let mut i: usize = 0;
        let sb = Bounds {
            min_x: if a.x <= b.x { a.x } else { b.x },
            min_y: if a.y <= b.y { a.y } else { b.y },
            max_x: if a.x <= b.x { b.x } else { a.x },
            max_y: if a.y <= b.y { b.y } else { a.y },
        };
        while i < n
            invariant
                0 <= i <= n,
                n == obs.len(),
                obs == self.obstacles@,
                self.wf(),
                wf_point(a),
                wf_point(b),
                sb == seg_bounds(a, b),
                0 <= len0 as int == spec_euclid(a, b) < EUCLID_MAX,
                spec_distance(p, q, self.obstacles@) == dist_fold(a, b, obs, 0, spec_euclid(a, b)),
                spec_blocked(p, q, self.obstacles@) == spec_blocked_from(a, b, obs, 0),
                dist_fold(a, b, obs, i as int, acc as int) == dist_fold(
                    a,
                    b,
                    obs,
                    0,
                    spec_euclid(a, b),
                ),
                !spec_blocked_from(a, b, obs, 0) || spec_blocked_from(a, b, obs, i as int),
                spec_blocked_from(a, b, obs, i as int) ==> spec_blocked_from(a, b, obs, 0),
                len0 as int - i as int * (EUCLID_MAX as int) <= acc as int <= len0 as int + i as int
                    * (STEP_MAX as int),
            decreases n - i,
        {
            let ob = &self.obstacles[i];
            let ghost il = spec_intersection_length(a, b, ob.points@, ob.bounds);
            proof {
                lemma_intersection_length_bounds(a, b, ob.points@, ob.bounds);
            }
            if overlap(&sb, &ob.bounds) {
                let inter = intersection_length(a.x, a.y, b.x, b.y, &ob.points, &ob.bounds);
                proof {
                    assert(Point { x: a.x, y: a.y } == a && Point { x: b.x, y: b.y } == b);
                    assert(inter as int == il);
                }
                if inter > 0 {
                    if ob.weight == INF_COST {
                        proof {
                            assert(spec_blocked_from(a, b, obs, i as int));
                            lemma_dist_fold_blocked(a, b, obs, i as int, acc as int);
                            assert(spec_distance(p, q, self.obstacles@) == INF_COST as int);
                            assert(spec_blocked(p, q, self.obstacles@));
                        }
                        return INF_COST;
                    }
                    proof {
                        assert(0 <= inter as int * ob.weight as int <= (EUCLID_MAX as int) * (
                        W_MAX as int)) by (nonlinear_arith)
                            requires
                                0 <= inter as int,
                                (inter as int) < (EUCLID_MAX as int),
                                0 <= ob.weight <= W_MAX,
                        ;
                        vstd::arithmetic::div_mod::lemma_div_pos_is_pos(
                            inter as int * ob.weight as int,
                            SCALE as int,
                        );
                        vstd::arithmetic::div_mod::lemma_div_is_ordered(
                            inter as int * ob.weight as int,
                            (EUCLID_MAX as int) * (W_MAX as int),
                            SCALE as int,
                        );
                        assert((EUCLID_MAX as int) * (W_MAX as int) / (SCALE as int)
                            <= STEP_MAX as int);
                        assert((i as int + 1) * (STEP_MAX as int) == i as int * (STEP_MAX as int)
                            + STEP_MAX as int) by (nonlinear_arith);
                        assert((i as int + 1) * (EUCLID_MAX as int) == i as int * (EUCLID_MAX
                            as int) + EUCLID_MAX as int) by (nonlinear_arith);
                        assert(i as int * (STEP_MAX as int) <= (MAX_OBSTACLES as int) * (STEP_MAX
                            as int) && i as int * (EUCLID_MAX as int) <= (MAX_OBSTACLES as int) * (
                        EUCLID_MAX as int)) by (nonlinear_arith)
                            requires
                                0 <= i as int <= MAX_OBSTACLES as int,
                        ;
                    }
                    let prod: i128 = inter as i128 * ob.weight as i128;
                    let step: i64 = (prod / (SCALE as i128)) as i64;
                    acc = acc - inter + step;
                }
            } else {
                proof {
                    assert(il == 0);
                }
            }
            i = i + 1;
        }
        proof {
            assert(dist_fold(a, b, obs, n as int, acc as int) == acc as int);
            assert(!spec_blocked_from(a, b, obs, 0));
            lemma_dist_fold_unblocked(a, b, obs, 0, spec_euclid(a, b));
            assert(obs.len() * (STEP_MAX as int) <= (MAX_OBSTACLES as int) * (STEP_MAX as int)
                && obs.len() * (EUCLID_MAX as int) <= (MAX_OBSTACLES as int) * (EUCLID_MAX as int))
                by (nonlinear_arith)
                requires
                    0 <= obs.len() <= MAX_OBSTACLES as int,
            ;
        }
        acc
    }
}

} // verus!
