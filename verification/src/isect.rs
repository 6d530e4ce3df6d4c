//! Segment–polygon intersection: the length of the part of a segment
//! that lies strictly inside a polygon.
//!
//! Every crossing of the segment with a polygon edge is found as an
//! exact rational parameter `t = n / d` along the segment. The
//! parameters are sorted, and each span between consecutive parameters
//! is measured when its midpoint lies strictly inside the polygon.

use vstd::prelude::*;
use crate::geom::{
    Point, Bounds, wf_point, wf_poly, wf_hpoint, spec_inside_h, inside_h, spec_overlap, overlap,
    spec_euclid, euclidean_distance, lemma_euclid_bounds,
};
use crate::X_MAX;

verus! {

/// Bound on the denominator of a crossing parameter (two to the
/// thirty-ninth power).
pub const TD_MAX: i128 = 0x8000000000;

/// A crossing parameter `t.0 / t.1` lies in the unit interval and has a
/// positive, bounded denominator.
pub open spec fn wf_t(t: (i128, i128)) -> bool {
    0 <= t.0 <= t.1 && 1 <= t.1 <= TD_MAX
}

pub open spec fn all_wf_t(s: Seq<(i128, i128)>) -> bool {
    forall|i: int| 0 <= i < s.len() ==> wf_t(#[trigger] s[i])
}

/// Rational order on crossing parameters with positive denominators.
pub open spec fn rat_leq(a: (i128, i128), b: (i128, i128)) -> bool {
    a.0 * b.1 <= b.0 * a.1
}

pub open spec fn sorted_rats(s: Seq<(i128, i128)>) -> bool {
    forall|i: int| 0 <= i < s.len() - 1 ==> rat_leq(#[trigger] s[i], s[i + 1])
}

/// The crossing parameter of segment `pq` with the polygon edge `ab`,
/// if the two segments properly cross (parallel edges yield none).
pub open spec fn cross_at(p: Point, q: Point, a: Point, b: Point) -> Option<(i128, i128)> {
    let rx = q.x - p.x;
    let ry = q.y - p.y;
    let sx = b.x - a.x;
    let sy = b.y - a.y;
    let denom = rx * sy - ry * sx;
    if denom == 0 {
        None
    } else {
        let tn0 = (a.x - p.x) * sy - (a.y - p.y) * sx;
        let un0 = (a.x - p.x) * ry - (a.y - p.y) * rx;
        let tn = if denom < 0 { -tn0 } else { tn0 };
        let un = if denom < 0 { -un0 } else { un0 };
        let dn = if denom < 0 { -denom } else { denom };
        if 0 <= tn <= dn && 0 <= un <= dn {
            Some((tn as i128, dn as i128))
        } else {
            None
        }
    }
}

/// The crossing parameters of segment `pq` with the polygon edges from
/// index `i` on, in edge order; edge `i` runs from vertex `i` to vertex
/// `i + 1` (wrapping).
pub open spec fn collect_from(p: Point, q: Point, poly: Seq<Point>, i: int) -> Seq<(i128, i128)>
    decreases poly.len() - i,
{
    if i < 0 || i >= poly.len() {
        Seq::empty()
    } else {
        let b = if i + 1 == poly.len() { poly[0] } else { poly[i + 1] };
        let rest = collect_from(p, q, poly, i + 1);
        match cross_at(p, q, poly[i], b) {
            Some(t) => seq![t] + rest,
            None => rest,
        }
    }
}

/// The segment's own endpoints, which delimit the first and last span.
pub open spec fn base_ts() -> Seq<(i128, i128)> {
    seq![(0i128, 1i128), (1i128, 1i128)]
}

/// All span delimiters of segment `pq` against the polygon, unsorted.
pub open spec fn all_ts(p: Point, q: Point, poly: Seq<Point>) -> Seq<(i128, i128)> {
    base_ts() + collect_from(p, q, poly, 0)
}

/// Insertion into a sorted sequence, before the first element at least
/// as large.
pub open spec fn insert_sorted(s: Seq<(i128, i128)>, x: (i128, i128)) -> Seq<(i128, i128)>
    decreases s.len(),
{
    if s.len() == 0 {
        seq![x]
    } else if rat_leq(x, s[0]) {
        seq![x] + s
    } else {
        seq![s[0]] + insert_sorted(s.drop_first(), x)
    }
}

/// Insertion sort of crossing parameters.
pub open spec fn sort_rats(s: Seq<(i128, i128)>) -> Seq<(i128, i128)>
    decreases s.len(),
{
    if s.len() == 0 {
        s
    } else {
        insert_sorted(sort_rats(s.drop_last()), s.last())
    }
}

/// Where the first position whose element is at least `x` is known,
/// `insert_sorted` is insertion at that position.
proof fn lemma_insert_sorted_at(s: Seq<(i128, i128)>, x: (i128, i128), pos: int)
    requires
        0 <= pos <= s.len(),
        forall|k: int| 0 <= k < pos ==> !rat_leq(x, #[trigger] s[k]),
        pos < s.len() ==> rat_leq(x, s[pos]),
    ensures
        insert_sorted(s, x) == s.insert(pos, x),
    decreases pos,
{
    if pos == 0 {
        if s.len() == 0 {
            assert(insert_sorted(s, x) =~= s.insert(0, x));
        } else {
            assert(insert_sorted(s, x) =~= s.insert(0, x));
        }
    } else {
        lemma_insert_sorted_at(s.drop_first(), x, pos - 1);
        assert(seq![s[0]] + s.drop_first().insert(pos - 1, x) =~= s.insert(pos, x));
    }
}

/// At most one crossing comes from each edge.
proof fn lemma_collect_len(p: Point, q: Point, poly: Seq<Point>, i: int)
    requires
        0 <= i <= poly.len(),
    ensures
        collect_from(p, q, poly, i).len() <= poly.len() - i,
    decreases poly.len() - i,
{
    if i < poly.len() {
        lemma_collect_len(p, q, poly, i + 1);
    }
}

/// Collects every span delimiter of segment `pq` against the polygon:
/// the segment endpoints and each proper edge crossing, in edge order.
fn collect_crossings(p: Point, q: Point, poly: &Vec<Point>) -> (ts: Vec<(i128, i128)>)
    requires
        wf_point(p),
        wf_point(q),
        wf_poly(poly@),
    ensures
        ts@ == all_ts(p, q, poly@),
        all_wf_t(ts@),
        2 <= ts@.len() <= poly@.len() + 2,
{
    let mut ts: Vec<(i128, i128)> = Vec::new();
    ts.push((0, 1));
    ts.push((1, 1));
    proof {
        assert(ts@ =~= base_ts());
    }
    let n = poly.len();
    let mut i: usize = 0;
    while i < n
        invariant
            0 <= i <= n,
            n == poly@.len(),
            wf_point(p),
            wf_point(q),
            wf_poly(poly@),
            all_wf_t(ts@),
            ts@ + collect_from(p, q, poly@, i as int) == all_ts(p, q, poly@),
            ts@.len() <= i + 2,
        decreases n - i,
    {
        let a = poly[i];
        let b = if i + 1 == n {
            poly[0]
        } else {
            poly[i + 1]
        };
        let rx: i128 = q.x as i128 - p.x as i128;
        let ry: i128 = q.y as i128 - p.y as i128;
        let sx: i128 = b.x as i128 - a.x as i128;
        let sy: i128 = b.y as i128 - a.y as i128;
        proof {
            assert(-0x4000000000 <= rx * sy <= 0x4000000000 && -0x4000000000 <= ry * sx
                <= 0x4000000000) by (nonlinear_arith)
                requires
                    -524288 <= rx <= 524288,
                    -524288 <= ry <= 524288,
                    -524288 <= sx <= 524288,
                    -524288 <= sy <= 524288,
            ;
        }
        let denom: i128 = rx * sy - ry * sx;
        let ghost spec_t = cross_at(p, q, a, b);
        let ghost ts_before = ts@;
        if denom != 0 {
            let ax: i128 = a.x as i128 - p.x as i128;
            let ay: i128 = a.y as i128 - p.y as i128;
            proof {
                assert({
                    &&& -0x4000000000 <= ax * sy <= 0x4000000000
                    &&& -0x4000000000 <= ay * sx <= 0x4000000000
                    &&& -0x4000000000 <= ax * ry <= 0x4000000000
                    &&& -0x4000000000 <= ay * rx <= 0x4000000000
                }) by (nonlinear_arith)
                    requires
                        -524288 <= ax <= 524288,
                        -524288 <= ay <= 524288,
                        -524288 <= rx <= 524288,
                        -524288 <= ry <= 524288,
                        -524288 <= sx <= 524288,
                        -524288 <= sy <= 524288,
                ;
            }
            let tn0: i128 = ax * sy - ay * sx;
            let un0: i128 = ax * ry - ay * rx;
            let tn: i128 = if denom < 0 { -tn0 } else { tn0 };
            let un: i128 = if denom < 0 { -un0 } else { un0 };
            let dn: i128 = if denom < 0 { -denom } else { denom };
            if 0 <= tn && tn <= dn && 0 <= un && un <= dn {
                ts.push((tn, dn));
                proof {
                    assert(spec_t == Some((tn, dn)));
                }
            } else {
                proof {
                    assert(spec_t is None);
                }
            }
        }
        proof {
            let ii = i as int;
            let rest = collect_from(p, q, poly@, ii + 1);
            match spec_t {
                Some(t) => {
                    assert(ts@ == ts_before.push(t));
                    assert(collect_from(p, q, poly@, ii) == seq![t] + rest);
                    assert(ts@ + rest =~= ts_before + (seq![t] + rest));
                },
                None => {
                    assert(ts@ == ts_before);
                    assert(collect_from(p, q, poly@, ii) == rest);
                },
            }
        }
        i = i + 1;
    }
    proof {
        assert(collect_from(p, q, poly@, n as int) =~= Seq::<(i128, i128)>::empty());
        assert(ts@ + Seq::<(i128, i128)>::empty() =~= ts@);
        lemma_collect_len(p, q, poly@, 0);
        assert(all_ts(p, q, poly@).len() <= poly@.len() + 2);
    }
    ts
}

/// Exact comparison of two crossing parameters.
fn rat_leq_exec(a: (i128, i128), b: (i128, i128)) -> (r: bool)
    requires
        wf_t(a),
        wf_t(b),
    ensures
        r == rat_leq(a, b),
{
    proof {
        assert(-0x40000000000000000000 <= a.0 * b.1 <= 0x40000000000000000000
            && -0x40000000000000000000 <= b.0 * a.1 <= 0x40000000000000000000)
            by (nonlinear_arith)
            requires
                0 <= a.0 <= 0x8000000000,
                0 <= b.0 <= 0x8000000000,
                1 <= a.1 <= 0x8000000000,
                1 <= b.1 <= 0x8000000000,
        ;
    }
    a.0 * b.1 <= b.0 * a.1
}

/// Insertion sort of the span delimiters.
#[verifier::rlimit(60)]
fn sort_crossings(ts: &Vec<(i128, i128)>) -> (out: Vec<(i128, i128)>)
    requires
        all_wf_t(ts@),
    ensures
        out@ == sort_rats(ts@),
        sorted_rats(out@),
        all_wf_t(out@),
        out@.len() == ts@.len(),
{
    let mut out: Vec<(i128, i128)> = Vec::new();
    let mut k: usize = 0;
    proof {
        assert(ts@.take(0) =~= Seq::<(i128, i128)>::empty());
    }
    while k < ts.len()
        invariant
            0 <= k <= ts@.len(),
            all_wf_t(ts@),
            out@ == sort_rats(ts@.take(k as int)),
            sorted_rats(out@),
            all_wf_t(out@),
            out@.len() == k,
        decreases ts@.len() - k,
    {
        let x = ts[k];
        let mut pos: usize = 0;
        while pos < out.len() && !rat_leq_exec(x, out[pos])
            invariant
                0 <= pos <= out@.len(),
                all_wf_t(out@),
                wf_t(x),
                forall|k2: int| 0 <= k2 < pos ==> !rat_leq(x, #[trigger] out@[k2]),
            decreases out@.len() - pos,
        {
            pos = pos + 1;
        }
        proof {
            lemma_insert_sorted_at(out@, x, pos as int);
            out@.insert_ensures(pos as int, x);
        }
        let ghost old_out = out@;
        out.insert(pos, x);
        proof {
            assert(out@ == insert_sorted(old_out, x));
            assert(ts@.take(k as int + 1).drop_last() =~= ts@.take(k as int));
            assert(ts@.take(k as int + 1).last() == ts@[k as int]);
            assert(out@ == sort_rats(ts@.take(k as int + 1)));
            assert forall|j: int| 0 <= j < out@.len() implies wf_t(#[trigger] out@[j]) by {
                if j < pos {
                    assert(out@[j] == old_out[j]);
                } else if j == pos {
                    assert(out@[j] == x);
                } else {
                    assert(out@[j] == old_out[j - 1]);
                }
            }
            assert forall|j: int| 0 <= j < out@.len() - 1 implies rat_leq(
                #[trigger] out@[j],
                out@[j + 1],
            ) by {
                if j + 1 < pos {
                    assert(out@[j] == old_out[j] && out@[j + 1] == old_out[j + 1]);
                } else if j + 1 == pos {
                    assert(out@[j] == old_out[j] && out@[j + 1] == x);
                    assert(!rat_leq(x, old_out[j]));
                } else if j == pos {
                    assert(out@[j] == x && out@[j + 1] == old_out[j]);
                    assert(rat_leq(x, old_out[j]));
                } else {
                    assert(out@[j] == old_out[j - 1] && out@[j + 1] == old_out[j]);
                }
            }
        }
        k = k + 1;
    }
    proof {
        assert(ts@.take(ts@.len() as int) =~= ts@);
    }
    out
}

/// The measured length of one span between consecutive delimiters: the
/// span's share of the segment's length when its midpoint lies strictly
/// inside the polygon, zero otherwise.
pub open spec fn span_contrib(
    t1: (i128, i128),
    t2: (i128, i128),
    p: Point,
    q: Point,
    poly: Seq<Point>,
    len_pq: int,
) -> int {
    let dd = t1.1 * t2.1;
    let mn = t1.0 * t2.1 + t2.0 * t1.1;
    let bd = 2 * dd;
    let xn = p.x * bd + mn * (q.x - p.x);
    let yn = p.y * bd + mn * (q.y - p.y);
    let wn = t2.0 * t1.1 - t1.0 * t2.1;
    if spec_inside_h(xn, yn, bd, poly) {
        (wn * len_pq) / dd
    } else {
        0
    }
}

/// Total measured length of the spans from delimiter `i` on.
pub open spec fn span_sum(
    ts: Seq<(i128, i128)>,
    p: Point,
    q: Point,
    poly: Seq<Point>,
    len_pq: int,
    i: int,
) -> int
    decreases ts.len() - i,
{
    if i < 0 || i + 1 >= ts.len() {
        0
    } else {
        span_contrib(ts[i], ts[i + 1], p, q, poly, len_pq) + span_sum(ts, p, q, poly, len_pq, i + 1)
    }
}

/// The bounding box of the segment `pq`.
pub open spec fn seg_bounds(p: Point, q: Point) -> Bounds {
    Bounds {
        min_x: if p.x <= q.x { p.x } else { q.x },
        min_y: if p.y <= q.y { p.y } else { q.y },
        max_x: if p.x <= q.x { q.x } else { p.x },
        max_y: if p.y <= q.y { q.y } else { p.y },
    }
}

/// The raw measured interior length: spans of the sorted delimiter
/// sequence, each counted when its midpoint is strictly inside.
pub open spec fn spec_intersection_raw(p: Point, q: Point, poly: Seq<Point>) -> int {
    span_sum(sort_rats(all_ts(p, q, poly)), p, q, poly, spec_euclid(p, q), 0)
}

/// The length of the part of segment `pq` strictly inside the polygon:
/// zero when the boxes do not overlap, otherwise the raw span measure,
/// capped by the segment's own length.
pub open spec fn spec_intersection_length(
    p: Point,
    q: Point,
    poly: Seq<Point>,
    obounds: Bounds,
) -> int {
    if !spec_overlap(seg_bounds(p, q), obounds) {
        0
    } else {
        let raw = spec_intersection_raw(p, q, poly);
        let l = spec_euclid(p, q);
        if raw > l {
            l
        } else if raw < 0 {
            0
        } else {
            raw
        }
    }
}

/// The interior length is never negative and never exceeds the
/// segment's own length.
pub proof fn lemma_intersection_length_bounds(p: Point, q: Point, poly: Seq<Point>, ob: Bounds)
    requires
        wf_point(p),
        wf_point(q),
    ensures
        0 <= spec_intersection_length(p, q, poly, ob) <= spec_euclid(p, q),
{
    lemma_euclid_bounds(p, q);
}

/// One span of the measuring pass.
fn span_contrib_exec(
    t1: (i128, i128),
    t2: (i128, i128),
    p: Point,
    q: Point,
    poly: &Vec<Point>,
    len_pq: i64,
) -> (c: i64)
    requires
        wf_t(t1),
        wf_t(t2),
        rat_leq(t1, t2),
        wf_point(p),
        wf_point(q),
        wf_poly(poly@),
        0 <= len_pq < crate::EUCLID_MAX,
    ensures
        c as int == span_contrib(t1, t2, p, q, poly@, len_pq as int),
        0 <= c <= len_pq,
{
    proof {
        assert(1 <= t1.1 * t2.1 <= 0x40000000000000000000 && 0 <= t1.0 * t2.1 <= t1.1 * t2.1
            && 0 <= t2.0 * t1.1 <= t1.1 * t2.1) by (nonlinear_arith)
            requires
                0 <= t1.0 <= t1.1,
                0 <= t2.0 <= t2.1,
                1 <= t1.1 <= 0x8000000000,
                1 <= t2.1 <= 0x8000000000,
        ;
    }
    let dd: i128 = t1.1 * t2.1;
    let mn: i128 = t1.0 * t2.1 + t2.0 * t1.1;
    let bd: i128 = 2 * dd;
    proof {
        assert({
            &&& -(X_MAX as int) * bd <= p.x * bd + mn * (q.x - p.x) <= (X_MAX as int) * bd
            &&& -(X_MAX as int) * bd <= p.y * bd + mn * (q.y - p.y) <= (X_MAX as int) * bd
            &&& -0x80000000000000000000000000 <= p.x * bd <= 0x80000000000000000000000000
            &&& -0x80000000000000000000000000 <= p.y * bd <= 0x80000000000000000000000000
            &&& -0x400000000000000000000000000 <= mn * (q.x - p.x) <= 0x400000000000000000000000000
            &&& -0x400000000000000000000000000 <= mn * (q.y - p.y) <= 0x400000000000000000000000000
        }) by (nonlinear_arith)
            requires
                -262144 <= p.x <= 262144,
                -262144 <= p.y <= 262144,
                -262144 <= q.x <= 262144,
                -262144 <= q.y <= 262144,
                0 <= mn <= bd,
                2 <= bd <= 0x80000000000000000000,
        ;
    }
    let xn: i128 = p.x as i128 * bd + mn * (q.x as i128 - p.x as i128);
    let yn: i128 = p.y as i128 * bd + mn * (q.y as i128 - p.y as i128);
    let wn: i128 = t2.0 * t1.1 - t1.0 * t2.1;
    if inside_h(xn, yn, bd, poly) {
        proof {
            assert(0 <= wn * len_pq <= dd * len_pq && dd * len_pq < 0x400000000000000000000000000)
                by (nonlinear_arith)
                requires
                    0 <= wn <= dd,
                    0 <= len_pq < 0x100000,
                    dd <= 0x40000000000000000000,
            ;
            vstd::arithmetic::div_mod::lemma_div_is_ordered(
                wn as int * len_pq as int,
                dd as int * len_pq as int,
                dd as int,
            );
            vstd::arithmetic::div_mod::lemma_div_multiples_vanish(len_pq as int, dd as int);
            vstd::arithmetic::div_mod::lemma_div_pos_is_pos(wn as int * len_pq as int, dd as int);
            assert(dd as int * len_pq as int == len_pq as int * dd as int) by (nonlinear_arith);
        }
        let num: u128 = (wn as u128) * (len_pq as u128);
        let c128: u128 = num / (dd as u128);
        c128 as i64
    } else {
        0
    }
}

/// The length of the part of the segment from `(x1, y1)` to `(x2, y2)`
/// that lies strictly inside the polygon, after a bounding-box
/// rejection against the polygon's box.
pub fn intersection_length(
    x1: i64,
    y1: i64,
    x2: i64,
    y2: i64,
    polygon: &Vec<Point>,
    bounds: &Bounds,
) -> (r: i64)
    requires
        wf_point(Point { x: x1, y: y1 }),
        wf_point(Point { x: x2, y: y2 }),
        wf_poly(polygon@),
    ensures
        r as int == spec_intersection_length(
            Point { x: x1, y: y1 },
            Point { x: x2, y: y2 },
            polygon@,
            *bounds,
        ),
        0 <= r <= spec_euclid(Point { x: x1, y: y1 }, Point { x: x2, y: y2 }),
{
    let p = Point { x: x1, y: y1 };
    let q = Point { x: x2, y: y2 };
    let sb = Bounds {
        min_x: if p.x <= q.x { p.x } else { q.x },
        min_y: if p.y <= q.y { p.y } else { q.y },
        max_x: if p.x <= q.x { q.x } else { p.x },
        max_y: if p.y <= q.y { q.y } else { p.y },
    };
    proof {
        lemma_euclid_bounds(p, q);
    }
    if !overlap(&sb, bounds) {
        return 0;
    }
    let len_pq = euclidean_distance(p, q);
    let ts = collect_crossings(p, q, polygon);
    let sorted = sort_crossings(&ts);
    let nspans = sorted.len();
    let mut acc: i64 = 0;
    let mut i: usize = 0;
    while i + 1 < nspans
        invariant
            0 <= i <= nspans,
            nspans == sorted@.len(),
            2 <= nspans <= polygon@.len() + 2,
            polygon@.len() <= crate::MAX_POLY,
            sorted@ == sort_rats(all_ts(p, q, polygon@)),
            sorted_rats(sorted@),
            all_wf_t(sorted@),
            wf_point(p),
            wf_point(q),
            wf_poly(polygon@),
            0 <= len_pq < crate::EUCLID_MAX,
            len_pq as int == spec_euclid(p, q),
            0 <= acc <= i * (len_pq as int),
            acc + span_sum(sorted@, p, q, polygon@, len_pq as int, i as int) == span_sum(
                sorted@,
                p,
                q,
                polygon@,
                len_pq as int,
                0,
            ),
        decreases nspans - i,
    {
        let t1 = sorted[i];
        let t2 = sorted[i + 1];
        let c = span_contrib_exec(t1, t2, p, q, polygon, len_pq);
        proof {
            assert(acc + c <= (i + 1) * (len_pq as int)) by (nonlinear_arith)
                requires
                    acc <= i * (len_pq as int),
                    c <= len_pq,
                    0 <= i,
                    0 <= len_pq,
            ;
            assert((crate::MAX_POLY + 2) * (crate::EUCLID_MAX as int) < i64::MAX);
            assert(acc + c <= (crate::MAX_POLY as int + 2) * (crate::EUCLID_MAX as int))
                by (nonlinear_arith)
                requires
                    acc + c <= (i + 1) * (len_pq as int),
                    i + 1 <= crate::MAX_POLY as int + 2,
                    0 <= len_pq < crate::EUCLID_MAX,
                    0 <= i,
                    0 <= acc + c,
            ;
        }
        acc = acc + c;
        i = i + 1;
    }
    if acc > len_pq {
        len_pq
    } else {
        acc
    }
}

/// The point at parameter `t` along the segment `pq`, each coordinate
/// rounded down (written with an offset so that the division is on a
/// nonnegative numerator).
pub open spec fn t_point(p: Point, q: Point, t: (i128, i128)) -> Point {
    Point {
        x: (p.x + ((t.0 * (q.x - p.x) + 524288 * t.1) / (t.1 as int) - 524288)) as i64,
        y: (p.y + ((t.0 * (q.y - p.y) + 524288 * t.1) / (t.1 as int) - 524288)) as i64,
    }
}

/// The crossing points in parameter order, consecutive duplicates
/// dropped; with `keep_ends` false, crossings at the segment's own
/// endpoints are dropped too.
pub open spec fn spi_from(
    ts: Seq<(i128, i128)>,
    p: Point,
    q: Point,
    keep_ends: bool,
    i: int,
    prev: Option<Point>,
) -> Seq<Point>
    decreases ts.len() - i,
{
    if i < 0 || i >= ts.len() {
        Seq::empty()
    } else {
        let t = ts[i];
        if !keep_ends && (t.0 == 0 || t.0 == t.1) {
            spi_from(ts, p, q, keep_ends, i + 1, prev)
        } else {
            let pt = t_point(p, q, t);
            if prev == Some(pt) {
                spi_from(ts, p, q, keep_ends, i + 1, prev)
            } else {
                seq![pt] + spi_from(ts, p, q, keep_ends, i + 1, Some(pt))
            }
        }
    }
}

/// The crossing points of segment `pq` with the polygon's edges, in
/// order along the segment.
pub open spec fn spec_segment_polygon_intersection(
    p: Point,
    q: Point,
    poly: Seq<Point>,
    keep_ends: bool,
) -> Seq<Point> {
    spi_from(sort_rats(collect_from(p, q, poly, 0)), p, q, keep_ends, 0, None)
}

/// One coordinate of a crossing point.
fn t_coord_exec(pc: i64, qc: i64, t: (i128, i128)) -> (r: i64)
    requires
        -262144 <= pc <= 262144,
        -262144 <= qc <= 262144,
        wf_t(t),
    ensures
        r as int == pc + ((t.0 * (qc - pc) + 524288 * t.1) / (t.1 as int) - 524288),
{
    let dc: i128 = qc as i128 - pc as i128;
    proof {
        assert(-524288 * t.1 <= t.0 * dc <= 524288 * t.1 && 0 <= 524288 * t.1
            <= 0x400000000000000) by (nonlinear_arith)
            requires
                0 <= t.0 <= t.1,
                1 <= t.1 <= 0x8000000000,
                -524288 <= dc <= 524288,
        ;
        vstd::arithmetic::div_mod::lemma_div_pos_is_pos(
            t.0 as int * dc as int + 524288 * t.1 as int,
            t.1 as int,
        );
        vstd::arithmetic::div_mod::lemma_div_is_ordered(
            t.0 as int * dc as int + 524288 * t.1 as int,
            1048576 * t.1 as int,
            t.1 as int,
        );
        assert((t.1 as int * 1048576) / t.1 as int == 1048576) by {
            vstd::arithmetic::div_mod::lemma_div_multiples_vanish(1048576, t.1 as int);
        }
        assert(t.1 as int * 1048576 == 1048576 * t.1 as int) by (nonlinear_arith);
    }
    let num: i128 = t.0 * dc + 524288 * t.1;
    let od: i128 = num / t.1;
    (pc as i128 + (od - 524288)) as i64
}

/// The crossing points of the segment from `(x1, y1)` to `(x2, y2)`
/// with the polygon's edges, sorted along the segment, consecutive
/// duplicates dropped; `include_endpoints` keeps crossings that fall on
/// the segment's own endpoints.
pub fn segment_polygon_intersection(
    x1: i64,
    y1: i64,
    x2: i64,
    y2: i64,
    polygon: &Vec<Point>,
    include_endpoints: bool,
) -> (r: Vec<Point>)
    requires
        wf_point(Point { x: x1, y: y1 }),
        wf_point(Point { x: x2, y: y2 }),
        wf_poly(polygon@),
    ensures
        r@ == spec_segment_polygon_intersection(
            Point { x: x1, y: y1 },
            Point { x: x2, y: y2 },
            polygon@,
            include_endpoints,
        ),
{
    let p = Point { x: x1, y: y1 };
    let q = Point { x: x2, y: y2 };
    let ts0 = collect_crossings(p, q, polygon);
    let mut ts: Vec<(i128, i128)> = Vec::new();
    let mut j: usize = 2;
    proof {
        assert(ts0@.skip(2) =~= collect_from(p, q, polygon@, 0));
        assert(ts0@.subrange(2, 2) =~= Seq::<(i128, i128)>::empty());
    }
    while j < ts0.len()
        invariant
            2 <= j <= ts0@.len(),
            ts0@.skip(2) == collect_from(p, q, polygon@, 0),
            all_wf_t(ts0@),
            ts@ == ts0@.subrange(2, j as int),
        decreases ts0@.len() - j,
    {
        ts.push(ts0[j]);
        proof {
            assert(ts@ =~= ts0@.subrange(2, j as int + 1));
        }
        j = j + 1;
    }
    proof {
        assert(ts@ =~= collect_from(p, q, polygon@, 0));
        assert forall|k: int| 0 <= k < ts@.len() implies wf_t(#[trigger] ts@[k]) by {
            assert(ts@[k] == ts0@[k + 2]);
        }
    }
    let sorted = sort_crossings(&ts);
    let mut out: Vec<Point> = Vec::new();
    let mut prev: Option<Point> = None;
    let mut i: usize = 0;
    let ghost full = spi_from(sorted@, p, q, include_endpoints, 0, None);
    while i < sorted.len()
        invariant
            0 <= i <= sorted@.len(),
            all_wf_t(sorted@),
            wf_point(p),
            wf_point(q),
            out@ + spi_from(sorted@, p, q, include_endpoints, i as int, prev) == full,
        decreases sorted@.len() - i,
    {
        let t = sorted[i];
        let ghost out_before = out@;
        let ghost prev_before = prev;
        if !include_endpoints && (t.0 == 0 || t.0 == t.1) {
        } else {
            let px = t_coord_exec(p.x, q.x, t);
            let py = t_coord_exec(p.y, q.y, t);
            let pt = Point { x: px, y: py };
            proof {
                assert(pt == t_point(p, q, t));
            }
            let is_dup = match prev {
                Some(pp) => pp.x == pt.x && pp.y == pt.y,
                None => false,
            };
            if !is_dup {
                out.push(pt);
                prev = Some(pt);
                proof {
                    assert(spi_from(sorted@, p, q, include_endpoints, i as int, prev_before)
                        == seq![pt] + spi_from(
                        sorted@,
                        p,
                        q,
                        include_endpoints,
                        i as int + 1,
                        Some(pt),
                    ));
                    assert(out@ + spi_from(sorted@, p, q, include_endpoints, i as int + 1, prev)
                        =~= out_before + (seq![pt] + spi_from(
                        sorted@,
                        p,
                        q,
                        include_endpoints,
                        i as int + 1,
                        Some(pt),
                    )));
                }
            } else {
                proof {
                    assert(prev_before == Some(pt));
                }
            }
        }
        i = i + 1;
    }
    proof {
        assert(out@ + Seq::<Point>::empty() =~= out@);
    }
    out
}

} // verus!
