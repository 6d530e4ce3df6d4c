//! The geometry kernel's foundations: points, bounding boxes, integer
//! square roots, Euclidean distance, midpoints, centroids, and the
//! ray-casting point-in-polygon test.
//!
//! The point-in-polygon test works on homogeneous coordinates
//! `(xn / d, yn / d)` with `d > 0`, so that the rational midpoints the
//! intersection machinery produces can be tested without rounding.

use vstd::prelude::*;
use crate::{X_MAX, EUCLID_MAX, MAX_POLY};

verus! {

/// A location on the plane, in fixed-point coordinates: `crate::SCALE`
/// units stand for one unit of length.
#[derive(Clone, Copy, PartialEq, Eq, Hash, Debug, Structural)]
pub struct Point {
    pub x: i64,
    pub y: i64,
}

/// An axis-aligned bounding box.
#[derive(Clone, Copy, PartialEq, Eq, Debug, Structural)]
pub struct Bounds {
    pub min_x: i64,
    pub min_y: i64,
    pub max_x: i64,
    pub max_y: i64,
}

pub open spec fn wf_coord(c: i64) -> bool {
    -X_MAX <= c && c <= X_MAX
}

pub open spec fn wf_point(p: Point) -> bool {
    wf_coord(p.x) && wf_coord(p.y)
}

pub open spec fn wf_poly(poly: Seq<Point>) -> bool {
    &&& 3 <= poly.len() <= MAX_POLY
    &&& forall|i: int| 0 <= i < poly.len() ==> wf_point(#[trigger] poly[i])
}

pub open spec fn wf_bounds(b: Bounds) -> bool {
    wf_coord(b.min_x) && wf_coord(b.min_y) && wf_coord(b.max_x) && wf_coord(b.max_y)
}

pub open spec fn in_bounds(x: int, y: int, b: Bounds) -> bool {
    b.min_x <= x <= b.max_x && b.min_y <= y <= b.max_y
}

pub open spec fn spec_overlap(a: Bounds, b: Bounds) -> bool {
    a.min_x <= b.max_x && b.min_x <= a.max_x && a.min_y <= b.max_y && b.min_y <= a.max_y
}

/// Whether two axis-aligned boxes share at least one point.
pub fn overlap(a: &Bounds, b: &Bounds) -> (r: bool)
    ensures
        r == spec_overlap(*a, *b),
{
    a.min_x <= b.max_x && b.min_x <= a.max_x && a.min_y <= b.max_y && b.min_y <= a.max_y
}

/// The floor of the square root of a nonnegative integer, as a recursive
/// specification.
pub open spec fn sqrt_floor(n: int) -> int
    decreases n,
{
    if n < 1 {
        0
    } else {
        let s = sqrt_floor(n - 1);
        if (s + 1) * (s + 1) <= n {
            s + 1
        } else {
            s
        }
    }
}

pub proof fn lemma_sqrt_floor(n: int)
    requires
        n >= 0,
    ensures
        0 <= sqrt_floor(n),
        sqrt_floor(n) * sqrt_floor(n) <= n,
        n < (sqrt_floor(n) + 1) * (sqrt_floor(n) + 1),
    decreases n,
{
    if n >= 1 {
        lemma_sqrt_floor(n - 1);
        let s = sqrt_floor(n - 1);
        if (s + 1) * (s + 1) <= n {
            assert(n == (s + 1) * (s + 1));
            assert(n < (s + 2) * (s + 2)) by (nonlinear_arith)
                requires
                    0 <= s,
                    n == (s + 1) * (s + 1),
            ;
        }
    }
}

/// Two square-root floors of the same number agree.
pub proof fn lemma_sqrt_unique(n: int, a: int, b: int)
    requires
        0 <= a,
        0 <= b,
        a * a <= n < (a + 1) * (a + 1),
        b * b <= n < (b + 1) * (b + 1),
    ensures
        a == b,
{
    assert(a == b) by (nonlinear_arith)
        requires
            0 <= a,
            0 <= b,
            a * a <= n < (a + 1) * (a + 1),
            b * b <= n < (b + 1) * (b + 1),
    ;
}

/// Binary-search integer square root for arguments below `2^40`.
pub fn isqrt(n: u64) -> (r: u64)
    requires
        n < 0x10000000000,
    ensures
        r as int == sqrt_floor(n as int),
        r * r <= n,
        r < 0x100000,
{
    let mut lo: u64 = 0;
    let mut hi: u64 = 0x100000;
    proof {
        assert((0x100000u64 as int) * (0x100000u64 as int) > n as int) by (nonlinear_arith)
            requires
                n < 0x10000000000,
        ;
    }
    while lo + 1 < hi
        invariant
            lo < hi <= 0x100000,
            lo * lo <= n,
            (hi as int) * (hi as int) > n as int,
        decreases hi - lo,
    {
        let mid = lo + (hi - lo) / 2;
        proof {
            assert(mid as int * mid as int <= 0x10000000000) by (nonlinear_arith)
                requires
                    0 <= mid as int <= 0x100000,
            ;
        }
        if mid * mid <= n {
            lo = mid;
        } else {
            hi = mid;
        }
    }
    proof {
        lemma_sqrt_floor(n as int);
        lemma_sqrt_unique(n as int, lo as int, sqrt_floor(n as int));
    }
    lo
}

/// Euclidean distance of two in-range points, as the floor of the exact
/// real distance.
pub open spec fn spec_euclid(p: Point, q: Point) -> int {
    let dx = q.x - p.x;
    let dy = q.y - p.y;
    sqrt_floor(dx * dx + dy * dy)
}

pub proof fn lemma_euclid_bounds(p: Point, q: Point)
    requires
        wf_point(p),
        wf_point(q),
    ensures
        0 <= spec_euclid(p, q) < EUCLID_MAX,
        spec_euclid(p, q) == spec_euclid(q, p),
{
    let dx = q.x - p.x;
    let dy = q.y - p.y;
    assert(0 <= dx * dx + dy * dy < 0x10000000000) by (nonlinear_arith)
        requires
            -524288 <= dx <= 524288,
            -524288 <= dy <= 524288,
    ;
    lemma_sqrt_floor(dx * dx + dy * dy);
    let r = sqrt_floor(dx * dx + dy * dy);
    assert(r < EUCLID_MAX) by (nonlinear_arith)
        requires
            0 <= r,
            r * r <= dx * dx + dy * dy,
            dx * dx + dy * dy < 0x10000000000,
    ;
    assert((p.x - q.x) * (p.x - q.x) == (q.x - p.x) * (q.x - p.x)) by (nonlinear_arith);
    assert((p.y - q.y) * (p.y - q.y) == (q.y - p.y) * (q.y - p.y)) by (nonlinear_arith);
}

/// Standard 2D distance, in fixed-point units.
pub fn euclidean_distance(p: Point, q: Point) -> (r: i64)
    requires
        wf_point(p),
        wf_point(q),
    ensures
        r as int == spec_euclid(p, q),
        0 <= r < EUCLID_MAX,
{
    let dx: i64 = q.x - p.x;
    let dy: i64 = q.y - p.y;
    proof {
        assert(0 <= dx * dx <= 0x4000000000 && 0 <= dy * dy <= 0x4000000000)
            by (nonlinear_arith)
            requires
                -524288 <= dx <= 524288,
                -524288 <= dy <= 524288,
        ;
    }
    let n: u64 = (dx * dx + dy * dy) as u64;
    let r = isqrt(n);
    proof {
        lemma_euclid_bounds(p, q);
    }
    r as i64
}

/// The midpoint of a segment, each coordinate rounded down.
pub fn middle(x1: i64, y1: i64, x2: i64, y2: i64) -> (r: Point)
    requires
        wf_coord(x1),
        wf_coord(y1),
        wf_coord(x2),
        wf_coord(y2),
    ensures
        r.x as int == (x1 + x2) as int / 2,
        r.y as int == (y1 + y2) as int / 2,
        wf_point(r),
{
    let tx: i64 = x1 + x2 + 2 * X_MAX;
    let ty: i64 = y1 + y2 + 2 * X_MAX;
    let rx: i64 = tx / 2 - X_MAX;
    let ry: i64 = ty / 2 - X_MAX;
    Point { x: rx, y: ry }
}

/// The arithmetic mean of three points, each coordinate rounded down.
pub open spec fn spec_centroid(a: Point, b: Point, c: Point) -> Point {
    Point { x: ((a.x + b.x + c.x) as int / 3) as i64, y: ((a.y + b.y + c.y) as int / 3) as i64 }
}

/// The arithmetic mean of three points, each coordinate rounded down.
pub fn centroid(a: Point, b: Point, c: Point) -> (r: Point)
    requires
        wf_point(a),
        wf_point(b),
        wf_point(c),
    ensures
        r.x as int == (a.x + b.x + c.x) as int / 3,
        r.y as int == (a.y + b.y + c.y) as int / 3,
        r == spec_centroid(a, b, c),
        wf_point(r),
{
    let tx: i64 = a.x + b.x + c.x + 3 * X_MAX;
    let ty: i64 = a.y + b.y + c.y + 3 * X_MAX;
    let rx: i64 = tx / 3 - X_MAX;
    let ry: i64 = ty / 3 - X_MAX;
    Point { x: rx, y: ry }
}

pub open spec fn min3(a: int, b: int, c: int) -> int {
    if a <= b && a <= c {
        a
    } else if b <= c {
        b
    } else {
        c
    }
}

pub open spec fn max3(a: int, b: int, c: int) -> int {
    if a >= b && a >= c {
        a
    } else if b >= c {
        b
    } else {
        c
    }
}

/// Whether `r` lies in the bounding box of the three points.
pub open spec fn in_tri_box(r: Point, a: Point, b: Point, c: Point) -> bool {
    &&& min3(a.x as int, b.x as int, c.x as int) <= r.x <= max3(a.x as int, b.x as int, c.x as int)
    &&& min3(a.y as int, b.y as int, c.y as int) <= r.y <= max3(a.y as int, b.y as int, c.y as int)
}

/// One coordinate of a Weiszfeld step: the weighted mean of the three
/// coordinates, rounded down; the result stays between their extremes.
fn weighted_mean(wa: i64, wb: i64, wc: i64, xa: i64, xb: i64, xc: i64) -> (r: i64)
    requires
        1 <= wa <= 0x10000000000,
        1 <= wb <= 0x10000000000,
        1 <= wc <= 0x10000000000,
        wf_coord(xa),
        wf_coord(xb),
        wf_coord(xc),
    ensures
        min3(xa as int, xb as int, xc as int) <= r as int <= max3(xa as int, xb as int, xc as int),
{
    let ghost lo = min3(xa as int, xb as int, xc as int);
    let ghost hi = max3(xa as int, xb as int, xc as int);
    proof {
        assert({
            &&& wa * lo <= wa * xa <= wa * hi
            &&& wb * lo <= wb * xb <= wb * hi
            &&& wc * lo <= wc * xc <= wc * hi
            &&& -0x2000000000000000 <= wa * xa <= 0x2000000000000000
            &&& -0x2000000000000000 <= wb * xb <= 0x2000000000000000
            &&& -0x2000000000000000 <= wc * xc <= 0x2000000000000000
        }) by (nonlinear_arith)
            requires
                1 <= wa <= 0x10000000000,
                1 <= wb <= 0x10000000000,
                1 <= wc <= 0x10000000000,
                lo <= xa <= hi,
                lo <= xb <= hi,
                lo <= xc <= hi,
                -262144 <= lo,
                hi <= 262144,
        ;
    }
    let sw: i128 = wa as i128 + wb as i128 + wc as i128;
    let num: i128 = wa as i128 * xa as i128 + wb as i128 * xb as i128 + wc as i128 * xc as i128;
    proof {
        assert(sw * lo <= num <= sw * hi) by (nonlinear_arith)
            requires
                num == wa * xa + wb * xb + wc * xc,
                sw == wa as int + wb as int + wc as int,
                wa * lo <= wa * xa <= wa * hi,
                wb * lo <= wb * xb <= wb * hi,
                wc * lo <= wc * xc <= wc * hi,
        ;
        assert(sw * (lo + X_MAX as int) == sw * lo + sw * (X_MAX as int) && sw * (hi
            + X_MAX as int) == sw * hi + sw * (X_MAX as int)) by (nonlinear_arith);
        assert(0 <= sw * (X_MAX as int) <= 0x4000000000000000) by (nonlinear_arith)
            requires
                3 <= sw <= 0x30000000000,
        ;
        vstd::arithmetic::div_mod::lemma_div_is_ordered(
            sw as int * (lo + X_MAX as int),
            num as int + sw as int * (X_MAX as int),
            sw as int,
        );
        vstd::arithmetic::div_mod::lemma_div_is_ordered(
            num as int + sw as int * (X_MAX as int),
            sw as int * (hi + X_MAX as int),
            sw as int,
        );
        vstd::arithmetic::div_mod::lemma_div_multiples_vanish(lo + X_MAX as int, sw as int);
        vstd::arithmetic::div_mod::lemma_div_multiples_vanish(hi + X_MAX as int, sw as int);
        vstd::arithmetic::div_mod::lemma_div_pos_is_pos(
            num as int + sw as int * (X_MAX as int),
            sw as int,
        );
    }
    let shifted: i128 = num + sw * (X_MAX as i128);
    let q: i128 = (shifted as u128 / sw as u128) as i128;
    (q - X_MAX as i128) as i64
}

/// The summed Euclidean distance from `r` to the three given points.
pub open spec fn spec_star_length(r: Point, a: Point, b: Point, c: Point) -> int {
    spec_euclid(r, a) + spec_euclid(r, b) + spec_euclid(r, c)
}

/// The point minimising the sum of distances to `a`, `b` and `c`,
/// approximated by Weiszfeld iteration from the centroid; `epsilon`
/// stops the iteration once a step moves at most that far on both
/// axes. The result lies in the three points' bounding box and its
/// summed distance to the three points never exceeds the centroid's,
/// so a vertex or any other unimproved guess cannot be handed back
/// when the centroid is better.
pub fn fermat_point(a: Point, b: Point, c: Point, epsilon: i64) -> (r: Point)
    requires
        wf_point(a),
        wf_point(b),
        wf_point(c),
    ensures
        in_tri_box(r, a, b, c),
        wf_point(r),
        spec_star_length(r, a, b, c) <= spec_star_length(spec_centroid(a, b, c), a, b, c),
{
    let g = centroid(a, b, c);
    proof {
        lemma_centroid_in_tri_box(a, b, c);
    }
    let cand = fermat_iterate(a, b, c, epsilon);
    let sg = euclidean_distance(g, a) + euclidean_distance(g, b) + euclidean_distance(g, c);
    let sc = euclidean_distance(cand, a) + euclidean_distance(cand, b) + euclidean_distance(
        cand,
        c,
    );
    if sc <= sg {
        cand
    } else {
        g
    }
}

/// The centroid lies in the three points' bounding box.
proof fn lemma_centroid_in_tri_box(a: Point, b: Point, c: Point)
    requires
        wf_point(a),
        wf_point(b),
        wf_point(c),
    ensures
        in_tri_box(spec_centroid(a, b, c), a, b, c),
        wf_point(spec_centroid(a, b, c)),
{
    vstd::arithmetic::div_mod::lemma_div_is_ordered(
        3 * min3(a.x as int, b.x as int, c.x as int),
        a.x as int + b.x as int + c.x as int,
        3,
    );
    vstd::arithmetic::div_mod::lemma_div_is_ordered(
        a.x as int + b.x as int + c.x as int,
        3 * max3(a.x as int, b.x as int, c.x as int),
        3,
    );
    vstd::arithmetic::div_mod::lemma_div_multiples_vanish(
        min3(a.x as int, b.x as int, c.x as int),
        3,
    );
    vstd::arithmetic::div_mod::lemma_div_multiples_vanish(
        max3(a.x as int, b.x as int, c.x as int),
        3,
    );
    vstd::arithmetic::div_mod::lemma_div_is_ordered(
        3 * min3(a.y as int, b.y as int, c.y as int),
        a.y as int + b.y as int + c.y as int,
        3,
    );
    vstd::arithmetic::div_mod::lemma_div_is_ordered(
        a.y as int + b.y as int + c.y as int,
        3 * max3(a.y as int, b.y as int, c.y as int),
        3,
    );
    vstd::arithmetic::div_mod::lemma_div_multiples_vanish(
        min3(a.y as int, b.y as int, c.y as int),
        3,
    );
    vstd::arithmetic::div_mod::lemma_div_multiples_vanish(
        max3(a.y as int, b.y as int, c.y as int),
        3,
    );
}

/// The Weiszfeld iteration itself, from the centroid.
fn fermat_iterate(a: Point, b: Point, c: Point, epsilon: i64) -> (r: Point)
    requires
        wf_point(a),
        wf_point(b),
        wf_point(c),
    ensures
        in_tri_box(r, a, b, c),
        wf_point(r),
{
    let mut cur = centroid(a, b, c);
    proof {
        vstd::arithmetic::div_mod::lemma_div_is_ordered(
            3 * min3(a.x as int, b.x as int, c.x as int),
            a.x as int + b.x as int + c.x as int,
            3,
        );
        vstd::arithmetic::div_mod::lemma_div_is_ordered(
            a.x as int + b.x as int + c.x as int,
            3 * max3(a.x as int, b.x as int, c.x as int),
            3,
        );
        vstd::arithmetic::div_mod::lemma_div_multiples_vanish(
            min3(a.x as int, b.x as int, c.x as int),
            3,
        );
        vstd::arithmetic::div_mod::lemma_div_multiples_vanish(
            max3(a.x as int, b.x as int, c.x as int),
            3,
        );
        vstd::arithmetic::div_mod::lemma_div_is_ordered(
            3 * min3(a.y as int, b.y as int, c.y as int),
            a.y as int + b.y as int + c.y as int,
            3,
        );
        vstd::arithmetic::div_mod::lemma_div_is_ordered(
            a.y as int + b.y as int + c.y as int,
            3 * max3(a.y as int, b.y as int, c.y as int),
            3,
        );
        vstd::arithmetic::div_mod::lemma_div_multiples_vanish(
            min3(a.y as int, b.y as int, c.y as int),
            3,
        );
        vstd::arithmetic::div_mod::lemma_div_multiples_vanish(
            max3(a.y as int, b.y as int, c.y as int),
            3,
        );
    }
    let mut it: usize = 0;
    while it < 32
        invariant
            wf_point(a),
            wf_point(b),
            wf_point(c),
            in_tri_box(cur, a, b, c),
            wf_point(cur),
        decreases 32 - it,
    {
        let da = euclidean_distance(cur, a);
        let db = euclidean_distance(cur, b);
        let dc = euclidean_distance(cur, c);
        if da == 0 || db == 0 || dc == 0 {
            return cur;
        }
        let wa: i64 = 0x10000000000 / da;
        let wb: i64 = 0x10000000000 / db;
        let wc: i64 = 0x10000000000 / dc;
        proof {
            vstd::arithmetic::div_mod::lemma_div_pos_is_pos(0x10000000000, da as int);
            vstd::arithmetic::div_mod::lemma_div_pos_is_pos(0x10000000000, db as int);
            vstd::arithmetic::div_mod::lemma_div_pos_is_pos(0x10000000000, dc as int);
            vstd::arithmetic::div_mod::lemma_div_is_ordered(da as int, 0x10000000000, da as int);
            vstd::arithmetic::div_mod::lemma_div_is_ordered(db as int, 0x10000000000, db as int);
            vstd::arithmetic::div_mod::lemma_div_is_ordered(dc as int, 0x10000000000, dc as int);
            vstd::arithmetic::div_mod::lemma_div_by_self(da as int);
            vstd::arithmetic::div_mod::lemma_div_by_self(db as int);
            vstd::arithmetic::div_mod::lemma_div_by_self(dc as int);
            vstd::arithmetic::div_mod::lemma_div_is_ordered(
                0x10000000000,
                0x10000000000,
                da as int,
            );
        }
        let nx = weighted_mean(wa, wb, wc, a.x, b.x, c.x);
        let ny = weighted_mean(wa, wb, wc, a.y, b.y, c.y);
        let moved_x = if nx >= cur.x {
            nx - cur.x
        } else {
            cur.x - nx
        };
        let moved_y = if ny >= cur.y {
            ny - cur.y
        } else {
            cur.y - ny
        };
        cur = Point { x: nx, y: ny };
        if moved_x <= epsilon && moved_y <= epsilon {
            return cur;
        }
        it = it + 1;
    }
    cur
}

/// Whether the ray cast rightward from the homogeneous point
/// `(xn / d, yn / d)` crosses the polygon edge from `a` to `b`.
pub open spec fn ray_cross(xn: int, yn: int, d: int, a: Point, b: Point) -> bool {
    let xi = a.x as int;
    let yi = a.y as int;
    let xj = b.x as int;
    let yj = b.y as int;
    ((yi * d > yn) != (yj * d > yn)) && {
        let lhs = xn * (yj - yi);
        let rhs = (xj - xi) * (yn - yi * d) + xi * d * (yj - yi);
        if yj - yi > 0 {
            lhs < rhs
        } else {
            lhs > rhs
        }
    }
}

/// Parity of ray crossings over the polygon edges from index `i` on;
/// edge `i` runs from vertex `i - 1` (wrapping) to vertex `i`.
pub open spec fn pip_from(xn: int, yn: int, d: int, poly: Seq<Point>, i: int) -> bool
    decreases poly.len() - i,
{
    if i < 0 || i >= poly.len() {
        false
    } else {
        let j = if i == 0 { poly.len() - 1 } else { i - 1 };
        ray_cross(xn, yn, d, poly[j as int], poly[i]) != pip_from(xn, yn, d, poly, i + 1)
    }
}

/// Ray-casting containment test for the homogeneous point
/// `(xn / d, yn / d)` against a polygon of integer vertices.
pub open spec fn spec_pip_h(xn: int, yn: int, d: int, poly: Seq<Point>) -> bool {
    pip_from(xn, yn, d, poly, 0)
}

/// Bound on the denominators the intersection machinery produces
/// (two to the eightieth power).
pub const D_MAX: i128 = 0x100000000000000000000;

pub open spec fn wf_hpoint(xn: i128, yn: i128, d: i128) -> bool {
    &&& 1 <= d <= D_MAX
    &&& -(X_MAX as i128) * d <= xn <= (X_MAX as i128) * d
    &&& -(X_MAX as i128) * d <= yn <= (X_MAX as i128) * d
}

/// One edge of the ray cast, on homogeneous coordinates.
fn ray_cross_exec(xn: i128, yn: i128, d: i128, a: Point, b: Point) -> (r: bool)
    requires
        wf_hpoint(xn, yn, d),
        wf_point(a),
        wf_point(b),
    ensures
        r == ray_cross(xn as int, yn as int, d as int, a, b),
{
    let xi: i128 = a.x as i128;
    let yi: i128 = a.y as i128;
    let xj: i128 = b.x as i128;
    let yj: i128 = b.y as i128;
    proof {
        assert(-0x4000000000000000000000000 <= yi * d <= 0x4000000000000000000000000)
            by (nonlinear_arith)
            requires
                -262144 <= yi <= 262144,
                1 <= d <= 0x100000000000000000000,
        ;
        assert(-0x4000000000000000000000000 <= yj * d <= 0x4000000000000000000000000)
            by (nonlinear_arith)
            requires
                -262144 <= yj <= 262144,
                1 <= d <= 0x100000000000000000000,
        ;
        assert(-0x4000000000000000000000000 <= xn <= 0x4000000000000000000000000)
            by (nonlinear_arith)
            requires
                1 <= d <= 0x100000000000000000000,
                -262144 * d <= xn <= 262144 * d,
        ;
        assert(-0x4000000000000000000000000 <= yn <= 0x4000000000000000000000000)
            by (nonlinear_arith)
            requires
                1 <= d <= 0x100000000000000000000,
                -262144 * d <= yn <= 262144 * d,
        ;
    }
    let ya: i128 = yi * d;
    let yb: i128 = yj * d;
    if (ya > yn) != (yb > yn) {
        let dyj: i128 = yj - yi;
        proof {
            assert(-0x2000000000000000000000000000000 <= xn * dyj
                <= 0x2000000000000000000000000000000) by (nonlinear_arith)
                requires
                    -0x4000000000000000000000000 <= xn <= 0x4000000000000000000000000,
                    -524288 <= dyj <= 524288,
            ;
            assert(-0x4000000000000000000000000000000 <= (xj - xi) * (yn - ya)
                <= 0x4000000000000000000000000000000) by (nonlinear_arith)
                requires
                    -524288 <= xj - xi <= 524288,
                    -0x8000000000000000000000000 <= yn - ya <= 0x8000000000000000000000000,
            ;
            assert(-0x4000000000000000000000000 <= xi * d <= 0x4000000000000000000000000)
                by (nonlinear_arith)
                requires
                    -262144 <= xi <= 262144,
                    1 <= d <= 0x100000000000000000000,
            ;
            assert(-0x2000000000000000000000000000000 <= (xi * d) * dyj
                <= 0x2000000000000000000000000000000) by (nonlinear_arith)
                requires
                    -0x4000000000000000000000000 <= xi * d <= 0x4000000000000000000000000,
                    -524288 <= dyj <= 524288,
            ;
            assert(xn * (yj - yi) == xn * dyj);
            assert((xi * d) * (yj - yi) == xi * d * dyj) by (nonlinear_arith)
                requires
                    dyj == yj - yi,
            ;
        }
        let lhs: i128 = xn * dyj;
        let rhs: i128 = (xj - xi) * (yn - ya) + (xi * d) * dyj;
        if dyj > 0 {
            lhs < rhs
        } else {
            lhs > rhs
        }
    } else {
        false
    }
}

/// Ray-casting containment test on homogeneous coordinates.
pub fn pip_h(xn: i128, yn: i128, d: i128, poly: &Vec<Point>) -> (r: bool)
    requires
        wf_hpoint(xn, yn, d),
        wf_poly(poly@),
    ensures
        r == spec_pip_h(xn as int, yn as int, d as int, poly@),
{
    let n = poly.len();
    let mut inside = false;
    let mut i: usize = 0;
    while i < n
        invariant
            0 <= i <= n,
            n == poly.len(),
            wf_hpoint(xn, yn, d),
            wf_poly(poly@),
            spec_pip_h(xn as int, yn as int, d as int, poly@) == (inside != pip_from(
                xn as int,
                yn as int,
                d as int,
                poly@,
                i as int,
            )),
        decreases n - i,
    {
        let j = if i == 0 { n - 1 } else { i - 1 };
        let crosses = ray_cross_exec(xn, yn, d, poly[j], poly[i]);
        if crosses {
            inside = !inside;
        }
        i = i + 1;
    }
    inside
}

/// Whether the homogeneous point `(xn / d, yn / d)` lies on the closed
/// segment from `a` to `b`: collinear with it and within its box.
pub open spec fn on_edge_h(xn: int, yn: int, d: int, a: Point, b: Point) -> bool {
    let ex = b.x - a.x;
    let ey = b.y - a.y;
    let px = xn - a.x * d;
    let py = yn - a.y * d;
    &&& px * ey == py * ex
    &&& (if a.x <= b.x {
        a.x * d <= xn <= b.x * d
    } else {
        b.x * d <= xn <= a.x * d
    })
    &&& (if a.y <= b.y {
        a.y * d <= yn <= b.y * d
    } else {
        b.y * d <= yn <= a.y * d
    })
}

/// Whether the homogeneous point lies on any polygon edge from index
/// `i` on; edge `i` runs from vertex `i` to vertex `i + 1` (wrapping).
pub open spec fn on_boundary_from(xn: int, yn: int, d: int, poly: Seq<Point>, i: int) -> bool
    decreases poly.len() - i,
{
    if i < 0 || i >= poly.len() {
        false
    } else {
        let b = if i + 1 == poly.len() { poly[0] } else { poly[i + 1] };
        on_edge_h(xn, yn, d, poly[i], b) || on_boundary_from(xn, yn, d, poly, i + 1)
    }
}

pub open spec fn spec_on_boundary_h(xn: int, yn: int, d: int, poly: Seq<Point>) -> bool {
    on_boundary_from(xn, yn, d, poly, 0)
}

/// One edge of the boundary test, on homogeneous coordinates.
fn on_edge_exec(xn: i128, yn: i128, d: i128, a: Point, b: Point) -> (r: bool)
    requires
        wf_hpoint(xn, yn, d),
        wf_point(a),
        wf_point(b),
    ensures
        r == on_edge_h(xn as int, yn as int, d as int, a, b),
{
    let ex: i128 = b.x as i128 - a.x as i128;
    let ey: i128 = b.y as i128 - a.y as i128;
    proof {
        assert(-0x4000000000000000000000000 <= a.x as int * d <= 0x4000000000000000000000000
            && -0x4000000000000000000000000 <= a.y as int * d <= 0x4000000000000000000000000
            && -0x4000000000000000000000000 <= b.x as int * d <= 0x4000000000000000000000000
            && -0x4000000000000000000000000 <= b.y as int * d <= 0x4000000000000000000000000)
            by (nonlinear_arith)
            requires
                -262144 <= a.x as int <= 262144,
                -262144 <= a.y as int <= 262144,
                -262144 <= b.x as int <= 262144,
                -262144 <= b.y as int <= 262144,
                1 <= d <= 0x100000000000000000000,
        ;
        assert(-0x4000000000000000000000000 <= xn <= 0x4000000000000000000000000
            && -0x4000000000000000000000000 <= yn <= 0x4000000000000000000000000)
            by (nonlinear_arith)
            requires
                1 <= d <= 0x100000000000000000000,
                -262144 * d <= xn <= 262144 * d,
                -262144 * d <= yn <= 262144 * d,
        ;
    }
    let px: i128 = xn - a.x as i128 * d;
    let py: i128 = yn - a.y as i128 * d;
    proof {
        assert(-0x4000000000000000000000000000000 <= px * ey <= 0x4000000000000000000000000000000
            && -0x4000000000000000000000000000000 <= py * ex
                <= 0x4000000000000000000000000000000) by (nonlinear_arith)
            requires
                -0x8000000000000000000000000 <= px <= 0x8000000000000000000000000,
                -0x8000000000000000000000000 <= py <= 0x8000000000000000000000000,
                -524288 <= ex <= 524288,
                -524288 <= ey <= 524288,
        ;
    }
    if px * ey != py * ex {
        return false;
    }
    let in_x = if a.x <= b.x {
        a.x as i128 * d <= xn && xn <= b.x as i128 * d
    } else {
        b.x as i128 * d <= xn && xn <= a.x as i128 * d
    };
    let in_y = if a.y <= b.y {
        a.y as i128 * d <= yn && yn <= b.y as i128 * d
    } else {
        b.y as i128 * d <= yn && yn <= a.y as i128 * d
    };
    in_x && in_y
}

/// Whether the homogeneous point lies on the polygon's boundary.
pub fn on_boundary_h(xn: i128, yn: i128, d: i128, poly: &Vec<Point>) -> (r: bool)
    requires
        wf_hpoint(xn, yn, d),
        wf_poly(poly@),
    ensures
        r == spec_on_boundary_h(xn as int, yn as int, d as int, poly@),
{
    let n = poly.len();
    let mut i: usize = 0;
    while i < n
        invariant
            0 <= i <= n,
            n == poly.len(),
            wf_hpoint(xn, yn, d),
            wf_poly(poly@),
            !on_boundary_from(xn as int, yn as int, d as int, poly@, 0) || on_boundary_from(
                xn as int,
                yn as int,
                d as int,
                poly@,
                i as int,
            ),
            on_boundary_from(xn as int, yn as int, d as int, poly@, i as int)
                ==> on_boundary_from(xn as int, yn as int, d as int, poly@, 0),
        decreases n - i,
    {
        let b = if i + 1 == n { poly[0] } else { poly[i + 1] };
        if on_edge_exec(xn, yn, d, poly[i], b) {
            return true;
        }
        i = i + 1;
    }
    false
}

/// A homogeneous point counts as inside a polygon when the ray cast has
/// odd parity and the point does not lie on the boundary itself.
pub open spec fn spec_inside_h(xn: int, yn: int, d: int, poly: Seq<Point>) -> bool {
    spec_pip_h(xn, yn, d, poly) && !spec_on_boundary_h(xn, yn, d, poly)
}

/// Containment test of a homogeneous point, excluding the boundary.
pub fn inside_h(xn: i128, yn: i128, d: i128, poly: &Vec<Point>) -> (r: bool)
    requires
        wf_hpoint(xn, yn, d),
        wf_poly(poly@),
    ensures
        r == spec_inside_h(xn as int, yn as int, d as int, poly@),
{
    if !pip_h(xn, yn, d, poly) {
        return false;
    }
    !on_boundary_h(xn, yn, d, poly)
}

/// Ray-casting containment test of an integer point against a polygon,
/// rejecting first by the polygon's bounding box; a point on the
/// boundary itself does not count as inside.
pub open spec fn spec_point_in_polygon(x: int, y: int, poly: Seq<Point>, bounds: Bounds) -> bool {
    in_bounds(x, y, bounds) && spec_inside_h(x, y, 1, poly)
}

/// Boolean point-in-polygon test: a bounding-box rejection followed by
/// ray casting.
pub fn point_in_polygon(x: i64, y: i64, polygon: &Vec<Point>, bounds: &Bounds) -> (r: bool)
    requires
        wf_coord(x),
        wf_coord(y),
        wf_poly(polygon@),
    ensures
        r == spec_point_in_polygon(x as int, y as int, polygon@, *bounds),
{
    if x < bounds.min_x || x > bounds.max_x || y < bounds.min_y || y > bounds.max_y {
        return false;
    }
    inside_h(x as i128, y as i128, 1, polygon)
}

} // verus!
