//! Largest axis-aligned rectangle inside an orthogonal polygon.
//!
//! The polygon is given by its vertex loop. Candidate rectangles have two
//! polygon vertices as opposite corners; a candidate counts when its whole
//! interior lies inside the polygon, and it is scored by the number of unit
//! tiles it covers.
//!
//! Query points are handled in doubled coordinates: the pair `(px2, py2)`
//! stands for the point `(px2 / 2, py2 / 2)`, so that the centre of every grid
//! cell is an integer pair and every test below is exact.
use crate::ordered::{
    ascending_items, lemma_increasing_unique, lemma_to_set_last, strictly_increasing,
};
use crate::text::{
    chars_of, line_views, parse_i64, read_i64, split, split_at_char, trim, trimmed, views,
};
use itertools::Itertools;
use std::collections::BTreeSet;
use vstd::prelude::*;

verus! {

/// A polygon vertex on the integer grid.
#[derive(Clone, Copy, Debug, PartialEq, Eq, Structural)]
pub struct Point2D {
    pub x: i64,
    pub y: i64,
}

/// Why no answer could be given for a vertex list.
#[derive(Clone, Copy, Debug, PartialEq, Eq, Structural)]
pub enum SearchError {
    /// Fewer than two vertices: there is no pair to span a rectangle.
    TooFewVertices,
    /// The vertices lie so far apart that a tile count is more than an `i64`
    /// holds.
    SpanTooLarge,
}

// ---------------------------------------------------------------------------
// Tile area
// ---------------------------------------------------------------------------

/// Distance between two coordinates.
pub open spec fn dist(a: int, b: int) -> int {
    if a <= b {
        b - a
    } else {
        a - b
    }
}

/// Number of unit tiles in the rectangle with opposite corners `a` and `b`,
/// both corner rows and columns included.
pub open spec fn tile_area(a: Point2D, b: Point2D) -> int {
    (dist(a.x as int, b.x as int) + 1) * (dist(a.y as int, b.y as int) + 1)
}

/// Two vertices that share a row or a column span no rectangle.
pub open spec fn degenerate(a: Point2D, b: Point2D) -> bool {
    a.x == b.x || a.y == b.y
}

// ---------------------------------------------------------------------------
// Bounding box
// ---------------------------------------------------------------------------

/// The x coordinates of the vertices, in vertex order.
pub open spec fn xcoords(pts: Seq<Point2D>) -> Seq<i64> {
    pts.map_values(|p: Point2D| p.x)
}

/// The y coordinates of the vertices, in vertex order.
pub open spec fn ycoords(pts: Seq<Point2D>) -> Seq<i64> {
    pts.map_values(|p: Point2D| p.y)
}

/// Smallest value of a non-empty sequence (0 for the empty one).
pub open spec fn min_of(s: Seq<i64>) -> int
    decreases s.len(),
{
    if s.len() == 0 {
        0
    } else if s.len() == 1 {
        s[0] as int
    } else {
        let m = min_of(s.drop_last());
        if s.last() < m {
            s.last() as int
        } else {
            m
        }
    }
}

/// Largest value of a non-empty sequence (0 for the empty one).
pub open spec fn max_of(s: Seq<i64>) -> int
    decreases s.len(),
{
    if s.len() == 0 {
        0
    } else if s.len() == 1 {
        s[0] as int
    } else {
        let m = max_of(s.drop_last());
        if s.last() > m {
            s.last() as int
        } else {
            m
        }
    }
}

/// Width of the bounding box of the vertices.
pub open spec fn span_x(pts: Seq<Point2D>) -> int {
    max_of(xcoords(pts)) - min_of(xcoords(pts))
}

/// Height of the bounding box of the vertices.
pub open spec fn span_y(pts: Seq<Point2D>) -> int {
    max_of(ycoords(pts)) - min_of(ycoords(pts))
}

/// The area of the bounding box is below `2^126`, so that twice the area is
/// a number that an `i128` holds: the bound under which the table of areas
/// is built. It holds wherever both spans fit an `i64`.
pub open spec fn grid_fits(pts: Seq<Point2D>) -> bool {
    span_x(pts) * span_y(pts) < 0x4000_0000_0000_0000_0000_0000_0000_0000
}

/// Every element lies between the minimum and the maximum.
pub proof fn lemma_min_max_bound(s: Seq<i64>, k: int)
    requires
        0 <= k < s.len(),
    ensures
        min_of(s) <= s[k] <= max_of(s),
    decreases s.len(),
{
    if s.len() > 1 && k < s.len() - 1 {
        lemma_min_max_bound(s.drop_last(), k);
    } else if s.len() > 1 {
        lemma_min_max_bound(s.drop_last(), 0);
    }
}

/// Every vertex lies in the bounding box.
pub proof fn lemma_vertex_in_box(pts: Seq<Point2D>, k: int)
    requires
        0 <= k < pts.len(),
    ensures
        min_of(xcoords(pts)) <= pts[k].x <= max_of(xcoords(pts)),
        min_of(ycoords(pts)) <= pts[k].y <= max_of(ycoords(pts)),
{
    lemma_min_max_bound(xcoords(pts), k);
    lemma_min_max_bound(ycoords(pts), k);
}

/// The product of a width and a height that both lie inside the spans of the
/// vertices is at most the area of the bounding box.
pub proof fn lemma_product_in_box(pts: Seq<Point2D>, w: int, h: int)
    requires
        grid_fits(pts),
        0 <= w <= span_x(pts),
        0 <= h <= span_y(pts),
    ensures
        0 <= w * h <= span_x(pts) * span_y(pts),
        w * h < 0x4000_0000_0000_0000_0000_0000_0000_0000,
{
    let sx = span_x(pts);
    let sy = span_y(pts);
    assert(0 <= w * h && w * h <= sx * sy) by (nonlinear_arith)
        requires
            0 <= w <= sx,
            0 <= h <= sy,
    ;
}

/// Where both spans fit an `i64`, the area of the bounding box is below
/// `2^126`.
pub proof fn lemma_spans_in_i64_fit(pts: Seq<Point2D>)
    requires
        0 <= span_x(pts) <= i64::MAX,
        0 <= span_y(pts) <= i64::MAX,
    ensures
        grid_fits(pts),
{
    let sx = span_x(pts);
    let sy = span_y(pts);
    assert(sx * sy <= 0x7fff_ffff_ffff_ffff * 0x7fff_ffff_ffff_ffff) by (nonlinear_arith)
        requires
            0 <= sx <= 0x7fff_ffff_ffff_ffff,
            0 <= sy <= 0x7fff_ffff_ffff_ffff,
    ;
}

/// Inclusive tile count of the rectangle spanned by `a` and `b`.
pub fn rect_area_tiles(a: &Point2D, b: &Point2D) -> (area: i64)
    requires
        tile_area(*a, *b) <= i64::MAX,
    ensures
        area == tile_area(*a, *b),
{
    let dx: i128 = if a.x <= b.x {
        b.x as i128 - a.x as i128
    } else {
        a.x as i128 - b.x as i128
    };
    let dy: i128 = if a.y <= b.y {
        b.y as i128 - a.y as i128
    } else {
        a.y as i128 - b.y as i128
    };
    assert(dx + 1 <= (dx + 1) * (dy + 1) && dy + 1 <= (dx + 1) * (dy + 1)) by (nonlinear_arith)
        requires
            dx >= 0,
            dy >= 0,
    ;
    let w: i64 = (dx + 1) as i64;
    let h: i64 = (dy + 1) as i64;
    w * h
}

// ---------------------------------------------------------------------------
// Interior classifier
// ---------------------------------------------------------------------------

/// The vertex that closes the edge starting at vertex `k`.
pub open spec fn next_vertex(pts: Seq<Point2D>, k: int) -> Point2D {
    if k + 1 == pts.len() {
        pts[0]
    } else {
        pts[k + 1]
    }
}

/// The query point lies on the axis-aligned edge from `a` to `b`, end points
/// included. An edge between equal vertices is the single point.
pub open spec fn on_edge(a: Point2D, b: Point2D, px2: int, py2: int) -> bool {
    if a.y == b.y {
        py2 == 2 * a.y && 2 * a.x <= px2 <= 2 * b.x || py2 == 2 * a.y && 2 * b.x <= px2 <= 2 * a.x
    } else if a.x == b.x {
        px2 == 2 * a.x && 2 * a.y <= py2 <= 2 * b.y || px2 == 2 * a.x && 2 * b.y <= py2 <= 2 * a.y
    } else {
        false
    }
}

/// The ray from the query point towards +x crosses the edge from `a` to `b`:
/// the edge's end points lie on different sides of the query's height, and the
/// edge meets that height strictly to the right of the query.
pub open spec fn crosses(a: Point2D, b: Point2D, px2: int, py2: int) -> bool {
    &&& (2 * a.y > py2) != (2 * b.y > py2)
    &&& if b.y > a.y {
        (py2 - 2 * a.y) * (b.x - a.x) > (px2 - 2 * a.x) * (b.y - a.y)
    } else {
        (py2 - 2 * a.y) * (b.x - a.x) < (px2 - 2 * a.x) * (b.y - a.y)
    }
}

/// The query point lies on one of the polygon's edges.
pub open spec fn on_boundary(pts: Seq<Point2D>, px2: int, py2: int) -> bool {
    exists|k: int| 0 <= k < pts.len() && #[trigger] on_edge(pts[k], next_vertex(pts, k), px2, py2)
}

/// Among the first `k` edges, the ray crosses an odd number.
pub open spec fn crossings_odd(pts: Seq<Point2D>, px2: int, py2: int, k: int) -> bool
    decreases k,
{
    if k <= 0 {
        false
    } else {
        crossings_odd(pts, px2, py2, k - 1) != crosses(pts[k - 1], next_vertex(pts, k - 1), px2, py2)
    }
}

/// Even-odd rule with the boundary counted as inside.
pub open spec fn point_inside(pts: Seq<Point2D>, px2: int, py2: int) -> bool {
    on_boundary(pts, px2, py2) || crossings_odd(pts, px2, py2, pts.len() as int)
}

/// A point on an edge of the polygon is classified as inside.
pub proof fn lemma_boundary_is_inside(pts: Seq<Point2D>, k: int, px2: int, py2: int)
    requires
        0 <= k < pts.len(),
        on_edge(pts[k], next_vertex(pts, k), px2, py2),
    ensures
        point_inside(pts, px2, py2),
{
}

/// A query point to the right of both ends of an edge is past the place
/// where the edge meets its height: the ray does not cross the edge.
pub proof fn lemma_right_of_edge(a: Point2D, b: Point2D, px2: int, py2: int)
    requires
        px2 > 2 * a.x,
        px2 > 2 * b.x,
    ensures
        !crosses(a, b, px2, py2),
{
    let u = py2 - 2 * a.y;
    let v = b.x - a.x;
    let s = px2 - 2 * a.x;
    let t = b.y - a.y;
    if (2 * a.y > py2) != (2 * b.y > py2) {
        if t > 0 {
            assert(u * v <= s * t) by (nonlinear_arith)
                requires
                    0 <= u < 2 * t,
                    s > 0,
                    s > 2 * v,
            ;
        } else {
            assert(u * v >= s * t) by (nonlinear_arith)
                requires
                    2 * t <= u < 0,
                    s > 0,
                    s > 2 * v,
            ;
        }
    }
}

/// A query point to the left of both ends of an edge whose ends lie on
/// different sides of its height is before the place where the edge meets
/// that height: the ray crosses the edge.
pub proof fn lemma_left_of_edge(a: Point2D, b: Point2D, px2: int, py2: int)
    requires
        px2 < 2 * a.x,
        px2 < 2 * b.x,
        (2 * a.y > py2) != (2 * b.y > py2),
    ensures
        crosses(a, b, px2, py2),
{
    let u = py2 - 2 * a.y;
    let v = b.x - a.x;
    let s = px2 - 2 * a.x;
    let t = b.y - a.y;
    if t > 0 {
        assert(u * v > s * t) by (nonlinear_arith)
            requires
                0 <= u < 2 * t,
                s < 0,
                s < 2 * v,
        ;
    } else {
        assert(u * v < s * t) by (nonlinear_arith)
            requires
                2 * t <= u < 0,
                s < 0,
                s < 2 * v,
        ;
    }
}

/// The product of two numbers below `2^66`, as a high part and a low part
/// below `2^64`: the product is `hi * 2^64 + lo`.
fn wide_product(a: u128, b: u128) -> (parts: (u128, u128))
    requires
        a < 0x4_0000_0000_0000_0000,
        b < 0x4_0000_0000_0000_0000,
    ensures
        parts.0 * 0x1_0000_0000_0000_0000 + parts.1 == a * b,
        parts.1 < 0x1_0000_0000_0000_0000,
{
    let ah: u128 = a / 0x1_0000_0000;
    let al: u128 = a % 0x1_0000_0000;
    let bh: u128 = b / 0x1_0000_0000;
    let bl: u128 = b % 0x1_0000_0000;
    assert(ah * bh <= 0x3_ffff_ffff * 0x3_ffff_ffff && ah * bl <= 0x3_ffff_ffff * 0xffff_ffff && al
        * bh <= 0xffff_ffff * 0x3_ffff_ffff && al * bl <= 0xffff_ffff * 0xffff_ffff)
        by (nonlinear_arith)
        requires
            ah <= 0x3_ffff_ffff,
            bh <= 0x3_ffff_ffff,
            al <= 0xffff_ffff,
            bl <= 0xffff_ffff,
    ;
    let hh: u128 = ah * bh;
    let mid: u128 = ah * bl + al * bh;
    let ll: u128 = al * bl;
    assert(a * b == hh * 0x1_0000_0000_0000_0000 + mid * 0x1_0000_0000 + ll) by (nonlinear_arith)
        requires
            a == ah * 0x1_0000_0000 + al,
            b == bh * 0x1_0000_0000 + bl,
            hh == ah * bh,
            mid == ah * bl + al * bh,
            ll == al * bl,
    ;
    let mh: u128 = mid / 0x1_0000_0000;
    let ml: u128 = mid % 0x1_0000_0000;
    let low: u128 = ml * 0x1_0000_0000 + ll;
    let carry: u128 = low / 0x1_0000_0000_0000_0000;
    let lo: u128 = low % 0x1_0000_0000_0000_0000;
    (hh + mh + carry, lo)
}

/// The size of a number without its sign.
pub open spec fn magnitude(x: int) -> int {
    if x < 0 {
        -x
    } else {
        x
    }
}

/// Decides whether `u * v` is more than `s * t`, for factors whose products
/// an `i128` need not hold.
fn product_exceeds(u: i128, v: i128, s: i128, t: i128) -> (more: bool)
    requires
        magnitude(u as int) < 0x4_0000_0000_0000_0000,
        magnitude(v as int) < 0x4_0000_0000_0000_0000,
        magnitude(s as int) < 0x4_0000_0000_0000_0000,
        magnitude(t as int) < 0x4_0000_0000_0000_0000,
    ensures
        more == (u * v > s * t),
{
    let mu: u128 = if u < 0 { (-u) as u128 } else { u as u128 };
    let mv: u128 = if v < 0 { (-v) as u128 } else { v as u128 };
    let ms: u128 = if s < 0 { (-s) as u128 } else { s as u128 };
    let mt: u128 = if t < 0 { (-t) as u128 } else { t as u128 };
    let (h1, l1) = wide_product(mu, mv);
    let (h2, l2) = wide_product(ms, mt);
    let neg1: bool = (u < 0) != (v < 0);
    let neg2: bool = (s < 0) != (t < 0);
    let ghost m1: int = h1 * 0x1_0000_0000_0000_0000 + l1;
    let ghost m2: int = h2 * 0x1_0000_0000_0000_0000 + l2;
    proof {
        assert(u * v == if neg1 { -m1 } else { m1 }) by (nonlinear_arith)
            requires
                m1 == mu * mv,
                mu == magnitude(u as int),
                mv == magnitude(v as int),
                neg1 == ((u < 0) != (v < 0)),
        ;
        assert(s * t == if neg2 { -m2 } else { m2 }) by (nonlinear_arith)
            requires
                m2 == ms * mt,
                ms == magnitude(s as int),
                mt == magnitude(t as int),
                neg2 == ((s < 0) != (t < 0)),
        ;
    }
    if neg1 && neg2 {
        h1 < h2 || (h1 == h2 && l1 < l2)
    } else if neg1 {
        false
    } else if neg2 {
        h1 != 0 || l1 != 0 || h2 != 0 || l2 != 0
    } else {
        h1 > h2 || (h1 == h2 && l1 > l2)
    }
}

/// Decides whether the edge from `a` to `b` is crossed by the ray from the
/// query point.
fn edge_crossed(a: Point2D, b: Point2D, px: i128, py: i128) -> (c: bool)
    ensures
        c == crosses(a, b, px as int, py as int),
{
    let ax: i128 = 2 * (a.x as i128);
    let bx: i128 = 2 * (b.x as i128);
    let ay: i128 = 2 * (a.y as i128);
    let by: i128 = 2 * (b.y as i128);
    if (ay > py) == (by > py) {
        return false;
    }
    if px > ax && px > bx {
        proof {
            lemma_right_of_edge(a, b, px as int, py as int);
        }
        return false;
    }
    if px < ax && px < bx {
        proof {
            lemma_left_of_edge(a, b, px as int, py as int);
        }
        return true;
    }
    // The query lies between the ends of the edge in both directions, so the
    // four differences are small, though their products may not be.
    let u: i128 = py - ay;
    let v: i128 = b.x as i128 - a.x as i128;
    let s: i128 = px - ax;
    let t: i128 = b.y as i128 - a.y as i128;
    if b.y > a.y {
        product_exceeds(u, v, s, t)
    } else {
        product_exceeds(s, t, u, v)
    }
}

/// Decides whether the query point lies on the edge from `a` to `b`.
fn edge_touched(a: Point2D, b: Point2D, px: i128, py: i128) -> (t: bool)
    ensures
        t == on_edge(a, b, px as int, py as int),
{
    let ax: i128 = 2 * (a.x as i128);
    let ay: i128 = 2 * (a.y as i128);
    let bx: i128 = 2 * (b.x as i128);
    let by: i128 = 2 * (b.y as i128);
    if a.y == b.y {
        py == ay && (ax <= px && px <= bx || bx <= px && px <= ax)
    } else if a.x == b.x {
        px == ax && (ay <= py && py <= by || by <= py && py <= ay)
    } else {
        false
    }
}

/// Even-odd point-in-polygon test, boundary included, for the point whose
/// doubled coordinates are `p`.
pub fn point_in_poly_even_odd(p: (i128, i128), poly: &Vec<Point2D>) -> (res: bool)
    ensures
        res == point_inside(poly@, p.0 as int, p.1 as int),
{
    let px: i128 = p.0;
    let py: i128 = p.1;
    let n: usize = poly.len();
    let mut inside: bool = false;
    let mut i: usize = 0;
    while i < n
        invariant
            n == poly.len(),
            i <= n,
            px == p.0,
            py == p.1,
            forall|k: int| 0 <= k < i ==> !#[trigger] on_edge(poly@[k], next_vertex(poly@, k), px as int, py as int),
            inside == crossings_odd(poly@, px as int, py as int, i as int),
        decreases n - i,
    {
        let a: Point2D = poly[i];
        let b: Point2D = if i + 1 == n {
            poly[0]
        } else {
            poly[i + 1]
        };
        assert(b == next_vertex(poly@, i as int));
        if edge_touched(a, b, px, py) {
            assert(on_edge(poly@[i as int], next_vertex(poly@, i as int), px as int, py as int));
            return true;
        }
        if edge_crossed(a, b, px, py) {
            inside = !inside;
        }
        i += 1;
    }
    inside
}

// ---------------------------------------------------------------------------
// Coordinate lines
// ---------------------------------------------------------------------------

/// Puts `v` at its place in an ascending sequence unless it is there already.
pub open spec fn insert_line(s: Seq<i64>, v: i64) -> Seq<i64>
    decreases s.len(),
{
    if s.len() == 0 {
        seq![v]
    } else if v > s.last() {
        s.push(v)
    } else if v == s.last() {
        s
    } else {
        insert_line(s.drop_last(), v).push(s.last())
    }
}

/// The distinct values of `vals` in ascending order.
pub open spec fn lines_of(vals: Seq<i64>) -> Seq<i64>
    decreases vals.len(),
{
    if vals.len() == 0 {
        Seq::empty()
    } else {
        insert_line(lines_of(vals.drop_last()), vals.last())
    }
}

/// The vertical grid lines: the distinct vertex x coordinates, ascending.
pub open spec fn grid_xs(pts: Seq<Point2D>) -> Seq<i64> {
    lines_of(xcoords(pts))
}

/// The horizontal grid lines: the distinct vertex y coordinates, ascending.
pub open spec fn grid_ys(pts: Seq<Point2D>) -> Seq<i64> {
    lines_of(ycoords(pts))
}

/// Inserting into an ascending sequence keeps it ascending and adds exactly
/// the inserted value.
pub proof fn lemma_insert_line(s: Seq<i64>, v: i64)
    requires
        strictly_increasing(s),
    ensures
        strictly_increasing(insert_line(s, v)),
        insert_line(s, v).to_set() == s.to_set().insert(v),
        insert_line(s, v).len() > 0,
        insert_line(s, v).last() == (if s.len() > 0 && s.last() > v { s.last() } else { v }),
    decreases s.len(),
{
    let r = insert_line(s, v);
    if s.len() == 0 {
        lemma_to_set_last(r);
        assert(r.drop_last() =~= s);
    } else if v > s.last() {
        assert(r.drop_last() == s);
        assert(r.to_set() =~= s.to_set().insert(v)) by {
            assert forall|x: i64| r.to_set().contains(x) <==> s.to_set().insert(v).contains(x) by {
                if r.to_set().contains(x) {
                    let k = choose|k: int| 0 <= k < r.len() && r[k] == x;
                    if k < s.len() {
                        assert(s[k] == x);
                    }
                }
                if s.to_set().contains(x) {
                    let k = choose|k: int| 0 <= k < s.len() && s[k] == x;
                    assert(r[k] == x);
                }
                if x == v {
                    assert(r[s.len() as int] == v);
                }
            }
        }
    } else if v == s.last() {
        assert(s.to_set().contains(v)) by {
            assert(s[s.len() - 1] == v);
        }
        assert(r.to_set() =~= s.to_set().insert(v));
    } else {
        let t = s.drop_last();
        let q = insert_line(t, v);
        assert(strictly_increasing(t));
        lemma_insert_line(t, v);
        assert(q.last() < s.last()) by {
            if t.len() > 0 {
                assert(t.last() == s[s.len() - 2]);
            }
        }
        assert(strictly_increasing(r)) by {
            assert forall|i: int, j: int| 0 <= i < j < r.len() implies r[i] < r[j] by {
                if j < q.len() {
                    assert(r[i] == q[i] && r[j] == q[j]);
                } else {
                    assert(r[j] == s.last());
                    assert(r[i] == q[i]);
                    assert(q[i] <= q.last()) by {
                        if i < q.len() - 1 {
                            assert(q[i] < q[q.len() - 1]);
                        }
                    }
                }
            }
        }
        assert(r.to_set() =~= s.to_set().insert(v)) by {
            assert forall|x: i64| r.to_set().contains(x) <==> s.to_set().insert(v).contains(x) by {
                if r.to_set().contains(x) {
                    let k = choose|k: int| 0 <= k < r.len() && r[k] == x;
                    if k < q.len() {
                        assert(q[k] == x);
                        assert(q.to_set().contains(x));
                        assert(t.to_set().insert(v).contains(x));
                        if x != v {
                            let m = choose|m: int| 0 <= m < t.len() && t[m] == x;
                            assert(s[m] == x);
                        }
                    } else {
                        assert(s[s.len() - 1] == x);
                    }
                }
                if s.to_set().contains(x) {
                    let k = choose|k: int| 0 <= k < s.len() && s[k] == x;
                    if k < t.len() {
                        assert(t[k] == x);
                        assert(t.to_set().contains(x));
                        assert(q.to_set().contains(x));
                        let m = choose|m: int| 0 <= m < q.len() && q[m] == x;
                        assert(r[m] == x);
                    } else {
                        assert(r[r.len() - 1] == x);
                    }
                }
                if x == v {
                    assert(q.to_set().contains(v));
                    let m = choose|m: int| 0 <= m < q.len() && q[m] == v;
                    assert(r[m] == v);
                }
            }
        }
    }
}

/// The coordinate lines are ascending, free of repetition, and hold exactly
/// the values they were derived from.
pub proof fn lemma_lines_of(vals: Seq<i64>)
    ensures
        strictly_increasing(lines_of(vals)),
        lines_of(vals).to_set() == vals.to_set(),
    decreases vals.len(),
{
    if vals.len() == 0 {
        assert(lines_of(vals).to_set() =~= vals.to_set());
    } else {
        let t = vals.drop_last();
        lemma_lines_of(t);
        lemma_insert_line(lines_of(t), vals.last());
        lemma_to_set_last(vals);
    }
}

/// Every vertical grid line passes through a vertex, and every vertex lies on
/// one; so all of them lie in the bounding box.
pub proof fn lemma_grid_xs(pts: Seq<Point2D>)
    ensures
        strictly_increasing(grid_xs(pts)),
        forall|i: int| 0 <= i < grid_xs(pts).len() ==> min_of(xcoords(pts)) <= #[trigger] grid_xs(pts)[i] <= max_of(xcoords(pts)),
        forall|k: int| 0 <= k < pts.len() ==> grid_xs(pts).contains(#[trigger] pts[k].x),
        pts.len() > 0 ==> grid_xs(pts).len() > 0,
{
    let xs = grid_xs(pts);
    let vals = xcoords(pts);
    lemma_lines_of(vals);
    assert forall|i: int| 0 <= i < xs.len() implies min_of(vals) <= #[trigger] xs[i] <= max_of(vals) by {
        assert(xs.to_set().contains(xs[i]));
        assert(vals.to_set().contains(xs[i]));
        let k = choose|k: int| 0 <= k < vals.len() && vals[k] == xs[i];
        lemma_min_max_bound(vals, k);
    }
    assert forall|k: int| 0 <= k < pts.len() implies xs.contains(#[trigger] pts[k].x) by {
        assert(vals[k] == pts[k].x);
        assert(vals.to_set().contains(pts[k].x));
        assert(xs.to_set().contains(pts[k].x));
    }
    if pts.len() > 0 {
        assert(xs.contains(pts[0].x));
    }
}

/// Every horizontal grid line passes through a vertex, and every vertex lies
/// on one; so all of them lie in the bounding box.
pub proof fn lemma_grid_ys(pts: Seq<Point2D>)
    ensures
        strictly_increasing(grid_ys(pts)),
        forall|j: int| 0 <= j < grid_ys(pts).len() ==> min_of(ycoords(pts)) <= #[trigger] grid_ys(pts)[j] <= max_of(ycoords(pts)),
        forall|k: int| 0 <= k < pts.len() ==> grid_ys(pts).contains(#[trigger] pts[k].y),
        pts.len() > 0 ==> grid_ys(pts).len() > 0,
{
    let ys = grid_ys(pts);
    let vals = ycoords(pts);
    lemma_lines_of(vals);
    assert forall|j: int| 0 <= j < ys.len() implies min_of(vals) <= #[trigger] ys[j] <= max_of(vals) by {
        assert(ys.to_set().contains(ys[j]));
        assert(vals.to_set().contains(ys[j]));
        let k = choose|k: int| 0 <= k < vals.len() && vals[k] == ys[j];
        lemma_min_max_bound(vals, k);
    }
    assert forall|k: int| 0 <= k < pts.len() implies ys.contains(#[trigger] pts[k].y) by {
        assert(vals[k] == pts[k].y);
        assert(vals.to_set().contains(pts[k].y));
        assert(ys.to_set().contains(pts[k].y));
    }
    if pts.len() > 0 {
        assert(ys.contains(pts[0].y));
    }
}

/// The grid lines of a vertex list: its distinct x and y coordinates, each
/// list ascending.
pub fn coordinate_lines(poly: &Vec<Point2D>) -> (lines: (Vec<i64>, Vec<i64>))
    ensures
        lines.0@ == grid_xs(poly@),
        lines.1@ == grid_ys(poly@),
{
    broadcast use vstd::std_specs::btree::group_btree_axioms;

    let mut xs_set: BTreeSet<i64> = BTreeSet::new();
    let mut ys_set: BTreeSet<i64> = BTreeSet::new();
    let mut i: usize = 0;
    while i < poly.len()
        invariant
            i <= poly.len(),
            xs_set@ == xcoords(poly@).take(i as int).to_set(),
            ys_set@ == ycoords(poly@).take(i as int).to_set(),
        decreases poly.len() - i,
    {
        let p: Point2D = poly[i];
        xs_set.insert(p.x);
        ys_set.insert(p.y);
        proof {
            let tx = xcoords(poly@).take(i + 1);
            assert(tx.drop_last() == xcoords(poly@).take(i as int));
            lemma_to_set_last(tx);
            let ty = ycoords(poly@).take(i + 1);
            assert(ty.drop_last() == ycoords(poly@).take(i as int));
            lemma_to_set_last(ty);
        }
        i += 1;
    }
    let xs: Vec<i64> = ascending_items(&xs_set);
    let ys: Vec<i64> = ascending_items(&ys_set);
    proof {
        assert(xcoords(poly@).take(poly.len() as int) == xcoords(poly@));
        assert(ycoords(poly@).take(poly.len() as int) == ycoords(poly@));
        lemma_lines_of(xcoords(poly@));
        lemma_lines_of(ycoords(poly@));
        lemma_increasing_unique(xs@, grid_xs(poly@));
        lemma_increasing_unique(ys@, grid_ys(poly@));
    }
    (xs, ys)
}

// ---------------------------------------------------------------------------
// Grid cells and their areas
// ---------------------------------------------------------------------------

/// Number of cell columns of the grid.
pub open spec fn cell_cols(pts: Seq<Point2D>) -> int {
    if grid_xs(pts).len() == 0 {
        0
    } else {
        grid_xs(pts).len() - 1
    }
}

/// Number of cell rows of the grid.
pub open spec fn cell_rows(pts: Seq<Point2D>) -> int {
    if grid_ys(pts).len() == 0 {
        0
    } else {
        grid_ys(pts).len() - 1
    }
}

/// The centre of cell `(i, j)` lies inside the polygon or on its boundary.
pub open spec fn cell_inside(pts: Seq<Point2D>, i: int, j: int) -> bool {
    point_inside(
        pts,
        grid_xs(pts)[i] + grid_xs(pts)[i + 1],
        grid_ys(pts)[j] + grid_ys(pts)[j + 1],
    )
}

/// Width times height of cell `(i, j)`.
pub open spec fn cell_size(pts: Seq<Point2D>, i: int, j: int) -> int {
    (grid_xs(pts)[i + 1] - grid_xs(pts)[i]) * (grid_ys(pts)[j + 1] - grid_ys(pts)[j])
}

/// Interior area of cell `(i, j)`: its size if its centre is inside, else 0.
pub open spec fn cell_area(pts: Seq<Point2D>, i: int, j: int) -> int {
    if cell_inside(pts, i, j) {
        cell_size(pts, i, j)
    } else {
        0
    }
}

/// Interior area of the cells `i1 <= i < i2` of row `j`.
pub open spec fn row_span(pts: Seq<Point2D>, j: int, i1: int, i2: int) -> int
    decreases i2 - i1,
{
    if i2 <= i1 {
        0
    } else {
        row_span(pts, j, i1, i2 - 1) + cell_area(pts, i2 - 1, j)
    }
}

/// Interior area of the cells `i1 <= i < i2`, `j1 <= j < j2`.
pub open spec fn region_area(pts: Seq<Point2D>, i1: int, i2: int, j1: int, j2: int) -> int
    decreases j2 - j1,
{
    if j2 <= j1 {
        0
    } else {
        region_area(pts, i1, i2, j1, j2 - 1) + row_span(pts, j2 - 1, i1, i2)
    }
}

/// Interior area of the cells left of line `i` and below line `j`.
pub open spec fn prefix_area(pts: Seq<Point2D>, i: int, j: int) -> int {
    region_area(pts, 0, i, 0, j)
}

/// `p` is the table of cumulative interior areas: one row per horizontal
/// line and one entry per vertical line (a single zero where there are no
/// lines), entry `(j, i)` holding the interior area left of line `i` and
/// below line `j`.
pub open spec fn is_prefix_table(p: Seq<Vec<i128>>, pts: Seq<Point2D>) -> bool {
    &&& p.len() == cell_rows(pts) + 1
    &&& forall|j: int| 0 <= j < p.len() ==> (#[trigger] p[j]).len() == cell_cols(pts) + 1
    &&& forall|j: int, i: int|
        0 <= j <= cell_rows(pts) && 0 <= i <= cell_cols(pts) ==> #[trigger] p[j][i] == prefix_area(
            pts,
            i,
            j,
        )
}

/// The first row and the first column of the table are 0, and every entry
/// is an area between 0 and the size of the box that it covers.
pub open spec fn edges_in_box(p: Seq<Vec<i128>>, pts: Seq<Point2D>) -> bool {
    &&& forall|i: int| 0 <= i <= cell_cols(pts) ==> #[trigger] p[0][i] == 0
    &&& forall|j: int| 0 <= j <= cell_rows(pts) ==> (#[trigger] p[j])[0] == 0
    &&& forall|j: int, i: int|
        0 <= j <= cell_rows(pts) && 0 <= i <= cell_cols(pts) ==> 0 <= #[trigger] p[j][i] <= (grid_xs(
            pts,
        )[i] - grid_xs(pts)[0]) * (grid_ys(pts)[j] - grid_ys(pts)[0])
}

/// A stretch of a row is what lies left of its end less what lies left of
/// its start.
pub proof fn lemma_row_span_split(pts: Seq<Point2D>, j: int, i1: int, i2: int)
    requires
        0 <= i1 <= i2,
    ensures
        row_span(pts, j, 0, i2) == row_span(pts, j, 0, i1) + row_span(pts, j, i1, i2),
    decreases i2 - i1,
{
    if i2 > i1 {
        lemma_row_span_split(pts, j, i1, i2 - 1);
    }
}

/// Nothing lies left of the first line or below the first line.
pub proof fn lemma_prefix_zero(pts: Seq<Point2D>, i: int, j: int)
    ensures
        prefix_area(pts, i, 0) == 0,
        prefix_area(pts, 0, j) == 0,
    decreases j,
{
    if j > 0 {
        lemma_prefix_zero(pts, i, j - 1);
    }
}

/// The running-sum rule by which the table is filled.
pub proof fn lemma_prefix_step(pts: Seq<Point2D>, i: int, j: int)
    requires
        0 <= i,
        0 <= j,
    ensures
        prefix_area(pts, i + 1, j + 1) == cell_area(pts, i, j) + prefix_area(pts, i, j + 1)
            + prefix_area(pts, i + 1, j) - prefix_area(pts, i, j),
{
}

/// The interior area of a block of cells by inclusion and exclusion of four
/// cumulative areas.
pub proof fn lemma_region_by_prefix(pts: Seq<Point2D>, i1: int, i2: int, j1: int, j2: int)
    requires
        0 <= i1 <= i2,
        0 <= j1 <= j2,
    ensures
        region_area(pts, i1, i2, j1, j2) == prefix_area(pts, i2, j2) - prefix_area(pts, i2, j1)
            - prefix_area(pts, i1, j2) + prefix_area(pts, i1, j1),
    decreases j2 - j1,
{
    if j2 > j1 {
        lemma_region_by_prefix(pts, i1, i2, j1, j2 - 1);
        lemma_row_span_split(pts, j2 - 1, i1, i2);
    }
}

/// The interior area of a cell is at most its size, which is positive.
pub proof fn lemma_cell_bound(pts: Seq<Point2D>, i: int, j: int)
    requires
        0 <= i < cell_cols(pts),
        0 <= j < cell_rows(pts),
    ensures
        0 <= cell_area(pts, i, j) <= cell_size(pts, i, j),
        0 < cell_size(pts, i, j),
{
    lemma_grid_xs(pts);
    lemma_grid_ys(pts);
    let w = grid_xs(pts)[i + 1] - grid_xs(pts)[i];
    let h = grid_ys(pts)[j + 1] - grid_ys(pts)[j];
    assert(0 < w * h) by (nonlinear_arith)
        requires
            0 < w,
            0 < h,
    ;
}

/// The interior area of a stretch of a row is at most the stretch's size.
pub proof fn lemma_row_bound(pts: Seq<Point2D>, j: int, i1: int, i2: int)
    requires
        0 <= i1 <= i2 <= cell_cols(pts),
        0 <= j < cell_rows(pts),
    ensures
        0 <= row_span(pts, j, i1, i2) <= (grid_xs(pts)[i2] - grid_xs(pts)[i1]) * (grid_ys(pts)[j
            + 1] - grid_ys(pts)[j]),
    decreases i2 - i1,
{
    let xs = grid_xs(pts);
    let h = grid_ys(pts)[j + 1] - grid_ys(pts)[j];
    if i2 > i1 {
        lemma_row_bound(pts, j, i1, i2 - 1);
        lemma_cell_bound(pts, i2 - 1, j);
        let a = xs[i2 - 1] - xs[i1];
        let b = xs[i2] - xs[i2 - 1];
        assert((a + b) * h == a * h + b * h) by (nonlinear_arith);
    } else {
        assert((xs[i2] - xs[i1]) * h == 0) by (nonlinear_arith)
            requires
                xs[i2] - xs[i1] == 0,
        ;
    }
}

/// The interior area of a block of cells is at most the block's size.
pub proof fn lemma_region_bound(pts: Seq<Point2D>, i1: int, i2: int, j1: int, j2: int)
    requires
        0 <= i1 <= i2 <= cell_cols(pts),
        0 <= j1 <= j2 <= cell_rows(pts),
    ensures
        0 <= region_area(pts, i1, i2, j1, j2) <= (grid_xs(pts)[i2] - grid_xs(pts)[i1]) * (grid_ys(
            pts,
        )[j2] - grid_ys(pts)[j1]),
    decreases j2 - j1,
{
    let ys = grid_ys(pts);
    let w = grid_xs(pts)[i2] - grid_xs(pts)[i1];
    if j2 > j1 {
        lemma_region_bound(pts, i1, i2, j1, j2 - 1);
        lemma_row_bound(pts, j2 - 1, i1, i2);
        let a = ys[j2 - 1] - ys[j1];
        let b = ys[j2] - ys[j2 - 1];
        assert(w * (a + b) == w * a + w * b) by (nonlinear_arith);
    } else {
        assert(w * (ys[j2] - ys[j1]) == 0) by (nonlinear_arith)
            requires
                ys[j2] - ys[j1] == 0,
        ;
    }
}

/// The cumulative area grows from line to line, to the right and upwards.
pub proof fn lemma_prefix_monotone(pts: Seq<Point2D>, i: int, j: int)
    requires
        0 <= i < cell_cols(pts),
        0 <= j < cell_rows(pts),
    ensures
        prefix_area(pts, i, j) <= prefix_area(pts, i + 1, j),
        prefix_area(pts, i, j) <= prefix_area(pts, i, j + 1),
        prefix_area(pts, i + 1, j) <= prefix_area(pts, i + 1, j + 1),
        prefix_area(pts, i, j + 1) <= prefix_area(pts, i + 1, j + 1),
{
    lemma_region_by_prefix(pts, i, i + 1, 0, j);
    lemma_region_bound(pts, i, i + 1, 0, j);
    lemma_region_by_prefix(pts, i, i + 1, 0, j + 1);
    lemma_region_bound(pts, i, i + 1, 0, j + 1);
    lemma_region_by_prefix(pts, 0, i, j, j + 1);
    lemma_region_bound(pts, 0, i, j, j + 1);
    lemma_region_by_prefix(pts, 0, i + 1, j, j + 1);
    lemma_region_bound(pts, 0, i + 1, j, j + 1);
    lemma_prefix_zero(pts, i, j);
    lemma_prefix_zero(pts, 0, j);
    lemma_prefix_zero(pts, 0, j + 1);
    lemma_prefix_zero(pts, i + 1, 0);
}

/// Where the bounding box fits, every block's interior area and size are
/// below `2^126`.
pub proof fn lemma_region_fits(pts: Seq<Point2D>, i1: int, i2: int, j1: int, j2: int)
    requires
        grid_fits(pts),
        0 <= i1 <= i2 <= cell_cols(pts),
        0 <= j1 <= j2 <= cell_rows(pts),
        grid_xs(pts).len() > 0,
        grid_ys(pts).len() > 0,
    ensures
        0 <= region_area(pts, i1, i2, j1, j2) <= (grid_xs(pts)[i2] - grid_xs(pts)[i1]) * (grid_ys(
            pts,
        )[j2] - grid_ys(pts)[j1]) < 0x4000_0000_0000_0000_0000_0000_0000_0000,
{
    lemma_region_bound(pts, i1, i2, j1, j2);
    lemma_grid_xs(pts);
    lemma_grid_ys(pts);
    let xs = grid_xs(pts);
    let ys = grid_ys(pts);
    assert(xs[i1] <= xs[i2]);
    assert(ys[j1] <= ys[j2]);
    assert(min_of(xcoords(pts)) <= xs[i1] && xs[i2] <= max_of(xcoords(pts)));
    assert(min_of(ycoords(pts)) <= ys[j1] && ys[j2] <= max_of(ycoords(pts)));
    lemma_product_in_box(pts, xs[i2] - xs[i1], ys[j2] - ys[j1]);
}

// ---------------------------------------------------------------------------
// Building the grid and its table of cumulative areas
// ---------------------------------------------------------------------------

/// A row of `n` zeros.
fn zero_row(n: usize) -> (row: Vec<i128>)
    ensures
        row@.len() == n,
        forall|i: int| 0 <= i < n ==> row@[i] == 0,
{
    let mut row: Vec<i128> = Vec::new();
    let mut i: usize = 0;
    while i < n
        invariant
            i <= n,
            row@.len() == i,
            forall|k: int| 0 <= k < i ==> row@[k] == 0,
        decreases n - i,
    {
        row.push(0);
        i += 1;
    }
    row
}

/// The interior areas of the grid cells, row by row: each cell's centre is
/// classified once.
fn cell_areas(poly: &Vec<Point2D>, xs: &Vec<i64>, ys: &Vec<i64>) -> (a: Vec<Vec<i128>>)
    requires
        grid_fits(poly@),
        xs@ == grid_xs(poly@),
        ys@ == grid_ys(poly@),
    ensures
        a@.len() == cell_rows(poly@),
        forall|j: int| 0 <= j < a@.len() ==> (#[trigger] a@[j]).len() == cell_cols(poly@),
        forall|j: int, i: int|
            0 <= j < cell_rows(poly@) && 0 <= i < cell_cols(poly@) ==> #[trigger] a@[j][i]
                == cell_area(poly@, i, j),
{
    let w: usize = xs.len().saturating_sub(1);
    let h: usize = ys.len().saturating_sub(1);
    let mut a: Vec<Vec<i128>> = Vec::new();
    let mut yi: usize = 0;
    proof {
        lemma_grid_xs(poly@);
        lemma_grid_ys(poly@);
    }
    while yi < h
        invariant
            grid_fits(poly@),
            xs@ == grid_xs(poly@),
            ys@ == grid_ys(poly@),
            w == cell_cols(poly@),
            h == cell_rows(poly@),
            yi <= h,
            a@.len() == yi,
            forall|j: int| 0 <= j < yi ==> (#[trigger] a@[j]).len() == w,
            forall|j: int, i: int|
                0 <= j < yi && 0 <= i < w ==> #[trigger] a@[j][i] == cell_area(poly@, i, j),
        decreases h - yi,
    {
        let cy: i128 = ys[yi] as i128 + ys[yi + 1] as i128;
        let cell_h: i128 = ys[yi + 1] as i128 - ys[yi] as i128;
        let mut row: Vec<i128> = Vec::new();
        let mut xi: usize = 0;
        while xi < w
            invariant
                grid_fits(poly@),
                xs@ == grid_xs(poly@),
                ys@ == grid_ys(poly@),
                w == cell_cols(poly@),
                h == cell_rows(poly@),
                yi < h,
                xi <= w,
                cy == ys@[yi as int] + ys@[yi + 1],
                cell_h == ys@[yi + 1] - ys@[yi as int],
                row@.len() == xi,
                forall|i: int| 0 <= i < xi ==> #[trigger] row@[i] == cell_area(poly@, i, yi as int),
            decreases w - xi,
        {
            let cx: i128 = xs[xi] as i128 + xs[xi + 1] as i128;
            let cell_w: i128 = xs[xi + 1] as i128 - xs[xi] as i128;
            proof {
                lemma_grid_xs(poly@);
                lemma_grid_ys(poly@);
                assert(min_of(xcoords(poly@)) <= xs@[xi as int]);
                assert(xs@[xi + 1] <= max_of(xcoords(poly@)));
                assert(min_of(ycoords(poly@)) <= ys@[yi as int]);
                assert(ys@[yi + 1] <= max_of(ycoords(poly@)));
                assert(xs@[xi as int] < xs@[xi + 1]);
                assert(ys@[yi as int] < ys@[yi + 1]);
                lemma_product_in_box(poly@, cell_w as int, cell_h as int);
            }
            let v: i128 = if point_in_poly_even_odd((cx, cy), poly) {
                cell_w * cell_h
            } else {
                0
            };
            row.push(v);
            xi += 1;
        }
        a.push(row);
        yi += 1;
    }
    a
}

/// The table of cumulative interior areas from the cell areas of a grid with
/// `w` cell columns.
fn prefix_sums(a: &Vec<Vec<i128>>, w: usize, Ghost(pts): Ghost<Seq<Point2D>>) -> (p: Vec<Vec<i128>>)
    requires
        grid_fits(pts),
        w == cell_cols(pts),
        w < usize::MAX,
        a@.len() == cell_rows(pts),
        forall|j: int| 0 <= j < a@.len() ==> (#[trigger] a@[j]).len() == cell_cols(pts),
        forall|j: int, i: int|
            0 <= j < cell_rows(pts) && 0 <= i < cell_cols(pts) ==> #[trigger] a@[j][i]
                == cell_area(pts, i, j),
    ensures
        is_prefix_table(p@, pts),
{
    let h: usize = a.len();
    let mut p: Vec<Vec<i128>> = Vec::new();
    p.push(zero_row(w + 1));
    proof {
        assert forall|i: int| 0 <= i <= w implies #[trigger] p@[0][i] == prefix_area(pts, i, 0) by {
            lemma_prefix_zero(pts, i, 0);
        }
    }
    let mut y: usize = 0;
    while y < h
        invariant
            grid_fits(pts),
            h == a@.len(),
            h == cell_rows(pts),
            w == cell_cols(pts),
            w < usize::MAX,
            forall|j: int| 0 <= j < a@.len() ==> (#[trigger] a@[j]).len() == w,
            forall|j: int, i: int|
                0 <= j < h && 0 <= i < w ==> #[trigger] a@[j][i] == cell_area(pts, i, j),
            y <= h,
            p@.len() == y + 1,
            forall|j: int| 0 <= j <= y ==> (#[trigger] p@[j]).len() == w + 1,
            forall|j: int, i: int|
                0 <= j <= y && 0 <= i <= w ==> #[trigger] p@[j][i] == prefix_area(pts, i, j),
        decreases h - y,
    {
        let mut row: Vec<i128> = Vec::new();
        row.push(0);
        proof {
            lemma_prefix_zero(pts, 0, y + 1);
        }
        let mut x: usize = 0;
        while x < w
            invariant
                grid_fits(pts),
                h == a@.len(),
                h == cell_rows(pts),
                w == cell_cols(pts),
                forall|j: int| 0 <= j < a@.len() ==> (#[trigger] a@[j]).len() == w,
                forall|j: int, i: int|
                    0 <= j < h && 0 <= i < w ==> #[trigger] a@[j][i] == cell_area(pts, i, j),
                y < h,
                x <= w,
                p@.len() == y + 1,
                forall|j: int| 0 <= j <= y ==> (#[trigger] p@[j]).len() == w + 1,
                forall|j: int, i: int|
                    0 <= j <= y && 0 <= i <= w ==> #[trigger] p@[j][i] == prefix_area(pts, i, j),
                row@.len() == x + 1,
                forall|i: int| 0 <= i <= x ==> #[trigger] row@[i] == prefix_area(pts, i, y + 1),
            decreases w - x,
        {
            proof {
                lemma_prefix_step(pts, x as int, y as int);
                lemma_region_fits(pts, 0, x + 1, 0, y as int);
                lemma_region_fits(pts, 0, x as int, 0, y + 1);
                lemma_region_fits(pts, 0, x as int, 0, y as int);
                lemma_region_fits(pts, 0, x + 1, 0, y + 1);
                lemma_region_fits(pts, x as int, x + 1, y as int, y + 1);
                assert(a@[y as int][x as int] == cell_area(pts, x as int, y as int));
                assert(p@[y as int][x + 1] == prefix_area(pts, x + 1, y as int));
                assert(p@[y as int][x as int] == prefix_area(pts, x as int, y as int));
                assert(row@[x as int] == prefix_area(pts, x as int, y + 1));
                lemma_cell_bound(pts, x as int, y as int);
                lemma_row_bound(pts, y as int, 0, x as int);
                assert(prefix_area(pts, x as int, y + 1) == prefix_area(pts, x as int, y as int)
                    + row_span(pts, y as int, 0, x as int));
                assert(region_area(pts, x as int, x + 1, y as int, y + 1) == cell_area(
                    pts,
                    x as int,
                    y as int,
                )) by {
                    assert(region_area(pts, x as int, x + 1, y as int, y as int) == 0);
                    assert(row_span(pts, y as int, x as int, x as int) == 0);
                }
            }
            let v: i128 = a[y][x] + p[y][x + 1] + row[x] - p[y][x];
            row.push(v);
            x += 1;
        }
        p.push(row);
        y += 1;
    }
    p
}

/// Compressed grid of a polygon: the vertical lines, the horizontal lines,
/// and the table of cumulative interior areas over the cells between them.
pub fn build_allowed_prefix(poly: &Vec<Point2D>) -> (grid: (Vec<i64>, Vec<i64>, Vec<Vec<i128>>))
    requires
        grid_fits(poly@),
    ensures
        grid.0@ == grid_xs(poly@),
        grid.1@ == grid_ys(poly@),
        is_prefix_table(grid.2@, poly@),
        edges_in_box(grid.2@, poly@),
{
    let (xs, ys) = coordinate_lines(poly);
    let w: usize = xs.len().saturating_sub(1);
    let a: Vec<Vec<i128>> = cell_areas(poly, &xs, &ys);
    let p: Vec<Vec<i128>> = prefix_sums(&a, w, Ghost(poly@));
    proof {
        lemma_grid_xs(poly@);
        lemma_grid_ys(poly@);
        assert forall|j: int, i: int|
            0 <= j <= cell_rows(poly@) && 0 <= i <= cell_cols(poly@) implies 0 <= #[trigger] p@[j][i]
            <= (grid_xs(poly@)[i] - grid_xs(poly@)[0]) * (grid_ys(poly@)[j] - grid_ys(poly@)[0]) by {
            if grid_xs(poly@).len() > 0 && grid_ys(poly@).len() > 0 {
                lemma_region_fits(poly@, 0, i, 0, j);
            } else {
                lemma_prefix_zero(poly@, i, j);
                assert((grid_xs(poly@)[i] - grid_xs(poly@)[0]) * (grid_ys(poly@)[j] - grid_ys(
                    poly@,
                )[0]) == 0) by (nonlinear_arith)
                    requires
                        i == 0 || j == 0,
                        i == 0 ==> grid_xs(poly@)[i] - grid_xs(poly@)[0] == 0,
                        j == 0 ==> grid_ys(poly@)[j] - grid_ys(poly@)[0] == 0,
                ;
            }
        }
        assert forall|i: int| 0 <= i <= cell_cols(poly@) implies #[trigger] p@[0][i] == 0 by {
            lemma_prefix_zero(poly@, i, 0);
        }
        assert forall|j: int| 0 <= j <= cell_rows(poly@) implies (#[trigger] p@[j])[0] == 0 by {
            lemma_prefix_zero(poly@, 0, j);
        }
    }
    (xs, ys, p)
}

/// The three steps of the sum over a block of cells stay within an `i128`.
pub open spec fn summable(p: Seq<Vec<i128>>, x1: int, y1: int, x2: int, y2: int) -> bool {
    &&& i128::MIN <= p[y2]@[x2] - p[y1]@[x2] <= i128::MAX
    &&& i128::MIN <= p[y2]@[x2] - p[y1]@[x2] - p[y2]@[x1] <= i128::MAX
    &&& i128::MIN <= p[y2]@[x2] - p[y1]@[x2] - p[y2]@[x1] + p[y1]@[x1] <= i128::MAX
}

/// Total over the cells `x1 <= x < x2`, `y1 <= y < y2` of a cumulative table.
pub fn rect_sum(p: &Vec<Vec<i128>>, x1: usize, y1: usize, x2: usize, y2: usize) -> (sum: i128)
    requires
        y1 < p@.len(),
        y2 < p@.len(),
        x1 < p@[y1 as int]@.len(),
        x2 < p@[y1 as int]@.len(),
        x1 < p@[y2 as int]@.len(),
        x2 < p@[y2 as int]@.len(),
        summable(p@, x1 as int, y1 as int, x2 as int, y2 as int),
    ensures
        sum == p@[y2 as int]@[x2 as int] - p@[y1 as int]@[x2 as int] - p@[y2 as int]@[x1 as int]
            + p@[y1 as int]@[x1 as int],
{
    p[y2][x2] - p[y1][x2] - p[y2][x1] + p[y1][x1]
}

/// Decides whether the bounding box of the vertices is small enough for the
/// table of areas.
pub fn span_fits(poly: &Vec<Point2D>) -> (ok: bool)
    ensures
        ok == grid_fits(poly@),
{
    let n: usize = poly.len();
    if n == 0 {
        assert(xcoords(poly@).len() == 0 && ycoords(poly@).len() == 0);
        assert(span_x(poly@) * span_y(poly@) == 0) by (nonlinear_arith)
            requires
                span_x(poly@) == 0,
        ;
        return true;
    }
    let mut min_x: i64 = poly[0].x;
    let mut max_x: i64 = poly[0].x;
    let mut min_y: i64 = poly[0].y;
    let mut max_y: i64 = poly[0].y;
    let mut i: usize = 1;
    proof {
        assert(xcoords(poly@).take(1).len() == 1);
        assert(ycoords(poly@).take(1).len() == 1);
    }
    while i < n
        invariant
            n == poly.len(),
            1 <= i <= n,
            min_x == min_of(xcoords(poly@).take(i as int)),
            max_x == max_of(xcoords(poly@).take(i as int)),
            min_y == min_of(ycoords(poly@).take(i as int)),
            max_y == max_of(ycoords(poly@).take(i as int)),
            min_x <= max_x,
            min_y <= max_y,
        decreases n - i,
    {
        let p: Point2D = poly[i];
        proof {
            let tx = xcoords(poly@).take(i + 1);
            assert(tx.drop_last() == xcoords(poly@).take(i as int));
            assert(tx.last() == p.x);
            let ty = ycoords(poly@).take(i + 1);
            assert(ty.drop_last() == ycoords(poly@).take(i as int));
            assert(ty.last() == p.y);
        }
        if p.x < min_x {
            min_x = p.x;
        }
        if p.x > max_x {
            max_x = p.x;
        }
        if p.y < min_y {
            min_y = p.y;
        }
        if p.y > max_y {
            max_y = p.y;
        }
        i += 1;
    }
    proof {
        assert(xcoords(poly@).take(n as int) == xcoords(poly@));
        assert(ycoords(poly@).take(n as int) == ycoords(poly@));
    }
    let w: u128 = (max_x as i128 - min_x as i128) as u128;
    let h: u128 = (max_y as i128 - min_y as i128) as u128;
    assert(0 <= w * h <= 0xffff_ffff_ffff_ffff * 0xffff_ffff_ffff_ffff) by (nonlinear_arith)
        requires
            0 <= w <= 0xffff_ffff_ffff_ffff,
            0 <= h <= 0xffff_ffff_ffff_ffff,
    ;
    w * h < 0x4000_0000_0000_0000_0000_0000_0000_0000
}

// ---------------------------------------------------------------------------
// Containment of a candidate rectangle
// ---------------------------------------------------------------------------

/// Position of the value `v` among the lines `s`.
pub open spec fn line_index(s: Seq<i64>, v: i64) -> int {
    choose|i: int| 0 <= i < s.len() && s[i] == v
}

/// The smaller of two coordinates.
pub open spec fn lo(a: i64, b: i64) -> i64 {
    if a <= b {
        a
    } else {
        b
    }
}

/// The larger of two coordinates.
pub open spec fn hi(a: i64, b: i64) -> i64 {
    if a <= b {
        b
    } else {
        a
    }
}

/// Interior area of the polygon within the rectangle spanned by two of its
/// vertices.
pub open spec fn interior_area(pts: Seq<Point2D>, a: Point2D, b: Point2D) -> int {
    region_area(
        pts,
        line_index(grid_xs(pts), lo(a.x, b.x)),
        line_index(grid_xs(pts), hi(a.x, b.x)),
        line_index(grid_ys(pts), lo(a.y, b.y)),
        line_index(grid_ys(pts), hi(a.y, b.y)),
    )
}

/// The continuous area of the rectangle spanned by `a` and `b`.
pub open spec fn continuous_area(a: Point2D, b: Point2D) -> int {
    (hi(a.x, b.x) - lo(a.x, b.x)) * (hi(a.y, b.y) - lo(a.y, b.y))
}

/// The rectangle spanned by the vertices `a` and `b` has positive width and
/// height, and all of it is interior: the interior area within it is its
/// whole area.
pub open spec fn fully_interior(pts: Seq<Point2D>, a: Point2D, b: Point2D) -> bool {
    !degenerate(a, b) && interior_area(pts, a, b) == continuous_area(a, b)
}

/// Finds the line with value `v` by bisection.
fn find_line(lines: &Vec<i64>, v: i64) -> (idx: usize)
    requires
        strictly_increasing(lines@),
        lines@.contains(v),
    ensures
        idx < lines@.len(),
        lines@[idx as int] == v,
        idx == line_index(lines@, v),
{
    let mut low: usize = 0;
    let mut high: usize = lines.len();
    let ghost k = choose|k: int| 0 <= k < lines@.len() && lines@[k] == v;
    while high - low > 1
        invariant
            strictly_increasing(lines@),
            0 <= k < lines@.len(),
            lines@[k] == v,
            low <= k < high <= lines@.len(),
        decreases high - low,
    {
        let mid: usize = low + (high - low) / 2;
        if lines[mid] <= v {
            low = mid;
        } else {
            high = mid;
        }
    }
    proof {
        let c = line_index(lines@, v);
        assert(0 <= c < lines@.len() && lines@[c] == v);
        if c < low {
            assert(lines@[c] < lines@[low as int]);
        }
        if low < c {
            assert(lines@[low as int] < lines@[c]);
        }
    }
    low
}

/// Decides whether the rectangle between the vertices `a` and `b` is wholly
/// interior, from the grid and table of the polygon.
fn rect_is_interior(
    a: &Point2D,
    b: &Point2D,
    xs: &Vec<i64>,
    ys: &Vec<i64>,
    pref: &Vec<Vec<i128>>,
    Ghost(pts): Ghost<Seq<Point2D>>,
) -> (ok: bool)
    requires
        grid_fits(pts),
        xs@ == grid_xs(pts),
        ys@ == grid_ys(pts),
        is_prefix_table(pref@, pts),
        pts.contains(*a),
        pts.contains(*b),
    ensures
        ok == fully_interior(pts, *a, *b),
{
    if a.x == b.x || a.y == b.y {
        return false;
    }
    let min_x: i64 = if a.x <= b.x { a.x } else { b.x };
    let max_x: i64 = if a.x <= b.x { b.x } else { a.x };
    let min_y: i64 = if a.y <= b.y { a.y } else { b.y };
    let max_y: i64 = if a.y <= b.y { b.y } else { a.y };
    proof {
        lemma_grid_xs(pts);
        lemma_grid_ys(pts);
        let ka = choose|k: int| 0 <= k < pts.len() && pts[k] == *a;
        let kb = choose|k: int| 0 <= k < pts.len() && pts[k] == *b;
        assert(xs@.contains(pts[ka].x) && xs@.contains(pts[kb].x));
        assert(ys@.contains(pts[ka].y) && ys@.contains(pts[kb].y));
        lemma_vertex_in_box(pts, ka);
        lemma_vertex_in_box(pts, kb);
    }
    let ix1: usize = find_line(xs, min_x);
    let ix2: usize = find_line(xs, max_x);
    let iy1: usize = find_line(ys, min_y);
    let iy2: usize = find_line(ys, max_y);
    proof {
        if ix1 >= ix2 {
            if ix1 > ix2 {
                assert(xs@[ix2 as int] < xs@[ix1 as int]);
            }
        }
        if iy1 >= iy2 {
            if iy1 > iy2 {
                assert(ys@[iy2 as int] < ys@[iy1 as int]);
            }
        }
        lemma_region_fits(pts, 0, ix1 as int, 0, iy1 as int);
        lemma_region_fits(pts, 0, ix2 as int, 0, iy1 as int);
        lemma_region_fits(pts, 0, ix1 as int, 0, iy2 as int);
        lemma_region_fits(pts, 0, ix2 as int, 0, iy2 as int);
        lemma_region_by_prefix(pts, ix1 as int, ix2 as int, iy1 as int, iy2 as int);
        assert(pref@[iy1 as int][ix1 as int] == prefix_area(pts, ix1 as int, iy1 as int));
        assert(pref@[iy1 as int][ix2 as int] == prefix_area(pts, ix2 as int, iy1 as int));
        assert(pref@[iy2 as int][ix1 as int] == prefix_area(pts, ix1 as int, iy2 as int));
        assert(pref@[iy2 as int][ix2 as int] == prefix_area(pts, ix2 as int, iy2 as int));
        lemma_product_in_box(pts, max_x - min_x, max_y - min_y);
    }
    let allowed_area: i128 = rect_sum(pref, ix1, iy1, ix2, iy2);
    let rect_area_cont: i128 = (max_x as i128 - min_x as i128) * (max_y as i128 - min_y as i128);
    allowed_area == rect_area_cont
}

// ---------------------------------------------------------------------------
// Containment cell by cell
// ---------------------------------------------------------------------------

/// Every cell `i1 <= i < i2`, `j1 <= j < j2` has its centre inside the
/// polygon.
pub open spec fn all_inside(pts: Seq<Point2D>, i1: int, i2: int, j1: int, j2: int) -> bool {
    forall|i: int, j: int| i1 <= i < i2 && j1 <= j < j2 ==> #[trigger] cell_inside(pts, i, j)
}

/// A stretch of a row has its whole size as interior area exactly when every
/// cell of it is inside.
pub proof fn lemma_row_full(pts: Seq<Point2D>, j: int, i1: int, i2: int)
    requires
        0 <= i1 <= i2 <= cell_cols(pts),
        0 <= j < cell_rows(pts),
    ensures
        row_span(pts, j, i1, i2) == (grid_xs(pts)[i2] - grid_xs(pts)[i1]) * (grid_ys(pts)[j + 1]
            - grid_ys(pts)[j]) <==> forall|i: int| i1 <= i < i2 ==> #[trigger] cell_inside(pts, i, j),
    decreases i2 - i1,
{
    let xs = grid_xs(pts);
    let h = grid_ys(pts)[j + 1] - grid_ys(pts)[j];
    if i2 > i1 {
        lemma_row_full(pts, j, i1, i2 - 1);
        lemma_row_bound(pts, j, i1, i2 - 1);
        lemma_cell_bound(pts, i2 - 1, j);
        let a = xs[i2 - 1] - xs[i1];
        let b = xs[i2] - xs[i2 - 1];
        assert((a + b) * h == a * h + b * h) by (nonlinear_arith);
        assert(cell_size(pts, i2 - 1, j) == b * h);
        if forall|i: int| i1 <= i < i2 ==> #[trigger] cell_inside(pts, i, j) {
            assert(cell_inside(pts, i2 - 1, j));
        }
        if row_span(pts, j, i1, i2) == (a + b) * h {
            assert(cell_area(pts, i2 - 1, j) == b * h);
            assert(cell_inside(pts, i2 - 1, j));
            assert forall|i: int| i1 <= i < i2 implies #[trigger] cell_inside(pts, i, j) by {
                if i < i2 - 1 {
                }
            }
        }
    } else {
        assert((xs[i2] - xs[i1]) * h == 0) by (nonlinear_arith)
            requires
                xs[i2] - xs[i1] == 0,
        ;
    }
}

/// A block of cells has its whole size as interior area exactly when every
/// cell of it is inside.
pub proof fn lemma_region_full(pts: Seq<Point2D>, i1: int, i2: int, j1: int, j2: int)
    requires
        0 <= i1 < i2 <= cell_cols(pts),
        0 <= j1 <= j2 <= cell_rows(pts),
    ensures
        region_area(pts, i1, i2, j1, j2) == (grid_xs(pts)[i2] - grid_xs(pts)[i1]) * (grid_ys(
            pts,
        )[j2] - grid_ys(pts)[j1]) <==> all_inside(pts, i1, i2, j1, j2),
    decreases j2 - j1,
{
    let ys = grid_ys(pts);
    let w = grid_xs(pts)[i2] - grid_xs(pts)[i1];
    if j2 > j1 {
        lemma_region_full(pts, i1, i2, j1, j2 - 1);
        lemma_region_bound(pts, i1, i2, j1, j2 - 1);
        lemma_row_bound(pts, j2 - 1, i1, i2);
        lemma_row_full(pts, j2 - 1, i1, i2);
        let a = ys[j2 - 1] - ys[j1];
        let b = ys[j2] - ys[j2 - 1];
        assert(w * (a + b) == w * a + w * b) by (nonlinear_arith);
        if all_inside(pts, i1, i2, j1, j2) {
            assert(all_inside(pts, i1, i2, j1, j2 - 1));
            assert forall|i: int| i1 <= i < i2 implies #[trigger] cell_inside(pts, i, j2 - 1) by {}
        }
        if region_area(pts, i1, i2, j1, j2) == w * (a + b) {
            assert(region_area(pts, i1, i2, j1, j2 - 1) == w * a);
            assert(row_span(pts, j2 - 1, i1, i2) == w * b);
            assert(all_inside(pts, i1, i2, j1, j2 - 1));
            assert forall|i: int, j: int| i1 <= i < i2 && j1 <= j < j2 implies #[trigger] cell_inside(
                pts,
                i,
                j,
            ) by {
                if j < j2 - 1 {
                }
            }
        }
    } else {
        assert(w * (ys[j2] - ys[j1]) == 0) by (nonlinear_arith)
            requires
                ys[j2] - ys[j1] == 0,
        ;
    }
}

/// The rectangle between two vertices that share neither row nor column is
/// wholly interior exactly when every grid cell that it covers has its
/// centre inside the polygon.
pub proof fn lemma_fully_interior_by_cells(pts: Seq<Point2D>, i: int, j: int)
    requires
        0 <= i < pts.len(),
        0 <= j < pts.len(),
        !degenerate(pts[i], pts[j]),
    ensures
        fully_interior(pts, pts[i], pts[j]) <==> all_inside(
            pts,
            line_index(grid_xs(pts), lo(pts[i].x, pts[j].x)),
            line_index(grid_xs(pts), hi(pts[i].x, pts[j].x)),
            line_index(grid_ys(pts), lo(pts[i].y, pts[j].y)),
            line_index(grid_ys(pts), hi(pts[i].y, pts[j].y)),
        ),
{
    let a = pts[i];
    let b = pts[j];
    let xs = grid_xs(pts);
    let ys = grid_ys(pts);
    lemma_grid_xs(pts);
    lemma_grid_ys(pts);
    assert(xs.contains(pts[i].x) && xs.contains(pts[j].x));
    assert(ys.contains(pts[i].y) && ys.contains(pts[j].y));
    let i1 = line_index(xs, lo(a.x, b.x));
    let i2 = line_index(xs, hi(a.x, b.x));
    let j1 = line_index(ys, lo(a.y, b.y));
    let j2 = line_index(ys, hi(a.y, b.y));
    assert(0 <= i1 < xs.len() && xs[i1] == lo(a.x, b.x));
    assert(0 <= i2 < xs.len() && xs[i2] == hi(a.x, b.x));
    assert(0 <= j1 < ys.len() && ys[j1] == lo(a.y, b.y));
    assert(0 <= j2 < ys.len() && ys[j2] == hi(a.y, b.y));
    assert(i1 < i2) by {
        if i1 > i2 {
            assert(xs[i2] < xs[i1]);
        }
    }
    assert(j1 < j2) by {
        if j1 > j2 {
            assert(ys[j2] < ys[j1]);
        }
    }
    lemma_region_full(pts, i1, i2, j1, j2);
}

// ---------------------------------------------------------------------------
// Search over vertex pairs
// ---------------------------------------------------------------------------

/// The larger of two scores.
pub open spec fn max2(a: int, b: int) -> int {
    if a >= b {
        a
    } else {
        b
    }
}

/// What the pair of vertices `i`, `j` contributes: its tile area if its
/// rectangle is wholly interior, else nothing.
pub open spec fn score(pts: Seq<Point2D>, i: int, j: int) -> int {
    if fully_interior(pts, pts[i], pts[j]) {
        tile_area(pts[i], pts[j])
    } else {
        0
    }
}

/// `best` raised by the scores of the pairs `(i, k)` with `i < k < j`.
pub open spec fn best_in_row(pts: Seq<Point2D>, best: int, i: int, j: int) -> int
    decreases j - i,
{
    if j <= i + 1 {
        best
    } else {
        max2(best_in_row(pts, best, i, j - 1), score(pts, i, j - 1))
    }
}

/// The largest score among the pairs whose first vertex comes before `i`
/// (0 where there is none).
pub open spec fn best_before(pts: Seq<Point2D>, i: int) -> int
    decreases i,
{
    if i <= 0 {
        0
    } else {
        best_in_row(pts, best_before(pts, i - 1), i - 1, pts.len() as int)
    }
}

/// The largest tile area of a wholly interior rectangle between two vertices,
/// 0 where no pair spans one.
pub open spec fn max_interior_tiles(pts: Seq<Point2D>) -> int {
    best_before(pts, pts.len() as int)
}

/// Every pair of vertices that share neither row nor column has a tile area
/// that an `i64` holds.
pub open spec fn scores_fit(pts: Seq<Point2D>) -> bool {
    forall|i: int, j: int|
        0 <= i < pts.len() && 0 <= j < pts.len() && !degenerate(pts[i], pts[j]) ==> #[trigger] tile_area(
            pts[i],
            pts[j],
        ) <= i64::MAX
}

/// A position of the smallest value of a sequence that is not empty.
pub proof fn lemma_min_position(s: Seq<i64>) -> (k: int)
    requires
        s.len() > 0,
    ensures
        0 <= k < s.len(),
        s[k] == min_of(s),
    decreases s.len(),
{
    if s.len() == 1 {
        0
    } else {
        let k = lemma_min_position(s.drop_last());
        if s.last() < min_of(s.drop_last()) {
            s.len() - 1
        } else {
            assert(s.drop_last()[k] == s[k]);
            k
        }
    }
}

/// A position of the largest value of a sequence that is not empty.
pub proof fn lemma_max_position(s: Seq<i64>) -> (k: int)
    requires
        s.len() > 0,
    ensures
        0 <= k < s.len(),
        s[k] == max_of(s),
    decreases s.len(),
{
    if s.len() == 1 {
        0
    } else {
        let k = lemma_max_position(s.drop_last());
        if s.last() > max_of(s.drop_last()) {
            s.len() - 1
        } else {
            assert(s.drop_last()[k] == s[k]);
            k
        }
    }
}

/// A rectangle that is at least two tiles high holds at least twice as many
/// tiles as it is wide, and the same with width and height exchanged.
pub proof fn lemma_tile_area_at_least(a: Point2D, b: Point2D)
    ensures
        a.y != b.y ==> tile_area(a, b) >= 2 * (dist(a.x as int, b.x as int) + 1),
        a.x != b.x ==> tile_area(a, b) >= 2 * (dist(a.y as int, b.y as int) + 1),
{
    let w = dist(a.x as int, b.x as int) + 1;
    let h = dist(a.y as int, b.y as int) + 1;
    assert(h >= 2 ==> w * h >= 2 * w) by (nonlinear_arith)
        requires
            w >= 1,
    ;
    assert(w >= 2 ==> w * h >= 2 * h) by (nonlinear_arith)
        requires
            h >= 1,
    ;
}

/// Among three vertices of which two lie `2^63` or more apart in one
/// direction and the third lies off their common line, two share neither
/// row nor column and span more tiles than an `i64` counts. Here the
/// direction is x: `a` and `b` lie in one row, `p` in another.
proof fn lemma_far_apart_in_x(a: Point2D, b: Point2D, p: Point2D)
    requires
        b.x - a.x >= 0x8000_0000_0000_0000,
        a.x <= p.x <= b.x,
        p.y != a.y || a.y != b.y,
    ensures
        (!degenerate(a, b) && tile_area(a, b) > i64::MAX) || (!degenerate(a, p) && tile_area(a, p)
            > i64::MAX) || (!degenerate(p, b) && tile_area(p, b) > i64::MAX),
{
    lemma_tile_area_at_least(a, b);
    lemma_tile_area_at_least(a, p);
    lemma_tile_area_at_least(p, b);
}

/// The same with the directions exchanged: `a` and `b` lie `2^63` or more
/// apart in y, and `p` lies off their common column.
proof fn lemma_far_apart_in_y(a: Point2D, b: Point2D, p: Point2D)
    requires
        b.y - a.y >= 0x8000_0000_0000_0000,
        a.y <= p.y <= b.y,
        p.x != a.x || a.x != b.x,
    ensures
        (!degenerate(a, b) && tile_area(a, b) > i64::MAX) || (!degenerate(a, p) && tile_area(a, p)
            > i64::MAX) || (!degenerate(p, b) && tile_area(p, b) > i64::MAX),
{
    lemma_tile_area_at_least(a, b);
    lemma_tile_area_at_least(a, p);
    lemma_tile_area_at_least(p, b);
}

/// Where the bounding box is too large for the table of areas, some pair of
/// vertices that share neither row nor column spans more tiles than an
/// `i64` counts.
pub proof fn lemma_large_box_has_large_pair(pts: Seq<Point2D>)
    requires
        !grid_fits(pts),
    ensures
        !scores_fit(pts),
{
    let xv = xcoords(pts);
    let yv = ycoords(pts);
    if pts.len() == 0 {
        assert(xv.len() == 0 && yv.len() == 0);
        assert(span_x(pts) * span_y(pts) == 0) by (nonlinear_arith)
            requires
                span_x(pts) == 0,
        ;
    } else {
        let ia = lemma_min_position(xv);
        let ib = lemma_max_position(xv);
        let ic = lemma_min_position(yv);
        let id = lemma_max_position(yv);
        let (a, b, c, d) = (pts[ia], pts[ib], pts[ic], pts[id]);
        let sx = span_x(pts);
        let sy = span_y(pts);
        assert(sx == b.x - a.x && sy == d.y - c.y);
        lemma_vertex_in_box(pts, ia);
        lemma_vertex_in_box(pts, ib);
        lemma_vertex_in_box(pts, ic);
        lemma_vertex_in_box(pts, id);
        assert(sx >= 1 && sy >= 1 && (sx >= 0x8000_0000_0000_0000 || sy >= 0x8000_0000_0000_0000))
            by (nonlinear_arith)
            requires
                0 <= sx <= 0xffff_ffff_ffff_ffff,
                0 <= sy <= 0xffff_ffff_ffff_ffff,
                sx * sy >= 0x4000_0000_0000_0000_0000_0000_0000_0000,
        ;
        if sx >= 0x8000_0000_0000_0000 {
            // one of the lowest and the highest vertex lies off the row of `a`
            let p = if c.y != a.y {
                c
            } else {
                d
            };
            lemma_far_apart_in_x(a, b, p);
        } else {
            let p = if a.x != c.x {
                a
            } else {
                b
            };
            lemma_far_apart_in_y(c, d, p);
        }
    }
}

/// What `largest_interior_tiles` promises of its result for the vertices
/// `pts`: the maximum, wherever every pair of vertices that share neither
/// row nor column has a tile area that an `i64` holds.
pub open spec fn search_result(pts: Seq<Point2D>, res: Result<i64, SearchError>) -> bool {
    match res {
        Ok(best) => scores_fit(pts) && best == max_interior_tiles(pts),
        Err(e) => e == SearchError::SpanTooLarge && !scores_fit(pts),
    }
}

/// The pairs `(a, b)` with `a` before row `i`, or in row `i` with `b` before
/// `j`, have tile areas that an `i64` holds, as far as they share neither
/// row nor column.
pub open spec fn scores_fit_before(pts: Seq<Point2D>, i: int, j: int) -> bool {
    forall|a: int, b: int|
        0 <= a < b < pts.len() && (a < i || (a == i && b < j)) && !degenerate(pts[a], pts[b])
            ==> #[trigger] tile_area(pts[a], pts[b]) <= i64::MAX
}

/// The largest tile area among the wholly interior rectangles that have two of
/// the vertices as opposite corners; 0 where there is no such rectangle.
pub fn largest_interior_tiles(points: &Vec<Point2D>) -> (res: Result<i64, SearchError>)
    ensures
        search_result(points@, res),
{
    if !span_fits(points) {
        proof {
            lemma_large_box_has_large_pair(points@);
        }
        return Err(SearchError::SpanTooLarge);
    }
    let (xs, ys, pref) = build_allowed_prefix(points);
    let n: usize = points.len();
    let mut best: i64 = 0;
    let mut i: usize = 0;
    while i < n
        invariant
            n == points.len(),
            i <= n,
            grid_fits(points@),
            xs@ == grid_xs(points@),
            ys@ == grid_ys(points@),
            is_prefix_table(pref@, points@),
            0 <= best,
            best == best_before(points@, i as int),
            scores_fit_before(points@, i as int, 0),
        decreases n - i,
    {
        let mut j: usize = i + 1;
        while j < n
            invariant
                n == points.len(),
                i < n,
                i < j <= n,
                grid_fits(points@),
                xs@ == grid_xs(points@),
                ys@ == grid_ys(points@),
                is_prefix_table(pref@, points@),
                0 <= best,
                best == best_in_row(points@, best_before(points@, i as int), i as int, j as int),
                scores_fit_before(points@, i as int, j as int),
            decreases n - j,
        {
            let a: &Point2D = &points[i];
            let b: &Point2D = &points[j];
            proof {
                assert(points@.contains(*a));
                assert(points@.contains(*b));
            }
            if a.x == b.x || a.y == b.y {
                // No rectangle between two vertices of one row or column.
            } else {
                let area_tiles: i64 = match checked_area_tiles(a, b) {
                    Some(area) => area,
                    None => {
                        assert(!degenerate(points@[i as int], points@[j as int]) && tile_area(
                            points@[i as int],
                            points@[j as int],
                        ) > i64::MAX);
                        return Err(SearchError::SpanTooLarge);
                    },
                };
                if area_tiles <= best {
                    // Cannot raise the best, whether interior or not.
                } else if rect_is_interior(a, b, &xs, &ys, &pref, Ghost(points@)) {
                    best = area_tiles;
                }
            }
            j += 1;
        }
        i += 1;
    }
    proof {
        assert forall|a: int, b: int|
            0 <= a < points@.len() && 0 <= b < points@.len() && !degenerate(
                points@[a],
                points@[b],
            ) implies #[trigger] tile_area(points@[a], points@[b]) <= i64::MAX by {
            if a < b {
            } else {
                assert(tile_area(points@[b], points@[a]) <= i64::MAX);
                assert(tile_area(points@[a], points@[b]) == tile_area(points@[b], points@[a]));
            }
        }
    }
    Ok(best)
}

// ---------------------------------------------------------------------------
// What the search result is
// ---------------------------------------------------------------------------

/// The search is a function of the vertex list: two runs on one input end
/// in the same result.
pub proof fn lemma_search_deterministic(
    pts: Seq<Point2D>,
    first: Result<i64, SearchError>,
    second: Result<i64, SearchError>,
)
    requires
        search_result(pts, first),
        search_result(pts, second),
    ensures
        first == second,
{
}

/// A row of the search never lowers the best, bounds every score of the row,
/// and ends on the incoming best or on one of the row's scores.
pub proof fn lemma_best_in_row(pts: Seq<Point2D>, best: int, i: int, j: int)
    ensures
        best <= best_in_row(pts, best, i, j),
        forall|k: int| i < k < j ==> #[trigger] score(pts, i, k) <= best_in_row(pts, best, i, j),
        best_in_row(pts, best, i, j) == best || exists|k: int|
            i < k < j && #[trigger] score(pts, i, k) == best_in_row(pts, best, i, j),
    decreases j - i,
{
    if j > i + 1 {
        lemma_best_in_row(pts, best, i, j - 1);
        let prev = best_in_row(pts, best, i, j - 1);
        let r = best_in_row(pts, best, i, j);
        if r != best {
            if r == prev {
                let k = choose|k: int| i < k < j - 1 && #[trigger] score(pts, i, k) == prev;
                assert(i < k < j && score(pts, i, k) == r);
            } else {
                assert(score(pts, i, j - 1) == r);
            }
        }
    }
}

/// The search up to row `i` bounds every score of the earlier rows and is 0
/// or one of those scores.
pub proof fn lemma_best_before(pts: Seq<Point2D>, i: int)
    requires
        i <= pts.len(),
    ensures
        0 <= best_before(pts, i),
        forall|a: int, b: int|
            0 <= a < i && a < b < pts.len() ==> #[trigger] score(pts, a, b) <= best_before(pts, i),
        best_before(pts, i) == 0 || exists|a: int, b: int|
            0 <= a < i && a < b < pts.len() && #[trigger] score(pts, a, b) == best_before(pts, i),
    decreases i,
{
    if i > 0 {
        let n = pts.len() as int;
        let prev = best_before(pts, i - 1);
        let r = best_before(pts, i);
        lemma_best_before(pts, i - 1);
        lemma_best_in_row(pts, prev, i - 1, n);
        if r != 0 {
            if r == prev {
                let (a, b) = choose|a: int, b: int|
                    0 <= a < i - 1 && a < b < pts.len() && #[trigger] score(pts, a, b) == prev;
                assert(0 <= a < i && a < b < pts.len() && score(pts, a, b) == r);
            } else {
                let k = choose|k: int| i - 1 < k < n && #[trigger] score(pts, i - 1, k) == r;
                assert(0 <= i - 1 < i && i - 1 < k < pts.len() && score(pts, i - 1, k) == r);
            }
        }
    }
}

/// The result is the maximum: no pair of vertices scores higher, and unless
/// it is 0 some pair scores exactly it.
pub proof fn lemma_max_interior_tiles(pts: Seq<Point2D>)
    ensures
        0 <= max_interior_tiles(pts),
        forall|i: int, j: int|
            0 <= i < j < pts.len() ==> #[trigger] score(pts, i, j) <= max_interior_tiles(pts),
        max_interior_tiles(pts) == 0 || exists|i: int, j: int|
            0 <= i < j < pts.len() && #[trigger] score(pts, i, j) == max_interior_tiles(pts),
{
    lemma_best_before(pts, pts.len() as int);
    let r = max_interior_tiles(pts);
    if r != 0 {
        let (a, b) = choose|a: int, b: int|
            0 <= a < pts.len() && a < b < pts.len() && #[trigger] score(pts, a, b) == r;
        assert(0 <= a < b < pts.len() && score(pts, a, b) == r);
    }
}

/// A pair of vertices in one row or one column scores nothing, and a
/// positive result is the tile area of a pair that shares neither.
pub proof fn lemma_degenerate_never_selected(pts: Seq<Point2D>)
    ensures
        forall|i: int, j: int| degenerate(pts[i], pts[j]) ==> #[trigger] score(pts, i, j) == 0,
        max_interior_tiles(pts) > 0 ==> exists|i: int, j: int|
            0 <= i < j < pts.len() && !degenerate(pts[i], pts[j]) && fully_interior(
                pts,
                pts[i],
                pts[j],
            ) && #[trigger] tile_area(pts[i], pts[j]) == max_interior_tiles(pts),
{
    lemma_max_interior_tiles(pts);
    let r = max_interior_tiles(pts);
    if r > 0 {
        let (i, j) = choose|i: int, j: int|
            0 <= i < j < pts.len() && #[trigger] score(pts, i, j) == r;
        assert(fully_interior(pts, pts[i], pts[j]));
        assert(tile_area(pts[i], pts[j]) == r);
    }
}

/// One step of the search with the shortcut: a pair whose tile area cannot
/// raise the best is skipped without the containment test.
pub open spec fn pruned_step(pts: Seq<Point2D>, best: int, i: int, j: int) -> int {
    if degenerate(pts[i], pts[j]) {
        best
    } else if tile_area(pts[i], pts[j]) <= best {
        best
    } else if fully_interior(pts, pts[i], pts[j]) {
        tile_area(pts[i], pts[j])
    } else {
        best
    }
}

/// A row of the search with the shortcut.
pub open spec fn pruned_row(pts: Seq<Point2D>, best: int, i: int, j: int) -> int
    decreases j - i,
{
    if j <= i + 1 {
        best
    } else {
        pruned_step(pts, pruned_row(pts, best, i, j - 1), i, j - 1)
    }
}

/// The search with the shortcut, up to row `i`.
pub open spec fn pruned_before(pts: Seq<Point2D>, i: int) -> int
    decreases i,
{
    if i <= 0 {
        0
    } else {
        pruned_row(pts, pruned_before(pts, i - 1), i - 1, pts.len() as int)
    }
}

/// The tile area of any pair is positive.
pub proof fn lemma_tile_area_positive(a: Point2D, b: Point2D)
    ensures
        tile_area(a, b) >= 1,
{
    let w = dist(a.x as int, b.x as int) + 1;
    let h = dist(a.y as int, b.y as int) + 1;
    assert(w * h >= 1) by (nonlinear_arith)
        requires
            w >= 1,
            h >= 1,
    ;
}

/// On a row the shortcut changes nothing.
pub proof fn lemma_pruned_row(pts: Seq<Point2D>, best: int, i: int, j: int)
    requires
        0 <= best,
    ensures
        pruned_row(pts, best, i, j) == best_in_row(pts, best, i, j),
    decreases j - i,
{
    if j > i + 1 {
        lemma_pruned_row(pts, best, i, j - 1);
        lemma_best_in_row(pts, best, i, j - 1);
        lemma_tile_area_positive(pts[i], pts[j - 1]);
    }
}

/// The shortcut changes nothing: the search that skips every pair whose tile
/// area cannot raise the best ends on the same value as the search that
/// tests every pair.
pub proof fn lemma_pruning_keeps_result(pts: Seq<Point2D>, i: int)
    requires
        i <= pts.len(),
    ensures
        pruned_before(pts, i) == best_before(pts, i),
        pruned_before(pts, pts.len() as int) == max_interior_tiles(pts),
{
    lemma_pruned_upto(pts, i);
    lemma_pruned_upto(pts, pts.len() as int);
}

proof fn lemma_pruned_upto(pts: Seq<Point2D>, i: int)
    requires
        i <= pts.len(),
    ensures
        pruned_before(pts, i) == best_before(pts, i),
    decreases i,
{
    if i > 0 {
        lemma_pruned_upto(pts, i - 1);
        lemma_best_before(pts, i - 1);
        lemma_pruned_row(pts, best_before(pts, i - 1), i - 1, pts.len() as int);
    }
}

// ---------------------------------------------------------------------------
// Largest rectangle between two vertices, interior or not
// ---------------------------------------------------------------------------

/// The pairs that start at vertex `i`: `(s[i], s[k])` for `k` after `i`, in
/// order.
pub open spec fn pairs_with(s: Seq<Point2D>, i: int) -> Seq<(Point2D, Point2D)> {
    Seq::new((s.len() - 1 - i) as nat, |k: int| (s[i], s[i + 1 + k]))
}

/// The pairs that start at a vertex before `i`, ordered by first vertex and
/// then by second.
pub open spec fn pairs_before(s: Seq<Point2D>, i: int) -> Seq<(Point2D, Point2D)>
    decreases i,
{
    if i <= 0 {
        Seq::empty()
    } else {
        pairs_before(s, i - 1) + pairs_with(s, i - 1)
    }
}

/// All pairs `(s[i], s[j])` with `i < j`, ordered by `i` and then by `j`.
pub open spec fn pairs_of(s: Seq<Point2D>) -> Seq<(Point2D, Point2D)> {
    pairs_before(s, s.len() as int)
}

/// The largest tile area among the given pairs, 0 for none.
pub open spec fn max_tile_area(pairs: Seq<(Point2D, Point2D)>) -> int
    decreases pairs.len(),
{
    if pairs.len() == 0 {
        0
    } else {
        max2(max_tile_area(pairs.drop_last()), tile_area(pairs.last().0, pairs.last().1))
    }
}

/// Every one of the given pairs has a tile area that an `i64` holds.
pub open spec fn areas_fit(pairs: Seq<(Point2D, Point2D)>) -> bool {
    forall|k: int| 0 <= k < pairs.len() ==> tile_area(#[trigger] pairs[k].0, pairs[k].1) <= i64::MAX
}

/// The pairs of distinct vertices, by `itertools::Itertools::tuple_combinations`
/// on the vertices in order. Assumed of it: it yields every pair of a vertex
/// and a later one, once, ordered by the first vertex's position and then by
/// the second's.
#[verifier::external_body]
#[allow(deprecated)]
fn vertex_pairs(points: &Vec<Point2D>) -> (pairs: Vec<(Point2D, Point2D)>)
    ensures
        pairs@ == pairs_of(points@),
{
    points.iter().copied().tuple_combinations().collect()
}

/// Tile area of the rectangle spanned by `a` and `b`, unless an `i64` cannot
/// hold it.
pub fn checked_area_tiles(a: &Point2D, b: &Point2D) -> (area: Option<i64>)
    ensures
        match area {
            Some(v) => v == tile_area(*a, *b),
            None => tile_area(*a, *b) > i64::MAX,
        },
{
    let dx: i128 = if a.x <= b.x {
        b.x as i128 - a.x as i128
    } else {
        a.x as i128 - b.x as i128
    };
    let dy: i128 = if a.y <= b.y {
        b.y as i128 - a.y as i128
    } else {
        a.y as i128 - b.y as i128
    };
    let w: i128 = dx + 1;
    let h: i128 = dy + 1;
    if w > i64::MAX as i128 || h > i64::MAX as i128 {
        assert(w * h > i64::MAX) by (nonlinear_arith)
            requires
                w >= 1,
                h >= 1,
                w > i64::MAX || h > i64::MAX,
        ;
        return None;
    }
    assert(0 < w * h <= 0x7fff_ffff_ffff_ffff * 0x7fff_ffff_ffff_ffff) by (nonlinear_arith)
        requires
            1 <= w <= 0x7fff_ffff_ffff_ffff,
            1 <= h <= 0x7fff_ffff_ffff_ffff,
    ;
    let area: i128 = w * h;
    if area > i64::MAX as i128 {
        None
    } else {
        Some(area as i64)
    }
}

/// What `largest_tiles` promises of its result for the vertices `pts`.
pub open spec fn largest_result(pts: Seq<Point2D>, res: Result<i64, SearchError>) -> bool {
    match res {
        Ok(best) => pts.len() >= 2 && areas_fit(pairs_of(pts)) && best == max_tile_area(pairs_of(pts)),
        Err(SearchError::TooFewVertices) => pts.len() < 2,
        Err(SearchError::SpanTooLarge) => pts.len() >= 2 && !areas_fit(pairs_of(pts)),
    }
}

/// The largest tile area among the rectangles that have two of the vertices
/// as opposite corners, whether interior or not.
pub fn largest_tiles(points: &Vec<Point2D>) -> (res: Result<i64, SearchError>)
    ensures
        largest_result(points@, res),
{
    if points.len() < 2 {
        return Err(SearchError::TooFewVertices);
    }
    let pairs: Vec<(Point2D, Point2D)> = vertex_pairs(points);
    let mut best: i64 = 0;
    let mut k: usize = 0;
    while k < pairs.len()
        invariant
            k <= pairs.len(),
            points@.len() >= 2,
            pairs@ == pairs_of(points@),
            areas_fit(pairs@.take(k as int)),
            best == max_tile_area(pairs@.take(k as int)),
        decreases pairs.len() - k,
    {
        let a: Point2D = pairs[k].0;
        let b: Point2D = pairs[k].1;
        proof {
            assert(pairs@.take(k + 1).drop_last() == pairs@.take(k as int));
            assert(pairs@.take(k + 1).last() == pairs@[k as int]);
        }
        match checked_area_tiles(&a, &b) {
            Some(area) => {
                if area > best {
                    best = area;
                }
            },
            None => {
                assert(tile_area(pairs@[k as int].0, pairs@[k as int].1) > i64::MAX);
                return Err(SearchError::SpanTooLarge);
            },
        }
        k += 1;
    }
    assert(pairs@.take(pairs.len() as int) == pairs@);
    Ok(best)
}

/// `p` is the pair of vertex `i` and the later vertex `j`.
pub open spec fn is_pair(s: Seq<Point2D>, p: (Point2D, Point2D), i: int, j: int) -> bool {
    0 <= i < j < s.len() && p == (s[i], s[j])
}

/// `p` is the pair of some vertex and a later one.
pub open spec fn from_vertices(s: Seq<Point2D>, p: (Point2D, Point2D)) -> bool {
    exists|i: int, j: int| #[trigger] is_pair(s, p, i, j)
}

/// `pairs_of` lists exactly the pairs of a vertex and a later one.
pub proof fn lemma_pairs_of(s: Seq<Point2D>)
    ensures
        forall|i: int, j: int|
            0 <= i < j < s.len() ==> #[trigger] pairs_of(s).contains((s[i], s[j])),
        forall|k: int| 0 <= k < pairs_of(s).len() ==> from_vertices(s, #[trigger] pairs_of(s)[k]),
{
    lemma_pairs_before(s, s.len() as int);
}

proof fn lemma_pairs_before(s: Seq<Point2D>, n: int)
    requires
        n <= s.len(),
    ensures
        forall|i: int, j: int|
            0 <= i < n && i < j < s.len() ==> #[trigger] pairs_before(s, n).contains((s[i], s[j])),
        forall|k: int|
            0 <= k < pairs_before(s, n).len() ==> from_vertices(s, #[trigger] pairs_before(s, n)[k]),
    decreases n,
{
    if n > 0 {
        lemma_pairs_before(s, n - 1);
        let prev = pairs_before(s, n - 1);
        let row = pairs_with(s, n - 1);
        let all = pairs_before(s, n);
        assert forall|i: int, j: int| 0 <= i < n && i < j < s.len() implies #[trigger] all.contains(
            (s[i], s[j]),
        ) by {
            if i < n - 1 {
                assert(prev.contains((s[i], s[j])));
                let k = choose|k: int| 0 <= k < prev.len() && prev[k] == (s[i], s[j]);
                assert(all[k] == (s[i], s[j]));
            } else {
                assert(row[j - n] == (s[i], s[j]));
                assert(all[prev.len() + (j - n)] == (s[i], s[j]));
            }
        }
        assert forall|k: int| 0 <= k < all.len() implies from_vertices(s, #[trigger] all[k]) by {
            if k < prev.len() {
                assert(all[k] == prev[k]);
            } else {
                let m = k - prev.len();
                assert(all[k] == row[m]);
                assert(is_pair(s, all[k], n - 1, n + m));
            }
        }
    }
}

/// Where every pair of vertices has a tile area that an `i64` holds, so has
/// every pair that shares neither row nor column: the search for interior
/// rectangles gives a result wherever the search among all rectangles does.
pub proof fn lemma_areas_fit_scores_fit(pts: Seq<Point2D>)
    requires
        areas_fit(pairs_of(pts)),
    ensures
        scores_fit(pts),
{
    lemma_pairs_of(pts);
    let pairs = pairs_of(pts);
    assert forall|i: int, j: int|
        0 <= i < pts.len() && 0 <= j < pts.len() && !degenerate(pts[i], pts[j]) implies #[trigger] tile_area(
        pts[i],
        pts[j],
    ) <= i64::MAX by {
        let (a, b) = if i < j {
            (i, j)
        } else {
            (j, i)
        };
        assert(pairs.contains((pts[a], pts[b])));
        let k = choose|k: int| 0 <= k < pairs.len() && pairs[k] == (pts[a], pts[b]);
        assert(tile_area(pairs[k].0, pairs[k].1) <= i64::MAX);
        assert(tile_area(pts[i], pts[j]) == tile_area(pts[a], pts[b]));
    }
}

/// The result over a list of pairs is their maximum: none has a larger tile
/// area, and unless the list is empty one has exactly it.
pub proof fn lemma_max_tile_area(pairs: Seq<(Point2D, Point2D)>)
    ensures
        forall|k: int| 0 <= k < pairs.len() ==> tile_area(#[trigger] pairs[k].0, pairs[k].1) <= max_tile_area(pairs),
        pairs.len() > 0 ==> exists|k: int|
            0 <= k < pairs.len() && tile_area(#[trigger] pairs[k].0, pairs[k].1) == max_tile_area(pairs),
    decreases pairs.len(),
{
    if pairs.len() > 0 {
        let rest = pairs.drop_last();
        lemma_max_tile_area(rest);
        lemma_tile_area_positive(pairs.last().0, pairs.last().1);
        let r = max_tile_area(pairs);
        assert forall|k: int| 0 <= k < pairs.len() implies tile_area(#[trigger] pairs[k].0, pairs[k].1) <= r by {
            if k < rest.len() {
                assert(rest[k] == pairs[k]);
            }
        }
        if r == tile_area(pairs.last().0, pairs.last().1) {
            assert(pairs[pairs.len() - 1] == pairs.last());
        } else {
            assert(rest.len() > 0) by {
                if rest.len() == 0 {
                    assert(max_tile_area(rest) == 0);
                }
            }
            let k = choose|k: int| 0 <= k < rest.len() && tile_area(#[trigger] rest[k].0, rest[k].1) == max_tile_area(rest);
            assert(pairs[k] == rest[k]);
        }
    }
}

// ---------------------------------------------------------------------------
// Vertices from text
// ---------------------------------------------------------------------------

/// Why a line is no vertex.
#[derive(Clone, Copy, Debug, PartialEq, Eq, Structural)]
pub enum PointError {
    /// The line does not have exactly two fields around one comma.
    FieldCount,
    /// The first field is no `i64`.
    BadX,
    /// The second field is no `i64`.
    BadY,
}

/// The vertex that a line writes: two `i64` fields around a comma, white
/// space around either field ignored.
pub open spec fn parse_point(s: Seq<char>) -> Result<Point2D, PointError> {
    let fields = split(s, ',');
    if fields.len() != 2 {
        Err(PointError::FieldCount)
    } else {
        match parse_i64(trim(fields[0])) {
            None => Err(PointError::BadX),
            Some(x) => match parse_i64(trim(fields[1])) {
                None => Err(PointError::BadY),
                Some(y) => Ok(Point2D { x, y }),
            },
        }
    }
}

/// The vertices that the lines write, in order; a line that writes none is
/// passed over.
pub open spec fn points_of(lines: Seq<Seq<char>>) -> Seq<Point2D>
    decreases lines.len(),
{
    if lines.len() == 0 {
        Seq::empty()
    } else {
        let rest = points_of(lines.drop_last());
        match parse_point(lines.last()) {
            Ok(p) => rest.push(p),
            Err(_) => rest,
        }
    }
}

impl Point2D {
    /// Reads a vertex from a line such as `7,1`.
    pub fn from_string(s: &str) -> (res: Result<Point2D, PointError>)
        ensures
            res == parse_point(s@),
    {
        let chars: Vec<char> = chars_of(s);
        let coords: Vec<Vec<char>> = split_at_char(&chars, ',');
        if coords.len() != 2 {
            return Err(PointError::FieldCount);
        }
        assert(views(coords@)[0] == coords@[0]@ && views(coords@)[1] == coords@[1]@);
        let x: i64 = match read_i64(&trimmed(&coords[0])) {
            Some(x) => x,
            None => {
                return Err(PointError::BadX);
            },
        };
        let y: i64 = match read_i64(&trimmed(&coords[1])) {
            Some(y) => y,
            None => {
                return Err(PointError::BadY);
            },
        };
        Ok(Point2D { x, y })
    }
}

/// Reads the vertex list: one vertex per line, lines that write none left
/// out.
pub fn parse_points(lines: &Vec<String>) -> (points: Vec<Point2D>)
    ensures
        points@ == points_of(line_views(lines@)),
{
    let mut points: Vec<Point2D> = Vec::new();
    let mut i: usize = 0;
    assert(line_views(lines@).take(0) =~= Seq::<Seq<char>>::empty());
    while i < lines.len()
        invariant
            i <= lines.len(),
            points@ == points_of(line_views(lines@).take(i as int)),
        decreases lines.len() - i,
    {
        proof {
            let t = line_views(lines@).take(i + 1);
            assert(t.drop_last() == line_views(lines@).take(i as int));
            assert(t.last() == lines@[i as int]@);
        }
        match Point2D::from_string(lines[i].as_str()) {
            Ok(p) => {
                points.push(p);
            },
            Err(_) => {},
        }
        i += 1;
    }
    assert(line_views(lines@).take(lines.len() as int) == line_views(lines@));
    points
}

/// The largest tile area of a rectangle between two of the vertices that the
/// lines write.
pub fn solve_part_1(lines: &Vec<String>) -> (res: Result<i64, SearchError>)
    ensures
        largest_result(points_of(line_views(lines@)), res),
{
    let points: Vec<Point2D> = parse_points(lines);
    largest_tiles(&points)
}

/// The largest tile area of a wholly interior rectangle between two vertices
/// of the polygon that the lines write, 0 where there is none.
pub fn solve(lines: &Vec<String>) -> (res: Result<i64, SearchError>)
    ensures
        search_result(points_of(line_views(lines@)), res),
{
    let points: Vec<Point2D> = parse_points(lines);
    largest_interior_tiles(&points)
}

} // verus!
