//! Points on the integer grid and the exact orientation test.

use vstd::prelude::*;

verus! {

/// A point of the plane, with coordinates on an exact integer grid.
///
/// Equality is exact coordinate equality; it is what the hull sweep uses
/// to recognise duplicate points.
#[derive(Clone, Copy, PartialEq, Eq, Structural, Debug, PartialOrd, Ord)]
pub struct Point {
    pub x: i32,
    pub y: i32,
}

impl Point {
    pub fn new(x: i32, y: i32) -> (p: Point)
        ensures
            p == (Point { x, y }),
    {
        Point { x, y }
    }
}

/// Twice the signed area of the triangle `a`, `b`, `c`: the z-component of
/// the cross product of the edge vectors `b - a` and `c - b`.
///
/// Positive means `a -> b -> c` turns strictly left (counter-clockwise),
/// zero means the three points are collinear, negative means a right turn.
pub open spec fn cross3(a: Point, b: Point, c: Point) -> int {
    (b.x - a.x) * (c.y - b.y) - (b.y - a.y) * (c.x - b.x)
}

/// A turn that a convex counter-clockwise boundary must not contain:
/// a right turn or a straight angle.
pub open spec fn invalid_turn(a: Point, b: Point, c: Point) -> bool {
    cross3(a, b, c) <= 0
}

/// The sweep order: ascending by `x`, ties broken ascending by `y`.
pub open spec fn lex_leq(a: Point, b: Point) -> bool {
    a.x < b.x || (a.x == b.x && a.y <= b.y)
}

/// `lex_leq` as a value, for use with `Seq::sort_by`.
pub open spec fn lex_leq_fn() -> spec_fn(Point, Point) -> bool {
    |a: Point, b: Point| lex_leq(a, b)
}

/// The sweep order is a total order on points.
pub proof fn lemma_lex_leq_total_ordering()
    ensures
        vstd::relations::total_ordering(lex_leq_fn()),
{
}

/// Exact orientation test: returns twice the signed area of `a`, `b`, `c`.
pub fn orientation(a: Point, b: Point, c: Point) -> (r: i128)
    ensures
        r == cross3(a, b, c),
{
    let bax: i64 = b.x as i64 - a.x as i64;
    let bay: i64 = b.y as i64 - a.y as i64;
    let cbx: i64 = c.x as i64 - b.x as i64;
    let cby: i64 = c.y as i64 - b.y as i64;
    proof {
        lemma_i64_diff_product_bounded(bax as int, cby as int);
        lemma_i64_diff_product_bounded(bay as int, cbx as int);
    }
    (bax as i128) * (cby as i128) - (bay as i128) * (cbx as i128)
}

/// The product of two coordinate differences stays far inside `i128`.
proof fn lemma_i64_diff_product_bounded(p: int, q: int)
    requires
        -0x1_0000_0000 <= p <= 0x1_0000_0000,
        -0x1_0000_0000 <= q <= 0x1_0000_0000,
    ensures
        -0x1_0000_0000_0000_0000 <= p * q <= 0x1_0000_0000_0000_0000,
{
    assert(-0x1_0000_0000_0000_0000 <= p * q <= 0x1_0000_0000_0000_0000) by (nonlinear_arith)
        requires
            -0x1_0000_0000 <= p <= 0x1_0000_0000,
            -0x1_0000_0000 <= q <= 0x1_0000_0000,
    ;
}

/// Whether the turn `a -> b -> c` is one a counter-clockwise hull boundary
/// must reject (right turn or collinear).
pub fn invalid_orientation(a: Point, b: Point, c: Point) -> (r: bool)
    ensures
        r == invalid_turn(a, b, c),
{
    orientation(a, b, c) <= 0
}

/// Rotating the three points does not change the signed area.
pub proof fn lemma_cross3_rotate(a: Point, b: Point, c: Point)
    ensures
        cross3(a, b, c) == cross3(b, c, a),
{
    assert(cross3(a, b, c) == cross3(b, c, a)) by (nonlinear_arith);
}

/// Swapping the last two points negates the signed area.
pub proof fn lemma_cross3_swap(a: Point, b: Point, c: Point)
    ensures
        cross3(a, b, c) == -cross3(a, c, b),
{
    assert(cross3(a, b, c) == -cross3(a, c, b)) by (nonlinear_arith);
}

/// Walking the triangle backwards negates the signed area.
pub proof fn lemma_cross3_reverse(a: Point, b: Point, c: Point)
    ensures
        cross3(a, b, c) == -cross3(c, b, a),
{
    assert(cross3(a, b, c) == -cross3(c, b, a)) by (nonlinear_arith);
}

/// A triple with a repeated point is collinear.
pub proof fn lemma_cross3_degenerate(a: Point, b: Point)
    ensures
        cross3(a, a, b) == 0,
        cross3(a, b, a) == 0,
        cross3(a, b, b) == 0,
{
    assert(cross3(a, a, b) == 0 && cross3(a, b, a) == 0 && cross3(a, b, b) == 0)
        by (nonlinear_arith);
}

} // verus!
