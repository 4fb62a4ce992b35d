//! Points, the orientation of three points, and the intersection test for two
//! closed segments.
//!
//! Coordinates are integers, so every quantity below is computed exactly: the
//! sign of an orientation is never the product of a rounding error.

use crate::incidence::{have_common_point, lemma_intersect_is_common_point};
use vstd::math::{max, min};
use vstd::prelude::*;

verus! {

/// A point of the plane with integer coordinates.
#[derive(Clone, Copy, Debug, PartialEq, Eq, Structural)]
pub struct Point {
    pub x: i32,
    pub y: i32,
}

/// The closed segment between the end points `p1` and `p2`. The two may
/// coincide; the segment is then a single point.
#[derive(Clone, Copy, Debug, PartialEq, Eq, Structural)]
pub struct Segment {
    pub p1: Point,
    pub p2: Point,
}

/// Twice the signed area of the triangle `(p, q, r)`: positive when the three
/// points turn counter-clockwise, negative when they turn clockwise, and zero
/// when they lie on one line (two of them may coincide).
pub open spec fn orientation(p: Point, q: Point, r: Point) -> int {
    (p.x * q.y - p.y * q.x) + (q.x * r.y - q.y * r.x) + (p.y * r.x - p.x * r.y)
}

/// Whether two orientations have the same sign and neither is zero, which is
/// to say that the two points they were taken for lie strictly on one side of
/// the line they were taken against.
pub open spec fn same_side(a: int, b: int) -> bool {
    a * b > 0
}

/// Whether the closed interval between `a1` and `a2` and the closed interval
/// between `b1` and `b2` have a value in common. The bounds of either interval
/// may be given in any order.
pub open spec fn ranges_overlap(a1: int, a2: int, b1: int, b2: int) -> bool {
    !(min(b1, b2) > max(a1, a2) || max(b1, b2) < min(a1, a2))
}

/// Whether the bounding boxes of the segments `(p1, p2)` and `(q1, q2)` meet:
/// their projections overlap on the x axis and on the y axis. For two segments
/// on one line this says that the segments themselves have a point in common.
pub open spec fn boxes_overlap(p1: Point, p2: Point, q1: Point, q2: Point) -> bool {
    &&& ranges_overlap(p1.x as int, p2.x as int, q1.x as int, q2.x as int)
    &&& ranges_overlap(p1.y as int, p2.y as int, q1.y as int, q2.y as int)
}

/// Whether all four end points of the segments `(p1, p2)` and `(q1, q2)` lie
/// on one line, as seen from both segments.
pub open spec fn collinear(p1: Point, p2: Point, q1: Point, q2: Point) -> bool {
    &&& orientation(p1, p2, q1) == 0
    &&& orientation(p1, p2, q2) == 0
    &&& orientation(q1, q2, p1) == 0
    &&& orientation(q1, q2, p2) == 0
}

/// Whether the closed segments `(p1, p2)` and `(q1, q2)` intersect.
///
/// They do not when one of them lies strictly on one side of the line through
/// the other. Failing that, two segments on one line intersect when their
/// bounding boxes meet, and any other two segments cross or touch.
pub open spec fn segments_intersect(p1: Point, p2: Point, q1: Point, q2: Point) -> bool {
    if same_side(orientation(p1, p2, q1), orientation(p1, p2, q2)) {
        false
    } else if same_side(orientation(q1, q2, p1), orientation(q1, q2, p2)) {
        false
    } else if collinear(p1, p2, q1, q2) {
        boxes_overlap(p1, p2, q1, q2)
    } else {
        true
    }
}

/// The point with the coordinates of `p` exchanged.
pub open spec fn swap_axes(p: Point) -> Point {
    Point { x: p.y, y: p.x }
}

proof fn lemma_coordinate_product(a: i32, b: i32)
    by (nonlinear_arith)
    ensures
        -0x4000_0000_0000_0000 <= a * b <= 0x4000_0000_0000_0000,
{
}

/// Two orientations are on the same side when both are positive or both are
/// negative.
pub proof fn lemma_same_side_by_sign(a: int, b: int)
    by (nonlinear_arith)
    ensures
        same_side(a, b) <==> (a > 0 && b > 0) || (a < 0 && b < 0),
{
}

proof fn lemma_same_side_negated(a: int, b: int)
    by (nonlinear_arith)
    ensures
        same_side(-a, -b) == same_side(a, b),
        same_side(b, a) == same_side(a, b),
{
}

/// Exchanging the first two points of an orientation, or exchanging the
/// coordinates of all three points, turns the triangle over: the orientation
/// changes its sign and keeps its size.
pub proof fn lemma_orientation_reversed(p: Point, q: Point, r: Point)
    ensures
        orientation(q, p, r) == -orientation(p, q, r),
        orientation(swap_axes(p), swap_axes(q), swap_axes(r)) == -orientation(p, q, r),
{
}

/// The intersection test takes its two segments in either order, and each
/// segment's end points in either order: all eight ways of writing the same
/// two segments give the same answer.
pub proof fn lemma_intersect_symmetric(p1: Point, p2: Point, q1: Point, q2: Point)
    ensures
        segments_intersect(p2, p1, q1, q2) == segments_intersect(p1, p2, q1, q2),
        segments_intersect(p1, p2, q2, q1) == segments_intersect(p1, p2, q1, q2),
        segments_intersect(p2, p1, q2, q1) == segments_intersect(p1, p2, q1, q2),
        segments_intersect(q1, q2, p1, p2) == segments_intersect(p1, p2, q1, q2),
        segments_intersect(q2, q1, p1, p2) == segments_intersect(p1, p2, q1, q2),
        segments_intersect(q1, q2, p2, p1) == segments_intersect(p1, p2, q1, q2),
        segments_intersect(q2, q1, p2, p1) == segments_intersect(p1, p2, q1, q2),
{
    lemma_orientation_reversed(p1, p2, q1);
    lemma_orientation_reversed(p1, p2, q2);
    lemma_orientation_reversed(q1, q2, p1);
    lemma_orientation_reversed(q1, q2, p2);
    let o1 = orientation(p1, p2, q1);
    let o2 = orientation(p1, p2, q2);
    let o3 = orientation(q1, q2, p1);
    let o4 = orientation(q1, q2, p2);
    lemma_same_side_negated(o1, o2);
    lemma_same_side_negated(o3, o4);
}

/// Exchanging the x and y coordinates of all four end points does not change
/// the answer of the intersection test.
pub proof fn lemma_intersect_axes_swapped(p1: Point, p2: Point, q1: Point, q2: Point)
    ensures
        segments_intersect(swap_axes(p1), swap_axes(p2), swap_axes(q1), swap_axes(q2))
            == segments_intersect(p1, p2, q1, q2),
{
    lemma_orientation_reversed(p1, p2, q1);
    lemma_orientation_reversed(p1, p2, q2);
    lemma_orientation_reversed(q1, q2, p1);
    lemma_orientation_reversed(q1, q2, p2);
    lemma_same_side_negated(orientation(p1, p2, q1), orientation(p1, p2, q2));
    lemma_same_side_negated(orientation(q1, q2, p1), orientation(q1, q2, p2));
}

/// Three points of which two coincide have the orientation zero.
pub proof fn lemma_orientation_of_two(p: Point, q: Point)
    ensures
        orientation(p, p, q) == 0,
        orientation(p, q, p) == 0,
        orientation(p, q, q) == 0,
{
    assert(q.x * p.y == p.y * q.x) by (nonlinear_arith);
    assert(q.y * p.x == p.x * q.y) by (nonlinear_arith);
    assert(p.y * p.x == p.x * p.y) by (nonlinear_arith);
    assert(q.y * q.x == q.x * q.y) by (nonlinear_arith);
}

/// Computes the orientation of `(p, q, r)`, exactly: twice the signed area of
/// the triangle, which is zero where two of the points coincide.
pub fn ccw(p: &Point, q: &Point, r: &Point) -> (area: i128)
    ensures
        area == orientation(*p, *q, *r),
        *p == *q || *q == *r || *p == *r ==> area == 0,
{
    proof {
        lemma_orientation_of_two(*p, *r);
        lemma_orientation_of_two(*p, *q);
        lemma_coordinate_product(p.x, q.y);
        lemma_coordinate_product(p.y, q.x);
        lemma_coordinate_product(q.x, r.y);
        lemma_coordinate_product(q.y, r.x);
        lemma_coordinate_product(p.y, r.x);
        lemma_coordinate_product(p.x, r.y);
    }
    let px: i128 = p.x as i128;
    let py: i128 = p.y as i128;
    let qx: i128 = q.x as i128;
    let qy: i128 = q.y as i128;
    let rx: i128 = r.x as i128;
    let ry: i128 = r.y as i128;
    (px * qy - py * qx) + (qx * ry - qy * rx) + (py * rx - px * ry)
}

fn smallest(a: i32, b: i32) -> (least: i32)
    ensures
        least == min(a as int, b as int),
{
    if a <= b {
        a
    } else {
        b
    }
}

fn largest(a: i32, b: i32) -> (most: i32)
    ensures
        most == max(a as int, b as int),
{
    if a >= b {
        a
    } else {
        b
    }
}

/// Decides whether the bounding boxes of the segments `(p1, p2)` and
/// `(q1, q2)` meet. It is meant for two segments on one line, where it tells
/// whether they have a point in common.
pub fn overlap_for_colinear(p1: &Point, p2: &Point, q1: &Point, q2: &Point) -> (overlap: bool)
    ensures
        overlap == boxes_overlap(*p1, *p2, *q1, *q2),
        collinear(*p1, *p2, *q1, *q2) ==> (overlap <==> have_common_point(*p1, *p2, *q1, *q2)),
{
    proof {
        lemma_intersect_is_common_point(*p1, *p2, *q1, *q2);
    }
    let p_smallest_x: i32 = smallest(p1.x, p2.x);
    let p_largest_x: i32 = largest(p1.x, p2.x);
    let q_smallest_x: i32 = smallest(q1.x, q2.x);
    let q_largest_x: i32 = largest(q1.x, q2.x);

    let qx_not_in_px = q_smallest_x > p_largest_x || q_largest_x < p_smallest_x;
    if qx_not_in_px {
        return false;
    }
    let p_smallest_y: i32 = smallest(p1.y, p2.y);
    let p_largest_y: i32 = largest(p1.y, p2.y);
    let q_smallest_y: i32 = smallest(q1.y, q2.y);
    let q_largest_y: i32 = largest(q1.y, q2.y);

    let qy_not_in_py = q_smallest_y > p_largest_y || q_largest_y < p_smallest_y;
    !qy_not_in_py
}

fn strictly_same_sign(a: i128, b: i128) -> (same: bool)
    ensures
        same == same_side(a as int, b as int),
{
    proof {
        lemma_same_side_by_sign(a as int, b as int);
    }
    (a > 0 && b > 0) || (a < 0 && b < 0)
}

/// Decides whether the closed segments `(p1, p2)` and `(q1, q2)` intersect,
/// that is, whether they have a point in common.
pub fn intersect(p1: &Point, p2: &Point, q1: &Point, q2: &Point) -> (hit: bool)
    ensures
        hit == segments_intersect(*p1, *p2, *q1, *q2),
        hit <==> have_common_point(*p1, *p2, *q1, *q2),
{
    proof {
        lemma_intersect_is_common_point(*p1, *p2, *q1, *q2);
    }
    let ccwq1: i128 = ccw(p1, p2, q1);
    let ccwq2: i128 = ccw(p1, p2, q2);
    if strictly_same_sign(ccwq1, ccwq2) {
        return false;
    }
    let ccwp1: i128 = ccw(q1, q2, p1);
    let ccwp2: i128 = ccw(q1, q2, p2);
    if strictly_same_sign(ccwp1, ccwp2) {
        return false;
    }
    if ccwq1 == 0 && ccwq2 == 0 && ccwp1 == 0 && ccwp2 == 0 {
        return overlap_for_colinear(p1, p2, q1, q2);
    }
    true
}

} // verus!
