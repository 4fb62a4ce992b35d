//! What the intersection test decides: whether two closed segments have a
//! point in common.
//!
//! Two segments with integer end points may cross between the points of the
//! grid, so the common point is sought among the points with rational
//! coordinates.

use crate::geometry::{
    boxes_overlap, collinear, lemma_orientation_of_two, lemma_orientation_reversed,
    lemma_same_side_by_sign, orientation, segments_intersect, Point,
};
use vstd::math::{max, min};
use vstd::prelude::*;

verus! {

/// The point `(x / d, y / d)` of the plane, where `d > 0`.
pub struct RationalPoint {
    pub x: int,
    pub y: int,
    pub d: int,
}

impl RationalPoint {
    /// The orientation of `(a, b, self)`, multiplied by `d`: it has the sign
    /// of the orientation, and is zero when `self` lies on the line through
    /// `a` and `b`.
    pub open spec fn turn(self, a: Point, b: Point) -> int {
        (a.x * b.y - a.y * b.x) * self.d + (b.x * self.y - b.y * self.x) + (a.y * self.x - a.x
            * self.y)
    }

    /// Whether the point lies on the closed segment between `a` and `b`: on
    /// the line through the two, and not outside their bounding box. Where `a`
    /// and `b` coincide, this says that the point is `a`.
    pub open spec fn lies_on(self, a: Point, b: Point) -> bool {
        &&& self.d > 0
        &&& self.turn(a, b) == 0
        &&& min(a.x as int, b.x as int) * self.d <= self.x <= max(a.x as int, b.x as int) * self.d
        &&& min(a.y as int, b.y as int) * self.d <= self.y <= max(a.y as int, b.y as int) * self.d
    }
}

/// The point `e` of the grid, as a rational point.
pub open spec fn grid_point(e: Point) -> RationalPoint {
    RationalPoint { x: e.x as int, y: e.y as int, d: 1 }
}

/// Whether the closed segments `(p1, p2)` and `(q1, q2)` have a point in
/// common.
pub open spec fn have_common_point(p1: Point, p2: Point, q1: Point, q2: Point) -> bool {
    exists|c: RationalPoint| c.lies_on(p1, p2) && c.lies_on(q1, q2)
}

/// A weighted mean of two values of one sign has that sign. The weights are
/// `m - s` and `s`, both of the sign of `k`, and `k * lx` is the weighted sum.
proof fn lemma_mean_sign(k: int, s: int, m: int, la: int, lb: int, lx: int)
    by (nonlinear_arith)
    requires
        k * lx == (m - s) * la + s * lb,
        (k > 0 && m > 0 && 0 <= s <= m) || (k < 0 && m < 0 && m <= s <= 0),
    ensures
        la > 0 && lb > 0 ==> lx > 0,
        la < 0 && lb < 0 ==> lx < 0,
{
}

/// Along a segment, the value of a linear form at a point of the segment is
/// the mean of its values at the end points, weighted by where the point
/// stands between them. Here `(ux, uy)` leads from the first end point to the
/// second, `(s, t)` from `d` times the first end point to the point, `la` is
/// the value at the first end point, and `ca`, `cb` are the form's slopes.
proof fn lemma_form_along_segment(
    ux: int,
    uy: int,
    s: int,
    t: int,
    d: int,
    ca: int,
    cb: int,
    la: int,
)
    requires
        ux * t == uy * s,
    ensures
        ux * (d * la + cb * t + ca * s) == (d * ux - s) * la + s * (la + cb * uy + ca * ux),
{
    assert(ux * (d * la + cb * t + ca * s) == ux * (d * la) + ux * (cb * t) + ux * (ca * s))
        by (nonlinear_arith);
    assert(ux * (cb * t) == cb * (ux * t)) by (nonlinear_arith);
    assert(cb * (uy * s) == s * (cb * uy)) by (nonlinear_arith);
    assert(ux * (ca * s) == s * (ca * ux)) by (nonlinear_arith);
    assert(ux * (d * la) == (d * ux) * la) by (nonlinear_arith);
    assert((d * ux - s) * la + s * (la + cb * uy + ca * ux) == (d * ux) * la + s * (cb * uy) + s
        * (ca * ux)) by (nonlinear_arith);
}

/// The scaled orientation of `(a, b, c)` is the cross product of the steps
/// from `a` to `b` and from `a` to `c`.
proof fn lemma_turn_as_cross(a: Point, b: Point, c: RationalPoint)
    ensures
        c.turn(a, b) == (b.x - a.x) * (c.y - c.d * a.y) - (b.y - a.y) * (c.x - c.d * a.x),
{
    let (ax, ay, bx, by) = (a.x as int, a.y as int, b.x as int, b.y as int);
    let (x, y, d) = (c.x, c.y, c.d);
    assert((ax * by - ay * bx) * d == ax * by * d - ay * bx * d) by (nonlinear_arith);
    assert((bx - ax) * (y - d * ay) == bx * y - bx * (d * ay) - ax * y + ax * (d * ay))
        by (nonlinear_arith);
    assert((by - ay) * (x - d * ax) == by * x - by * (d * ax) - ay * x + ay * (d * ax))
        by (nonlinear_arith);
    assert(bx * (d * ay) == ay * bx * d) by (nonlinear_arith);
    assert(by * (d * ax) == ax * by * d) by (nonlinear_arith);
    assert(ax * (d * ay) == ay * (d * ax)) by (nonlinear_arith);
}

/// The scaled orientation of `(l1, l2, c)`, seen from a point `a`: `d` times
/// the orientation of `(l1, l2, a)`, and what the step from `a` to `c` adds.
proof fn lemma_turn_from(l1: Point, l2: Point, a: Point, c: RationalPoint)
    ensures
        c.turn(l1, l2) == c.d * orientation(l1, l2, a) + (l2.x - l1.x) * (c.y - c.d * a.y) + (l1.y
            - l2.y) * (c.x - c.d * a.x),
{
    let (kx, ky, lx, ly) = (l1.x as int, l1.y as int, l2.x as int, l2.y as int);
    let (ax, ay) = (a.x as int, a.y as int);
    let (x, y, d) = (c.x, c.y, c.d);
    let area = kx * ly - ky * lx;
    assert(d * (area + (lx * ay - ly * ax) + (ky * ax - kx * ay)) == area * d + d * (lx * ay) - d
        * (ly * ax) + d * (ky * ax) - d * (kx * ay)) by (nonlinear_arith);
    assert((lx - kx) * (y - d * ay) == lx * y - lx * (d * ay) - kx * y + kx * (d * ay))
        by (nonlinear_arith);
    assert((ky - ly) * (x - d * ax) == ky * x - ky * (d * ax) - ly * x + ly * (d * ax))
        by (nonlinear_arith);
    assert(d * (lx * ay) == lx * (d * ay)) by (nonlinear_arith);
    assert(d * (ly * ax) == ly * (d * ax)) by (nonlinear_arith);
    assert(d * (ky * ax) == ky * (d * ax)) by (nonlinear_arith);
    assert(d * (kx * ay) == kx * (d * ay)) by (nonlinear_arith);
}

/// The orientation of `(l1, l2, b)`, seen from a point `a`.
proof fn lemma_orientation_from(l1: Point, l2: Point, a: Point, b: Point)
    ensures
        orientation(l1, l2, b) == orientation(l1, l2, a) + (l2.x - l1.x) * (b.y - a.y) + (l1.y
            - l2.y) * (b.x - a.x),
{
    let (kx, ky, lx, ly) = (l1.x as int, l1.y as int, l2.x as int, l2.y as int);
    let (ax, ay, bx, by) = (a.x as int, a.y as int, b.x as int, b.y as int);
    assert((lx - kx) * (by - ay) == lx * by - lx * ay - kx * by + kx * ay) by (nonlinear_arith);
    assert((ky - ly) * (bx - ax) == ky * bx - ky * ax - ly * bx + ly * ax) by (nonlinear_arith);
}

/// Where a point stands between the two ends of a range, after scaling:
/// the step `s` from `d * a` to `x`, against the whole step `d * (b - a)`.
proof fn lemma_step_in_range(a: int, b: int, x: int, d: int)
    by (nonlinear_arith)
    requires
        d > 0,
        min(a, b) * d <= x <= max(a, b) * d,
    ensures
        a < b ==> d * (b - a) > 0 && 0 <= x - d * a <= d * (b - a),
        a > b ==> d * (b - a) < 0 && d * (b - a) <= x - d * a <= 0,
        a == b ==> x - d * a == 0,
{
}

/// A point of a segment lies on the side of a line on which both ends of the
/// segment lie: where the orientations of the two ends against the line
/// `(l1, l2)` have one sign, that of the point has it too.
proof fn lemma_side_kept(l1: Point, l2: Point, a: Point, b: Point, c: RationalPoint)
    requires
        c.lies_on(a, b),
    ensures
        orientation(l1, l2, a) > 0 && orientation(l1, l2, b) > 0 ==> c.turn(l1, l2) > 0,
        orientation(l1, l2, a) < 0 && orientation(l1, l2, b) < 0 ==> c.turn(l1, l2) < 0,
{
    let ux = b.x - a.x;
    let uy = b.y - a.y;
    let s = c.x - c.d * a.x;
    let t = c.y - c.d * a.y;
    let ca = l1.y - l2.y;
    let cb = l2.x - l1.x;
    let la = orientation(l1, l2, a);
    let lb = orientation(l1, l2, b);
    let lx = c.turn(l1, l2);
    lemma_turn_as_cross(a, b, c);
    lemma_turn_from(l1, l2, a, c);
    lemma_orientation_from(l1, l2, a, b);
    lemma_step_in_range(a.x as int, b.x as int, c.x, c.d);
    lemma_step_in_range(a.y as int, b.y as int, c.y, c.d);
    if ux != 0 {
        lemma_form_along_segment(ux, uy, s, t, c.d, ca, cb, la);
        lemma_mean_sign(ux, s, c.d * ux, la, lb, lx);
    } else if uy != 0 {
        lemma_form_along_segment(uy, ux, t, s, c.d, cb, ca, la);
        lemma_mean_sign(uy, t, c.d * uy, la, lb, lx);
    } else {
        assert((la > 0 ==> c.d * la > 0) && (la < 0 ==> c.d * la < 0)) by (nonlinear_arith)
            requires
                c.d > 0,
        ;
    }
}

/// Two ranges that hold a common value after scaling overlap.
proof fn lemma_ranges_meet(a1: int, a2: int, b1: int, b2: int, x: int, d: int)
    by (nonlinear_arith)
    requires
        d > 0,
        min(a1, a2) * d <= x <= max(a1, a2) * d,
        min(b1, b2) * d <= x <= max(b1, b2) * d,
    ensures
        min(b1, b2) <= max(a1, a2),
        min(a1, a2) <= max(b1, b2),
{
}

/// Two segments with a common point pass the intersection test.
proof fn lemma_common_point_accepted(
    p1: Point,
    p2: Point,
    q1: Point,
    q2: Point,
    c: RationalPoint,
)
    requires
        c.lies_on(p1, p2),
        c.lies_on(q1, q2),
    ensures
        segments_intersect(p1, p2, q1, q2),
{
    lemma_side_kept(p1, p2, q1, q2, c);
    lemma_side_kept(q1, q2, p1, p2, c);
    lemma_same_side_by_sign(orientation(p1, p2, q1), orientation(p1, p2, q2));
    lemma_same_side_by_sign(orientation(q1, q2, p1), orientation(q1, q2, p2));
    lemma_ranges_meet(p1.x as int, p2.x as int, q1.x as int, q2.x as int, c.x, c.d);
    lemma_ranges_meet(p1.y as int, p2.y as int, q1.y as int, q2.y as int, c.y, c.d);
}

/// For a point of the grid nothing is scaled: it lies on a segment when its
/// orientation against the segment is zero and it is within the bounding box.
proof fn lemma_grid_point_lies_on(a: Point, b: Point, r: Point)
    ensures
        grid_point(r).turn(a, b) == orientation(a, b, r),
        grid_point(r).lies_on(a, b) <==> {
            &&& orientation(a, b, r) == 0
            &&& min(a.x as int, b.x as int) <= r.x <= max(a.x as int, b.x as int)
            &&& min(a.y as int, b.y as int) <= r.y <= max(a.y as int, b.y as int)
        },
{
}

/// On a line, a point that stands between two others in one coordinate
/// stands between them in the other: with `ux * t == uy * s` and `s` between
/// zero and `ux`, `t` lies between zero and `uy`.
proof fn lemma_proportion(ux: int, uy: int, s: int, t: int)
    by (nonlinear_arith)
    requires
        ux * t == uy * s,
        (ux > 0 && 0 <= s <= ux) || (ux < 0 && ux <= s <= 0),
    ensures
        min(0, uy) <= t <= max(0, uy),
{
}

/// A grid point on the line through `a` and `b` that is within their bounding
/// box along one axis, along which `a` and `b` differ, is on the segment.
proof fn lemma_within_on_line(a: Point, b: Point, r: Point)
    requires
        orientation(a, b, r) == 0,
        (a.x != b.x && min(a.x as int, b.x as int) <= r.x <= max(a.x as int, b.x as int)) || (a.y
            != b.y && min(a.y as int, b.y as int) <= r.y <= max(a.y as int, b.y as int)),
    ensures
        grid_point(r).lies_on(a, b),
{
    let c = grid_point(r);
    lemma_grid_point_lies_on(a, b, r);
    lemma_turn_as_cross(a, b, c);
    let ux = b.x - a.x;
    let uy = b.y - a.y;
    let s = r.x - a.x;
    let t = r.y - a.y;
    assert(c.d * a.x == a.x && c.d * a.y == a.y) by (nonlinear_arith)
        requires
            c.d == 1,
    ;
    if a.x != b.x && min(a.x as int, b.x as int) <= r.x <= max(a.x as int, b.x as int) {
        lemma_proportion(ux, uy, s, t);
    } else {
        lemma_proportion(uy, ux, t, s);
    }
}

/// Two segments on one line whose bounding boxes meet have a point in common:
/// one of the four end points lies on both.
proof fn lemma_overlap_shares_end(p1: Point, p2: Point, q1: Point, q2: Point)
    requires
        collinear(p1, p2, q1, q2),
        boxes_overlap(p1, p2, q1, q2),
    ensures
        have_common_point(p1, p2, q1, q2),
{
    let px = (min(p1.x as int, p2.x as int), max(p1.x as int, p2.x as int));
    let py = (min(p1.y as int, p2.y as int), max(p1.y as int, p2.y as int));
    if p1 == p2 {
        lemma_grid_point_lies_on(q1, q2, p1);
    } else if p1.x != p2.x {
        if px.0 <= q1.x <= px.1 {
            lemma_within_on_line(p1, p2, q1);
        } else if px.0 <= q2.x <= px.1 {
            lemma_within_on_line(p1, p2, q2);
        } else {
            lemma_within_on_line(q1, q2, p1);
        }
    } else {
        if py.0 <= q1.y <= py.1 {
            lemma_within_on_line(p1, p2, q1);
        } else if py.0 <= q2.y <= py.1 {
            lemma_within_on_line(p1, p2, q2);
        } else {
            lemma_within_on_line(q1, q2, p1);
        }
    }
}

/// The orientation against the line through `a` and `b` is a linear form in
/// the third point.
proof fn lemma_orientation_as_form(a: Point, b: Point, r: Point)
    ensures
        orientation(a, b, r) == (a.x * b.y - a.y * b.x) + (b.x - a.x) * r.y + (a.y - b.y) * r.x,
{
    assert((b.x - a.x) * r.y == b.x * r.y - a.x * r.y) by (nonlinear_arith);
    assert((a.y - b.y) * r.x == a.y * r.x - b.y * r.x) by (nonlinear_arith);
}

/// For a linear form with the values `l1` at `(ux, uy)` and `l2` at
/// `(vx, vy)`: the coordinates of the point between the two at which the form
/// is zero, before they are divided by `l1 - l2`.
proof fn lemma_form_zero(
    ca: int,
    cb: int,
    cc: int,
    ux: int,
    uy: int,
    vx: int,
    vy: int,
    l1: int,
    l2: int,
)
    requires
        l1 == cc + cb * uy + ca * ux,
        l2 == cc + cb * vy + ca * vx,
    ensures
        l1 * vx - l2 * ux == cc * (vx - ux) - cb * (ux * vy - uy * vx),
        l1 * vy - l2 * uy == cc * (vy - uy) + ca * (ux * vy - uy * vx),
{
    assert(l1 * vx == cc * vx + cb * (uy * vx) + ca * (ux * vx)) by (nonlinear_arith)
        requires
            l1 == cc + cb * uy + ca * ux,
    ;
    assert(l2 * ux == cc * ux + cb * (ux * vy) + ca * (ux * vx)) by (nonlinear_arith)
        requires
            l2 == cc + cb * vy + ca * vx,
    ;
    assert(l1 * vy == cc * vy + cb * (uy * vy) + ca * (ux * vy)) by (nonlinear_arith)
        requires
            l1 == cc + cb * uy + ca * ux,
    ;
    assert(l2 * uy == cc * uy + cb * (uy * vy) + ca * (uy * vx)) by (nonlinear_arith)
        requires
            l2 == cc + cb * vy + ca * vx,
    ;
    assert(cc * (vx - ux) == cc * vx - cc * ux) by (nonlinear_arith);
    assert(cc * (vy - uy) == cc * vy - cc * uy) by (nonlinear_arith);
    assert(cb * (ux * vy - uy * vx) == cb * (ux * vy) - cb * (uy * vx)) by (nonlinear_arith);
    assert(ca * (ux * vy - uy * vx) == ca * (ux * vy) - ca * (uy * vx)) by (nonlinear_arith);
}

/// The point at which the line through `q1` and `q2` meets the line through
/// `p1` and `p2` is the same whether it is found along the one or along the
/// other.
proof fn lemma_crossing_point(p1: Point, p2: Point, q1: Point, q2: Point)
    ensures
        orientation(p1, p2, q1) - orientation(p1, p2, q2) == orientation(q1, q2, p2) - orientation(
            q1,
            q2,
            p1,
        ),
        orientation(p1, p2, q1) * q2.x - orientation(p1, p2, q2) * q1.x == orientation(q1, q2, p2)
            * p1.x - orientation(q1, q2, p1) * p2.x,
        orientation(p1, p2, q1) * q2.y - orientation(p1, p2, q2) * q1.y == orientation(q1, q2, p2)
            * p1.y - orientation(q1, q2, p1) * p2.y,
{
    let (pa, pb, pc) = (p1.y - p2.y, p2.x - p1.x, p1.x * p2.y - p1.y * p2.x);
    let (qa, qb, qc) = (q1.y - q2.y, q2.x - q1.x, q1.x * q2.y - q1.y * q2.x);
    let o1 = orientation(p1, p2, q1);
    let o2 = orientation(p1, p2, q2);
    let o3 = orientation(q1, q2, p1);
    let o4 = orientation(q1, q2, p2);
    lemma_orientation_as_form(p1, p2, q1);
    lemma_orientation_as_form(p1, p2, q2);
    lemma_orientation_as_form(q1, q2, p1);
    lemma_orientation_as_form(q1, q2, p2);
    lemma_form_zero(pa, pb, pc, q1.x as int, q1.y as int, q2.x as int, q2.y as int, o1, o2);
    lemma_form_zero(qa, qb, qc, p1.x as int, p1.y as int, p2.x as int, p2.y as int, o3, o4);
    assert(qc * (p2.y - p1.y) == -(qc * pa)) by (nonlinear_arith)
        requires
            pa == p1.y - p2.y,
    ;
    assert(pc * (q2.y - q1.y) == -(pc * qa)) by (nonlinear_arith)
        requires
            qa == q1.y - q2.y,
    ;
}

/// The value of a linear form at a weighted mean of two points is the
/// weighted mean of its values at the two. The weights are `w` and `-v`, and
/// nothing is divided by their sum.
proof fn lemma_form_of_mean(
    ca: int,
    cb: int,
    cc: int,
    ax: int,
    ay: int,
    bx: int,
    by: int,
    w: int,
    v: int,
)
    ensures
        cc * (w - v) + cb * (w * by - v * ay) + ca * (w * bx - v * ax) == w * (cc + cb * by + ca
            * bx) - v * (cc + cb * ay + ca * ax),
{
    assert(cc * (w - v) == w * cc - v * cc) by (nonlinear_arith);
    assert(cb * (w * by - v * ay) == w * (cb * by) - v * (cb * ay)) by (nonlinear_arith);
    assert(ca * (w * bx - v * ax) == w * (ca * bx) - v * (ca * ax)) by (nonlinear_arith);
    assert(w * (cc + cb * by + ca * bx) == w * cc + w * (cb * by) + w * (ca * bx))
        by (nonlinear_arith);
    assert(v * (cc + cb * ay + ca * ax) == v * cc + v * (cb * ay) + v * (ca * ax))
        by (nonlinear_arith);
}

/// The weighted mean of the points `a` and `b` with the weights `-v` and `w`,
/// as a rational point; the weights are not negative, and not both zero.
spec fn mean_point(a: Point, b: Point, w: int, v: int) -> RationalPoint {
    RationalPoint { x: w * b.x - v * a.x, y: w * b.y - v * a.y, d: w - v }
}

/// The scaled orientation of a weighted mean of two points is the weighted
/// mean of their orientations.
proof fn lemma_turn_of_mean(l1: Point, l2: Point, a: Point, b: Point, w: int, v: int)
    ensures
        mean_point(a, b, w, v).turn(l1, l2) == w * orientation(l1, l2, b) - v * orientation(
            l1,
            l2,
            a,
        ),
{
    let c = mean_point(a, b, w, v);
    let (ca, cb, cc) = (l1.y - l2.y, l2.x - l1.x, l1.x * l2.y - l1.y * l2.x);
    lemma_orientation_as_form(l1, l2, a);
    lemma_orientation_as_form(l1, l2, b);
    assert(cb * c.y == l2.x * c.y - l1.x * c.y) by (nonlinear_arith)
        requires
            cb == l2.x - l1.x,
    ;
    assert(ca * c.x == l1.y * c.x - l2.y * c.x) by (nonlinear_arith)
        requires
            ca == l1.y - l2.y,
    ;
    lemma_form_of_mean(
        ca,
        cb,
        cc,
        a.x as int,
        a.y as int,
        b.x as int,
        b.y as int,
        w,
        v,
    );
}

/// A weighted mean of two values lies between them.
proof fn lemma_mean_between(w: int, v: int, a: int, b: int)
    by (nonlinear_arith)
    requires
        w >= 0,
        v <= 0,
    ensures
        min(a, b) * (w - v) <= w * b - v * a <= max(a, b) * (w - v),
{
}

/// A segment may be named from either end.
proof fn lemma_lies_on_reversed(a: Point, b: Point, c: RationalPoint)
    ensures
        c.lies_on(b, a) == c.lies_on(a, b),
{
    assert(b.x * a.y == a.y * b.x) by (nonlinear_arith);
    assert(b.y * a.x == a.x * b.y) by (nonlinear_arith);
    assert((a.y * b.x - a.x * b.y) * c.d == -((a.x * b.y - a.y * b.x) * c.d))
        by (nonlinear_arith);
}

/// Two segments of which each has its ends on either side of the other, or
/// on it, and which are not on one line, cross or touch. Here the ends are
/// named so that `q1` is on the positive side of `(p1, p2)` or on it.
proof fn lemma_crossing_shares(p1: Point, p2: Point, q1: Point, q2: Point)
    requires
        orientation(p1, p2, q1) >= 0,
        orientation(p1, p2, q2) <= 0,
        orientation(p1, p2, q1) - orientation(p1, p2, q2) > 0,
        orientation(q1, q2, p2) >= 0,
        orientation(q1, q2, p1) <= 0,
    ensures
        have_common_point(p1, p2, q1, q2),
{
    let o1 = orientation(p1, p2, q1);
    let o2 = orientation(p1, p2, q2);
    let o3 = orientation(q1, q2, p1);
    let o4 = orientation(q1, q2, p2);
    let c = mean_point(q1, q2, o1, o2);
    lemma_crossing_point(p1, p2, q1, q2);
    lemma_mean_between(o1, o2, q1.x as int, q2.x as int);
    lemma_mean_between(o1, o2, q1.y as int, q2.y as int);
    lemma_mean_between(o4, o3, p2.x as int, p1.x as int);
    lemma_mean_between(o4, o3, p2.y as int, p1.y as int);
    lemma_turn_of_mean(q1, q2, q1, q2, o1, o2);
    lemma_turn_of_mean(p1, p2, q1, q2, o1, o2);
    lemma_orientation_of_two(q1, q2);
    assert(c.lies_on(q1, q2));
    assert(c.lies_on(p1, p2));
}

/// The intersection test says whether the two closed segments have a point
/// in common.
pub proof fn lemma_intersect_is_common_point(p1: Point, p2: Point, q1: Point, q2: Point)
    ensures
        segments_intersect(p1, p2, q1, q2) <==> have_common_point(p1, p2, q1, q2),
{
    if have_common_point(p1, p2, q1, q2) {
        let c = choose|c: RationalPoint| c.lies_on(p1, p2) && c.lies_on(q1, q2);
        lemma_common_point_accepted(p1, p2, q1, q2, c);
    }
    if segments_intersect(p1, p2, q1, q2) {
        let o1 = orientation(p1, p2, q1);
        let o2 = orientation(p1, p2, q2);
        let o3 = orientation(q1, q2, p1);
        let o4 = orientation(q1, q2, p2);
        lemma_same_side_by_sign(o1, o2);
        lemma_same_side_by_sign(o3, o4);
        if collinear(p1, p2, q1, q2) {
            lemma_overlap_shares_end(p1, p2, q1, q2);
        } else if o1 > o2 {
            lemma_crossing_shares(p1, p2, q1, q2);
        } else {
            lemma_orientation_reversed(q1, q2, p1);
            lemma_orientation_reversed(q1, q2, p2);
            lemma_crossing_shares(p1, p2, q2, q1);
            let c = choose|c: RationalPoint| c.lies_on(p1, p2) && c.lies_on(q2, q1);
            lemma_lies_on_reversed(q2, q1, c);
        }
    }
}

} // verus!
