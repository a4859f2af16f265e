//! Two closed segments meet exactly if they share a point.

use vstd::prelude::*;

use crate::gds::Point;
use crate::geometry::{opposite, orientation, segments_meet, spanned};

verus! {

/// The point that lies `s / den` of the way from `p1` to `p2` is the point
/// that lies `t / den` of the way from `p3` to `p4`.
pub open spec fn shares(
    p1: Point,
    p2: Point,
    p3: Point,
    p4: Point,
    s: int,
    t: int,
    den: int,
) -> bool {
    &&& den > 0
    &&& 0 <= s <= den
    &&& 0 <= t <= den
    &&& den * p1.x + s * (p2.x - p1.x) == den * p3.x + t * (p4.x - p3.x)
    &&& den * p1.y + s * (p2.y - p1.y) == den * p3.y + t * (p4.y - p3.y)
}

/// The segments have a point in common.
pub open spec fn common_point(p1: Point, p2: Point, p3: Point, p4: Point) -> bool {
    exists|s: int, t: int, den: int| shares(p1, p2, p3, p4, s, t, den)
}

/// `w` lies between `u` and `v`.
spec fn between(u: int, w: int, v: int) -> bool {
    u <= w <= v || v <= w <= u
}

/// The sign of a product.
pub(crate) proof fn lemma_sign(a: int, b: int)
    ensures
        a > 0 && b > 0 ==> a * b > 0,
        a > 0 && b < 0 ==> a * b < 0,
        a < 0 && b > 0 ==> a * b < 0,
        a < 0 && b < 0 ==> a * b > 0,
        a == 0 || b == 0 ==> a * b == 0,
{
    assert(a > 0 && b > 0 ==> a * b > 0) by (nonlinear_arith);
    assert(a > 0 && b < 0 ==> a * b < 0) by (nonlinear_arith);
    assert(a < 0 && b > 0 ==> a * b < 0) by (nonlinear_arith);
    assert(a < 0 && b < 0 ==> a * b > 0) by (nonlinear_arith);
}

/// What lies a part of the way from `u` to `v` lies between them.
proof fn lemma_part_way(den: int, t: int, u: int, v: int, w: int)
    requires
        den > 0,
        0 <= t <= den,
        den * (w - u) == t * (v - u),
    ensures
        between(u, w, v),
{
    let d = v - u;
    let e = w - u;
    if d >= 0 {
        assert(0 <= e <= d) by (nonlinear_arith)
            requires
                den > 0,
                0 <= t <= den,
                den * e == t * d,
                d >= 0,
        ;
    } else {
        assert(d <= e <= 0) by (nonlinear_arith)
            requires
                den > 0,
                0 <= t <= den,
                den * e == t * d,
                d < 0,
        ;
    }
}

/// The cross products of a common point.
proof fn lemma_cross(
    den: int,
    s: int,
    t: int,
    ax: int,
    ay: int,
    rx: int,
    ry: int,
    qx: int,
    qy: int,
)
    requires
        den * ax == t * qx - s * rx,
        den * ay == t * qy - s * ry,
    ensures
        den * (qx * ay - qy * ax) == -(s * (qx * ry - qy * rx)),
        den * (rx * ay - ry * ax) == -(t * (qx * ry - qy * rx)),
{
    lemma_scaled_cross(den, qx, qy, ax, ay, t * qx - s * rx, t * qy - s * ry);
    lemma_scaled_cross(den, rx, ry, ax, ay, t * qx - s * rx, t * qy - s * ry);
    lemma_cross_of_sum(qx, qy, t, s, qx, qy, rx, ry);
    lemma_cross_of_sum(rx, ry, t, s, qx, qy, rx, ry);
    assert(qx * qy - qy * qx == 0) by (nonlinear_arith);
    assert(rx * ry - ry * rx == 0) by (nonlinear_arith);
    assert(rx * qy - ry * qx == -(qx * ry - qy * rx)) by (nonlinear_arith);
    let c = qx * ry - qy * rx;
    assert(t * (qx * qy - qy * qx) == 0);
    assert(s * (rx * ry - ry * rx) == 0);
    assert(t * (-c) == -(t * c)) by (nonlinear_arith);
}

proof fn lemma_scaled_cross(den: int, u: int, v: int, x: int, y: int, dx: int, dy: int)
    requires
        den * x == dx,
        den * y == dy,
    ensures
        den * (u * y - v * x) == u * dy - v * dx,
{
    assert(den * (u * y - v * x) == u * (den * y) - v * (den * x)) by (nonlinear_arith);
}

proof fn lemma_cross_of_sum(
    u: int,
    v: int,
    t: int,
    s: int,
    qx: int,
    qy: int,
    rx: int,
    ry: int,
)
    ensures
        u * (t * qy - s * ry) - v * (t * qx - s * rx) == t * (u * qy - v * qx) - s * (u * ry - v
            * rx),
{
    assert(u * (t * qy - s * ry) == t * (u * qy) - s * (u * ry)) by (nonlinear_arith);
    assert(v * (t * qx - s * rx) == t * (v * qx) - s * (v * rx)) by (nonlinear_arith);
    assert(t * (u * qy - v * qx) == t * (u * qy) - t * (v * qx)) by (nonlinear_arith);
    assert(s * (u * ry - v * rx) == s * (u * ry) - s * (v * rx)) by (nonlinear_arith);
}

/// On a line that is not upright, what is between two points along x is
/// between them along y.
proof fn lemma_along_line(u0: int, v0: int, u1: int, v1: int, u: int, v: int)
    requires
        u0 != u1,
        between(u0, u, u1),
        (u1 - u0) * (v - v0) == (v1 - v0) * (u - u0),
    ensures
        between(v0, v, v1),
{
    let (du, dv) = (u1 - u0, v1 - v0);
    let (eu, ev) = (u - u0, v - v0);
    if du > 0 {
        assert(du * ev == eu * dv) by (nonlinear_arith)
            requires
                du * ev == dv * eu,
        ;
        lemma_part_way(du, eu, v0, v1, v);
    } else {
        assert((-du) * ev == (-eu) * dv) by (nonlinear_arith)
            requires
                du * ev == dv * eu,
        ;
        lemma_part_way(-du, -eu, v0, v1, v);
    }
}

/// Two segments on one line that is not upright and that overlap along u:
/// one end lies on the other segment.
proof fn lemma_overlap(
    u1: int,
    v1: int,
    u2: int,
    v2: int,
    u3: int,
    v3: int,
    u4: int,
    v4: int,
    den: int,
    z: int,
)
    requires
        den > 0,
        u1 != u2,
        u3 != u4,
        between(den * u1, z, den * u2),
        between(den * u3, z, den * u4),
        (u4 - u3) * (v1 - v3) == (v4 - v3) * (u1 - u3),
        (u4 - u3) * (v2 - v3) == (v4 - v3) * (u2 - u3),
        (u2 - u1) * (v3 - v1) == (v2 - v1) * (u3 - u1),
        (u2 - u1) * (v4 - v1) == (v2 - v1) * (u4 - u1),
    ensures
        (between(u3, u1, u4) && between(v3, v1, v4)) || (between(u3, u2, u4) && between(
            v3,
            v2,
            v4,
        )) || (between(u1, u3, u2) && between(v1, v3, v2)) || (between(u1, u4, u2) && between(
            v1,
            v4,
            v2,
        )),
{
    lemma_scaled_order(den, u1, u3);
    lemma_scaled_order(den, u1, u4);
    lemma_scaled_order(den, u2, u3);
    lemma_scaled_order(den, u2, u4);
    lemma_scaled_order(den, u1, u2);
    lemma_scaled_order(den, u3, u4);
    if between(u3, u1, u4) {
        lemma_along_line(u3, v3, u4, v4, u1, v1);
    } else if between(u3, u2, u4) {
        lemma_along_line(u3, v3, u4, v4, u2, v2);
    } else if between(u1, u3, u2) {
        lemma_along_line(u1, v1, u2, v2, u3, v3);
    } else {
        assert(between(u1, u4, u2));
        lemma_along_line(u1, v1, u2, v2, u4, v4);
    }
}

proof fn lemma_scaled_order(den: int, a: int, b: int)
    requires
        den > 0,
    ensures
        a < b <==> den * a < den * b,
        a == b <==> den * a == den * b,
{
    assert(a < b ==> den * a < den * b) by (nonlinear_arith)
        requires
            den > 0,
    ;
    assert(b < a ==> den * b < den * a) by (nonlinear_arith)
        requires
            den > 0,
    ;
}

/// The differences of a common point, from `p3`.
proof fn lemma_differences(
    p1: Point,
    p2: Point,
    p3: Point,
    p4: Point,
    s: int,
    t: int,
    den: int,
)
    requires
        shares(p1, p2, p3, p4, s, t, den),
    ensures
        den * (p1.x - p3.x) == t * (p4.x - p3.x) - s * (p2.x - p1.x),
        den * (p1.y - p3.y) == t * (p4.y - p3.y) - s * (p2.y - p1.y),
{
    assert(den * (p1.x - p3.x) == den * p1.x - den * p3.x) by (nonlinear_arith);
    assert(den * (p1.y - p3.y) == den * p1.y - den * p3.y) by (nonlinear_arith);
}

/// The four turns of two segments, from the differences of their ends.
proof fn lemma_turns(p1: Point, p2: Point, p3: Point, p4: Point)
    ensures
        ({
            let (ax, ay) = (p1.x - p3.x, p1.y - p3.y);
            let (rx, ry) = (p2.x - p1.x, p2.y - p1.y);
            let (qx, qy) = (p4.x - p3.x, p4.y - p3.y);
            &&& orientation(p3, p4, p1) == qx * ay - qy * ax
            &&& orientation(p3, p4, p2) == qx * ay - qy * ax + (qx * ry - qy * rx)
            &&& orientation(p1, p2, p3) == -(rx * ay - ry * ax)
            &&& orientation(p1, p2, p4) == -(rx * ay - ry * ax) - (qx * ry - qy * rx)
        }),
{
    let (ax, ay) = (p1.x - p3.x, p1.y - p3.y);
    let (rx, ry) = (p2.x - p1.x, p2.y - p1.y);
    let (qx, qy) = (p4.x - p3.x, p4.y - p3.y);
    assert(p2.x - p3.x == ax + rx && p2.y - p3.y == ay + ry);
    assert(qx * (ay + ry) == qx * ay + qx * ry) by (nonlinear_arith);
    assert(qy * (ax + rx) == qy * ax + qy * rx) by (nonlinear_arith);
    assert(p3.x - p1.x == -ax && p3.y - p1.y == -ay);
    assert(rx * (-ay) == -(rx * ay)) by (nonlinear_arith);
    assert(ry * (-ax) == -(ry * ax)) by (nonlinear_arith);
    assert(p4.x - p1.x == qx - ax && p4.y - p1.y == qy - ay);
    assert(rx * (qy - ay) == qy * rx - rx * ay) by (nonlinear_arith);
    assert(ry * (qx - ax) == qx * ry - ry * ax) by (nonlinear_arith);
}

/// Segments that share a point meet.
proof fn lemma_shared_point_meets(
    p1: Point,
    p2: Point,
    p3: Point,
    p4: Point,
    s: int,
    t: int,
    den: int,
)
    requires
        shares(p1, p2, p3, p4, s, t, den),
    ensures
        segments_meet(p1, p2, p3, p4),
{
    let (ax, ay) = (p1.x - p3.x, p1.y - p3.y);
    let (rx, ry) = (p2.x - p1.x, p2.y - p1.y);
    let (qx, qy) = (p4.x - p3.x, p4.y - p3.y);
    let c = qx * ry - qy * rx;
    let d1 = orientation(p3, p4, p1);
    let d2 = orientation(p3, p4, p2);
    let d3 = orientation(p1, p2, p3);
    let d4 = orientation(p1, p2, p4);
    lemma_differences(p1, p2, p3, p4, s, t, den);
    lemma_cross(den, s, t, ax, ay, rx, ry, qx, qy);
    lemma_turns(p1, p2, p3, p4);
    assert(d2 == d1 + c && d4 == d3 - c);
    assert(den * d1 == -(s * c));
    assert(den * d3 == t * c) by (nonlinear_arith)
        requires
            den * (-d3) == -(t * c),
    ;
    assert(den * d2 == (den - s) * c) by (nonlinear_arith)
        requires
            d2 == d1 + c,
            den * d1 == -(s * c),
    ;
    assert(den * d4 == -((den - t) * c)) by (nonlinear_arith)
        requires
            d4 == d3 - c,
            den * d3 == t * c,
    ;
    lemma_sign(den, d1);
    lemma_sign(den, d2);
    lemma_sign(den, d3);
    lemma_sign(den, d4);
    lemma_sign(s, c);
    lemma_sign(den - s, c);
    lemma_sign(t, c);
    lemma_sign(den - t, c);
    if s == 0 {
        assert(s * rx == 0 && s * ry == 0);
        lemma_part_way(den, t, p3.x as int, p4.x as int, p1.x as int);
        lemma_part_way(den, t, p3.y as int, p4.y as int, p1.y as int);
        assert(d1 == 0 && spanned(p3, p1, p4));
    } else if s == den {
        assert(den * (p2.x - p3.x) == t * qx) by (nonlinear_arith)
            requires
                den * ax == t * qx - den * rx,
                p2.x - p3.x == ax + rx,
        ;
        assert(den * (p2.y - p3.y) == t * qy) by (nonlinear_arith)
            requires
                den * ay == t * qy - den * ry,
                p2.y - p3.y == ay + ry,
        ;
        lemma_part_way(den, t, p3.x as int, p4.x as int, p2.x as int);
        lemma_part_way(den, t, p3.y as int, p4.y as int, p2.y as int);
        assert(d2 == 0 && spanned(p3, p2, p4));
    } else if t == 0 {
        assert(t * qx == 0 && t * qy == 0);
        assert(den * (p3.x - p1.x) == s * rx) by (nonlinear_arith)
            requires
                den * ax == -(s * rx),
                p3.x - p1.x == -ax,
        ;
        assert(den * (p3.y - p1.y) == s * ry) by (nonlinear_arith)
            requires
                den * ay == -(s * ry),
                p3.y - p1.y == -ay,
        ;
        lemma_part_way(den, s, p1.x as int, p2.x as int, p3.x as int);
        lemma_part_way(den, s, p1.y as int, p2.y as int, p3.y as int);
        assert(d3 == 0 && spanned(p1, p3, p2));
    } else if t == den {
        assert(den * (p4.x - p1.x) == s * rx) by (nonlinear_arith)
            requires
                den * ax == den * qx - s * rx,
                p4.x - p1.x == qx - ax,
        ;
        assert(den * (p4.y - p1.y) == s * ry) by (nonlinear_arith)
            requires
                den * ay == den * qy - s * ry,
                p4.y - p1.y == qy - ay,
        ;
        lemma_part_way(den, s, p1.x as int, p2.x as int, p4.x as int);
        lemma_part_way(den, s, p1.y as int, p2.y as int, p4.y as int);
        assert(d4 == 0 && spanned(p1, p4, p2));
    } else if c != 0 {
        assert(opposite(d1, d2) && opposite(d3, d4));
    } else {
        lemma_shared_line_meets(p1, p2, p3, p4, s, t, den);
    }
}

/// Segments on one line that share a point meet.
proof fn lemma_shared_line_meets(
    p1: Point,
    p2: Point,
    p3: Point,
    p4: Point,
    s: int,
    t: int,
    den: int,
)
    requires
        shares(p1, p2, p3, p4, s, t, den),
        orientation(p3, p4, p1) == 0,
        orientation(p3, p4, p2) == 0,
        orientation(p1, p2, p3) == 0,
        orientation(p1, p2, p4) == 0,
    ensures
        segments_meet(p1, p2, p3, p4),
{
    let (ax, ay) = (p1.x - p3.x, p1.y - p3.y);
    let (rx, ry) = (p2.x - p1.x, p2.y - p1.y);
    let (qx, qy) = (p4.x - p3.x, p4.y - p3.y);
    lemma_differences(p1, p2, p3, p4, s, t, den);
    lemma_turns(p1, p2, p3, p4);
    if qx == 0 && qy == 0 {
        assert(t * qx == 0 && t * qy == 0);
        assert(den * (p3.x - p1.x) == s * rx) by (nonlinear_arith)
            requires
                den * ax == -(s * rx),
                p3.x - p1.x == -ax,
        ;
        assert(den * (p3.y - p1.y) == s * ry) by (nonlinear_arith)
            requires
                den * ay == -(s * ry),
                p3.y - p1.y == -ay,
        ;
        lemma_part_way(den, s, p1.x as int, p2.x as int, p3.x as int);
        lemma_part_way(den, s, p1.y as int, p2.y as int, p3.y as int);
        assert(spanned(p1, p3, p2));
    } else if rx == 0 && ry == 0 {
        assert(s * rx == 0 && s * ry == 0);
        lemma_part_way(den, t, p3.x as int, p4.x as int, p1.x as int);
        lemma_part_way(den, t, p3.y as int, p4.y as int, p1.y as int);
        assert(spanned(p3, p1, p4));
    } else {
        assert(qx * ry - qy * rx == 0);
        lemma_sign(qx, ry);
        lemma_sign(qy, rx);
        if qx != 0 {
            assert(rx != 0);
            lemma_on_way(den, s, p1.x as int, p2.x as int);
            lemma_on_way(den, t, p3.x as int, p4.x as int);
            lemma_overlap(
                p1.x as int,
                p1.y as int,
                p2.x as int,
                p2.y as int,
                p3.x as int,
                p3.y as int,
                p4.x as int,
                p4.y as int,
                den,
                den * p1.x + s * rx,
            );
        } else {
            assert(qy != 0);
            assert(ry != 0);
            lemma_on_way(den, s, p1.y as int, p2.y as int);
            lemma_on_way(den, t, p3.y as int, p4.y as int);
            lemma_overlap(
                p1.y as int,
                p1.x as int,
                p2.y as int,
                p2.x as int,
                p3.y as int,
                p3.x as int,
                p4.y as int,
                p4.x as int,
                den,
                den * p1.y + s * ry,
            );
        }
    }
}

/// A part of the way from `u` to `v` lies between them.
proof fn lemma_on_way(den: int, t: int, u: int, v: int)
    requires
        den > 0,
        0 <= t <= den,
    ensures
        between(den * u, den * u + t * (v - u), den * v),
{
    let d = v - u;
    assert(den * v == den * u + den * d) by (nonlinear_arith)
        requires
            d == v - u,
    ;
    if d >= 0 {
        assert(0 <= t * d <= den * d) by (nonlinear_arith)
            requires
                0 <= t <= den,
                d >= 0,
        ;
    } else {
        assert(den * d <= t * d <= 0) by (nonlinear_arith)
            requires
                0 <= t <= den,
                d < 0,
        ;
    }
}

/// A point on a segment lies a part of the way along it.
proof fn lemma_on_segment(a: Point, b: Point, e: Point) -> (r: (int, int))
    requires
        orientation(a, b, e) == 0,
        spanned(a, e, b),
    ensures
        r.0 > 0,
        0 <= r.1 <= r.0,
        r.0 * (e.x - a.x) == r.1 * (b.x - a.x),
        r.0 * (e.y - a.y) == r.1 * (b.y - a.y),
{
    let (dx, dy) = (b.x - a.x, b.y - a.y);
    let (ex, ey) = (e.x - a.x, e.y - a.y);
    assert(dx * ey == dy * ex);
    assert(dy * ex == ex * dy) by (nonlinear_arith);
    assert(dx * ey == ey * dx) by (nonlinear_arith);
    if dx > 0 {
        assert(dx * ex == ex * dx) by (nonlinear_arith);
        (dx, ex)
    } else if dx < 0 {
        assert((-dx) * ex == (-ex) * dx) by (nonlinear_arith);
        assert((-dx) * ey == (-ex) * dy) by (nonlinear_arith)
            requires
                dx * ey == ex * dy,
        ;
        (-dx, -ex)
    } else if dy > 0 {
        assert(ex == 0);
        assert(dy * ey == ey * dy) by (nonlinear_arith);
        assert(dy * ex == 0 && ey * dx == 0);
        (dy, ey)
    } else if dy < 0 {
        assert(ex == 0);
        assert((-dy) * ey == (-ey) * dy) by (nonlinear_arith);
        assert((-dy) * ex == 0 && (-ey) * dx == 0);
        (-dy, -ey)
    } else {
        assert(ex == 0 && ey == 0);
        (1, 0)
    }
}

/// The place where two segments cross.
proof fn lemma_crossing(ax: int, ay: int, rx: int, ry: int, qx: int, qy: int)
    ensures
        ({
            let d1 = qx * ay - qy * ax;
            let c = qx * ry - qy * rx;
            let e = rx * ay - ry * ax;
            &&& c * ax == d1 * rx - e * qx
            &&& c * ay == d1 * ry - e * qy
        }),
{
    assert((qx * ry - qy * rx) * ax == (qx * ay - qy * ax) * rx - (rx * ay - ry * ax) * qx)
        by (nonlinear_arith);
    assert((qx * ry - qy * rx) * ay == (qx * ay - qy * ax) * ry - (rx * ay - ry * ax) * qy)
        by (nonlinear_arith);
}

/// Segments that meet share a point.
proof fn lemma_meeting_shares_point(p1: Point, p2: Point, p3: Point, p4: Point)
    requires
        segments_meet(p1, p2, p3, p4),
    ensures
        common_point(p1, p2, p3, p4),
{
    let (ax, ay) = (p1.x - p3.x, p1.y - p3.y);
    let (rx, ry) = (p2.x - p1.x, p2.y - p1.y);
    let (qx, qy) = (p4.x - p3.x, p4.y - p3.y);
    let c = qx * ry - qy * rx;
    let d1 = orientation(p3, p4, p1);
    let d2 = orientation(p3, p4, p2);
    let d3 = orientation(p1, p2, p3);
    let d4 = orientation(p1, p2, p4);
    lemma_turns(p1, p2, p3, p4);
    if d1 == 0 && spanned(p3, p1, p4) {
        let (den, t) = lemma_on_segment(p3, p4, p1);
        lemma_scaled_difference(den, p1, p3);
        assert(0 * rx == 0 && 0 * ry == 0);
        assert(shares(p1, p2, p3, p4, 0, t, den));
    } else if d2 == 0 && spanned(p3, p2, p4) {
        let (den, t) = lemma_on_segment(p3, p4, p2);
        lemma_scaled_difference(den, p2, p3);
        lemma_scaled_difference(den, p2, p1);
        assert(shares(p1, p2, p3, p4, den, t, den));
    } else if d3 == 0 && spanned(p1, p3, p2) {
        let (den, s) = lemma_on_segment(p1, p2, p3);
        lemma_scaled_difference(den, p3, p1);
        assert(0 * qx == 0 && 0 * qy == 0);
        assert(shares(p1, p2, p3, p4, s, 0, den));
    } else if d4 == 0 && spanned(p1, p4, p2) {
        let (den, s) = lemma_on_segment(p1, p2, p4);
        lemma_scaled_difference(den, p4, p1);
        lemma_scaled_difference(den, p4, p3);
        assert(shares(p1, p2, p3, p4, s, den, den));
    } else {
        lemma_crossing(ax, ay, rx, ry, qx, qy);
        assert(d2 == d1 + c && d4 == d3 - c);
        if c > 0 {
            lemma_crossing_place(c, -d1, d3, ax, rx, qx, d1, -d3);
            lemma_crossing_place(c, -d1, d3, ay, ry, qy, d1, -d3);
            lemma_scaled_difference(c, p1, p3);
            assert(shares(p1, p2, p3, p4, -d1, d3, c));
        } else {
            lemma_crossing_place_negated(c, d1, -d3, ax, rx, qx);
            lemma_crossing_place_negated(c, d1, -d3, ay, ry, qy);
            lemma_scaled_difference(-c, p1, p3);
            assert(shares(p1, p2, p3, p4, d1, -d3, -c));
        }
    }
}

proof fn lemma_scaled_difference(den: int, p: Point, o: Point)
    ensures
        den * (p.x - o.x) == den * p.x - den * o.x,
        den * (p.y - o.y) == den * p.y - den * o.y,
{
    assert(den * (p.x - o.x) == den * p.x - den * o.x) by (nonlinear_arith);
    assert(den * (p.y - o.y) == den * p.y - den * o.y) by (nonlinear_arith);
}

proof fn lemma_crossing_place(
    c: int,
    s: int,
    t: int,
    a: int,
    r: int,
    q: int,
    d1: int,
    e: int,
)
    requires
        c * a == d1 * r - e * q,
        s == -d1,
        t == -e,
    ensures
        c * a + s * r == t * q,
{
    assert(c * a + s * r == t * q) by (nonlinear_arith)
        requires
            c * a == d1 * r - e * q,
            s == -d1,
            t == -e,
    ;
}

proof fn lemma_crossing_place_negated(c: int, d1: int, e: int, a: int, r: int, q: int)
    requires
        c * a == d1 * r - e * q,
    ensures
        (-c) * a + d1 * r == e * q,
{
    assert((-c) * a + d1 * r == e * q) by (nonlinear_arith)
        requires
            c * a == d1 * r - e * q,
    ;
}

/// Two closed segments meet exactly if they share a point.
pub proof fn law_segments_meet_in_a_point(p1: Point, p2: Point, p3: Point, p4: Point)
    ensures
        segments_meet(p1, p2, p3, p4) <==> common_point(p1, p2, p3, p4),
{
    if segments_meet(p1, p2, p3, p4) {
        lemma_meeting_shares_point(p1, p2, p3, p4);
    }
    if common_point(p1, p2, p3, p4) {
        let (s, t, den) = choose|s: int, t: int, den: int| shares(p1, p2, p3, p4, s, t, den);
        lemma_shared_point_meets(p1, p2, p3, p4, s, t, den);
    }
}

} // verus!
