//! What a ring encloses: the area and the inside of any ring, from those of
//! triangles.
//!
//! A ring of more than three points is a smaller ring and a triangle that
//! share a side. Its signed area is the sum of theirs, and a spot is inside
//! it exactly if it is inside one of the two. So what holds of triangles
//! decides what holds of every ring.

use vstd::prelude::*;

use crate::gds::{after, area2, crosses, crossings, empty_bbox, in_bbox, inside, layout_bbox};
use crate::gds::{law_ring_bbox_is_smallest, ring_bbox, ring_bbox_from, signed_area2};
use crate::gds::{Bbox, Point, Shape, Spot};
use crate::geometry::law_layout_bbox_holds;
use crate::rectangles::{goes_round, is_solid};
use crate::segments::lemma_sign;

verus! {

// ---- area ----

/// Twice the signed area of the triangle `a b c`: positive if it turns left.
pub open spec fn turn(a: Point, b: Point, c: Point) -> int {
    (b.x - a.x) * (c.y - a.y) - (b.y - a.y) * (c.x - a.x)
}

/// Twice the signed area of the triangles that the first point of a ring spans
/// with the sides between its first `k` points.
pub open spec fn fan(ring: Seq<Point>, k: int) -> int
    decreases k,
{
    if k < 3 {
        0
    } else {
        fan(ring, k - 1) + turn(ring[0], ring[k - 2], ring[k - 1])
    }
}

/// The area of a ring is that of the triangles from its first point, each
/// with its sign.
pub proof fn law_area_is_that_of_triangles(ring: Seq<Point>)
    ensures
        fan(ring, ring.len() as int) >= 0 ==> area2(ring) == fan(ring, ring.len() as int),
        fan(ring, ring.len() as int) <= 0 ==> area2(ring) == -fan(ring, ring.len() as int),
{
    let n = ring.len() as int;
    if n > 0 {
        lemma_fan_closes(ring, n);
        assert(after(ring, n - 1) == 0);
    }
}

/// The first sides of a ring, closed at its first point, span a fan.
proof fn lemma_fan_closes(ring: Seq<Point>, m: int)
    requires
        1 <= m <= ring.len(),
    ensures
        signed_area2(ring, m - 1) + (ring[m - 1].x * ring[0].y - ring[0].x * ring[m - 1].y) == fan(
            ring,
            m,
        ),
    decreases m,
{
    if m == 1 {
        assert(ring[0].x * ring[0].y == ring[0].x * ring[0].y);
    } else {
        lemma_fan_closes(ring, m - 1);
        let (o, a, b) = (ring[0], ring[m - 2], ring[m - 1]);
        assert(after(ring, m - 2) == m - 1);
        lemma_triangle(o, a, b);
        if m == 2 {
            lemma_two_points(o, b);
        }
    }
}

proof fn lemma_two_points(o: Point, b: Point)
    ensures
        (o.x * b.y - b.x * o.y) + (b.x * o.y - o.x * b.y) == 0,
{
}

/// The area of a triangle, from the origin.
proof fn lemma_triangle(o: Point, a: Point, b: Point)
    ensures
        turn(o, a, b) == (a.x * b.y - b.x * a.y) + (b.x * o.y - o.x * b.y) - (a.x * o.y - o.x
            * a.y),
{
    let (ox, oy) = (o.x as int, o.y as int);
    let (ax, ay) = (a.x as int, a.y as int);
    let (bx, by) = (b.x as int, b.y as int);
    assert((ax - ox) * (by - oy) - (ay - oy) * (bx - ox) == (ax * by - bx * ay) + (bx * oy - ox * by)
        - (ax * oy - ox * ay)) by (nonlinear_arith);
}

/// The area of a ring round a box is width times height.
pub proof fn law_area_of_a_rectangle(ring: Seq<Point>, b: Bbox)
    requires
        is_solid(b),
        goes_round(ring, b),
    ensures
        area2(ring) == 2 * (b.max.x - b.min.x) * (b.max.y - b.min.y),
{
    law_area_is_that_of_triangles(ring);
    reveal_with_fuel(fan, 5);
    let (w, h) = (b.max.x - b.min.x, b.max.y - b.min.y);
    let (p, q, r, s) = (ring[0], ring[1], ring[2], ring[3]);
    assert(fan(ring, 4) == turn(p, q, r) + turn(p, r, s));
    let (dx, dy) = (r.x - p.x, r.y - p.y);
    lemma_sign(w, h);
    assert(2 * w * h == 2 * (w * h)) by (nonlinear_arith);
    lemma_signed_sides(w, h, dx, dy);
    if q.x == p.x {
        assert(turn(p, q, r) == 0 * dy - dy * dx);
        assert(turn(p, r, s) == dx * 0 - dy * dx);
        assert(dy * dx == dx * dy) by (nonlinear_arith);
    } else {
        assert(turn(p, q, r) == dx * dy - 0 * dx);
        assert(turn(p, r, s) == dx * dy - dy * 0);
    }
}

proof fn lemma_signed_sides(w: int, h: int, dx: int, dy: int)
    requires
        dx == w || dx == -w,
        dy == h || dy == -h,
    ensures
        dx * dy == w * h || dx * dy == -(w * h),
{
    assert(dx * dy == w * h || dx * dy == -(w * h)) by (nonlinear_arith)
        requires
            dx == w || dx == -w,
            dy == h || dy == -h,
    ;
}

/// Of two rectangles of which one lies in the other, the inner one has the
/// smaller area, unless the two are equal.
pub proof fn law_inner_rectangles_are_smaller(
    inner: Seq<Point>,
    a: Bbox,
    outer: Seq<Point>,
    b: Bbox,
)
    requires
        is_solid(a),
        is_solid(b),
        goes_round(inner, a),
        goes_round(outer, b),
        b.min.x <= a.min.x && a.max.x <= b.max.x,
        b.min.y <= a.min.y && a.max.y <= b.max.y,
    ensures
        a != b ==> area2(inner) < area2(outer),
        a == b ==> area2(inner) == area2(outer),
{
    law_area_of_a_rectangle(inner, a);
    law_area_of_a_rectangle(outer, b);
    let (w, h) = (a.max.x - a.min.x, a.max.y - a.min.y);
    let (v, g) = (b.max.x - b.min.x, b.max.y - b.min.y);
    assert(w <= v && h <= g);
    if a != b {
        assert(w < v || h < g);
        assert(2 * w * h < 2 * v * g) by (nonlinear_arith)
            requires
                0 < w <= v,
                0 < h <= g,
                w < v || h < g,
        ;
    }
}

/// A moved ring has the same area.
pub proof fn law_moving_keeps_the_area(ring: Seq<Point>, there: Seq<Point>, dx: int, dy: int)
    requires
        there.len() == ring.len(),
        forall|i: int|
            0 <= i < ring.len() ==> (#[trigger] there[i]).x == ring[i].x + dx && there[i].y
                == ring[i].y + dy,
    ensures
        area2(there) == area2(ring),
{
    law_area_is_that_of_triangles(ring);
    law_area_is_that_of_triangles(there);
    lemma_moved_fan(ring, there, dx, dy, ring.len() as int);
}

proof fn lemma_moved_fan(ring: Seq<Point>, there: Seq<Point>, dx: int, dy: int, k: int)
    requires
        there.len() == ring.len(),
        k <= ring.len(),
        forall|i: int|
            0 <= i < ring.len() ==> (#[trigger] there[i]).x == ring[i].x + dx && there[i].y
                == ring[i].y + dy,
    ensures
        fan(there, k) == fan(ring, k),
    decreases k,
{
    if k >= 3 {
        lemma_moved_fan(ring, there, dx, dy, k - 1);
        let (a, b, c) = (ring[0], ring[k - 2], ring[k - 1]);
        let (p, q, r) = (there[0], there[k - 2], there[k - 1]);
        assert(q.x - p.x == b.x - a.x && q.y - p.y == b.y - a.y);
        assert(r.x - p.x == c.x - a.x && r.y - p.y == c.y - a.y);
    }
}

// ---- inside ----

/// How far the spot `p` is to the left of the line from `a` to `b`: positive
/// on the left, negative on the right.
pub open spec fn left_of(a: Point, b: Point, p: Spot) -> int {
    (b.x - a.x) * (p.y - a.y * p.unit) - (b.y - a.y) * (p.x - a.x * p.unit)
}

/// The spot `p` is on the inner side of the side from `a` to `b` of a ring
/// that turns left. A spot on the side itself counts if the ring lies to the
/// right of it or above it, so that of two rings that share a side one has it.
pub open spec fn within_side(a: Point, b: Point, p: Spot) -> bool {
    let d = left_of(a, b, p);
    d > 0 || (d == 0 && (b.y < a.y || (b.y == a.y && a.x < b.x)))
}

/// The inside of a triangle: what is on the inner side of its three sides. A
/// triangle of no area holds nothing.
pub proof fn law_inside_a_triangle(a: Point, b: Point, c: Point, p: Spot)
    requires
        p.unit > 0,
    ensures
        turn(a, b, c) > 0 ==> (inside(seq![a, b, c], p) <==> within_side(a, b, p) && within_side(
            b,
            c,
            p,
        ) && within_side(c, a, p)),
        turn(a, b, c) < 0 ==> (inside(seq![a, b, c], p) <==> within_side(a, c, p) && within_side(
            c,
            b,
            p,
        ) && within_side(b, a, p)),
        turn(a, b, c) == 0 ==> !inside(seq![a, b, c], p),
{
    let ring = seq![a, b, c];
    reveal_with_fuel(crossings, 4);
    assert(after(ring, 0) == 1 && after(ring, 1) == 2 && after(ring, 2) == 0);
    let (ab, bc, ca) = (crosses(a, b, p), crosses(b, c, p), crosses(c, a, p));
    assert(inside(ring, p) == ((ab != bc) != ca));
    lemma_turns_of_triangle(a, b, c);
    if turn(a, b, c) > 0 {
        lemma_left_triangle(a, b, c, p);
    } else if turn(a, b, c) < 0 {
        lemma_left_triangle(a, c, b, p);
        lemma_crosses_both_ways(a, b, p);
        lemma_crosses_both_ways(b, c, p);
        lemma_crosses_both_ways(c, a, p);
    } else {
        lemma_flat_triangle(a, b, c, p);
    }
}

/// A ring of fewer than three points holds nothing.
pub proof fn law_nothing_is_inside_a_line(ring: Seq<Point>, p: Spot)
    requires
        ring.len() < 3,
    ensures
        !inside(ring, p),
{
    reveal_with_fuel(crossings, 3);
    if ring.len() == 1 {
        assert(after(ring, 0) == 0);
    } else if ring.len() == 2 {
        assert(after(ring, 0) == 1 && after(ring, 1) == 0);
        lemma_crosses_both_ways(ring[0], ring[1], p);
    }
}

/// A ring is cut into a smaller ring and a triangle by the line from its first
/// point to its last but one: a spot is inside the ring exactly if it is
/// inside one of the two and not inside both.
pub proof fn law_inside_splits_along_a_cut(ring: Seq<Point>, p: Spot)
    requires
        ring.len() >= 4,
    ensures
        ({
            let n = ring.len() as int;
            inside(ring, p) == (inside(ring.drop_last(), p) != inside(
                seq![ring[0], ring[n - 2], ring[n - 1]],
                p,
            ))
        }),
{
    let n = ring.len() as int;
    let small = ring.drop_last();
    let tri = seq![ring[0], ring[n - 2], ring[n - 1]];
    reveal_with_fuel(crossings, 4);
    lemma_same_first_sides(ring, p, n - 2);
    assert(after(small, n - 2) == 0);
    assert(after(ring, n - 2) == n - 1 && after(ring, n - 1) == 0);
    assert(after(tri, 0) == 1 && after(tri, 1) == 2 && after(tri, 2) == 0);
    assert(small[n - 2] == ring[n - 2] && small[0] == ring[0]);
    lemma_crosses_both_ways(ring[0], ring[n - 2], p);
}

proof fn lemma_same_first_sides(ring: Seq<Point>, p: Spot, k: int)
    requires
        k <= ring.len() - 2,
    ensures
        crossings(ring.drop_last(), p, k) == crossings(ring, p, k),
    decreases k,
{
    if k > 0 {
        lemma_same_first_sides(ring, p, k - 1);
        assert(after(ring, k - 1) == k && after(ring.drop_last(), k - 1) == k);
    }
}

/// The ray from `p` crosses a side between a point above it and one that is
/// not, if `p` is on the left of the side upwards.
proof fn lemma_crosses(a: Point, b: Point, p: Spot)
    ensures
        crosses(a, b, p) == ((a.y * p.unit > p.y) != (b.y * p.unit > p.y) && if b.y > a.y {
            left_of(a, b, p) > 0
        } else {
            left_of(a, b, p) < 0
        }),
{
    let (u, v) = (p.x - a.x * p.unit, b.y - a.y);
    assert(u * v == v * u) by (nonlinear_arith);
}

/// A side is crossed in both directions.
proof fn lemma_crosses_both_ways(a: Point, b: Point, p: Spot)
    ensures
        crosses(a, b, p) == crosses(b, a, p),
{
    lemma_crosses(a, b, p);
    lemma_crosses(b, a, p);
    let u = p.unit as int;
    let (dx, dy) = (b.x - a.x, b.y - a.y);
    let (ax, ay) = (p.x - a.x * u, p.y - a.y * u);
    let (bx, by) = (p.x - b.x * u, p.y - b.y * u);
    assert(b.x * u == a.x * u + dx * u) by (nonlinear_arith)
        requires
            dx == b.x - a.x,
    ;
    assert(b.y * u == a.y * u + dy * u) by (nonlinear_arith)
        requires
            dy == b.y - a.y,
    ;
    assert((-dx) * by - (-dy) * bx == -(dx * ay - dy * ax)) by (nonlinear_arith)
        requires
            by == ay - dy * u,
            bx == ax - dx * u,
    ;
    assert(left_of(b, a, p) == -left_of(a, b, p));
    if a.y == b.y {
        assert(a.y * u == b.y * u);
    }
}

/// The area of a triangle with its corners in another order.
proof fn lemma_turns_of_triangle(a: Point, b: Point, c: Point)
    ensures
        turn(a, c, b) == -turn(a, b, c),
        turn(b, c, a) == turn(a, b, c),
        turn(c, a, b) == turn(a, b, c),
{
    lemma_triangle(a, b, c);
    lemma_triangle(a, c, b);
    lemma_triangle(b, c, a);
    lemma_triangle(c, a, b);
}

/// A point seen from the spot `p`, in its units.
spec fn seen(a: Point, p: Spot) -> (int, int) {
    (a.x * p.unit - p.x, a.y * p.unit - p.y)
}

/// Twice the area of the triangle between `p` and a side.
spec fn wedge(a: (int, int), b: (int, int)) -> int {
    a.0 * b.1 - a.1 * b.0
}

/// What is left of a side is so as seen from the spot.
proof fn lemma_left_is_wedge(a: Point, b: Point, p: Spot)
    ensures
        wedge(seen(a, p), seen(b, p)) == p.unit * left_of(a, b, p),
{
    let u = p.unit as int;
    let (sx, sy) = seen(a, p);
    let (tx, ty) = seen(b, p);
    let (dx, dy) = (b.x - a.x, b.y - a.y);
    assert(tx == sx + u * dx) by (nonlinear_arith)
        requires
            tx == b.x * u - p.x,
            sx == a.x * u - p.x,
            dx == b.x - a.x,
    ;
    assert(ty == sy + u * dy) by (nonlinear_arith)
        requires
            ty == b.y * u - p.y,
            sy == a.y * u - p.y,
            dy == b.y - a.y,
    ;
    assert(sx * ty - sy * tx == u * (dx * (-sy) - dy * (-sx))) by (nonlinear_arith)
        requires
            tx == sx + u * dx,
            ty == sy + u * dy,
    ;
}

/// The three wedges of a triangle, and their weights.
proof fn lemma_wedges(a: (int, int), b: (int, int), c: (int, int))
    ensures
        wedge(a, b) * c.1 + wedge(b, c) * a.1 + wedge(c, a) * b.1 == 0,
        wedge(a, b) + wedge(b, c) + wedge(c, a) == (b.0 - a.0) * (c.1 - a.1) - (b.1 - a.1) * (c.0
            - a.0),
{
    let (ax, ay) = a;
    let (bx, by) = b;
    let (cx, cy) = c;
    assert((ax * by - ay * bx) * cy + (bx * cy - by * cx) * ay + (cx * ay - cy * ax) * by == 0)
        by (nonlinear_arith);
    assert((ax * by - ay * bx) + (bx * cy - by * cx) + (cx * ay - cy * ax) == (bx - ax) * (cy - ay)
        - (by - ay) * (cx - ax)) by (nonlinear_arith);
}

/// The spot is on the inner side of a side, as seen from it.
spec fn seen_within(a: (int, int), b: (int, int)) -> bool {
    let d = wedge(a, b);
    d > 0 || (d == 0 && (b.1 < a.1 || (b.1 == a.1 && a.0 < b.0)))
}

/// The ray crosses a side, as seen from the spot.
spec fn seen_crossed(a: (int, int), b: (int, int)) -> bool {
    (a.1 > 0) != (b.1 > 0) && if b.1 > a.1 {
        wedge(a, b) > 0
    } else {
        wedge(a, b) < 0
    }
}

/// Crossing and inner sides, as seen from the spot.
proof fn lemma_seen(a: Point, b: Point, p: Spot)
    requires
        p.unit > 0,
    ensures
        crosses(a, b, p) == seen_crossed(seen(a, p), seen(b, p)),
        within_side(a, b, p) == seen_within(seen(a, p), seen(b, p)),
{
    lemma_crosses(a, b, p);
    lemma_left_is_wedge(a, b, p);
    lemma_sign(p.unit as int, left_of(a, b, p));
    lemma_scaled(a.x as int, b.x as int, p.unit as int);
    lemma_scaled(a.y as int, b.y as int, p.unit as int);
}

proof fn lemma_scaled(v: int, w: int, u: int)
    requires
        u > 0,
    ensures
        v < w <==> v * u < w * u,
        v == w <==> v * u == w * u,
{
    assert(v < w ==> v * u < w * u) by (nonlinear_arith)
        requires
            u > 0,
    ;
    assert(w < v ==> w * u < v * u) by (nonlinear_arith)
        requires
            u > 0,
    ;
}

proof fn lemma_scaled_product(u: int, v: int, w: int)
    ensures
        (u * v) * (u * w) == (u * u) * (v * w),
{
    assert((u * v) * (u * w) == (u * u) * (v * w)) by (nonlinear_arith);
}

proof fn lemma_difference(k: int, v: int, w: int)
    ensures
        k * (v - w) == k * v - k * w,
{
    assert(k * (v - w) == k * v - k * w) by (nonlinear_arith);
}

/// The sum of the wedges is the area of the triangle, in the units of the
/// spot.
proof fn lemma_wedge_sum(a: Point, b: Point, c: Point, p: Spot)
    ensures
        ({
            let (s, t, v) = (seen(a, p), seen(b, p), seen(c, p));
            (t.0 - s.0) * (v.1 - s.1) - (t.1 - s.1) * (v.0 - s.0) == p.unit * p.unit * turn(a, b, c)
        }),
{
    let u = p.unit as int;
    let (s, t, v) = (seen(a, p), seen(b, p), seen(c, p));
    let (bx, by) = (b.x - a.x, b.y - a.y);
    let (cx, cy) = (c.x - a.x, c.y - a.y);
    assert(t.0 - s.0 == u * bx) by (nonlinear_arith)
        requires
            t.0 == b.x * u - p.x,
            s.0 == a.x * u - p.x,
            bx == b.x - a.x,
    ;
    assert(t.1 - s.1 == u * by) by (nonlinear_arith)
        requires
            t.1 == b.y * u - p.y,
            s.1 == a.y * u - p.y,
            by == b.y - a.y,
    ;
    assert(v.0 - s.0 == u * cx) by (nonlinear_arith)
        requires
            v.0 == c.x * u - p.x,
            s.0 == a.x * u - p.x,
            cx == c.x - a.x,
    ;
    assert(v.1 - s.1 == u * cy) by (nonlinear_arith)
        requires
            v.1 == c.y * u - p.y,
            s.1 == a.y * u - p.y,
            cy == c.y - a.y,
    ;
    lemma_scaled_product(u, bx, cy);
    lemma_scaled_product(u, by, cx);
    lemma_difference(u * u, bx * cy, by * cx);
}

/// A triangle that turns left holds what is on the inner side of its sides.
proof fn lemma_left_triangle(a: Point, b: Point, c: Point, p: Spot)
    requires
        p.unit > 0,
        turn(a, b, c) > 0,
    ensures
        ((crosses(a, b, p) != crosses(b, c, p)) != crosses(c, a, p)) == (within_side(a, b, p)
            && within_side(b, c, p) && within_side(c, a, p)),
{
    let (s, t, v) = (seen(a, p), seen(b, p), seen(c, p));
    lemma_seen(a, b, p);
    lemma_seen(b, c, p);
    lemma_seen(c, a, p);
    lemma_wedge_sum(a, b, c, p);
    let u = p.unit as int;
    lemma_sign(u, u);
    lemma_sign(u * u, turn(a, b, c));
    lemma_wedges(s, t, v);
    lemma_wedges(t, v, s);
    lemma_wedges(v, s, t);
    let high = (s.1 > 0, t.1 > 0, v.1 > 0);
    if high == (true, true, true) {
        lemma_all_high(s, t, v);
    } else if high == (false, false, false) {
        lemma_all_low(s, t, v);
    } else if high == (false, false, true) {
        lemma_one_high(s, t, v);
    } else if high == (true, false, false) {
        lemma_one_high(t, v, s);
    } else if high == (false, true, false) {
        lemma_one_high(v, s, t);
    } else if high == (true, true, false) {
        lemma_one_low(s, t, v);
    } else if high == (false, true, true) {
        lemma_one_low(t, v, s);
    } else {
        lemma_one_low(v, s, t);
    }
}

/// The triangle turns left, as seen from the spot.
spec fn seen_left(a: (int, int), b: (int, int), c: (int, int)) -> bool {
    &&& wedge(a, b) + wedge(b, c) + wedge(c, a) > 0
    &&& wedge(a, b) + wedge(b, c) + wedge(c, a) == (b.0 - a.0) * (c.1 - a.1) - (b.1 - a.1) * (c.0
        - a.0)
    &&& wedge(a, b) * c.1 + wedge(b, c) * a.1 + wedge(c, a) * b.1 == 0
}

proof fn lemma_all_high(a: (int, int), b: (int, int), c: (int, int))
    requires
        seen_left(a, b, c),
        a.1 > 0 && b.1 > 0 && c.1 > 0,
    ensures
        !(seen_within(a, b) && seen_within(b, c) && seen_within(c, a)),
{
    lemma_sign(wedge(a, b), c.1);
    lemma_sign(wedge(b, c), a.1);
    lemma_sign(wedge(c, a), b.1);
}

proof fn lemma_all_low(a: (int, int), b: (int, int), c: (int, int))
    requires
        seen_left(a, b, c),
        a.1 <= 0 && b.1 <= 0 && c.1 <= 0,
    ensures
        !(seen_within(a, b) && seen_within(b, c) && seen_within(c, a)),
{
    lemma_sign(wedge(a, b), c.1);
    lemma_sign(wedge(b, c), a.1);
    lemma_sign(wedge(c, a), b.1);
    lemma_wedges(b, c, a);
    lemma_wedges(c, a, b);
    lemma_level_side(a, b, c);
    lemma_level_side(b, c, a);
    lemma_level_side(c, a, b);
}

/// Above a level side that runs to the right there is the rest of a triangle
/// that turns left.
proof fn lemma_level_side(a: (int, int), b: (int, int), c: (int, int))
    requires
        (b.0 - a.0) * (c.1 - a.1) - (b.1 - a.1) * (c.0 - a.0) > 0,
    ensures
        a.1 == b.1 ==> (a.0 < b.0 <==> c.1 > a.1),
        a.1 == b.1 ==> (a.0 > b.0 <==> c.1 < a.1),
{
    if a.1 == b.1 {
        let (w, h) = (b.0 - a.0, c.1 - a.1);
        let z = c.0 - a.0;
        assert((b.1 - a.1) * z == 0) by (nonlinear_arith)
            requires
                b.1 == a.1,
        ;
        lemma_sign(w, h);
    }
}

proof fn lemma_one_high(a: (int, int), b: (int, int), c: (int, int))
    requires
        seen_left(a, b, c),
        a.1 <= 0 && b.1 <= 0 && c.1 > 0,
    ensures
        (seen_crossed(b, c) != seen_crossed(c, a)) == (seen_within(a, b) && seen_within(b, c)
            && seen_within(c, a)),
        !seen_crossed(a, b),
{
    lemma_sign(wedge(a, b), c.1);
    lemma_sign(wedge(b, c), a.1);
    lemma_sign(wedge(c, a), b.1);
    lemma_level_side(a, b, c);
}

proof fn lemma_one_low(a: (int, int), b: (int, int), c: (int, int))
    requires
        seen_left(a, b, c),
        a.1 > 0 && b.1 > 0 && c.1 <= 0,
    ensures
        (seen_crossed(b, c) != seen_crossed(c, a)) == (seen_within(a, b) && seen_within(b, c)
            && seen_within(c, a)),
        !seen_crossed(a, b),
{
    lemma_sign(wedge(a, b), c.1);
    lemma_sign(wedge(b, c), a.1);
    lemma_sign(wedge(c, a), b.1);
    lemma_level_side(a, b, c);
}

/// A triangle of no area is crossed an even number of times.
proof fn lemma_flat_triangle(a: Point, b: Point, c: Point, p: Spot)
    requires
        turn(a, b, c) == 0,
    ensures
        (crosses(a, b, p) != crosses(b, c, p)) == crosses(c, a, p),
{
    if p.unit == 0 {
        assert(a.y * 0 == 0 && b.y * 0 == 0 && c.y * 0 == 0);
    } else {
        let (s, t, v) = (seen(a, p), seen(b, p), seen(c, p));
        lemma_seen(a, b, p);
        lemma_seen(b, c, p);
        lemma_seen(c, a, p);
        lemma_wedge_sum(a, b, c, p);
        assert(p.unit * p.unit * 0 == 0) by (nonlinear_arith);
        lemma_wedges(s, t, v);
        lemma_flat_sides(s, t, v);
    }
}

proof fn lemma_flat_sides(a: (int, int), b: (int, int), c: (int, int))
    requires
        wedge(a, b) + wedge(b, c) + wedge(c, a) == 0,
        wedge(a, b) * c.1 + wedge(b, c) * a.1 + wedge(c, a) * b.1 == 0,
    ensures
        (seen_crossed(a, b) != seen_crossed(b, c)) == seen_crossed(c, a),
{
    let (x, y, z) = (wedge(a, b), wedge(b, c), wedge(c, a));
    // With the sum zero, two of the weights say the same as three.
    assert(x * (c.1 - b.1) + y * (a.1 - b.1) == 0) by (nonlinear_arith)
        requires
            x + y + z == 0,
            x * c.1 + y * a.1 + z * b.1 == 0,
    ;
    assert(y * (a.1 - c.1) + z * (b.1 - c.1) == 0) by (nonlinear_arith)
        requires
            x + y + z == 0,
            x * c.1 + y * a.1 + z * b.1 == 0,
    ;
    assert(z * (b.1 - a.1) + x * (c.1 - a.1) == 0) by (nonlinear_arith)
        requires
            x + y + z == 0,
            x * c.1 + y * a.1 + z * b.1 == 0,
    ;
    lemma_sign(x, c.1 - b.1);
    lemma_sign(y, a.1 - b.1);
    lemma_sign(y, a.1 - c.1);
    lemma_sign(z, b.1 - c.1);
    lemma_sign(z, b.1 - a.1);
    lemma_sign(x, c.1 - a.1);
}

// ---- the box of a ring ----

/// The bounding box of a ring holds its points, and each of its four sides
/// has one of them.
pub proof fn law_box_sides_are_reached(ring: Seq<Point>)
    requires
        ring.len() > 0,
    ensures
        ({
            let b = ring_bbox(ring);
            &&& forall|i: int|
                0 <= i < ring.len() ==> b.min.x <= (#[trigger] ring[i]).x <= b.max.x && b.min.y
                    <= ring[i].y <= b.max.y
            &&& exists|i: int| 0 <= i < ring.len() && (#[trigger] ring[i]).x == b.min.x
            &&& exists|i: int| 0 <= i < ring.len() && (#[trigger] ring[i]).x == b.max.x
            &&& exists|i: int| 0 <= i < ring.len() && (#[trigger] ring[i]).y == b.min.y
            &&& exists|i: int| 0 <= i < ring.len() && (#[trigger] ring[i]).y == b.max.y
        }),
    decreases ring.len(),
{
    law_ring_bbox_is_smallest(empty_bbox(), ring);
    let b = ring_bbox(ring);
    let head = ring.drop_last();
    let last = ring.len() - 1;
    assert(ring[last] == ring.last());
    if head.len() == 0 {
        assert(ring_bbox_from(empty_bbox(), head) == empty_bbox());
        assert(b.min == ring[0] && b.max == ring[0]);
    } else {
        law_box_sides_are_reached(head);
        let h = ring_bbox(head);
        let i0 = choose|i: int| 0 <= i < head.len() && (#[trigger] head[i]).x == h.min.x;
        let i1 = choose|i: int| 0 <= i < head.len() && (#[trigger] head[i]).x == h.max.x;
        let i2 = choose|i: int| 0 <= i < head.len() && (#[trigger] head[i]).y == h.min.y;
        let i3 = choose|i: int| 0 <= i < head.len() && (#[trigger] head[i]).y == h.max.y;
        assert(ring[i0] == head[i0] && ring[i1] == head[i1]);
        assert(ring[i2] == head[i2] && ring[i3] == head[i3]);
    }
}

/// The bounding box of a layout holds every point, and each of its four sides
/// has one of them.
pub proof fn law_layout_box_sides_are_reached(layout: Seq<Shape>, i: int, k: int)
    requires
        0 <= i < layout.len(),
        0 <= k < layout[i].ring.len(),
    ensures
        ({
            let b = layout_bbox(layout);
            let p = layout[i].ring[k];
            &&& b.min.x <= p.x <= b.max.x && b.min.y <= p.y <= b.max.y
            &&& exists|j: int, l: int| has_point_at(layout, j, l) && layout[j].ring[l].x == b.min.x
            &&& exists|j: int, l: int| has_point_at(layout, j, l) && layout[j].ring[l].x == b.max.x
            &&& exists|j: int, l: int| has_point_at(layout, j, l) && layout[j].ring[l].y == b.min.y
            &&& exists|j: int, l: int| has_point_at(layout, j, l) && layout[j].ring[l].y == b.max.y
        }),
{
    law_layout_bbox_holds(layout, i);
    let p = layout[i].ring[k];
    assert(in_bbox(layout_bbox(layout), layout[i].ring[k]));
    lemma_sides(layout, layout.len() as int);
    assert(layout.take(layout.len() as int) =~= layout);
}

/// Polygon `j` has a point number `l`.
pub open spec fn has_point_at(layout: Seq<Shape>, j: int, l: int) -> bool {
    0 <= j < layout.len() && 0 <= l < layout[j].ring.len()
}

/// Each side of the box of the first `n` polygons has a point of theirs,
/// unless they have none.
proof fn lemma_sides(layout: Seq<Shape>, n: int)
    requires
        0 <= n <= layout.len(),
    ensures
        ({
            let b = layout_bbox(layout.take(n));
            b == empty_bbox() || {
                &&& exists|j: int, l: int|
                    has_point_at(layout, j, l) && layout[j].ring[l].x == b.min.x
                &&& exists|j: int, l: int|
                    has_point_at(layout, j, l) && layout[j].ring[l].x == b.max.x
                &&& exists|j: int, l: int|
                    has_point_at(layout, j, l) && layout[j].ring[l].y == b.min.y
                &&& exists|j: int, l: int|
                    has_point_at(layout, j, l) && layout[j].ring[l].y == b.max.y
            }
        }),
    decreases n,
{
    if n > 0 {
        lemma_sides(layout, n - 1);
        let head = layout.take(n - 1);
        assert(layout.take(n).drop_last() =~= head);
        assert(layout.take(n).last() == layout[n - 1]);
        lemma_ring_sides(layout, layout_bbox(head), n - 1, layout[n - 1].ring.len() as int);
        let ring = layout[n - 1].ring;
        assert(ring.take(ring.len() as int) =~= ring);
    }
}

/// A box widened by the first `k` points of a ring has each side where it was,
/// or where one of them is.
proof fn lemma_ring_sides(layout: Seq<Shape>, b: Bbox, j: int, k: int)
    requires
        0 <= j < layout.len(),
        0 <= k <= layout[j].ring.len(),
    ensures
        ({
            let c = ring_bbox_from(b, layout[j].ring.take(k));
            &&& k == 0 ==> c == b
            &&& c.min.x == b.min.x || exists|l: int|
                #[trigger] has_point_at(layout, j, l) && layout[j].ring[l].x == c.min.x
            &&& c.max.x == b.max.x || exists|l: int|
                #[trigger] has_point_at(layout, j, l) && layout[j].ring[l].x == c.max.x
            &&& c.min.y == b.min.y || exists|l: int|
                #[trigger] has_point_at(layout, j, l) && layout[j].ring[l].y == c.min.y
            &&& c.max.y == b.max.y || exists|l: int|
                #[trigger] has_point_at(layout, j, l) && layout[j].ring[l].y == c.max.y
            &&& b == empty_bbox() && k > 0 ==> {
                &&& exists|l: int|
                    #[trigger] has_point_at(layout, j, l) && layout[j].ring[l].x == c.min.x
                &&& exists|l: int|
                    #[trigger] has_point_at(layout, j, l) && layout[j].ring[l].x == c.max.x
                &&& exists|l: int|
                    #[trigger] has_point_at(layout, j, l) && layout[j].ring[l].y == c.min.y
                &&& exists|l: int|
                    #[trigger] has_point_at(layout, j, l) && layout[j].ring[l].y == c.max.y
            }
        }),
    decreases k,
{
    let ring = layout[j].ring;
    if k > 0 {
        lemma_ring_sides(layout, b, j, k - 1);
        assert(ring.take(k).drop_last() =~= ring.take(k - 1));
        assert(ring.take(k).last() == ring[k - 1]);
        assert(has_point_at(layout, j, k - 1));
    } else {
        assert(ring.take(k).len() == 0);
    }
}

/// A spot that is inside a ring lies in its bounding box.
pub proof fn law_inside_lies_in_the_box(ring: Seq<Point>, p: Spot)
    requires
        inside(ring, p),
        p.unit > 0,
    ensures
        ring.len() >= 3,
        ring_bbox(ring).min.x * p.unit <= p.x < ring_bbox(ring).max.x * p.unit,
        ring_bbox(ring).min.y * p.unit <= p.y < ring_bbox(ring).max.y * p.unit,
{
    let n = ring.len() as int;
    if n < 3 {
        law_nothing_is_inside_a_line(ring, p);
    }
    let b = ring_bbox(ring);
    law_ring_bbox_is_smallest(empty_bbox(), ring);
    if !(b.min.y * p.unit <= p.y < b.max.y * p.unit && p.x < b.max.x * p.unit) {
        lemma_no_crossings(ring, p, n);
    }
    if p.x < b.min.x * p.unit {
        lemma_every_change_crosses(ring, p, n - 1);
        assert(after(ring, n - 1) == 0);
        lemma_side_to_the_right(ring, p, n - 1);
    }
}

/// Point `i` of a ring lies above the spot `p`.
spec fn is_above(ring: Seq<Point>, i: int, p: Spot) -> bool {
    ring[i].y * p.unit > p.y
}

proof fn lemma_no_crossings(ring: Seq<Point>, p: Spot, k: int)
    requires
        k <= ring.len(),
        p.unit > 0,
        ({
            let b = ring_bbox(ring);
            !(b.min.y * p.unit <= p.y < b.max.y * p.unit && p.x < b.max.x * p.unit)
        }),
    ensures
        crossings(ring, p, k) == 0,
    decreases k,
{
    if k > 0 {
        lemma_no_crossings(ring, p, k - 1);
        law_ring_bbox_is_smallest(empty_bbox(), ring);
        let b = ring_bbox(ring);
        let (s, e) = (ring[k - 1], ring[after(ring, k - 1)]);
        let u = p.unit as int;
        lemma_order(b.min.y as int, s.y as int, u);
        lemma_order(b.min.y as int, e.y as int, u);
        lemma_order(s.y as int, b.max.y as int, u);
        lemma_order(e.y as int, b.max.y as int, u);
        lemma_order(s.x as int, b.max.x as int, u);
        lemma_order(e.x as int, b.max.x as int, u);
        lemma_beside(s, e, p);
    }
}

proof fn lemma_order(v: int, w: int, u: int)
    requires
        u > 0,
        v <= w,
    ensures
        v * u <= w * u,
{
    assert(v * u <= w * u) by (nonlinear_arith)
        requires
            u > 0,
            v <= w,
    ;
}

/// A ray crosses no side that ends on its left, and every side on its right
/// that goes past it.
proof fn lemma_beside(a: Point, b: Point, p: Spot)
    requires
        p.unit > 0,
    ensures
        a.x * p.unit <= p.x && b.x * p.unit <= p.x ==> !crosses(a, b, p),
        a.x * p.unit > p.x && b.x * p.unit > p.x ==> crosses(a, b, p) == ((a.y * p.unit > p.y) != (
        b.y * p.unit > p.y)),
{
    lemma_seen(a, b, p);
    let (s, t) = (seen(a, p), seen(b, p));
    lemma_sign(s.0, t.1);
    lemma_sign(s.1, t.0);
}

/// Side `k` of a ring that lies to the right of the spot is crossed where it
/// goes past its height.
proof fn lemma_side_to_the_right(ring: Seq<Point>, p: Spot, k: int)
    requires
        0 <= k < ring.len(),
        p.unit > 0,
        p.x < ring_bbox(ring).min.x * p.unit,
    ensures
        crosses(ring[k], ring[after(ring, k)], p) == (is_above(ring, k, p) != is_above(
            ring,
            after(ring, k),
            p,
        )),
{
    law_ring_bbox_is_smallest(empty_bbox(), ring);
    let b = ring_bbox(ring);
    let (s, e) = (ring[k], ring[after(ring, k)]);
    lemma_order(b.min.x as int, s.x as int, p.unit as int);
    lemma_order(b.min.x as int, e.x as int, p.unit as int);
    lemma_beside(s, e, p);
}

proof fn lemma_every_change_crosses(ring: Seq<Point>, p: Spot, k: int)
    requires
        0 <= k < ring.len(),
        p.unit > 0,
        p.x < ring_bbox(ring).min.x * p.unit,
    ensures
        crossings(ring, p, k) % 2 == 1 <==> is_above(ring, 0, p) != is_above(ring, k, p),
    decreases k,
{
    if k > 0 {
        lemma_every_change_crosses(ring, p, k - 1);
        lemma_side_to_the_right(ring, p, k - 1);
        assert(after(ring, k - 1) == k);
    }
}

} // verus!
