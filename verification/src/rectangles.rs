//! Axis-aligned rectangles: for them the general tests on rings come down to
//! comparisons of boxes.

use vstd::prelude::*;

use crate::gds::{after, crosses, crossings, inside, ring_bbox, ring_bbox_from};
use crate::gds::{Bbox, Point, Spot};
use crate::geometry::{edges_meet, opposite, orientation, overlaps, rings_touch};
use crate::geometry::{segments_meet, spanned, spot_at};
use crate::segments::lemma_sign;
use crate::transistors::box_ring;

verus! {

/// The box has a positive width and height.
pub open spec fn is_solid(b: Bbox) -> bool {
    b.min.x < b.max.x && b.min.y < b.max.y
}

/// `p` lies in the box: its low edges belong to it, its high edges do not.
pub open spec fn holds(b: Bbox, p: Spot) -> bool {
    &&& b.min.x * p.unit <= p.x < b.max.x * p.unit
    &&& b.min.y * p.unit <= p.y < b.max.y * p.unit
}

/// Where a database point lies in a box.
proof fn lemma_holds_point(b: Bbox, p: Point)
    ensures
        holds(b, spot_at(p)) == (b.min.x <= p.x < b.max.x && b.min.y <= p.y < b.max.y),
{
    assert(spot_at(p).unit == 1);
    assert(b.min.x * 1 == b.min.x && b.max.x * 1 == b.max.x);
    assert(b.min.y * 1 == b.min.y && b.max.y * 1 == b.max.y);
}

/// `p` is a corner of the box.
pub open spec fn is_corner(b: Bbox, p: Point) -> bool {
    (p.x == b.min.x || p.x == b.max.x) && (p.y == b.min.y || p.y == b.max.y)
}

/// The ring goes once round the box, from any of its corners, in either
/// direction.
pub open spec fn goes_round(r: Seq<Point>, b: Bbox) -> bool {
    &&& r.len() == 4
    &&& is_corner(b, r[0]) && is_corner(b, r[2])
    &&& r[0].x != r[2].x && r[0].y != r[2].y
    &&& (r[1].x == r[0].x && r[1].y == r[2].y && r[3].x == r[2].x && r[3].y == r[0].y) || (r[1].x
        == r[2].x && r[1].y == r[0].y && r[3].x == r[0].x && r[3].y == r[2].y)
}

/// The ring of a box goes round it, as does its reverse, and as does the ring
/// from any other corner on.
pub proof fn law_box_ring_goes_round(b: Bbox, r: Seq<Point>)
    requires
        is_solid(b),
    ensures
        goes_round(box_ring(b), b),
        goes_round(r, b) ==> goes_round(r.reverse(), b) && goes_round(
            seq![r[1], r[2], r[3], r[0]],
            b,
        ),
{
}

/// The bounding box of a ring round a box is the box.
pub proof fn law_box_of_any_ring(r: Seq<Point>, b: Bbox)
    requires
        is_solid(b),
        goes_round(r, b),
    ensures
        ring_bbox(r) == b,
{
    let r3 = r.drop_last();
    let r2 = r3.drop_last();
    let r1 = r2.drop_last();
    let r0 = r1.drop_last();
    reveal_with_fuel(ring_bbox_from, 5);
    assert(r0.len() == 0);
    assert(r1.last() == r[0]);
    assert(r2.last() == r[1]);
    assert(r3.last() == r[2]);
    assert(r.last() == r[3]);
}

/// The bounding box of a rectangle ring is the box it was made of.
pub proof fn law_box_of_ring(b: Bbox)
    requires
        is_solid(b),
    ensures
        ring_bbox(box_ring(b)) == b,
{
    law_box_of_any_ring(box_ring(b), b);
}

/// A ray to the right crosses no level edge.
proof fn lemma_level_edge(p: Point, q: Point, at: Spot)
    requires
        p.y == q.y,
    ensures
        !crosses(p, q, at),
{
}

/// A ray to the right crosses a side edge that stands to the right of its
/// start, between the heights of the two ends.
proof fn lemma_side_edge(p: Point, q: Point, at: Spot, low: int, high: int)
    requires
        p.x == q.x,
        low < high,
        (p.y == low && q.y == high) || (p.y == high && q.y == low),
    ensures
        crosses(p, q, at) == (low * at.unit <= at.y < high * at.unit && at.x < p.x * at.unit),
{
    let u = at.unit as int;
    assert(low * u <= high * u) by (nonlinear_arith)
        requires
            low < high,
            u >= 0,
    ;
    lemma_sign(at.x - p.x * u, q.y - p.y);
    assert((q.x - p.x) * (at.y - p.y * u) == 0) by (nonlinear_arith)
        requires
            q.x == p.x,
    ;
}

/// The inside of a ring round a box is the box.
pub proof fn law_inside_any_rectangle(r: Seq<Point>, b: Bbox, p: Spot)
    requires
        is_solid(b),
        goes_round(r, b),
    ensures
        inside(r, p) == holds(b, p),
{
    let u = p.unit as int;
    reveal_with_fuel(crossings, 5);
    assert(after(r, 0) == 1 && after(r, 1) == 2 && after(r, 2) == 3 && after(r, 3) == 0);
    let (low, high) = (b.min.y as int, b.max.y as int);
    if r[1].x == r[0].x {
        lemma_side_edge(r[0], r[1], p, low, high);
        lemma_level_edge(r[1], r[2], p);
        lemma_side_edge(r[2], r[3], p, low, high);
        lemma_level_edge(r[3], r[0], p);
    } else {
        lemma_level_edge(r[0], r[1], p);
        lemma_side_edge(r[1], r[2], p, low, high);
        lemma_level_edge(r[2], r[3], p);
        lemma_side_edge(r[3], r[0], p, low, high);
    }
    let left = b.min.x * u;
    let right = b.max.x * u;
    assert(left <= right) by (nonlinear_arith)
        requires
            left == b.min.x * u,
            right == b.max.x * u,
            b.min.x < b.max.x,
            u >= 0,
    ;
}

/// The inside of a rectangle ring is its box.
pub proof fn law_inside_rectangle(b: Bbox, p: Spot)
    requires
        is_solid(b),
    ensures
        inside(box_ring(b), p) == holds(b, p),
{
    law_inside_any_rectangle(box_ring(b), b, p);
}

/// A vertical and a horizontal segment meet where their spans say so.
proof fn lemma_cross_meets(v1: Point, v2: Point, h1: Point, h2: Point)
    requires
        v1.x == v2.x,
        h1.y == h2.y,
        v1.y != v2.y,
        h1.x != h2.x,
        h1.x <= v1.x <= h2.x || h2.x <= v1.x <= h1.x,
        v1.y <= h1.y <= v2.y || v2.y <= h1.y <= v1.y,
    ensures
        segments_meet(v1, v2, h1, h2),
        segments_meet(h1, h2, v1, v2),
{
    let (dx, dy) = (h2.x - h1.x, v2.y - v1.y);
    let d1 = orientation(h1, h2, v1);
    let d2 = orientation(h1, h2, v2);
    let d3 = orientation(v1, v2, h1);
    let d4 = orientation(v1, v2, h2);
    assert((h2.y - h1.y) * (v1.x - h1.x) == 0) by (nonlinear_arith)
        requires
            h2.y == h1.y,
    ;
    assert((h2.y - h1.y) * (v2.x - h1.x) == 0) by (nonlinear_arith)
        requires
            h2.y == h1.y,
    ;
    assert((v2.x - v1.x) * (h1.y - v1.y) == 0) by (nonlinear_arith)
        requires
            v2.x == v1.x,
    ;
    assert((v2.x - v1.x) * (h2.y - v1.y) == 0) by (nonlinear_arith)
        requires
            v2.x == v1.x,
    ;
    lemma_sign(dx, v1.y - h1.y);
    lemma_sign(dx, v2.y - h1.y);
    lemma_sign(dy, h1.x - v1.x);
    lemma_sign(dy, h2.x - v1.x);
    if v1.y == h1.y {
        assert(d1 == 0 && spanned(h1, v1, h2));
    } else if v2.y == h1.y {
        assert(d2 == 0 && spanned(h1, v2, h2));
    } else if h1.x == v1.x {
        assert(d3 == 0 && spanned(v1, h1, v2));
    } else if h2.x == v1.x {
        assert(d4 == 0 && spanned(v1, h2, v2));
    } else {
        assert(opposite(d1, d2));
        assert(opposite(d3, d4));
    }
}

/// The side edge of a ring round `b` at `v`.
proof fn lemma_side_at(r: Seq<Point>, b: Bbox, v: int) -> (i: int)
    requires
        is_solid(b),
        goes_round(r, b),
        v == b.min.x || v == b.max.x,
    ensures
        0 <= i < 4,
        r[i].x == v == r[after(r, i)].x,
        (r[i].y == b.min.y && r[after(r, i)].y == b.max.y) || (r[i].y == b.max.y && r[after(r, i)].y
            == b.min.y),
{
    if r[1].x == r[0].x {
        if r[0].x == v {
            0
        } else {
            2
        }
    } else {
        if r[1].x == v {
            1
        } else {
            3
        }
    }
}

/// The level edge of a ring round `b` at `w`.
proof fn lemma_level_at(r: Seq<Point>, b: Bbox, w: int) -> (i: int)
    requires
        is_solid(b),
        goes_round(r, b),
        w == b.min.y || w == b.max.y,
    ensures
        0 <= i < 4,
        r[i].y == w == r[after(r, i)].y,
        (r[i].x == b.min.x && r[after(r, i)].x == b.max.x) || (r[i].x == b.max.x && r[after(r, i)].x
            == b.min.x),
{
    if r[1].y == r[0].y {
        if r[0].y == w {
            0
        } else {
            2
        }
    } else {
        if r[1].y == w {
            1
        } else {
            3
        }
    }
}

/// A side edge of `a` meets a level edge of `b`.
proof fn lemma_side_meets_level(
    ra: Seq<Point>,
    a: Bbox,
    rb: Seq<Point>,
    b: Bbox,
    v: int,
    w: int,
)
    requires
        is_solid(a),
        is_solid(b),
        goes_round(ra, a),
        goes_round(rb, b),
        v == a.min.x || v == a.max.x,
        w == b.min.y || w == b.max.y,
        b.min.x <= v <= b.max.x,
        a.min.y <= w <= a.max.y,
    ensures
        edges_meet(ra, rb),
        edges_meet(rb, ra),
{
    let i = lemma_side_at(ra, a, v);
    let j = lemma_level_at(rb, b, w);
    let (a0, a1) = (ra[i], ra[after(ra, i)]);
    let (b0, b1) = (rb[j], rb[after(rb, j)]);
    lemma_cross_meets(a0, a1, b0, b1);
    assert(segments_meet(ra[i], ra[after(ra, i)], rb[j], rb[after(rb, j)]));
    assert(segments_meet(rb[j], rb[after(rb, j)], ra[i], ra[after(ra, i)]));
}

/// Two rectangles touch exactly if their boxes share a point, whichever corner
/// either ring starts from, and whichever way it goes round.
pub proof fn law_any_rectangles_touch(ra: Seq<Point>, a: Bbox, rb: Seq<Point>, b: Bbox)
    requires
        is_solid(a),
        is_solid(b),
        goes_round(ra, a),
        goes_round(rb, b),
    ensures
        rings_touch(ra, rb) == overlaps(a, b),
        rings_touch(rb, ra) == overlaps(a, b),
{
    lemma_rectangles_touch(ra, a, rb, b);
    lemma_rectangles_touch(rb, b, ra, a);
    assert(overlaps(a, b) == overlaps(b, a));
}

proof fn lemma_rectangles_touch(ra: Seq<Point>, a: Bbox, rb: Seq<Point>, b: Bbox)
    requires
        is_solid(a),
        is_solid(b),
        goes_round(ra, a),
        goes_round(rb, b),
    ensures
        rings_touch(ra, rb) == overlaps(a, b),
{
    law_box_of_any_ring(ra, a);
    law_box_of_any_ring(rb, b);
    if overlaps(a, b) {
        let a_side_in_b = b.min.x <= a.min.x <= b.max.x || b.min.x <= a.max.x <= b.max.x;
        let b_side_in_a = a.min.x <= b.min.x <= a.max.x || a.min.x <= b.max.x <= a.max.x;
        let a_level_in_b = b.min.y <= a.min.y <= b.max.y || b.min.y <= a.max.y <= b.max.y;
        let b_level_in_a = a.min.y <= b.min.y <= a.max.y || a.min.y <= b.max.y <= a.max.y;
        if a_side_in_b && b_level_in_a {
            let v = if b.min.x <= a.min.x <= b.max.x {
                a.min.x
            } else {
                a.max.x
            };
            let w = if a.min.y <= b.min.y <= a.max.y {
                b.min.y
            } else {
                b.max.y
            };
            lemma_side_meets_level(ra, a, rb, b, v as int, w as int);
        } else if b_side_in_a && a_level_in_b {
            let v = if a.min.x <= b.min.x <= a.max.x {
                b.min.x
            } else {
                b.max.x
            };
            let w = if b.min.y <= a.min.y <= b.max.y {
                a.min.y
            } else {
                a.max.y
            };
            lemma_side_meets_level(rb, b, ra, a, v as int, w as int);
        } else if a_side_in_b {
            assert(b.min.x < a.min.x && a.max.x < b.max.x);
            assert(b.min.y < a.min.y && a.max.y < b.max.y);
            lemma_holds_point(b, ra[0]);
            law_inside_any_rectangle(rb, b, spot_at(ra[0]));
        } else {
            assert(a.min.x < b.min.x && b.max.x < a.max.x);
            assert(a.min.y < b.min.y && b.max.y < a.max.y);
            lemma_holds_point(a, rb[0]);
            law_inside_any_rectangle(ra, a, spot_at(rb[0]));
        }
    }
}

/// Two rectangles touch exactly if their boxes share a point.
pub proof fn law_rectangles_touch(a: Bbox, b: Bbox)
    requires
        is_solid(a),
        is_solid(b),
    ensures
        rings_touch(box_ring(a), box_ring(b)) == overlaps(a, b),
{
    law_any_rectangles_touch(box_ring(a), a, box_ring(b), b);
}

} // verus!
