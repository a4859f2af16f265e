//! What a net is: rings touch where they have a point in common, and a net
//! holds what hangs together by touching.

use vstd::prelude::*;

use crate::areas::{law_box_sides_are_reached, law_inside_lies_in_the_box};
use crate::gds::{after, empty_bbox, inside, law_ring_bbox_is_smallest, ring_bbox};
use crate::gds::{Bbox, Point, Shape, Spot};
use crate::geometry::{at, connected, connects, edges_meet, law_touch_symmetric, link};
use crate::geometry::{lists_net, overlaps, rings_touch, segments_meet, spot_at, Nets};
use crate::graph::{lemma_closed_holds_reached, lemma_start_reached, lemma_step_reached, reached};
use crate::segments::{common_point, law_segments_meet_in_a_point, shares};
use crate::tech::{LayerRole, Tech};

verus! {

// ---- touching rings ----

/// Some point of the plane lies on the outlines of both rings.
pub open spec fn outlines_meet(a: Seq<Point>, b: Seq<Point>) -> bool {
    exists|i: int, j: int|
        #![trigger a[i], b[j]]
        0 <= i < a.len() && 0 <= j < b.len() && common_point(
            a[i],
            a[(i + 1) % (a.len() as int)],
            b[j],
            b[(j + 1) % (b.len() as int)],
        )
}

/// Two rings of any number of corners touch exactly if they have a point of
/// the plane in common: a point of both outlines, or the first corner of the
/// one inside the other. What their bounding boxes do adds nothing.
pub proof fn law_rings_touch_in_a_point(a: Seq<Point>, b: Seq<Point>)
    ensures
        rings_touch(a, b) <==> a.len() >= 3 && b.len() >= 3 && (outlines_meet(a, b) || inside(
            b,
            Spot { x: a[0].x as i64, y: a[0].y as i64, unit: 1 },
        ) || inside(a, Spot { x: b[0].x as i64, y: b[0].y as i64, unit: 1 })),
{
    if a.len() >= 3 && b.len() >= 3 {
        lemma_outlines(a, b);
        law_ring_bbox_is_smallest(empty_bbox(), a);
        law_ring_bbox_is_smallest(empty_bbox(), b);
        if inside(b, spot_at(a[0])) {
            law_inside_lies_in_the_box(b, spot_at(a[0]));
            lemma_units(ring_bbox(b));
        }
        if inside(a, spot_at(b[0])) {
            law_inside_lies_in_the_box(a, spot_at(b[0]));
            lemma_units(ring_bbox(a));
        }
    }
}

proof fn lemma_units(b: Bbox)
    ensures
        b.min.x * 1 == b.min.x && b.max.x * 1 == b.max.x,
        b.min.y * 1 == b.min.y && b.max.y * 1 == b.max.y,
{
}

/// The side after a corner goes to the next corner.
proof fn lemma_next(r: Seq<Point>, i: int)
    requires
        0 <= i < r.len(),
    ensures
        (i + 1) % (r.len() as int) == after(r, i),
{
    let n = r.len() as int;
    if i + 1 < n {
        assert((i + 1) % n == i + 1) by (nonlinear_arith)
            requires
                0 <= i + 1 < n,
        ;
    } else {
        assert(n % n == 0) by (nonlinear_arith)
            requires
                n > 0,
        ;
    }
}

/// Outlines meet where two sides do, and then the boxes overlap.
proof fn lemma_outlines(a: Seq<Point>, b: Seq<Point>)
    ensures
        outlines_meet(a, b) == edges_meet(a, b),
        outlines_meet(a, b) ==> overlaps(ring_bbox(a), ring_bbox(b)),
{
    if outlines_meet(a, b) {
        let (i, j) = choose|i: int, j: int|
            #![trigger a[i], b[j]]
            0 <= i < a.len() && 0 <= j < b.len() && common_point(
                a[i],
                a[(i + 1) % (a.len() as int)],
                b[j],
                b[(j + 1) % (b.len() as int)],
            );
        lemma_next(a, i);
        lemma_next(b, j);
        let (p1, p2, p3, p4) = (a[i], a[after(a, i)], b[j], b[after(b, j)]);
        law_segments_meet_in_a_point(p1, p2, p3, p4);
        assert(segments_meet(a[i], a[after(a, i)], b[j], b[after(b, j)]));
        law_ring_bbox_is_smallest(empty_bbox(), a);
        law_ring_bbox_is_smallest(empty_bbox(), b);
        lemma_common_point_boxes(p1, p2, p3, p4, ring_bbox(a), ring_bbox(b));
    }
    if edges_meet(a, b) {
        let (i, j) = choose|i: int, j: int|
            #![trigger a[i], b[j]]
            0 <= i < a.len() && 0 <= j < b.len() && segments_meet(
                a[i],
                a[after(a, i)],
                b[j],
                b[after(b, j)],
            );
        lemma_next(a, i);
        lemma_next(b, j);
        law_segments_meet_in_a_point(a[i], a[after(a, i)], b[j], b[after(b, j)]);
        assert(common_point(
            a[i],
            a[(i + 1) % (a.len() as int)],
            b[j],
            b[(j + 1) % (b.len() as int)],
        ));
    }
}

/// A part of the way between two numbers stays between the bounds of both.
proof fn lemma_part(den: int, s: int, u: int, v: int, lo: int, hi: int)
    requires
        den > 0,
        0 <= s <= den,
        lo <= u <= hi,
        lo <= v <= hi,
    ensures
        den * lo <= den * u + s * (v - u) <= den * hi,
{
    let (x, y) = (u - lo, v - lo);
    assert(den * u + s * (v - u) - den * lo == (den - s) * x + s * y) by (nonlinear_arith)
        requires
            x == u - lo,
            y == v - lo,
    ;
    assert((den - s) * x >= 0 && s * y >= 0) by (nonlinear_arith)
        requires
            0 <= s <= den,
            x >= 0,
            y >= 0,
    ;
    let (z, w) = (hi - u, hi - v);
    assert(den * hi - (den * u + s * (v - u)) == (den - s) * z + s * w) by (nonlinear_arith)
        requires
            z == hi - u,
            w == hi - v,
    ;
    assert((den - s) * z >= 0 && s * w >= 0) by (nonlinear_arith)
        requires
            0 <= s <= den,
            z >= 0,
            w >= 0,
    ;
}

/// Intervals with a common point overlap.
proof fn lemma_common_part(
    den: int,
    s: int,
    t: int,
    u1: int,
    u2: int,
    u3: int,
    u4: int,
    lo: int,
    hi: int,
    lo2: int,
    hi2: int,
)
    requires
        den > 0,
        0 <= s <= den,
        0 <= t <= den,
        den * u1 + s * (u2 - u1) == den * u3 + t * (u4 - u3),
        lo <= u1 <= hi,
        lo <= u2 <= hi,
        lo2 <= u3 <= hi2,
        lo2 <= u4 <= hi2,
    ensures
        lo <= hi2,
        hi >= lo2,
{
    lemma_part(den, s, u1, u2, lo, hi);
    lemma_part(den, t, u3, u4, lo2, hi2);
    assert(lo <= hi2) by (nonlinear_arith)
        requires
            den > 0,
            den * lo <= den * hi2,
    ;
    assert(lo2 <= hi) by (nonlinear_arith)
        requires
            den > 0,
            den * lo2 <= den * hi,
    ;
}

proof fn lemma_common_point_boxes(p1: Point, p2: Point, p3: Point, p4: Point, a: Bbox, b: Bbox)
    requires
        common_point(p1, p2, p3, p4),
        a.min.x <= p1.x <= a.max.x && a.min.y <= p1.y <= a.max.y,
        a.min.x <= p2.x <= a.max.x && a.min.y <= p2.y <= a.max.y,
        b.min.x <= p3.x <= b.max.x && b.min.y <= p3.y <= b.max.y,
        b.min.x <= p4.x <= b.max.x && b.min.y <= p4.y <= b.max.y,
    ensures
        overlaps(a, b),
{
    let (s, t, den) = choose|s: int, t: int, den: int| shares(p1, p2, p3, p4, s, t, den);
    lemma_common_part(
        den,
        s,
        t,
        p1.x as int,
        p2.x as int,
        p3.x as int,
        p4.x as int,
        a.min.x as int,
        a.max.x as int,
        b.min.x as int,
        b.max.x as int,
    );
    lemma_common_part(
        den,
        s,
        t,
        p1.y as int,
        p2.y as int,
        p3.y as int,
        p4.y as int,
        a.min.y as int,
        a.max.y as int,
        b.min.y as int,
        b.max.y as int,
    );
}

/// Rings on the two sides of an upright or a level line do not touch.
pub proof fn law_rings_on_two_sides_do_not_touch(a: Seq<Point>, b: Seq<Point>, line: int)
    requires
        (forall|i: int| 0 <= i < a.len() ==> (#[trigger] a[i]).x <= line) && (forall|j: int|
            0 <= j < b.len() ==> line < (#[trigger] b[j]).x) || (forall|i: int|
            0 <= i < a.len() ==> (#[trigger] a[i]).y <= line) && (forall|j: int|
            0 <= j < b.len() ==> line < (#[trigger] b[j]).y),
    ensures
        !rings_touch(a, b),
        !rings_touch(b, a),
{
    if a.len() >= 3 && b.len() >= 3 {
        law_box_sides_are_reached(a);
        law_box_sides_are_reached(b);
        law_touch_symmetric(a, b);
    }
}

// ---- nets ----

/// The technology wires the shapes where they touch.
pub open spec fn may_join(a: Shape, b: Shape, tech: &Tech) -> bool {
    let (ra, rb) = (tech.role_of(a.layer, a.datatype), tech.role_of(b.layer, b.datatype));
    &&& ra != LayerRole::NWell && rb != LayerRole::NWell
    &&& a.layer == b.layer || ra == LayerRole::Via || rb == LayerRole::Via
}

/// Polygons that touch are on one net if they are on one layer or one of them
/// is a via, and neither is a well.
pub proof fn law_touching_polygons_share_a_net(
    nets: Nets,
    layout: Seq<Shape>,
    tech: &Tech,
    i: int,
    j: int,
)
    requires
        nets.nets_of(layout, tech),
        0 <= i < layout.len(),
        0 <= j < layout.len(),
        may_join(layout[i], layout[j], tech),
        rings_touch(layout[i].ring, layout[j].ring),
    ensures
        nets.net_of@[i] == nets.net_of@[j],
{
    let step = link(layout, tech);
    lemma_start_reached(at(i), step, i);
    assert(connects(layout[i], layout[j], tech));
    assert(step(i, j));
    lemma_step_reached(at(i), step, i, j);
    assert(connected(layout, tech, i, j));
}

/// Two polygons of the layout, one in a part of it and one outside the part,
/// that are on the net `net` and are wired to each other.
pub open spec fn is_wired_across(
    layout: Seq<Shape>,
    tech: &Tech,
    nets: Nets,
    part: spec_fn(int) -> bool,
    net: u32,
    a: int,
    b: int,
) -> bool {
    &&& 0 <= a < layout.len() && 0 <= b < layout.len()
    &&& part(a) && !part(b)
    &&& nets.net_of@[a] == net && nets.net_of@[b] == net
    &&& may_join(layout[a], layout[b], tech)
    &&& rings_touch(layout[a].ring, layout[b].ring)
}

/// A net hangs together: wherever it is cut in two, some polygon of the one
/// part touches some polygon of the other and is wired to it.
pub proof fn law_nets_hang_together(
    nets: Nets,
    layout: Seq<Shape>,
    tech: &Tech,
    i: int,
    j: int,
    part: spec_fn(int) -> bool,
)
    requires
        nets.nets_of(layout, tech),
        0 <= i < layout.len(),
        0 <= j < layout.len(),
        nets.net_of@[i] == nets.net_of@[j],
        part(i),
        !part(j),
    ensures
        exists|a: int, b: int| #[trigger]
            is_wired_across(layout, tech, nets, part, nets.net_of@[i], a, b),
{
    let net = nets.net_of@[i];
    let step = link(layout, tech);
    assert(connected(layout, tech, i, j));
    lemma_start_reached(at(i), step, i);
    if !(exists|a: int, b: int| #[trigger]
        is_wired_across(layout, tech, nets, part, net, a, b)) {
        let held = |k: int| 0 <= k < layout.len() && part(k) && reached(at(i), step, k);
        assert forall|a: int, b: int| held(a) && #[trigger] step(a, b) implies held(b) by {
            lemma_step_reached(at(i), step, a, b);
            assert(connected(layout, tech, i, a) && connected(layout, tech, i, b));
            assert(nets.net_of@[i] == nets.net_of@[a]);
            assert(nets.net_of@[i] == nets.net_of@[b]);
            assert(may_join(layout[a], layout[b], tech));
            assert(!is_wired_across(layout, tech, nets, part, net, a, b));
        }
        lemma_closed_holds_reached(at(i), step, held, j);
    }
}

/// A well is on a net of its own.
pub proof fn law_wells_are_alone(nets: Nets, layout: Seq<Shape>, tech: &Tech, i: int, j: int)
    requires
        nets.nets_of(layout, tech),
        0 <= i < layout.len(),
        0 <= j < layout.len(),
        tech.role_of(layout[i].layer, layout[i].datatype) == LayerRole::NWell,
        nets.net_of@[i] == nets.net_of@[j],
    ensures
        i == j,
{
    if i != j {
        let part = |k: int| k == i;
        law_nets_hang_together(nets, layout, tech, i, j, part);
        let (a, b) = choose|a: int, b: int| #[trigger]
            is_wired_across(layout, tech, nets, part, nets.net_of@[i], a, b);
        assert(a == i);
    }
}

/// The nets are numbered from 0 on, in the order of their first polygons:
/// before a polygon on any net but the first one there is a polygon on the net
/// before it.
pub proof fn law_nets_are_numbered_in_order(nets: Nets, layout: Seq<Shape>, tech: &Tech, i: int)
    requires
        nets.nets_of(layout, tech),
        0 <= i < layout.len(),
    ensures
        nets.net_of@.len() == layout.len(),
        nets.net_of@[i] < nets.members@.len(),
        nets.net_of@[i] > 0 ==> exists|j: int|
            0 <= j < i && #[trigger] nets.net_of@[j] == nets.net_of@[i] - 1,
{
    let n = layout.len() as int;
    let k = nets.net_of@[i] as int;
    if k > 0 {
        let (list, before) = (nets.members@[k]@, nets.members@[k - 1]@);
        assert(lists_net(list, nets.net_of@, n, k));
        assert(lists_net(before, nets.net_of@, n, k - 1));
        assert(list.contains(i as u32));
        let at = choose|at: int| 0 <= at < list.len() && list[at] == i as u32;
        if at > 0 {
            assert(list[0] < list[at]);
        }
        assert(before[0] < list[0]);
        assert(nets.net_of@[before[0] as int] == k - 1);
    }
}

/// The members of a net are the polygons with its number, each once, in
/// rising order; no net is without one.
pub proof fn law_members_are_the_polygons_of_a_net(
    nets: Nets,
    layout: Seq<Shape>,
    tech: &Tech,
    net: int,
)
    requires
        nets.nets_of(layout, tech),
        0 <= net < nets.members@.len(),
    ensures
        nets.members@[net]@.len() > 0,
        forall|i: int|
            0 <= i < layout.len() ==> (nets.members@[net]@.contains(i as u32) <==> #[trigger]
                nets.net_of@[i] == net),
        forall|a: int|
            0 <= a < nets.members@[net]@.len() ==> (#[trigger] nets.members@[net]@[a])
                < layout.len(),
        forall|a: int, b: int|
            0 <= a < b < nets.members@[net]@.len() ==> (#[trigger] nets.members@[net]@[a]) < (
            #[trigger] nets.members@[net]@[b]),
{
    let n = layout.len() as int;
    let list = nets.members@[net]@;
    assert(lists_net(list, nets.net_of@, n, net));
    assert forall|i: int| 0 <= i < n implies (list.contains(i as u32) <==> #[trigger]
        nets.net_of@[i] == net) by {
        if list.contains(i as u32) {
            let a = choose|a: int| 0 <= a < list.len() && list[a] == i as u32;
            assert(nets.net_of@[list[a] as int] == net);
        }
    }
}

} // verus!
