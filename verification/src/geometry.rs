//! Geometry processing: turns a flat polygon list into an electrical net
//! graph.
//!
//!   1. A uniform-grid index buckets polygons by bounding box, so that only
//!      pairs that share a cell are tested.
//!   2. A polygon-touch test (box reject, edge intersection, containment)
//!      decides whether two polygons abut or overlap.
//!   3. Two polygons are connected when they touch and either sit on the same
//!      layer or one of them is a via. Poly over diffusion is not a
//!      connection (it is a transistor), and wells are inert.
//!   4. A union-find merges connected polygons into nets.

use std::collections::HashMap;
use std::collections::HashSet;

use vstd::prelude::*;

use crate::gds::{after, bbox, bbox_within, empty_bbox, in_bbox, inside, layout_bbox};
use crate::gds::{law_ring_bbox_is_smallest, point_in_polygon};
use crate::gds::{polygon_bbox, ring_bbox, shapes, Bbox, Point, Polygon, Shape, Spot};
use crate::graph::reached;
use crate::graph::{lemma_closed_holds_reached, lemma_start_reached, lemma_step_reached};
use crate::tech::{LayerRole, Tech};
use crate::unionfind::UnionFind;

verus! {

broadcast use vstd::std_specs::hash::group_hash_axioms;

// ---- do two segments meet? ----

/// Orientation of the ordered triple (p, q, r): positive for a left turn,
/// negative for a right turn, zero for collinear points.
pub open spec fn orientation(p: Point, q: Point, r: Point) -> int {
    (q.x - p.x) * (r.y - p.y) - (q.y - p.y) * (r.x - p.x)
}

/// `q` lies in the box that `p` and `r` span.
pub open spec fn spanned(p: Point, q: Point, r: Point) -> bool {
    &&& (p.x <= q.x <= r.x || r.x <= q.x <= p.x)
    &&& (p.y <= q.y <= r.y || r.y <= q.y <= p.y)
}

/// `a` and `b` have opposite signs.
pub open spec fn opposite(a: int, b: int) -> bool {
    (a > 0 && b < 0) || (a < 0 && b > 0)
}

/// The closed segments `p1 p2` and `p3 p4` meet: they cross properly, or an
/// end of one lies on the other.
pub open spec fn segments_meet(p1: Point, p2: Point, p3: Point, p4: Point) -> bool {
    let d1 = orientation(p3, p4, p1);
    let d2 = orientation(p3, p4, p2);
    let d3 = orientation(p1, p2, p3);
    let d4 = orientation(p1, p2, p4);
    ||| opposite(d1, d2) && opposite(d3, d4)
    ||| d1 == 0 && spanned(p3, p1, p4)
    ||| d2 == 0 && spanned(p3, p2, p4)
    ||| d3 == 0 && spanned(p1, p3, p2)
    ||| d4 == 0 && spanned(p1, p4, p2)
}

proof fn lemma_turn_bound(a: int, b: int)
    requires
        -0xffff_ffff <= a <= 0xffff_ffff,
        -0xffff_ffff <= b <= 0xffff_ffff,
    ensures
        -0x1_0000_0000_0000_0000 <= a * b <= 0x1_0000_0000_0000_0000,
{
    assert(-0x1_0000_0000_0000_0000 <= a * b <= 0x1_0000_0000_0000_0000) by (nonlinear_arith)
        requires
            -0xffff_ffff <= a <= 0xffff_ffff,
            -0xffff_ffff <= b <= 0xffff_ffff,
    ;
}

/// Orientation of an ordered triple of points.
pub fn orient(p: Point, q: Point, r: Point) -> (d: i128)
    ensures
        d == orientation(p, q, r),
{
    let qx: i128 = q.x as i128 - p.x as i128;
    let qy: i128 = q.y as i128 - p.y as i128;
    let rx: i128 = r.x as i128 - p.x as i128;
    let ry: i128 = r.y as i128 - p.y as i128;
    proof {
        lemma_turn_bound(qx as int, ry as int);
        lemma_turn_bound(qy as int, rx as int);
    }
    qx * ry - qy * rx
}

/// Whether `q` is on the segment `p r`, given that the three are collinear.
pub fn on_segment(p: Point, q: Point, r: Point) -> (on: bool)
    ensures
        on == spanned(p, q, r),
{
    let (x0, x1): (i32, i32) = if p.x <= r.x {
        (p.x, r.x)
    } else {
        (r.x, p.x)
    };
    let (y0, y1): (i32, i32) = if p.y <= r.y {
        (p.y, r.y)
    } else {
        (r.y, p.y)
    };
    x0 <= q.x && q.x <= x1 && y0 <= q.y && q.y <= y1
}

/// Whether two closed segments meet: true for proper crossings, shared ends
/// and collinear overlaps.
pub fn segments_intersect(p1: Point, p2: Point, p3: Point, p4: Point) -> (meet: bool)
    ensures
        meet == segments_meet(p1, p2, p3, p4),
{
    let d1: i128 = orient(p3, p4, p1);
    let d2: i128 = orient(p3, p4, p2);
    let d3: i128 = orient(p1, p2, p3);
    let d4: i128 = orient(p1, p2, p4);
    if ((d1 > 0 && d2 < 0) || (d1 < 0 && d2 > 0)) && ((d3 > 0 && d4 < 0) || (d3 < 0 && d4 > 0)) {
        return true;
    }
    if d1 == 0 && on_segment(p3, p1, p4) {
        return true;
    }
    if d2 == 0 && on_segment(p3, p2, p4) {
        return true;
    }
    if d3 == 0 && on_segment(p1, p3, p2) {
        return true;
    }
    if d4 == 0 && on_segment(p1, p4, p2) {
        return true;
    }
    false
}

// ---- do two rings touch? ----

/// Two boxes share a point.
pub open spec fn overlaps(a: Bbox, b: Bbox) -> bool {
    a.min.x <= b.max.x && a.max.x >= b.min.x && a.min.y <= b.max.y && a.max.y >= b.min.y
}

/// A database point as a spot.
pub open spec fn spot_at(p: Point) -> Spot {
    Spot { x: p.x as i64, y: p.y as i64, unit: 1 }
}

/// An edge of `a` meets an edge of `b`.
pub open spec fn edges_meet(a: Seq<Point>, b: Seq<Point>) -> bool {
    exists|i: int, j: int|
        #![trigger a[i], b[j]]
        0 <= i < a.len() && 0 <= j < b.len() && segments_meet(
            a[i],
            a[after(a, i)],
            b[j],
            b[after(b, j)],
        )
}

/// The rings `a` and `b` abut or overlap. A ring of fewer than three points
/// touches nothing.
pub open spec fn rings_touch(a: Seq<Point>, b: Seq<Point>) -> bool {
    &&& a.len() >= 3
    &&& b.len() >= 3
    &&& overlaps(ring_bbox(a), ring_bbox(b))
    &&& edges_meet(a, b) || inside(b, spot_at(a[0])) || inside(a, spot_at(b[0]))
}

/// Whether two boxes share a point.
pub fn bbox_overlap(a: &Bbox, b: &Bbox) -> (o: bool)
    ensures
        o == overlaps(*a, *b),
{
    a.min.x <= b.max.x && a.max.x >= b.min.x && a.min.y <= b.max.y && a.max.y >= b.min.y
}

/// Whether two polygon rings abut or overlap.
#[verifier::spinoff_prover]
#[verifier::rlimit(40)]
pub fn polygons_touch(a: &[Point], b: &[Point]) -> (touch: bool)
    ensures
        touch == rings_touch(a@, b@),
{
    if a.len() < 3 || b.len() < 3 {
        return false;
    }
    let ba = polygon_bbox(a);
    let bb = polygon_bbox(b);
    if !bbox_overlap(&ba, &bb) {
        return false;
    }
    let na: usize = a.len();
    let nb: usize = b.len();
    let mut i: usize = 0;
    while i < na
        invariant
            i <= na == a@.len(),
            nb == b@.len(),
            na >= 3,
            nb >= 3,
            overlaps(ring_bbox(a@), ring_bbox(b@)),
            forall|k: int, l: int|
                #![trigger a@[k], b@[l]]
                0 <= k < i && 0 <= l < nb ==> !segments_meet(
                    a@[k],
                    a@[after(a@, k)],
                    b@[l],
                    b@[after(b@, l)],
                ),
        decreases na - i,
    {
        let a0 = a[i];
        let a1 = a[if i + 1 < na { i + 1 } else { 0 }];
        let mut j: usize = 0;
        while j < nb
            invariant
                i < na == a@.len(),
                j <= nb == b@.len(),
                na >= 3,
                nb >= 3,
                overlaps(ring_bbox(a@), ring_bbox(b@)),
                a0 == a@[i as int],
                a1 == a@[after(a@, i as int)],
                forall|l: int|
                    0 <= l < j ==> !segments_meet(a0, a1, #[trigger] b@[l], b@[after(b@, l)]),
            decreases nb - j,
        {
            let b0 = b[j];
            let b1 = b[if j + 1 < nb { j + 1 } else { 0 }];
            if segments_intersect(a0, a1, b0, b1) {
                assert(b1 == b@[after(b@, j as int)]);
                assert(edges_meet(a@, b@));
                return true;
            }
            j = j + 1;
        }
        i = i + 1;
    }
    assert(!edges_meet(a@, b@));
    let pa = Spot { x: a[0].x as i64, y: a[0].y as i64, unit: 1 };
    let pb = Spot { x: b[0].x as i64, y: b[0].y as i64, unit: 1 };
    point_in_polygon(b, pa) || point_in_polygon(a, pb)
}

/// Touching is symmetric.
pub proof fn law_touch_symmetric(a: Seq<Point>, b: Seq<Point>)
    ensures
        rings_touch(a, b) == rings_touch(b, a),
{
    if edges_meet(a, b) {
        let (i, j) = choose|i: int, j: int|
            #![trigger a[i], b[j]]
            0 <= i < a.len() && 0 <= j < b.len() && segments_meet(
                a[i],
                a[after(a, i)],
                b[j],
                b[after(b, j)],
            );
        assert(segments_meet(b[j], b[after(b, j)], a[i], a[after(a, i)]));
        assert(edges_meet(b, a));
    }
    if edges_meet(b, a) {
        let (i, j) = choose|i: int, j: int|
            #![trigger b[i], a[j]]
            0 <= i < b.len() && 0 <= j < a.len() && segments_meet(
                b[i],
                b[after(b, i)],
                a[j],
                a[after(a, j)],
            );
        assert(segments_meet(a[j], a[after(a, j)], b[i], b[after(b, i)]));
        assert(edges_meet(a, b));
    }
}

// ---- connectivity ----

/// The role of a shape.
pub open spec fn shape_role(s: Shape, tech: &Tech) -> LayerRole {
    tech.role_of(s.layer, s.datatype)
}

/// The technology lets shapes `a` and `b` connect where they touch: neither
/// is a well, and they are on one layer or one of them is a via.
pub open spec fn bridges(a: Shape, b: Shape, tech: &Tech) -> bool {
    &&& shape_role(a, tech) != LayerRole::NWell
    &&& shape_role(b, tech) != LayerRole::NWell
    &&& a.layer == b.layer || shape_role(a, tech) == LayerRole::Via || shape_role(b, tech)
        == LayerRole::Via
}

/// Shapes `a` and `b` are electrically connected.
pub open spec fn connects(a: Shape, b: Shape, tech: &Tech) -> bool {
    bridges(a, b, tech) && rings_touch(a.ring, b.ring)
}

/// Whether two polygons are electrically connected.
pub fn connectable(a: &Polygon, b: &Polygon, tech: &Tech) -> (c: bool)
    ensures
        c == connects(a@, b@, tech),
{
    let role_a = tech.role(a.layer, a.datatype);
    let role_b = tech.role(b.layer, b.datatype);
    if role_a == LayerRole::NWell || role_b == LayerRole::NWell {
        return false;
    }
    let same_layer = a.layer == b.layer;
    let may = same_layer || tech.is_via(a.layer, a.datatype) || tech.is_via(b.layer, b.datatype);
    if !may {
        return false;
    }
    polygons_touch(&a.points, &b.points)
}

/// Wells are inert: nothing connects to a well.
pub proof fn law_wells_are_inert(a: Shape, b: Shape, tech: &Tech)
    requires
        shape_role(a, tech) == LayerRole::NWell,
    ensures
        !connects(a, b, tech),
        !connects(b, a, tech),
{
}

/// Poly over diffusion, on a layer of its own, is a transistor and no
/// connection.
pub proof fn law_poly_over_diffusion_is_no_connection(a: Shape, b: Shape, tech: &Tech)
    requires
        shape_role(a, tech) == LayerRole::Poly,
        shape_role(b, tech) == LayerRole::Diffusion,
        a.layer != b.layer,
    ensures
        !connects(a, b, tech),
        !connects(b, a, tech),
{
}

/// Without a via, only shapes of one layer connect.
pub proof fn law_layers_connect_only_through_vias(a: Shape, b: Shape, tech: &Tech)
    requires
        connects(a, b, tech),
        shape_role(a, tech) != LayerRole::Via,
        shape_role(b, tech) != LayerRole::Via,
    ensures
        a.layer == b.layer,
{
}

/// The direct connections of a layout.
pub open spec fn link(layout: Seq<Shape>, tech: &Tech) -> spec_fn(int, int) -> bool {
    |i: int, j: int|
        0 <= i < layout.len() && 0 <= j < layout.len() && connects(layout[i], layout[j], tech)
}

/// The single node `i`.
pub open spec fn at(i: int) -> spec_fn(int) -> bool {
    |k: int| k == i
}

/// Polygons `i` and `j` are on one net: a chain of direct connections leads
/// from one to the other.
pub open spec fn connected(layout: Seq<Shape>, tech: &Tech, i: int, j: int) -> bool {
    reached(at(i), link(layout, tech), j)
}

/// Direct connections go both ways.
pub proof fn law_link_symmetric(layout: Seq<Shape>, tech: &Tech, i: int, j: int)
    ensures
        link(layout, tech)(i, j) == link(layout, tech)(j, i),
{
    if 0 <= i < layout.len() && 0 <= j < layout.len() {
        law_touch_symmetric(layout[i].ring, layout[j].ring);
    }
}

/// Every polygon is on the net of itself.
pub proof fn law_connected_reflexive(layout: Seq<Shape>, tech: &Tech, i: int)
    ensures
        connected(layout, tech, i, i),
{
    lemma_start_reached(at(i), link(layout, tech), i);
}

/// Being on one net is transitive.
pub proof fn law_connected_transitive(layout: Seq<Shape>, tech: &Tech, i: int, j: int, k: int)
    requires
        connected(layout, tech, i, j),
        connected(layout, tech, j, k),
    ensures
        connected(layout, tech, i, k),
{
    let step = link(layout, tech);
    let held = |n: int| reached(at(i), step, n);
    assert forall|a: int, b: int| held(a) && #[trigger] step(a, b) implies held(b) by {
        lemma_step_reached(at(i), step, a, b);
    }
    lemma_closed_holds_reached(at(j), step, held, k);
}

/// Being on one net is symmetric.
pub proof fn law_connected_symmetric(layout: Seq<Shape>, tech: &Tech, i: int, j: int)
    requires
        connected(layout, tech, i, j),
    ensures
        connected(layout, tech, j, i),
{
    let step = link(layout, tech);
    let held = |n: int| reached(at(n), step, i);
    lemma_start_reached(at(i), step, i);
    assert forall|a: int, b: int| held(a) && #[trigger] step(a, b) implies held(b) by {
        law_link_symmetric(layout, tech, a, b);
        lemma_start_reached(at(b), step, b);
        lemma_step_reached(at(b), step, b, a);
        law_connected_transitive(layout, tech, b, a, i);
    }
    lemma_closed_holds_reached(at(i), step, held, j);
}

// ---- uniform-grid index ----

/// Cells along each axis of the grid: the last one holds only the far edge.
pub const GRID_CELLS: usize = 65;

/// The cell of coordinate `v` on an axis that starts at `origin`, where the
/// longer side of the scene is `span`: 64 cells share the span, and no cell
/// is smaller than one unit.
pub open spec fn cell_of(v: int, origin: int, span: int) -> int {
    if span > 64 {
        ((v - origin) * 64) / span
    } else {
        v - origin
    }
}

/// The longer side of a box, at least one unit.
pub open spec fn longer_side(b: Bbox) -> int {
    let dx = b.max.x - b.min.x;
    let dy = b.max.y - b.min.y;
    if dx >= dy && dx >= 1 {
        dx
    } else if dy >= 1 {
        dy
    } else {
        1
    }
}

/// The grid cell `(ix, iy)` is one of those that the bounding box of `ring`
/// covers, in a scene with box `scene`. Rings of fewer than three points
/// cover none.
pub open spec fn covers(ring: Seq<Point>, scene: Bbox, ix: int, iy: int) -> bool {
    let bb = ring_bbox(ring);
    let span = longer_side(scene);
    &&& ring.len() >= 3
    &&& cell_of(bb.min.x as int, scene.min.x as int, span) <= ix <= cell_of(
        bb.max.x as int,
        scene.min.x as int,
        span,
    )
    &&& cell_of(bb.min.y as int, scene.min.y as int, span) <= iy <= cell_of(
        bb.max.y as int,
        scene.min.y as int,
        span,
    )
}

/// Those of the first `k` polygons that cover the cell with number `c`, in
/// order.
pub open spec fn bucket(layout: Seq<Shape>, c: int, k: int) -> Seq<usize>
    decreases k,
{
    if k <= 0 {
        Seq::empty()
    } else {
        let rest = bucket(layout, c, k - 1);
        if covers(layout[k - 1].ring, layout_bbox(layout), c / 65, c % 65) {
            rest.push((k - 1) as usize)
        } else {
            rest
        }
    }
}

/// A uniform-grid index over a polygon list.
pub struct Grid {
    cells: Vec<Vec<usize>>,
}

impl Grid {
    /// The polygons of the cell with number `c`.
    pub closed spec fn cell(&self, c: int) -> Seq<usize> {
        self.cells@[c]@
    }

    /// Every cell holds the polygons that cover it.
    pub closed spec fn indexes(&self, layout: Seq<Shape>) -> bool {
        &&& self.cells@.len() == 4225
        &&& forall|c: int|
            0 <= c < 4225 ==> (#[trigger] self.cells@[c])@ == bucket(
                layout,
                c,
                layout.len() as int,
            )
    }

    pub proof fn lemma_cell(&self, layout: Seq<Shape>, c: int)
        requires
            self.indexes(layout),
            0 <= c < 4225,
        ensures
            self.cell(c) == bucket(layout, c, layout.len() as int),
    {
    }
}

proof fn lemma_cell_range(v: int, origin: int, span: int, side: int)
    requires
        origin <= v <= origin + side,
        side <= span,
        1 <= span,
    ensures
        0 <= cell_of(v, origin, span) <= 64,
{
    if span > 64 {
        let d = v - origin;
        assert(0 <= (d * 64) / span <= 64) by (nonlinear_arith)
            requires
                0 <= d <= span,
                span > 64,
        ;
    }
}

proof fn lemma_cell_monotone(a: int, b: int, origin: int, span: int)
    requires
        a <= b,
        1 <= span,
    ensures
        cell_of(a, origin, span) <= cell_of(b, origin, span),
{
    if span > 64 {
        vstd::arithmetic::div_mod::lemma_div_is_ordered((a - origin) * 64, (b - origin) * 64, span);
    }
}

/// Every ring lies in the box of its layout.
pub proof fn law_layout_bbox_holds(layout: Seq<Shape>, i: int)
    requires
        0 <= i < layout.len(),
    ensures
        forall|k: int|
            0 <= k < layout[i].ring.len() ==> in_bbox(layout_bbox(layout), #[trigger] layout[i].ring[k]),
        layout[i].ring.len() > 0 ==> bbox_within(ring_bbox(layout[i].ring), layout_bbox(layout)),
    decreases layout.len(),
{
    let last = layout.last();
    let head = layout.drop_last();
    law_ring_bbox_is_smallest(layout_bbox(head), last.ring);
    if i < layout.len() - 1 {
        law_layout_bbox_holds(head, i);
        assert(head[i] == layout[i]);
        assert forall|k: int| 0 <= k < layout[i].ring.len() implies in_bbox(
            layout_bbox(layout),
            #[trigger] layout[i].ring[k],
        ) by {
            assert(in_bbox(layout_bbox(head), head[i].ring[k]));
        }
    }
    let ring = layout[i].ring;
    if ring.len() > 0 {
        law_ring_bbox_is_smallest(empty_bbox(), ring);
        let o = layout_bbox(layout);
        assert(in_bbox(o, layout[i].ring[0]));
        assert(forall|k: int| 0 <= k < ring.len() ==> in_bbox(o, ring[k]));
        assert(bbox_within(empty_bbox(), o));
        assert(bbox_within(ring_bbox(ring), o));
    }
}

/// A ring with a point has a box that is not empty.
proof fn lemma_ring_bbox_ordered(ring: Seq<Point>)
    requires
        ring.len() > 0,
    ensures
        ring_bbox(ring).min.x <= ring_bbox(ring).max.x,
        ring_bbox(ring).min.y <= ring_bbox(ring).max.y,
{
    law_ring_bbox_is_smallest(empty_bbox(), ring);
    assert(in_bbox(ring_bbox(ring), ring[0]));
}

/// Where the cells of a polygon lie.
proof fn lemma_cover_range(layout: Seq<Shape>, i: int)
    requires
        0 <= i < layout.len(),
        layout[i].ring.len() >= 3,
    ensures
        ({
            let scene = layout_bbox(layout);
            let span = longer_side(scene);
            let bb = ring_bbox(layout[i].ring);
            &&& 0 <= cell_of(bb.min.x as int, scene.min.x as int, span) <= cell_of(
                bb.max.x as int,
                scene.min.x as int,
                span,
            ) <= 64
            &&& 0 <= cell_of(bb.min.y as int, scene.min.y as int, span) <= cell_of(
                bb.max.y as int,
                scene.min.y as int,
                span,
            ) <= 64
            &&& bbox_within(bb, scene)
            &&& bb.min.x <= bb.max.x
            &&& bb.min.y <= bb.max.y
        }),
{
    let scene = layout_bbox(layout);
    let span = longer_side(scene);
    let bb = ring_bbox(layout[i].ring);
    law_layout_bbox_holds(layout, i);
    lemma_ring_bbox_ordered(layout[i].ring);
    let dx = scene.max.x - scene.min.x;
    let dy = scene.max.y - scene.min.y;
    lemma_cell_range(bb.min.x as int, scene.min.x as int, span, dx);
    lemma_cell_range(bb.max.x as int, scene.min.x as int, span, dx);
    lemma_cell_range(bb.min.y as int, scene.min.y as int, span, dy);
    lemma_cell_range(bb.max.y as int, scene.min.y as int, span, dy);
    lemma_cell_monotone(bb.min.x as int, bb.max.x as int, scene.min.x as int, span);
    lemma_cell_monotone(bb.min.y as int, bb.max.y as int, scene.min.y as int, span);
}

/// The index of the cell that holds coordinate `v`.
fn cell_index(v: i32, origin: i32, span: i64) -> (c: usize)
    requires
        origin <= v,
        1 <= span,
        v - origin <= span <= 0xffff_ffff,
    ensures
        c == cell_of(v as int, origin as int, span as int),
        c <= 64,
{
    proof {
        lemma_cell_range(v as int, origin as int, span as int, v - origin);
    }
    let d: i64 = v as i64 - origin as i64;
    if span > 64 {
        ((d * 64) / span) as usize
    } else {
        d as usize
    }
}

/// Adds polygon `idx` to the cells of a rectangle of cells.
fn add_to_cells(
    cells: &mut Vec<Vec<usize>>,
    idx: usize,
    ix0: usize,
    ix1: usize,
    iy0: usize,
    iy1: usize,
)
    requires
        old(cells)@.len() == 4225,
        ix0 <= ix1 <= 64,
        iy0 <= iy1 <= 64,
    ensures
        final(cells)@.len() == 4225,
        forall|c: int|
            0 <= c < 4225 ==> (#[trigger] final(cells)@[c])@ == if ix0 <= c / 65 <= ix1 && iy0 <= c
                % 65 <= iy1 {
                old(cells)@[c]@.push(idx)
            } else {
                old(cells)@[c]@
            },
{
    let ghost cells0 = cells@;
    let mut ix: usize = ix0;
    while ix <= ix1
        invariant
            ix0 <= ix <= ix1 + 1,
            ix1 <= 64,
            iy0 <= iy1 <= 64,
            cells@.len() == 4225,
            cells0.len() == 4225,
            forall|c: int|
                0 <= c < 4225 ==> (#[trigger] cells@[c])@ == if ix0 <= c / 65 < ix && iy0 <= c % 65
                    <= iy1 {
                    cells0[c]@.push(idx)
                } else {
                    cells0[c]@
                },
        decreases ix1 + 1 - ix,
    {
        let mut iy: usize = iy0;
        while iy <= iy1
            invariant
                ix0 <= ix <= ix1,
                ix1 <= 64,
                iy0 <= iy <= iy1 + 1,
                iy1 <= 64,
                cells@.len() == 4225,
                cells0.len() == 4225,
                forall|c: int|
                    0 <= c < 4225 ==> (#[trigger] cells@[c])@ == if (ix0 <= c / 65 < ix && iy0 <= c
                        % 65 <= iy1) || (c / 65 == ix && iy0 <= c % 65 < iy) {
                        cells0[c]@.push(idx)
                    } else {
                        cells0[c]@
                    },
            decreases iy1 + 1 - iy,
        {
            let key: usize = ix * GRID_CELLS + iy;
            assert(key / 65 == ix && key % 65 == iy);
            cells[key].push(idx);
            iy = iy + 1;
        }
        ix = ix + 1;
    }
}

impl Grid {
    /// Buckets every polygon into the grid cells that its box covers.
    pub fn build(polys: &[Polygon]) -> (g: Grid)
        ensures
            g.indexes(shapes(polys@)),
    {
        let ghost layout = shapes(polys@);
        let scene = bbox(polys);
        let dx: i64 = scene.max.x as i64 - scene.min.x as i64;
        let dy: i64 = scene.max.y as i64 - scene.min.y as i64;
        let span: i64 = if dx >= dy && dx >= 1 {
            dx
        } else if dy >= 1 {
            dy
        } else {
            1
        };
        let mut cells: Vec<Vec<usize>> = Vec::new();
        let mut c: usize = 0;
        while c < GRID_CELLS * GRID_CELLS
            invariant
                c <= 4225,
                cells@.len() == c,
                forall|k: int| 0 <= k < c ==> (#[trigger] cells@[k])@.len() == 0,
            decreases 4225 - c,
        {
            cells.push(Vec::new());
            c = c + 1;
        }
        let mut idx: usize = 0;
        assert forall|c: int| 0 <= c < 4225 implies (#[trigger] cells@[c])@ == bucket(
            layout,
            c,
            0,
        ) by {
            assert(cells@[c]@ =~= bucket(layout, c, 0));
        }
        while idx < polys.len()
            invariant
                idx <= polys@.len(),
                layout == shapes(polys@),
                scene == layout_bbox(layout),
                span == longer_side(scene),
                cells@.len() == 4225,
                forall|c: int|
                    0 <= c < 4225 ==> (#[trigger] cells@[c])@ == bucket(layout, c, idx as int),
            decreases polys@.len() - idx,
        {
            let p = &polys[idx];
            assert(layout[idx as int].ring == p.points@);
            if p.points.len() >= 3 {
                let bb = polygon_bbox(&p.points);
                proof {
                    lemma_cover_range(layout, idx as int);
                }
                let ix0: usize = cell_index(bb.min.x, scene.min.x, span);
                let ix1: usize = cell_index(bb.max.x, scene.min.x, span);
                let iy0: usize = cell_index(bb.min.y, scene.min.y, span);
                let iy1: usize = cell_index(bb.max.y, scene.min.y, span);
                add_to_cells(&mut cells, idx, ix0, ix1, iy0, iy1);
            }
            idx = idx + 1;
        }
        Grid { cells }
    }
}

/// The members of a bucket: in range, in rising order, and exactly the
/// polygons that cover the cell.
proof fn lemma_bucket(layout: Seq<Shape>, c: int, k: int)
    requires
        0 <= k <= layout.len(),
        layout.len() <= usize::MAX,
    ensures
        forall|a: int|
            0 <= a < bucket(layout, c, k).len() ==> #[trigger] bucket(layout, c, k)[a] < k,
        forall|a: int, b: int|
            0 <= a < b < bucket(layout, c, k).len() ==> #[trigger] bucket(layout, c, k)[a]
                < #[trigger] bucket(layout, c, k)[b],
        forall|i: int|
            0 <= i < k && covers(
                #[trigger] layout[i].ring,
                layout_bbox(layout),
                c / 65,
                c % 65,
            ) ==> bucket(layout, c, k).contains(i as usize),
    decreases k,
{
    if k > 0 {
        lemma_bucket(layout, c, k - 1);
        let rest = bucket(layout, c, k - 1);
        let all = bucket(layout, c, k);
        assert forall|i: int|
            0 <= i < k && covers(
                #[trigger] layout[i].ring,
                layout_bbox(layout),
                c / 65,
                c % 65,
            ) implies all.contains(i as usize) by {
            if i < k - 1 {
                let a = choose|a: int| 0 <= a < rest.len() && rest[a] == i as usize;
                assert(all[a] == i as usize);
            } else {
                assert(all[all.len() - 1] == i as usize);
            }
        }
    }
}

/// Two polygons whose boxes overlap share a cell of the grid, so testing the
/// pairs within each cell misses no connection.
pub proof fn law_overlapping_polygons_share_a_cell(layout: Seq<Shape>, i: int, j: int) -> (c: int)
    requires
        0 <= i < layout.len(),
        0 <= j < layout.len(),
        layout[i].ring.len() >= 3,
        layout[j].ring.len() >= 3,
        overlaps(ring_bbox(layout[i].ring), ring_bbox(layout[j].ring)),
    ensures
        0 <= c < 4225,
        covers(layout[i].ring, layout_bbox(layout), c / 65, c % 65),
        covers(layout[j].ring, layout_bbox(layout), c / 65, c % 65),
{
    let scene = layout_bbox(layout);
    let span = longer_side(scene);
    let a = ring_bbox(layout[i].ring);
    let b = ring_bbox(layout[j].ring);
    lemma_cover_range(layout, i);
    lemma_cover_range(layout, j);
    let x: int = if a.min.x >= b.min.x {
        a.min.x as int
    } else {
        b.min.x as int
    };
    let y: int = if a.min.y >= b.min.y {
        a.min.y as int
    } else {
        b.min.y as int
    };
    let ox = scene.min.x as int;
    let oy = scene.min.y as int;
    lemma_cell_monotone(a.min.x as int, x, ox, span);
    lemma_cell_monotone(b.min.x as int, x, ox, span);
    lemma_cell_monotone(x, a.max.x as int, ox, span);
    lemma_cell_monotone(x, b.max.x as int, ox, span);
    lemma_cell_monotone(a.min.y as int, y, oy, span);
    lemma_cell_monotone(b.min.y as int, y, oy, span);
    lemma_cell_monotone(y, a.max.y as int, oy, span);
    lemma_cell_monotone(y, b.max.y as int, oy, span);
    let ix = cell_of(x, ox, span);
    let iy = cell_of(y, oy, span);
    let c = ix * 65 + iy;
    assert(c / 65 == ix && c % 65 == iy);
    c
}

/// The span from `lo` to `hi` meets cell `n` of an axis that starts at `origin`
/// and whose span of `side` units has 64 cells, or a cell for each unit if it
/// is shorter than that.
pub open spec fn meets_cell(lo: int, hi: int, origin: int, side: int, n: int) -> bool {
    if side > 64 {
        64 * (lo - origin) < (n + 1) * side && n * side <= 64 * (hi - origin)
    } else {
        lo - origin <= n <= hi - origin
    }
}

proof fn lemma_meets_cell(lo: int, hi: int, origin: int, side: int, n: int)
    requires
        side >= 1,
    ensures
        meets_cell(lo, hi, origin, side, n) <==> cell_of(lo, origin, side) <= n <= cell_of(
            hi,
            origin,
            side,
        ),
{
    if side > 64 {
        lemma_quotient((lo - origin) * 64, side, n);
        lemma_quotient((hi - origin) * 64, side, n);
    }
}

/// A quotient is at most `n` exactly if the number is below the next multiple,
/// and at least `n` exactly if it reaches that multiple.
proof fn lemma_quotient(v: int, side: int, n: int)
    requires
        side > 0,
    ensures
        v / side <= n <==> v < (n + 1) * side,
        v / side >= n <==> v >= n * side,
{
    let q = v / side;
    assert(q * side <= v < (q + 1) * side) by (nonlinear_arith)
        requires
            side > 0,
            q == v / side,
    ;
    assert(q <= n ==> (q + 1) * side <= (n + 1) * side) by (nonlinear_arith)
        requires
            side > 0,
    ;
    assert(q > n ==> q * side >= (n + 1) * side) by (nonlinear_arith)
        requires
            side > 0,
    ;
    assert(q >= n ==> q * side >= n * side) by (nonlinear_arith)
        requires
            side > 0,
    ;
    assert(q < n ==> (q + 1) * side <= n * side) by (nonlinear_arith)
        requires
            side > 0,
    ;
}

/// A cell of the grid lists, in rising order, the polygons of three corners or
/// more whose box meets it, and no others.
pub proof fn law_cells_list_what_meets_them(
    grid: Grid,
    layout: Seq<Shape>,
    ix: int,
    iy: int,
    i: int,
    a: int,
)
    requires
        grid.indexes(layout),
        0 <= ix < 65,
        0 <= iy < 65,
        0 <= i < layout.len() <= usize::MAX,
    ensures
        ({
            let cell = grid.cell(65 * ix + iy);
            let b = ring_bbox(layout[i].ring);
            let scene = layout_bbox(layout);
            let (w, h) = (scene.max.x - scene.min.x, scene.max.y - scene.min.y);
            let side: int = if w < 1 && h < 1 {
                1
            } else if w < h {
                h
            } else {
                w
            };
            &&& cell.contains(i as usize) <==> layout[i].ring.len() >= 3 && meets_cell(
                b.min.x as int,
                b.max.x as int,
                scene.min.x as int,
                side,
                ix,
            ) && meets_cell(b.min.y as int, b.max.y as int, scene.min.y as int, side, iy)
            &&& 0 < a < cell.len() ==> cell[a - 1] < cell[a]
        }),
{
    let c = 65 * ix + iy;
    assert(c / 65 == ix && c % 65 == iy);
    grid.lemma_cell(layout, c);
    let scene = layout_bbox(layout);
    let side = longer_side(scene);
    let b = ring_bbox(layout[i].ring);
    lemma_meets_cell(b.min.x as int, b.max.x as int, scene.min.x as int, side, ix);
    lemma_meets_cell(b.min.y as int, b.max.y as int, scene.min.y as int, side, iy);
    lemma_bucket_lists(layout, c, layout.len() as int, i, a);
}

proof fn lemma_bucket_lists(layout: Seq<Shape>, c: int, k: int, i: int, a: int)
    requires
        0 <= k <= layout.len() <= usize::MAX,
        0 <= i,
    ensures
        ({
            let list = bucket(layout, c, k);
            &&& i < k ==> (list.contains(i as usize) <==> covers(
                layout[i].ring,
                layout_bbox(layout),
                c / 65,
                c % 65,
            ))
            &&& forall|m: int| 0 <= m < list.len() ==> (#[trigger] list[m]) < k
            &&& 0 < a < list.len() ==> list[a - 1] < list[a]
        }),
    decreases k,
{
    if k > 0 {
        lemma_bucket_lists(layout, c, k - 1, i, a);
        let rest = bucket(layout, c, k - 1);
        let list = bucket(layout, c, k);
        if i < k - 1 {
            if rest.contains(i as usize) {
                let m = choose|m: int| 0 <= m < rest.len() && rest[m] == i as usize;
                assert(list[m] == i as usize);
            }
            if list.contains(i as usize) {
                let m = choose|m: int| 0 <= m < list.len() && list[m] == i as usize;
                assert(m < rest.len());
                assert(rest[m] == i as usize);
            }
        } else if i == k - 1 {
            if covers(layout[i].ring, layout_bbox(layout), c / 65, c % 65) {
                assert(list[rest.len() as int] == i as usize);
            }
        }
    }
}

/// The orientation of three points is twice the signed area of their triangle:
/// it stays the same from another corner, changes its sign in the other
/// direction, and is the area of the rectangle for a right angle to the left.
pub proof fn law_orientation_is_a_signed_area(p: Point, q: Point, r: Point)
    ensures
        orientation(p, q, r) == orientation(q, r, p),
        orientation(q, p, r) == -orientation(p, q, r),
        q.y == p.y && r.x == q.x ==> orientation(p, q, r) == (q.x - p.x) * (r.y - p.y),
        orientation(p, q, r) == p.x * (q.y - r.y) + q.x * (r.y - p.y) + r.x * (p.y - q.y),
{
    let (px, py) = (p.x as int, p.y as int);
    let (qx, qy) = (q.x as int, q.y as int);
    let (rx, ry) = (r.x as int, r.y as int);
    lemma_orientation(px, py, qx, qy, rx, ry);
    lemma_orientation(qx, qy, rx, ry, px, py);
    lemma_orientation(qx, qy, px, py, rx, ry);
    assert(qx * (py - ry) + px * (ry - qy) + rx * (qy - py) == -(px * (qy - ry) + qx * (ry - py)
        + rx * (py - qy))) by (nonlinear_arith);
    if q.y == p.y && r.x == q.x {
        assert((q.y - p.y) * (r.x - p.x) == 0) by (nonlinear_arith)
            requires
                q.y == p.y,
        ;
    }
}

proof fn lemma_orientation(px: int, py: int, qx: int, qy: int, rx: int, ry: int)
    ensures
        (qx - px) * (ry - py) - (qy - py) * (rx - px) == px * (qy - ry) + qx * (ry - py) + rx * (py
            - qy),
{
    assert((qx - px) * (ry - py) - (qy - py) * (rx - px) == px * (qy - ry) + qx * (ry - py) + rx
        * (py - qy)) by (nonlinear_arith);
}

// ---- nets ----

/// Connected components of a polygon list.
#[derive(Debug)]
pub struct Nets {
    /// `net_of[i]` is the net of polygon `i`.
    pub net_of: Vec<u32>,
    /// `members[net]` lists the polygons of a net.
    pub members: Vec<Vec<u32>>,
}

/// `list` holds, in rising order, exactly those of the first `n` polygons
/// whose net is `net`.
pub open spec fn lists_net(list: Seq<u32>, net_of: Seq<u32>, n: int, net: int) -> bool {
    &&& forall|a: int, b: int| 0 <= a < b < list.len() ==> #[trigger] list[a] < #[trigger] list[b]
    &&& forall|a: int|
        0 <= a < list.len() ==> (#[trigger] list[a]) < n && net_of[list[a] as int] == net
    &&& forall|i: int|
        0 <= i < n && #[trigger] net_of[i] == net ==> list.contains(i as u32)
}

impl Default for Nets {
    /// No polygons and no nets.
    fn default() -> (nets: Nets)
        ensures
            nets.net_of@ == Seq::<u32>::empty(),
            nets.members@ == Seq::<Vec<u32>>::empty(),
    {
        Nets { net_of: Vec::new(), members: Vec::new() }
    }
}

impl Nets {
    /// The first `n` polygons are numbered into nets: the nets are those of
    /// `net_of`, none is empty, and they are in the order of their first
    /// polygons.
    pub open spec fn numbered(&self, n: int) -> bool {
        &&& self.net_of@.len() == n <= 0x1_0000_0000
        &&& forall|i: int| 0 <= i < n ==> (#[trigger] self.net_of@[i]) < self.members@.len()
        &&& forall|k: int|
            0 <= k < self.members@.len() ==> (#[trigger] self.members@[k])@.len() > 0 && lists_net(
                self.members@[k]@,
                self.net_of@,
                n,
                k,
            )
        &&& forall|k: int, l: int|
            0 <= k < l < self.members@.len() ==> (#[trigger] self.members@[k])@[0] < (
            #[trigger] self.members@[l])@[0]
    }

    /// These are the nets of `layout`: two polygons have one net exactly if
    /// they are connected.
    pub open spec fn nets_of(&self, layout: Seq<Shape>, tech: &Tech) -> bool {
        &&& self.numbered(layout.len() as int)
        &&& forall|i: int, j: int|
            #![trigger self.net_of@[i], self.net_of@[j]]
            0 <= i < layout.len() && 0 <= j < layout.len() ==> (self.net_of@[i] == self.net_of@[j]
                <==> connected(layout, tech, i, j))
    }

    /// The number of nets.
    pub fn count(&self) -> (n: usize)
        ensures
            n == self.members@.len(),
    {
        self.members.len()
    }
}

/// The number that stands for the pair `(i, j)`.
spec fn pair_number(i: int, j: int) -> int {
    i * 0x1_0000_0000 + j
}

/// The sets of `uf` are unions of nets found so far: only connected polygons
/// are together.
spec fn only_connected(uf: UnionFind, layout: Seq<Shape>, tech: &Tech) -> bool {
    &&& uf.wf()
    &&& uf.len() == layout.len()
    &&& forall|i: int, j: int|
        0 <= i < layout.len() && 0 <= j < layout.len() && #[trigger] uf.same(i, j) ==> connected(
            layout,
            tech,
            i,
            j,
        )
}

/// The pair `(i, j)` needs no further test.
spec fn settled(uf: UnionFind, layout: Seq<Shape>, tech: &Tech, i: int, j: int) -> bool {
    link(layout, tech)(i, j) ==> uf.same(i, j)
}

/// Every pair in `tested` is settled.
spec fn tested_settled(
    tested: Set<u64>,
    uf: UnionFind,
    layout: Seq<Shape>,
    tech: &Tech,
) -> bool {
    forall|i: int, j: int|
        0 <= i < layout.len() && 0 <= j < layout.len() && #[trigger] tested.contains(
            pair_number(i, j) as u64,
        ) ==> settled(uf, layout, tech, i, j)
}

/// `uf2` has every pair together that `uf1` has.
spec fn coarser(uf1: UnionFind, uf2: UnionFind, n: nat) -> bool {
    forall|i: int, j: int|
        #![trigger uf2.same(i, j)]
        0 <= i < n && 0 <= j < n && uf1.same(i, j) ==> uf2.same(i, j)
}

/// Tests the pair `(i, j)` unless it was tested before, and joins the two if
/// they are connected.
fn test_pair(
    polys: &[Polygon],
    tech: &Tech,
    i: usize,
    j: usize,
    tested: &mut HashSet<u64>,
    uf: &mut UnionFind,
)
    requires
        i < polys@.len() <= 0x1_0000_0000,
        j < polys@.len(),
        only_connected(*old(uf), shapes(polys@), tech),
        tested_settled(old(tested)@, *old(uf), shapes(polys@), tech),
    ensures
        only_connected(*final(uf), shapes(polys@), tech),
        tested_settled(final(tested)@, *final(uf), shapes(polys@), tech),
        settled(*final(uf), shapes(polys@), tech, i as int, j as int),
        coarser(*old(uf), *final(uf), polys@.len()),
{
    let ghost layout = shapes(polys@);
    let ghost uf0 = *uf;
    let ghost tested0 = tested@;
    let key: u64 = i as u64 * 0x1_0000_0000 + j as u64;
    assert(key == pair_number(i as int, j as int));
    if !tested.insert(key) {
        assert(tested@ =~= tested0);
        return;
    }
    if connectable(&polys[i], &polys[j], tech) {
        uf.union(i, j);
        proof {
            assert(link(layout, tech)(i as int, j as int));
            law_link_symmetric(layout, tech, i as int, j as int);
            assert forall|p: int, q: int|
                0 <= p < layout.len() && 0 <= q < layout.len() && #[trigger] uf.same(
                    p,
                    q,
                ) implies connected(layout, tech, p, q) by {
                lemma_joined(uf0, layout, tech, i as int, j as int, p, q);
                lemma_joined(uf0, layout, tech, j as int, i as int, p, q);
            }
            assert(uf.same(i as int, j as int));
        }
    } else {
        assert(!link(layout, tech)(i as int, j as int));
    }
    proof {
        assert forall|p: int, q: int|
            0 <= p < layout.len() && 0 <= q < layout.len() && #[trigger] tested@.contains(
                pair_number(p, q) as u64,
            ) implies settled(*uf, layout, tech, p, q) by {
            if tested0.contains(pair_number(p, q) as u64) {
                assert(settled(uf0, layout, tech, p, q));
            } else {
                assert(pair_number(p, q) == key);
                assert(p == i && q == j);
            }
        }
    }
}

/// Polygons on either side of a connection are connected.
proof fn lemma_joined(
    uf: UnionFind,
    layout: Seq<Shape>,
    tech: &Tech,
    i: int,
    j: int,
    p: int,
    q: int,
)
    requires
        only_connected(uf, layout, tech),
        0 <= i < layout.len(),
        0 <= j < layout.len(),
        0 <= p < layout.len(),
        0 <= q < layout.len(),
        link(layout, tech)(i, j),
    ensures
        uf.same(p, i) && uf.same(j, q) ==> connected(layout, tech, p, q),
{
    if uf.same(p, i) && uf.same(j, q) {
        lemma_step_reached(at(p), link(layout, tech), i, j);
        law_connected_transitive(layout, tech, p, j, q);
    }
}

/// Tests every pair of polygons that share a cell.
fn join_cells(polys: &[Polygon], tech: &Tech, grid: &Grid, uf: &mut UnionFind)
    requires
        polys@.len() <= 0x1_0000_0000,
        grid.indexes(shapes(polys@)),
        only_connected(*old(uf), shapes(polys@), tech),
    ensures
        only_connected(*final(uf), shapes(polys@), tech),
        forall|i: int, j: int|
            0 <= i < polys@.len() && 0 <= j < polys@.len() && #[trigger] link(
                shapes(polys@),
                tech,
            )(i, j) ==> final(uf).same(i, j),
{
    let n: usize = polys.len();
    let ghost layout = shapes(polys@);
    let mut tested: HashSet<u64> = HashSet::new();
    let mut c: usize = 0;
    while c < grid.cells.len()
        invariant
            c <= grid.cells@.len() == 4225,
            n == polys@.len() <= 0x1_0000_0000,
            layout == shapes(polys@),
            grid.indexes(layout),
            only_connected(*uf, layout, tech),
            tested_settled(tested@, *uf, layout, tech),
            forall|d: int, a: int, b: int|
                #![trigger grid.cell(d)[a], grid.cell(d)[b]]
                0 <= d < c && 0 <= a < b < grid.cell(d).len() ==> settled(
                    *uf,
                    layout,
                    tech,
                    grid.cell(d)[a] as int,
                    grid.cell(d)[b] as int,
                ),
        decreases 4225 - c,
    {
        let cell = &grid.cells[c];
        proof {
            grid.lemma_cell(layout, c as int);
            lemma_bucket(layout, c as int, layout.len() as int);
        }
        let mut a: usize = 0;
        while a < cell.len()
            invariant
                c < grid.cells@.len() == 4225,
                a <= cell@.len(),
                cell@ == grid.cell(c as int),
                n == polys@.len() <= 0x1_0000_0000,
                layout == shapes(polys@),
                only_connected(*uf, layout, tech),
                tested_settled(tested@, *uf, layout, tech),
                forall|k: int| 0 <= k < cell@.len() ==> #[trigger] cell@[k] < n,
                forall|d: int, k: int, l: int|
                    #![trigger grid.cell(d)[k], grid.cell(d)[l]]
                    0 <= d < c && 0 <= k < l < grid.cell(d).len() ==> settled(
                        *uf,
                        layout,
                        tech,
                        grid.cell(d)[k] as int,
                        grid.cell(d)[l] as int,
                    ),
                forall|k: int, l: int|
                    #![trigger cell@[k], cell@[l]]
                    0 <= k < a && k < l < cell@.len() ==> settled(
                        *uf,
                        layout,
                        tech,
                        cell@[k] as int,
                        cell@[l] as int,
                    ),
            decreases cell@.len() - a,
        {
            let mut b: usize = a + 1;
            while b < cell.len()
                invariant
                    c < grid.cells@.len() == 4225,
                    a < b <= cell@.len(),
                    cell@ == grid.cell(c as int),
                    n == polys@.len() <= 0x1_0000_0000,
                    layout == shapes(polys@),
                    only_connected(*uf, layout, tech),
                    tested_settled(tested@, *uf, layout, tech),
                    forall|k: int| 0 <= k < cell@.len() ==> #[trigger] cell@[k] < n,
                    forall|d: int, k: int, l: int|
                        #![trigger grid.cell(d)[k], grid.cell(d)[l]]
                        0 <= d < c && 0 <= k < l < grid.cell(d).len() ==> settled(
                            *uf,
                            layout,
                            tech,
                            grid.cell(d)[k] as int,
                            grid.cell(d)[l] as int,
                        ),
                    forall|k: int, l: int|
                        #![trigger cell@[k], cell@[l]]
                        0 <= k < a && k < l < cell@.len() ==> settled(
                            *uf,
                            layout,
                            tech,
                            cell@[k] as int,
                            cell@[l] as int,
                        ),
                    forall|l: int|
                        a < l < b ==> settled(
                            *uf,
                            layout,
                            tech,
                            cell@[a as int] as int,
                            #[trigger] cell@[l] as int,
                        ),
                decreases cell@.len() - b,
            {
                let ghost uf0 = *uf;
                test_pair(polys, tech, cell[a], cell[b], &mut tested, uf);
                proof {
                    assert forall|p: int, q: int| settled(uf0, layout, tech, p, q) implies #[trigger] settled(
                        *uf,
                        layout,
                        tech,
                        p,
                        q,
                    ) by {
                        if link(layout, tech)(p, q) {
                            assert(uf0.same(p, q));
                            assert(uf.same(p, q));
                        }
                    }
                }
                b = b + 1;
            }
            a = a + 1;
        }
        c = c + 1;
    }
    proof {
        assert forall|i: int, j: int|
            0 <= i < n && 0 <= j < n && #[trigger] link(layout, tech)(i, j) implies uf.same(
            i,
            j,
        ) by {
            let d = law_overlapping_polygons_share_a_cell(layout, i, j);
            lemma_bucket(layout, d, layout.len() as int);
            grid.lemma_cell(layout, d);
            let cell = grid.cell(d);
            assert(layout[i].ring.len() >= 3 && layout[j].ring.len() >= 3);
            assert(cell.contains(i as usize) && cell.contains(j as usize));
            let a = choose|a: int| 0 <= a < cell.len() && cell[a] == i as usize;
            let b = choose|b: int| 0 <= b < cell.len() && cell[b] == j as usize;
            law_link_symmetric(layout, tech, i, j);
            if a < b {
                assert(settled(*uf, layout, tech, grid.cell(d)[a] as int, grid.cell(d)[b] as int));
            } else if b < a {
                assert(settled(*uf, layout, tech, grid.cell(d)[b] as int, grid.cell(d)[a] as int));
            }
        }
    }
}

/// A list stays that of its net when the next polygon joins another net.
proof fn lemma_list_kept(list: Seq<u32>, net_of: Seq<u32>, n: int, net: int, next: u32)
    requires
        lists_net(list, net_of, n, net),
        net_of.len() == n,
        next != net,
    ensures
        lists_net(list, net_of.push(next), n + 1, net),
{
    let after = net_of.push(next);
    assert forall|a: int| 0 <= a < list.len() implies (#[trigger] list[a]) < n + 1
        && after[list[a] as int] == net by {}
    assert forall|i: int| 0 <= i < n + 1 && #[trigger] after[i] == net implies list.contains(
        i as u32,
    ) by {
        assert(i < n);
        assert(net_of[i] == net);
    }
}

/// A list grows by the next polygon of its net.
proof fn lemma_list_grown(list: Seq<u32>, net_of: Seq<u32>, n: int, net: u32)
    requires
        lists_net(list, net_of, n, net as int),
        net_of.len() == n,
        0 <= n <= u32::MAX,
    ensures
        lists_net(list.push(n as u32), net_of.push(net), n + 1, net as int),
{
    let after = net_of.push(net);
    let grown = list.push(n as u32);
    assert forall|a: int| 0 <= a < grown.len() implies (#[trigger] grown[a]) < n + 1
        && after[grown[a] as int] == net by {
        if a < list.len() {
            assert(grown[a] == list[a]);
        }
    }
    assert forall|a: int, b: int| 0 <= a < b < grown.len() implies #[trigger] grown[a]
        < #[trigger] grown[b] by {
        if b < list.len() {
            assert(grown[a] == list[a] && grown[b] == list[b]);
        } else {
            assert(grown[a] == list[a]);
        }
    }
    assert forall|i: int| 0 <= i < n + 1 && #[trigger] after[i] == net implies grown.contains(
        i as u32,
    ) by {
        if i < n {
            assert(net_of[i] == net);
            let a = choose|a: int| 0 <= a < list.len() && list[a] == i as u32;
            assert(grown[a] == i as u32);
        } else {
            assert(grown[list.len() as int] == i as u32);
        }
    }
}

/// What the numbering keeps of the representatives seen among the first `n`
/// polygons.
spec fn roots_numbered(seen: Map<usize, u32>, roots: Seq<int>, nets: Nets, n: int) -> bool {
    &&& forall|k: int|
        #![trigger roots[k]]
        0 <= k < n ==> seen.contains_key(roots[k] as usize) && seen[roots[k] as usize]
            == nets.net_of@[k]
    &&& forall|r: usize| #[trigger]
        seen.contains_key(r) ==> seen[r] < nets.members@.len() && roots[nets.members@[seen[r] as int]@[0] as int]
            == r
}

/// Numbers the sets of `uf` in the order of their first elements.
fn number_nets(uf: &mut UnionFind, n: usize) -> (nets: Nets)
    requires
        old(uf).wf(),
        old(uf).len() == n,
        n <= 0x1_0000_0000,
    ensures
        nets.numbered(n as int),
        forall|i: int, j: int|
            #![trigger nets.net_of@[i], nets.net_of@[j]]
            0 <= i < n && 0 <= j < n ==> (nets.net_of@[i] == nets.net_of@[j] <==> old(uf).same(
                i,
                j,
            )),
{
    let ghost roots = uf.roots();
    proof {
        uf.lemma_roots();
    }
    let mut nets = Nets { net_of: Vec::new(), members: Vec::new() };
    let mut seen: HashMap<usize, u32> = HashMap::new();
    let mut i: usize = 0;
    while i < n
        invariant
            i <= n <= 0x1_0000_0000,
            uf.wf(),
            uf.len() == n,
            uf.roots() == roots,
            roots.len() == n,
            forall|k: int| 0 <= k < n ==> 0 <= #[trigger] roots[k] < n,
            nets.numbered(i as int),
            nets.members@.len() <= i,
            roots_numbered(seen@, roots, nets, i as int),
        decreases n - i,
    {
        let r: usize = uf.find(i);
        let ghost nets0 = nets;
        let ghost seen0 = seen@;
        let ghost lists0 = nets.members@;
        let known: Option<u32> = match seen.get(&r) {
            Some(net) => Some(*net),
            None => None,
        };
        let net: u32 = match known {
            Some(net) => net,
            None => {
                let net: u32 = nets.members.len() as u32;
                nets.members.push(Vec::new());
                seen.insert(r, net);
                net
            },
        };
        let ghost lists1 = nets.members@;
        let at_net: usize = net as usize;
        nets.members[at_net].push(i as u32);
        nets.net_of.push(net);
        proof {
            let ids0 = nets0.net_of@;
            assert(nets.net_of@ == ids0.push(net));
            assert forall|k: int| 0 <= k < nets.members@.len() implies (
            #[trigger] nets.members@[k])@.len() > 0 && lists_net(
                nets.members@[k]@,
                nets.net_of@,
                i + 1,
                k,
            ) by {
                if k == net {
                    if k < lists0.len() {
                        assert(lists1[k] == lists0[k]);
                        lemma_list_grown(lists0[k]@, ids0, i as int, net);
                    } else {
                        assert(lists1[k]@.len() == 0);
                        assert forall|q: int| 0 <= q < i && #[trigger] ids0[q] == net implies lists1[k]@.contains(
                            q as u32,
                        ) by {
                            assert(nets0.net_of@[q] < lists0.len());
                        }
                        lemma_list_grown(lists1[k]@, ids0, i as int, net);
                    }
                } else {
                    assert(nets.members@[k] == lists0[k]);
                    lemma_list_kept(lists0[k]@, ids0, i as int, k, net);
                }
            }
            assert forall|k: int, l: int| 0 <= k < l < nets.members@.len() implies (
            #[trigger] nets.members@[k])@[0] < (#[trigger] nets.members@[l])@[0] by {
                if l < lists0.len() {
                    assert(lists0[k]@[0] < lists0[l]@[0]);
                    assert(nets.members@[k]@[0] == lists0[k]@[0]);
                    assert(nets.members@[l]@[0] == lists0[l]@[0]);
                } else {
                    assert(nets.members@[l]@[0] == i);
                    assert(nets.members@[k]@[0] == lists0[k]@[0]);
                    assert(lists_net(lists0[k]@, ids0, i as int, k));
                }
            }
            assert forall|k: int| 0 <= k < i + 1 implies (#[trigger] nets.net_of@[k])
                < nets.members@.len() by {
                if k < i {
                    assert(nets.net_of@[k] == ids0[k]);
                }
            }
            assert forall|q: usize| #[trigger] seen@.contains_key(q) implies seen@[q]
                < nets.members@.len() && roots[nets.members@[seen@[q] as int]@[0] as int] == q by {
                if seen0.contains_key(q) {
                    let k = seen0[q] as int;
                    assert(seen@[q] == seen0[q]);
                    assert(lists0[k]@.len() > 0);
                    assert(nets.members@[k]@[0] == lists0[k]@[0]);
                }
            }
            assert forall|k: int|
                #![trigger roots[k]]
                0 <= k < i + 1 implies seen@.contains_key(roots[k] as usize)
                && seen@[roots[k] as usize] == nets.net_of@[k] by {
                if k < i {
                    assert(nets.net_of@[k] == ids0[k]);
                }
            }
        }
        i = i + 1;
    }
    proof {
        assert forall|p: int, q: int|
            #![trigger nets.net_of@[p], nets.net_of@[q]]
            0 <= p < n && 0 <= q < n implies (nets.net_of@[p] == nets.net_of@[q] <==> old(uf).same(
            p,
            q,
        )) by {
            assert(seen@.contains_key(roots[p] as usize));
            assert(seen@.contains_key(roots[q] as usize));
        }
    }
    nets
}

/// Builds the net graph of `polys` under technology `tech`.
pub fn build_nets(polys: &[Polygon], tech: &Tech) -> (nets: Nets)
    requires
        polys@.len() <= 0x1_0000_0000,
    ensures
        nets.nets_of(shapes(polys@), tech),
{
    let n: usize = polys.len();
    let ghost layout = shapes(polys@);
    let mut uf = UnionFind::new(n);
    proof {
        assert forall|i: int, j: int|
            0 <= i < layout.len() && 0 <= j < layout.len() && #[trigger] uf.same(
                i,
                j,
            ) implies connected(layout, tech, i, j) by {
            law_connected_reflexive(layout, tech, i);
        }
    }
    if n > 1 {
        let grid = Grid::build(polys);
        join_cells(polys, tech, &grid, &mut uf);
    } else {
        assert forall|i: int, j: int|
            0 <= i < n && 0 <= j < n && #[trigger] link(layout, tech)(i, j) implies uf.same(
            i,
            j,
        ) by {}
    }
    proof {
        assert forall|i: int, j: int|
            0 <= i < n && 0 <= j < n && connected(layout, tech, i, j) implies #[trigger] uf.same(
            i,
            j,
        ) by {
            let step = link(layout, tech);
            let held = |k: int| 0 <= k < n && uf.same(i, k);
            assert forall|a: int, b: int| held(a) && #[trigger] step(a, b) implies held(b) by {
                assert(uf.same(a, b));
            }
            lemma_closed_holds_reached(at(i), step, held, j);
        }
    }
    number_nets(&mut uf, n)
}

/// There are no more nets than polygons.
pub proof fn law_no_more_nets_than_polygons(nets: Nets, layout: Seq<Shape>, tech: &Tech)
    requires
        nets.nets_of(layout, tech),
    ensures
        nets.members@.len() <= layout.len(),
{
    let k = nets.members@.len() - 1;
    if k >= 0 {
        lemma_first_polygons_rise(nets, layout.len() as int, k);
        assert(lists_net(nets.members@[k]@, nets.net_of@, layout.len() as int, k));
        assert(nets.members@[k]@[0] < layout.len());
    }
}

proof fn lemma_first_polygons_rise(nets: Nets, n: int, k: int)
    requires
        nets.numbered(n),
        0 <= k < nets.members@.len(),
    ensures
        nets.members@[k]@[0] >= k,
    decreases k,
{
    if k > 0 {
        lemma_first_polygons_rise(nets, n, k - 1);
        assert(nets.members@[k - 1]@[0] < nets.members@[k]@[0]);
    }
}

/// A layout has one net graph: any two results that are the nets of a layout
/// number its polygons alike.
pub proof fn law_nets_unique(a: Nets, b: Nets, layout: Seq<Shape>, tech: &Tech)
    requires
        a.nets_of(layout, tech),
        b.nets_of(layout, tech),
    ensures
        a.net_of@ == b.net_of@,
        a.members@.len() == b.members@.len(),
        forall|k: int| 0 <= k < a.members@.len() ==> (#[trigger] a.members@[k])@ == b.members@[k]@,
{
    assert forall|i: int| 0 <= i < layout.len() implies #[trigger] a.net_of@[i] == b.net_of@[i] by {
        lemma_number_not_above(a, b, layout, tech, i, a.net_of@[i] as int);
        lemma_number_not_above(b, a, layout, tech, i, b.net_of@[i] as int);
    }
    assert(a.net_of@ =~= b.net_of@);
    let n = layout.len() as int;
    if a.members@.len() < b.members@.len() {
        let k = a.members@.len() as int;
        let i = b.members@[k]@[0] as int;
        assert(b.net_of@[i] == k);
        assert(a.net_of@[i] < a.members@.len());
    }
    if b.members@.len() < a.members@.len() {
        let k = b.members@.len() as int;
        let i = a.members@[k]@[0] as int;
        assert(a.net_of@[i] == k);
        assert(b.net_of@[i] < b.members@.len());
    }
    assert forall|k: int| 0 <= k < a.members@.len() implies (#[trigger] a.members@[k])@
        == b.members@[k]@ by {
        lemma_rising_lists_equal(a.members@[k]@, b.members@[k]@, a.net_of@, n, k);
    }
}

/// A polygon that `a` puts on net `k` is on net `k` or later in `b`: the `k`
/// nets before it have `k` different first polygons that come before it.
proof fn lemma_number_not_above(a: Nets, b: Nets, layout: Seq<Shape>, tech: &Tech, i: int, k: int)
    requires
        a.nets_of(layout, tech),
        b.nets_of(layout, tech),
        0 <= i < layout.len(),
        a.net_of@[i] == k,
    ensures
        b.net_of@[i] >= k,
    decreases k,
{
    if k > 0 {
        let f = a.members@[k]@[0] as int;
        let g = a.members@[k - 1]@[0] as int;
        assert(lists_net(a.members@[k]@, a.net_of@, layout.len() as int, k));
        assert(lists_net(a.members@[k - 1]@, a.net_of@, layout.len() as int, k - 1));
        assert(a.net_of@[f] == k);
        assert(a.net_of@[g] == k - 1);
        assert(a.members@[k - 1]@[0] < a.members@[k]@[0]);
        lemma_number_not_above(a, b, layout, tech, g, k - 1);
        assert(a.net_of@[f] == a.net_of@[i]);
        assert(b.net_of@[f] == b.net_of@[i]);
        let kb = b.net_of@[i] as int;
        let gb = b.net_of@[g] as int;
        assert(a.net_of@[g] != a.net_of@[f]);
        assert(gb != kb);
        lemma_first_in_other(a, b, layout, tech, f, k);
        lemma_first_in_other(a, b, layout, tech, g, k - 1);
        if kb < gb {
            assert(b.members@[kb]@[0] < b.members@[gb]@[0]);
        }
    }
}

/// No polygon of net `k` comes before its first one.
proof fn lemma_first_of_net(a: Nets, layout: Seq<Shape>, f: int, k: int)
    requires
        a.numbered(layout.len() as int),
        0 <= k < a.members@.len(),
        f == a.members@[k]@[0],
    ensures
        forall|i: int| 0 <= i < layout.len() && #[trigger] a.net_of@[i] == k ==> f <= i,
{
    assert(lists_net(a.members@[k]@, a.net_of@, layout.len() as int, k));
    assert forall|i: int| 0 <= i < layout.len() && #[trigger] a.net_of@[i] == k implies f <= i by {
        let list = a.members@[k]@;
        let q = choose|q: int| 0 <= q < list.len() && list[q] == i as u32;
        assert(list[0] <= list[q]);
    }
}

/// The first polygon of net `k` of `a` is the first of its net in `b`.
proof fn lemma_first_in_other(a: Nets, b: Nets, layout: Seq<Shape>, tech: &Tech, f: int, k: int)
    requires
        a.nets_of(layout, tech),
        b.nets_of(layout, tech),
        0 <= k < a.members@.len(),
        f == a.members@[k]@[0],
    ensures
        b.members@[b.net_of@[f] as int]@[0] == f,
{
    let n = layout.len() as int;
    assert(lists_net(a.members@[k]@, a.net_of@, n, k));
    assert(a.net_of@[f] == k);
    let kb = b.net_of@[f] as int;
    let fb = b.members@[kb]@[0] as int;
    assert(lists_net(b.members@[kb]@, b.net_of@, n, kb));
    assert(b.net_of@[fb] == kb);
    lemma_first_of_net(b, layout, fb, kb);
    assert(fb <= f);
    assert(b.net_of@[fb] == b.net_of@[f]);
    assert(a.net_of@[fb] == a.net_of@[f]);
    lemma_first_of_net(a, layout, f, k);
}

/// Two rising lists of the same net are equal.
proof fn lemma_rising_lists_equal(x: Seq<u32>, y: Seq<u32>, net_of: Seq<u32>, n: int, net: int)
    requires
        n <= 0x1_0000_0000,
        lists_net(x, net_of, n, net),
        lists_net(y, net_of, n, net),
    ensures
        x == y,
{
    if x.len() <= y.len() {
        lemma_rising_prefix(x, y, net_of, n, net, x.len() as int);
        if x.len() < y.len() {
            let v = y[x.len() as int];
            assert(net_of[v as int] == net);
            let q = choose|q: int| 0 <= q < x.len() && x[q] == v;
            assert(y[q] == v);
        }
    } else {
        lemma_rising_prefix(y, x, net_of, n, net, y.len() as int);
        let v = x[y.len() as int];
        assert(net_of[v as int] == net);
        let q = choose|q: int| 0 <= q < y.len() && y[q] == v;
        assert(x[q] == v);
    }
    assert(x =~= y);
}

proof fn lemma_rising_prefix(
    x: Seq<u32>,
    y: Seq<u32>,
    net_of: Seq<u32>,
    n: int,
    net: int,
    k: int,
)
    requires
        n <= 0x1_0000_0000,
        lists_net(x, net_of, n, net),
        lists_net(y, net_of, n, net),
        0 <= k <= x.len() <= y.len(),
    ensures
        forall|q: int| 0 <= q < k ==> #[trigger] x[q] == y[q],
    decreases k,
{
    if k > 0 {
        lemma_rising_prefix(x, y, net_of, n, net, k - 1);
        let (u, v) = (x[k - 1], y[k - 1]);
        assert(net_of[u as int] == net && net_of[v as int] == net);
        assert(y.contains(u) && x.contains(v));
        let p = choose|p: int| 0 <= p < y.len() && y[p] == u;
        let q = choose|q: int| 0 <= q < x.len() && x[q] == v;
        if u < v {
            assert(p < k - 1);
            assert(x[p] == y[p]);
        } else if v < u {
            assert(q < k - 1);
            assert(x[q] == y[q]);
        }
    }
}

} // verus!
