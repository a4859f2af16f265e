//! Transistor extraction: turns a layout into a list of MOSFETs with
//! polarity and source, drain and gate nets.
//!
//! A MOSFET is a poly shape that crosses a diffusion shape: the overlap is
//! the channel, and the diffusion on either side of it is the source and the
//! drain. Extraction splits every gated diffusion at its gates, drops the
//! strips under them, and builds the nets of the layout refined in that way.
//! So source and drain are separate pieces, and the diffusion between two
//! gates of a series stack becomes an internal node.
//!
//! A gate whose channel centre sits inside an n-well is a PMOS, any other an
//! NMOS. Detection and splitting assume axis-aligned poly and diffusion.

use vstd::prelude::*;

use crate::gds::{inside, point_in_polygon, polygon_bbox, ring_bbox, shapes};
use crate::gds::{Bbox, Point, Polygon, Shape, Spot};
use crate::geometry::{build_nets, law_nets_unique, shape_role, Nets};
use crate::tech::{LayerRole, Tech};

verus! {

/// Polarity of a MOSFET.
#[derive(Debug, Clone, Copy, PartialEq, Eq, Structural)]
pub enum TransistorKind {
    Nmos,
    Pmos,
}

/// One extracted MOSFET.
#[derive(Debug, Clone, Copy, PartialEq, Eq, Structural)]
pub struct Transistor {
    pub kind: TransistorKind,
    /// Index into the flat polygon list of the poly.
    pub poly_index: usize,
    /// Index into the flat polygon list of the diffusion.
    pub diff_index: usize,
    /// Corners of the channel (gate and diffusion overlap).
    pub gate_min: Point,
    pub gate_max: Point,
    /// Net of the poly.
    pub gate_net: u32,
    /// Net of the diffusion on the low side of the channel, if there is one.
    pub source_net: Option<u32>,
    /// Net of the diffusion on the high side of the channel, if there is one.
    pub drain_net: Option<u32>,
}

/// A gate: one poly that crosses a diffusion, with the channel it carves out.
#[derive(Debug, Clone, Copy, PartialEq, Eq, Structural)]
pub struct Gate {
    pub poly_index: usize,
    pub region: Bbox,
}

// ---- rectangles ----

/// The coordinate of `p` along `axis`: 0 for x, 1 for y.
pub open spec fn along(p: Point, axis: int) -> int {
    if axis == 0 {
        p.x as int
    } else {
        p.y as int
    }
}

fn coord(p: Point, axis: usize) -> (c: i32)
    ensures
        c == along(p, axis as int),
{
    if axis == 0 {
        p.x
    } else {
        p.y
    }
}

/// The axis along which a box is longer; y for a square.
pub open spec fn longer_axis(b: Bbox) -> int {
    if b.max.x - b.min.x > b.max.y - b.min.y {
        0
    } else {
        1
    }
}

/// 0 if the box is wider than tall (gates cut along x), else 1.
pub fn long_axis(b: &Bbox) -> (axis: usize)
    ensures
        axis == longer_axis(*b),
{
    let dx: i64 = b.max.x as i64 - b.min.x as i64;
    let dy: i64 = b.max.y as i64 - b.min.y as i64;
    if dx > dy {
        0
    } else {
        1
    }
}

/// The centre of a box.
pub open spec fn center(b: Bbox) -> Spot {
    Spot { x: (b.min.x + b.max.x) as i64, y: (b.min.y + b.max.y) as i64, unit: 2 }
}

/// The centre of a box.
pub fn rect_center(b: &Bbox) -> (c: Spot)
    ensures
        c == center(*b),
{
    Spot { x: b.min.x as i64 + b.max.x as i64, y: b.min.y as i64 + b.max.y as i64, unit: 2 }
}

/// The box that `a` and `b` share, if it has a positive area.
pub open spec fn shared_box(a: Bbox, b: Bbox) -> Option<Bbox> {
    let min = Point {
        x: if a.min.x >= b.min.x { a.min.x } else { b.min.x },
        y: if a.min.y >= b.min.y { a.min.y } else { b.min.y },
    };
    let max = Point {
        x: if a.max.x <= b.max.x { a.max.x } else { b.max.x },
        y: if a.max.y <= b.max.y { a.max.y } else { b.max.y },
    };
    if min.x < max.x && min.y < max.y {
        Some(Bbox { min, max })
    } else {
        None
    }
}

/// Positive-area intersection of two boxes.
pub fn rect_intersect(a: &Bbox, b: &Bbox) -> (r: Option<Bbox>)
    ensures
        r == shared_box(*a, *b),
{
    let min = Point {
        x: if a.min.x >= b.min.x { a.min.x } else { b.min.x },
        y: if a.min.y >= b.min.y { a.min.y } else { b.min.y },
    };
    let max = Point {
        x: if a.max.x <= b.max.x { a.max.x } else { b.max.x },
        y: if a.max.y <= b.max.y { a.max.y } else { b.max.y },
    };
    if min.x < max.x && min.y < max.y {
        Some(Bbox { min, max })
    } else {
        None
    }
}

/// The part of `b` from `a0` to `a1` along `axis`.
pub open spec fn slice(b: Bbox, axis: int, a0: int, a1: int) -> Bbox {
    if axis == 0 {
        Bbox {
            min: Point { x: a0 as i32, y: b.min.y },
            max: Point { x: a1 as i32, y: b.max.y },
        }
    } else {
        Bbox {
            min: Point { x: b.min.x, y: a0 as i32 },
            max: Point { x: b.max.x, y: a1 as i32 },
        }
    }
}

/// The part of `b` from `a0` to `a1` along `axis`.
pub fn axis_rect(b: &Bbox, axis: usize, a0: i32, a1: i32) -> (r: Bbox)
    ensures
        r == slice(*b, axis as int, a0 as int, a1 as int),
{
    if axis == 0 {
        Bbox { min: Point { x: a0, y: b.min.y }, max: Point { x: a1, y: b.max.y } }
    } else {
        Bbox { min: Point { x: b.min.x, y: a0 }, max: Point { x: b.max.x, y: a1 } }
    }
}

/// The ring around a box, counter-clockwise from its low corner.
pub open spec fn box_ring(b: Bbox) -> Seq<Point> {
    seq![
        Point { x: b.min.x, y: b.min.y },
        Point { x: b.max.x, y: b.min.y },
        Point { x: b.max.x, y: b.max.y },
        Point { x: b.min.x, y: b.max.y },
    ]
}

/// The rectangle polygon of a box.
pub fn rect_polygon(layer: i16, datatype: i16, b: &Bbox) -> (p: Polygon)
    ensures
        p@ == (Shape { layer, datatype, ring: box_ring(*b) }),
{
    let points = vec![
        Point { x: b.min.x, y: b.min.y },
        Point { x: b.max.x, y: b.min.y },
        Point { x: b.max.x, y: b.max.y },
        Point { x: b.min.x, y: b.max.y },
    ];
    assert(points@ =~= box_ring(*b));
    Polygon { layer, datatype, points }
}

// ---- gates ----

/// The channel where `poly` crosses `diff`: the box that their bounding boxes
/// share, if its centre lies inside both.
pub open spec fn channel(poly: Shape, diff: Shape) -> Option<Bbox> {
    match shared_box(ring_bbox(poly.ring), ring_bbox(diff.ring)) {
        Some(b) => if inside(poly.ring, center(b)) && inside(diff.ring, center(b)) {
            Some(b)
        } else {
            None
        },
        None => None,
    }
}

/// The channel where `poly` crosses `diff`, if they overlap.
pub fn gate_region(poly: &Polygon, diff: &Polygon) -> (r: Option<Bbox>)
    ensures
        r == channel(poly@, diff@),
{
    let shared = rect_intersect(&polygon_bbox(&poly.points), &polygon_bbox(&diff.points));
    match shared {
        Some(b) => {
            let c = rect_center(&b);
            if point_in_polygon(&poly.points, c) && point_in_polygon(&diff.points, c) {
                Some(b)
            } else {
                None
            }
        },
        None => None,
    }
}

/// Polygon `p` is a poly that crosses the diffusion `d`.
pub open spec fn is_gate(layout: Seq<Shape>, tech: &Tech, d: int, p: int) -> bool {
    &&& 0 <= d < layout.len()
    &&& 0 <= p < layout.len()
    &&& shape_role(layout[d], tech) == LayerRole::Diffusion
    &&& shape_role(layout[p], tech) == LayerRole::Poly
    &&& channel(layout[p], layout[d]) is Some
}

/// The gates over diffusion `d` among the first `k` polygons.
pub open spec fn gates_among(layout: Seq<Shape>, tech: &Tech, d: int, k: int) -> Seq<Gate>
    decreases k,
{
    if k <= 0 {
        Seq::empty()
    } else {
        let rest = gates_among(layout, tech, d, k - 1);
        if is_gate(layout, tech, d, k - 1) {
            rest.push(
                Gate {
                    poly_index: (k - 1) as usize,
                    region: channel(layout[k - 1], layout[d])->0,
                },
            )
        } else {
            rest
        }
    }
}

/// The gates over diffusion `d`, in the order of their polys.
pub open spec fn gates_over(layout: Seq<Shape>, tech: &Tech, d: int) -> Seq<Gate> {
    gates_among(layout, tech, d, layout.len() as int)
}

/// Finds the gates over diffusion `d`.
fn find_gates(polys: &[Polygon], tech: &Tech, d: usize) -> (gates: Vec<Gate>)
    requires
        d < polys@.len(),
    ensures
        gates@ == gates_over(shapes(polys@), tech, d as int),
{
    let ghost layout = shapes(polys@);
    let mut gates: Vec<Gate> = Vec::new();
    let diff = &polys[d];
    assert(layout[d as int] == diff@);
    if tech.role(diff.layer, diff.datatype) != LayerRole::Diffusion {
        proof {
            lemma_no_gates(layout, tech, d as int, layout.len() as int);
        }
        return gates;
    }
    let mut p: usize = 0;
    while p < polys.len()
        invariant
            p <= polys@.len(),
            d < polys@.len(),
            layout == shapes(polys@),
            *diff == polys@[d as int],
            shape_role(layout[d as int], tech) == LayerRole::Diffusion,
            gates@ == gates_among(layout, tech, d as int, p as int),
        decreases polys@.len() - p,
    {
        let poly = &polys[p];
        assert(layout[p as int] == poly@);
        if tech.role(poly.layer, poly.datatype) == LayerRole::Poly {
            if let Some(region) = gate_region(poly, diff) {
                gates.push(Gate { poly_index: p, region });
            }
        }
        p = p + 1;
    }
    gates
}

proof fn lemma_no_gates(layout: Seq<Shape>, tech: &Tech, d: int, k: int)
    requires
        0 <= d < layout.len(),
        shape_role(layout[d], tech) != LayerRole::Diffusion,
    ensures
        gates_among(layout, tech, d, k) == Seq::<Gate>::empty(),
    decreases k,
{
    if k > 0 {
        lemma_no_gates(layout, tech, d, k - 1);
    }
}

// ---- splitting a gated diffusion ----

/// The unit step from `v` to `v + 1` along `axis` lies under a gate.
pub open spec fn under_gate(gates: Seq<Gate>, axis: int, v: int) -> bool {
    exists|g: int|
        0 <= g < gates.len() && along((#[trigger] gates[g]).region.min, axis) <= v < along(
            gates[g].region.max,
            axis,
        )
}

/// The maximal runs of unit steps from `v` to `end` that are under no gate,
/// where a run that began at `from` is still open.
pub open spec fn open_runs(
    gates: Seq<Gate>,
    axis: int,
    from: int,
    v: int,
    end: int,
) -> Seq<(int, int)>
    decreases end - v,
{
    let closed = if from < v {
        seq![(from, v)]
    } else {
        Seq::empty()
    };
    if v >= end {
        closed
    } else if under_gate(gates, axis, v) {
        closed + open_runs(gates, axis, v + 1, v + 1, end)
    } else {
        open_runs(gates, axis, from, v + 1, end)
    }
}

/// The stretches of a diffusion with box `b`, along its long axis, that are
/// under no gate.
pub open spec fn stretches(b: Bbox, gates: Seq<Gate>) -> Seq<(int, int)> {
    let axis = longer_axis(b);
    open_runs(gates, axis, along(b.min, axis), along(b.min, axis), along(b.max, axis))
}

/// The conducting regions of a diffusion with box `b`: the box without the
/// strips under its gates, cut along its long axis.
pub open spec fn conducting(b: Bbox, gates: Seq<Gate>) -> Seq<Bbox> {
    let s = stretches(b, gates);
    Seq::new(s.len(), |i: int| slice(b, longer_axis(b), s[i].0, s[i].1))
}

pub(crate) proof fn lemma_runs_open(gates: Seq<Gate>, axis: int, from: int, v: int, w: int, end: int)
    requires
        from <= v <= w <= end,
        forall|u: int| v <= u < w ==> !#[trigger] under_gate(gates, axis, u),
    ensures
        open_runs(gates, axis, from, v, end) == open_runs(gates, axis, from, w, end),
    decreases w - v,
{
    if v < w {
        assert(!under_gate(gates, axis, v));
        lemma_runs_open(gates, axis, from, v + 1, w, end);
    }
}

pub(crate) proof fn lemma_runs_covered(gates: Seq<Gate>, axis: int, v: int, w: int, end: int)
    requires
        v <= w <= end,
        forall|u: int| v <= u < w ==> #[trigger] under_gate(gates, axis, u),
    ensures
        open_runs(gates, axis, v, v, end) == open_runs(gates, axis, w, w, end),
    decreases w - v,
{
    if v < w {
        assert(under_gate(gates, axis, v));
        lemma_runs_covered(gates, axis, v + 1, w, end);
        assert(open_runs(gates, axis, v, v, end) =~= open_runs(gates, axis, v + 1, v + 1, end));
    }
}

/// One of the intervals holds the unit step from `v`.
spec fn in_interval(spans: Seq<(i32, i32)>, v: int) -> bool {
    exists|k: int| 0 <= k < spans.len() && (#[trigger] spans[k]).0 <= v < spans[k].1
}

/// The interval is that of one of the gates along `axis`.
spec fn is_span(span: (i32, i32), gates: Seq<Gate>, axis: int) -> bool {
    exists|g: int|
        0 <= g < gates.len() && span.0 == along((#[trigger] gates[g]).region.min, axis) && span.1
            == along(gates[g].region.max, axis)
}

/// The intervals of the gates along `axis`, by rising low end.
fn sorted_spans(gates: &[Gate], axis: usize) -> (spans: Vec<(i32, i32)>)
    ensures
        forall|k: int, l: int|
            0 <= k < l < spans@.len() ==> (#[trigger] spans@[k]).0 <= (#[trigger] spans@[l]).0,
        forall|v: int| in_interval(spans@, v) == #[trigger] under_gate(gates@, axis as int, v),
        forall|k: int|
            0 <= k < spans@.len() ==> is_span(#[trigger] spans@[k], gates@, axis as int),
{
    let mut spans: Vec<(i32, i32)> = Vec::new();
    let mut i: usize = 0;
    proof {
        assert forall|v: int| in_interval(spans@, v) == #[trigger] under_gate(
            gates@.take(0),
            axis as int,
            v,
        ) by {}
    }
    while i < gates.len()
        invariant
            i <= gates@.len(),
            forall|k: int, l: int|
                0 <= k < l < spans@.len() ==> (#[trigger] spans@[k]).0 <= (#[trigger] spans@[l]).0,
            forall|v: int|
                in_interval(spans@, v) == #[trigger] under_gate(
                    gates@.take(i as int),
                    axis as int,
                    v,
                ),
            forall|k: int|
                0 <= k < spans@.len() ==> is_span(#[trigger] spans@[k], gates@, axis as int),
        decreases gates@.len() - i,
    {
        let lo: i32 = coord(gates[i].region.min, axis);
        let hi: i32 = coord(gates[i].region.max, axis);
        let mut at: usize = spans.len();
        while at > 0 && spans[at - 1].0 > lo
            invariant
                at <= spans@.len(),
                forall|k: int| at <= k < spans@.len() ==> (#[trigger] spans@[k]).0 > lo,
            decreases at,
        {
            at = at - 1;
        }
        let ghost before = spans@;
        assert(forall|k: int| 0 <= k < at ==> (#[trigger] before[k]).0 <= lo) by {
            if at > 0 {
                assert(before[at - 1].0 <= lo);
            }
        }
        spans.insert(at, (lo, hi));
        proof {
            assert forall|k: int| 0 <= k < spans@.len() implies #[trigger] spans@[k] == if k < at {
                before[k]
            } else if k == at {
                (lo, hi)
            } else {
                before[k - 1]
            } by {}
            assert forall|k: int, l: int| 0 <= k < l < spans@.len() implies (#[trigger] spans@[k]).0
                <= (#[trigger] spans@[l]).0 by {}
            let some = gates@.take(i as int);
            let more = gates@.take(i + 1);
            assert forall|v: int| in_interval(spans@, v) == #[trigger] under_gate(
                more,
                axis as int,
                v,
            ) by {
                lemma_interval_inserted(before, spans@, at as int, lo, hi, v);
                lemma_gate_added(gates@, i as int, axis as int, v);
                assert(in_interval(before, v) == under_gate(some, axis as int, v));
            }
            assert(is_span((lo, hi), gates@, axis as int)) by {
                assert(lo == along(gates@[i as int].region.min, axis as int));
            }
        }
        i = i + 1;
    }
    assert(gates@.take(i as int) =~= gates@);
    spans
}

proof fn lemma_interval_inserted(
    before: Seq<(i32, i32)>,
    now: Seq<(i32, i32)>,
    at: int,
    lo: i32,
    hi: i32,
    v: int,
)
    requires
        0 <= at <= before.len(),
        now == before.insert(at, (lo, hi)),
    ensures
        in_interval(now, v) == (in_interval(before, v) || lo <= v < hi),
{
    if in_interval(before, v) {
        let k = choose|k: int| 0 <= k < before.len() && (#[trigger] before[k]).0 <= v < before[k].1;
        let m = if k < at {
            k
        } else {
            k + 1
        };
        assert(now[m] == before[k]);
    }
    if lo <= v < hi {
        assert(now[at] == (lo, hi));
    }
    if in_interval(now, v) {
        let k = choose|k: int| 0 <= k < now.len() && (#[trigger] now[k]).0 <= v < now[k].1;
        if k < at {
            assert(before[k] == now[k]);
        } else if k > at {
            assert(before[k - 1] == now[k]);
        }
    }
}

proof fn lemma_gate_added(gates: Seq<Gate>, i: int, axis: int, v: int)
    requires
        0 <= i < gates.len(),
    ensures
        under_gate(gates.take(i + 1), axis, v) == (under_gate(gates.take(i), axis, v) || along(
            gates[i].region.min,
            axis,
        ) <= v < along(gates[i].region.max, axis)),
{
    let some = gates.take(i);
    let more = gates.take(i + 1);
    if under_gate(some, axis, v) {
        let g = choose|g: int|
            0 <= g < some.len() && along((#[trigger] some[g]).region.min, axis) <= v < along(
                some[g].region.max,
                axis,
            );
        assert(more[g] == some[g]);
    }
    if along(gates[i].region.min, axis) <= v < along(gates[i].region.max, axis) {
        assert(more[i] == gates[i]);
    }
    if under_gate(more, axis, v) {
        let g = choose|g: int|
            0 <= g < more.len() && along((#[trigger] more[g]).region.min, axis) <= v < along(
                more[g].region.max,
                axis,
            );
        if g < i {
            assert(some[g] == more[g]);
        }
    }
}

/// The gates lie in the box `b` and are not empty.
pub open spec fn gates_fit(b: Bbox, gates: Seq<Gate>) -> bool {
    forall|g: int|
        0 <= g < gates.len() ==> {
            let r = (#[trigger] gates[g]).region;
            &&& b.min.x <= r.min.x < r.max.x <= b.max.x
            &&& b.min.y <= r.min.y < r.max.y <= b.max.y
        }
}

/// Splits a diffusion into its conducting regions; without a gate over it, it
/// is one region.
pub fn split_diffusion(diff: &Polygon, gates: &[Gate]) -> (regions: Vec<Bbox>)
    requires
        gates_fit(ring_bbox(diff.points@), gates@),
    ensures
        regions@ == conducting(ring_bbox(diff.points@), gates@),
{
    let db = polygon_bbox(&diff.points);
    let axis: usize = long_axis(&db);
    let spans = sorted_spans(gates, axis);
    let start: i32 = coord(db.min, axis);
    let end: i32 = coord(db.max, axis);
    let ghost ax = axis as int;
    let ghost all = stretches(db, gates@);
    let ghost mut done: Seq<(int, int)> = Seq::empty();
    let mut regions: Vec<Bbox> = Vec::new();
    let mut cursor: i32 = start;
    if start > end {
        proof {
            if gates@.len() > 0 {
                assert(gates@[0].region.min.x <= gates@[0].region.max.x);
            }
            assert(regions@ =~= conducting(db, gates@));
        }
        return regions;
    }
    proof {
        assert(all =~= done + open_runs(gates@, ax, start as int, start as int, end as int));
    }
    let mut k: usize = 0;
    while k < spans.len()
        invariant
            k <= spans@.len(),
            axis == longer_axis(db) == ax,
            start <= cursor <= end,
            end == along(db.max, ax),
            gates_fit(db, gates@),
            forall|a: int, b: int|
                0 <= a < b < spans@.len() ==> (#[trigger] spans@[a]).0 <= (#[trigger] spans@[b]).0,
            forall|v: int| in_interval(spans@, v) == #[trigger] under_gate(gates@, ax, v),
            forall|a: int| 0 <= a < spans@.len() ==> is_span(#[trigger] spans@[a], gates@, ax),
            start == along(db.min, ax),
            forall|a: int| 0 <= a < k ==> (#[trigger] spans@[a]).1 <= cursor,
            all == done + open_runs(gates@, ax, cursor as int, cursor as int, end as int),
            regions@.len() == done.len(),
            forall|a: int|
                0 <= a < done.len() ==> #[trigger] regions@[a] == slice(
                    db,
                    ax,
                    done[a].0,
                    done[a].1,
                ),
        decreases spans@.len() - k,
    {
        let lo: i32 = spans[k].0;
        let hi: i32 = spans[k].1;
        proof {
            let g = choose|g: int|
                0 <= g < gates@.len() && spans@[k as int].0 == along(
                    (#[trigger] gates@[g]).region.min,
                    ax,
                ) && spans@[k as int].1 == along(gates@[g].region.max, ax);
            assert(start <= lo < hi <= end);
            assert forall|v: int| lo <= v < hi implies #[trigger] under_gate(gates@, ax, v) by {
                assert(spans@[k as int].0 <= v < spans@[k as int].1);
                assert(in_interval(spans@, v));
            }
        }
        if lo > cursor {
            regions.push(axis_rect(&db, axis, cursor, lo));
            proof {
                let c = cursor as int;
                assert forall|v: int| c <= v < lo implies !#[trigger] under_gate(gates@, ax, v) by {
                    if in_interval(spans@, v) {
                        let a = choose|a: int|
                            0 <= a < spans@.len() && (#[trigger] spans@[a]).0 <= v < spans@[a].1;
                        assert(a >= k);
                        assert(spans@[k as int].0 <= spans@[a].0);
                    }
                }
                lemma_runs_open(gates@, ax, c, c, lo as int, end as int);
                assert(under_gate(gates@, ax, lo as int));
                lemma_runs_covered(gates@, ax, lo + 1, hi as int, end as int);
                done = done.push((c, lo as int));
                assert(all =~= done + open_runs(gates@, ax, hi as int, hi as int, end as int));
            }
        } else if hi > cursor {
            proof {
                lemma_runs_covered(gates@, ax, cursor as int, hi as int, end as int);
            }
        }
        if hi > cursor {
            cursor = hi;
        }
        k = k + 1;
    }
    proof {
        let c = cursor as int;
        assert forall|v: int| c <= v < end implies !#[trigger] under_gate(gates@, ax, v) by {
            if in_interval(spans@, v) {
                let a = choose|a: int|
                    0 <= a < spans@.len() && (#[trigger] spans@[a]).0 <= v < spans@[a].1;
            }
        }
        lemma_runs_open(gates@, ax, c, c, end as int, end as int);
    }
    if end > cursor {
        regions.push(axis_rect(&db, axis, cursor, end));
        proof {
            done = done.push((cursor as int, end as int));
        }
    }
    proof {
        assert(all =~= done);
        assert(regions@ =~= conducting(db, gates@));
    }
    regions
}

// ---- the device layout ----

/// What polygon `i` becomes in the device layout: a gated diffusion becomes
/// its conducting regions, any other polygon stays.
pub open spec fn refined(layout: Seq<Shape>, tech: &Tech, i: int) -> Seq<Shape> {
    let gates = gates_over(layout, tech, i);
    if gates.len() > 0 {
        let boxes = conducting(ring_bbox(layout[i].ring), gates);
        Seq::new(
            boxes.len(),
            |r: int|
                Shape {
                    layer: layout[i].layer,
                    datatype: layout[i].datatype,
                    ring: box_ring(boxes[r]),
                },
        )
    } else {
        seq![layout[i]]
    }
}

/// What the first `k` polygons become in the device layout.
pub open spec fn refined_upto(layout: Seq<Shape>, tech: &Tech, k: int) -> Seq<Shape>
    decreases k,
{
    if k <= 0 {
        Seq::empty()
    } else {
        refined_upto(layout, tech, k - 1) + refined(layout, tech, k - 1)
    }
}

/// The device layout: every gated diffusion is replaced by its conducting
/// regions.
pub open spec fn device_layout(layout: Seq<Shape>, tech: &Tech) -> Seq<Shape> {
    refined_upto(layout, tech, layout.len() as int)
}

/// The place in the device layout where polygon `i`, or its first conducting
/// region, stands.
pub open spec fn device_index(layout: Seq<Shape>, tech: &Tech, i: int) -> int {
    refined_upto(layout, tech, i).len() as int
}

/// The device layout with the indices that lead into it.
struct Refined {
    /// The gates over each polygon.
    gates: Vec<Vec<Gate>>,
    /// The conducting regions of each polygon; none for one without gates.
    regions: Vec<Vec<Bbox>>,
    /// Where each polygon, or its first region, stands in `polys`.
    start: Vec<usize>,
    polys: Vec<Polygon>,
}

impl Refined {
    /// The first `k` polygons of `layout` are refined.
    spec fn refines(&self, layout: Seq<Shape>, tech: &Tech, k: int) -> bool {
        &&& self.gates@.len() == k
        &&& self.regions@.len() == k
        &&& self.start@.len() == k
        &&& shapes(self.polys@) == refined_upto(layout, tech, k)
        &&& forall|i: int|
            0 <= i < k ==> (#[trigger] self.gates@[i])@ == gates_over(layout, tech, i)
        &&& forall|i: int|
            0 <= i < k ==> (#[trigger] self.start@[i]) == device_index(layout, tech, i)
        &&& forall|i: int|
            0 <= i < k && gates_over(layout, tech, i).len() > 0 ==> (
            #[trigger] self.regions@[i])@ == conducting(
                ring_bbox(layout[i].ring),
                gates_over(layout, tech, i),
            )
    }
}

pub(crate) proof fn lemma_gates_fit(layout: Seq<Shape>, tech: &Tech, d: int, k: int)
    requires
        0 <= d < layout.len(),
        0 <= k <= layout.len(),
    ensures
        gates_fit(ring_bbox(layout[d].ring), gates_among(layout, tech, d, k)),
    decreases k,
{
    if k > 0 {
        lemma_gates_fit(layout, tech, d, k - 1);
    }
}

fn refine(polys: &[Polygon], tech: &Tech) -> (r: Refined)
    ensures
        r.refines(shapes(polys@), tech, polys@.len() as int),
{
    let ghost layout = shapes(polys@);
    let mut r = Refined {
        gates: Vec::new(),
        regions: Vec::new(),
        start: Vec::new(),
        polys: Vec::new(),
    };
    assert(shapes(r.polys@) =~= refined_upto(layout, tech, 0));
    let mut i: usize = 0;
    while i < polys.len()
        invariant
            i <= polys@.len(),
            layout == shapes(polys@),
            r.refines(layout, tech, i as int),
        decreases polys@.len() - i,
    {
        let gates = find_gates(polys, tech, i);
        let ghost before = r;
        let start: usize = r.polys.len();
        assert(start == shapes(r.polys@).len());
        let mut regions: Vec<Bbox> = Vec::new();
        assert(layout[i as int] == polys@[i as int]@);
        if gates.len() > 0 {
            proof {
                lemma_gates_fit(layout, tech, i as int, layout.len() as int);
            }
            regions = split_diffusion(&polys[i], &gates);
            push_regions(&mut r.polys, polys[i].layer, polys[i].datatype, &regions);
        } else {
            r.polys.push(polys[i].clone());
        }
        assert(shapes(r.polys@) =~= shapes(before.polys@) + refined(layout, tech, i as int));
        r.gates.push(gates);
        r.regions.push(regions);
        r.start.push(start);
        i = i + 1;
    }
    r
}

/// Adds the rectangles of `regions` to `polys`.
fn push_regions(polys: &mut Vec<Polygon>, layer: i16, datatype: i16, regions: &[Bbox])
    ensures
        shapes(final(polys)@) == shapes(old(polys)@) + Seq::new(
            regions@.len(),
            |r: int| Shape { layer, datatype, ring: box_ring(regions@[r]) },
        ),
{
    let ghost before = shapes(polys@);
    let ghost added = Seq::new(
        regions@.len(),
        |r: int| Shape { layer, datatype, ring: box_ring(regions@[r]) },
    );
    let mut k: usize = 0;
    assert(shapes(polys@) =~= before + added.take(0));
    while k < regions.len()
        invariant
            k <= regions@.len(),
            added == Seq::new(
                regions@.len(),
                |r: int| Shape { layer, datatype, ring: box_ring(regions@[r]) },
            ),
            shapes(polys@) == before + added.take(k as int),
        decreases regions@.len() - k,
    {
        let ghost sofar = polys@;
        polys.push(rect_polygon(layer, datatype, &regions[k]));
        assert(shapes(polys@) =~= shapes(sofar).push(added[k as int]));
        assert(before + added.take(k + 1) =~= (before + added.take(k as int)).push(
            added[k as int],
        ));
        k = k + 1;
    }
    assert(added.take(k as int) =~= added);
}

// ---- transistors ----

/// Region `b` meets `edge` along `axis`: it ends there if it is on the low
/// side, and starts there otherwise.
pub open spec fn region_meets(b: Bbox, axis: int, edge: int, low_side: bool) -> bool {
    if low_side {
        along(b.max, axis) == edge
    } else {
        along(b.min, axis) == edge
    }
}

/// The first region, from number `from` on, that meets `edge`.
pub open spec fn region_at(
    regions: Seq<Bbox>,
    axis: int,
    edge: int,
    low_side: bool,
    from: int,
) -> Option<int>
    decreases regions.len() - from,
{
    if from >= regions.len() {
        None
    } else if region_meets(regions[from], axis, edge, low_side) {
        Some(from)
    } else {
        region_at(regions, axis, edge, low_side, from + 1)
    }
}

/// The net of the conducting region of diffusion `d` that meets `edge`.
pub open spec fn net_beside(
    layout: Seq<Shape>,
    tech: &Tech,
    net_of: Seq<u32>,
    d: int,
    edge: int,
    low_side: bool,
) -> Option<u32> {
    let b = ring_bbox(layout[d].ring);
    let regions = conducting(b, gates_over(layout, tech, d));
    match region_at(regions, longer_axis(b), edge, low_side, 0) {
        Some(r) => Some(net_of[device_index(layout, tech, d) + r]),
        None => None,
    }
}

/// A spot lies in an n-well.
pub open spec fn in_nwell(layout: Seq<Shape>, tech: &Tech, p: Spot) -> bool {
    exists|w: int|
        0 <= w < layout.len() && shape_role(#[trigger] layout[w], tech) == LayerRole::NWell
            && inside(layout[w].ring, p)
}

/// The transistor where poly `p` crosses diffusion `d`, given the nets of
/// the device layout.
pub open spec fn transistor_at(
    layout: Seq<Shape>,
    tech: &Tech,
    net_of: Seq<u32>,
    d: int,
    p: int,
) -> Transistor {
    let region = channel(layout[p], layout[d])->0;
    let axis = longer_axis(ring_bbox(layout[d].ring));
    Transistor {
        kind: if in_nwell(layout, tech, center(region)) {
            TransistorKind::Pmos
        } else {
            TransistorKind::Nmos
        },
        poly_index: p as usize,
        diff_index: d as usize,
        gate_min: region.min,
        gate_max: region.max,
        gate_net: net_of[device_index(layout, tech, p)],
        source_net: net_beside(layout, tech, net_of, d, along(region.min, axis), true),
        drain_net: net_beside(layout, tech, net_of, d, along(region.max, axis), false),
    }
}

/// The order in which transistors are listed: by diffusion, then by gate
/// position, then by poly.
pub open spec fn listed_before(a: Transistor, b: Transistor) -> bool {
    if a.diff_index != b.diff_index {
        a.diff_index < b.diff_index
    } else if a.gate_min.x != b.gate_min.x {
        a.gate_min.x < b.gate_min.x
    } else if a.gate_min.y != b.gate_min.y {
        a.gate_min.y < b.gate_min.y
    } else {
        a.poly_index < b.poly_index
    }
}

/// `list` holds the transistor of poly `p` over diffusion `d`.
pub open spec fn lists(list: Seq<Transistor>, d: int, p: int) -> bool {
    exists|k: int|
        0 <= k < list.len() && (#[trigger] list[k]).diff_index == d && list[k].poly_index == p
}

/// `list` holds a transistor for each gate, and only those, in order.
pub open spec fn lists_transistors(
    list: Seq<Transistor>,
    layout: Seq<Shape>,
    tech: &Tech,
    net_of: Seq<u32>,
) -> bool {
    &&& forall|k: int|
        0 <= k < list.len() ==> {
            let t = #[trigger] list[k];
            &&& is_gate(layout, tech, t.diff_index as int, t.poly_index as int)
            &&& t == transistor_at(
                layout,
                tech,
                net_of,
                t.diff_index as int,
                t.poly_index as int,
            )
        }
    &&& forall|k: int, l: int|
        0 <= k < l < list.len() ==> listed_before(#[trigger] list[k], #[trigger] list[l])
    &&& forall|d: int, p: int| #[trigger] is_gate(layout, tech, d, p) ==> lists(list, d, p)
}

/// Result of an extraction.
#[derive(Debug)]
pub struct Extraction {
    pub transistors: Vec<Transistor>,
    /// Connectivity of `device_polys`: source and drain of a transistor are
    /// on nets of their own.
    pub device_nets: Nets,
    /// The polygons with every gated diffusion replaced by its conducting
    /// regions.
    pub device_polys: Vec<Polygon>,
}

impl Default for Extraction {
    /// Nothing extracted.
    fn default() -> (ext: Extraction)
        ensures
            ext.transistors@ == Seq::<Transistor>::empty(),
            ext.device_nets.net_of@ == Seq::<u32>::empty(),
            ext.device_nets.members@ == Seq::<Vec<u32>>::empty(),
            ext.device_polys@ == Seq::<Polygon>::empty(),
    {
        Extraction {
            transistors: Vec::new(),
            device_nets: Nets::default(),
            device_polys: Vec::new(),
        }
    }
}

impl Extraction {
    /// This is the extraction of `layout`.
    pub open spec fn extracts(&self, layout: Seq<Shape>, tech: &Tech) -> bool {
        &&& shapes(self.device_polys@) == device_layout(layout, tech)
        &&& self.device_nets.nets_of(device_layout(layout, tech), tech)
        &&& lists_transistors(self.transistors@, layout, tech, self.device_nets.net_of@)
    }
}

/// The net of the region that meets `edge`, where the regions stand in
/// `net_of` from `start` on.
fn region_net(
    regions: &[Bbox],
    start: usize,
    net_of: &[u32],
    axis: usize,
    edge: i32,
    low_side: bool,
) -> (net: Option<u32>)
    requires
        start + regions@.len() <= net_of@.len(),
    ensures
        net == match region_at(regions@, axis as int, edge as int, low_side, 0) {
            Some(r) => Some(net_of@[start + r]),
            None => None::<u32>,
        },
{
    let count: usize = net_of.len();
    let mut k: usize = 0;
    while k < regions.len()
        invariant
            k <= regions@.len(),
            start + regions@.len() <= net_of@.len() == count,
            region_at(regions@, axis as int, edge as int, low_side, 0) == region_at(
                regions@,
                axis as int,
                edge as int,
                low_side,
                k as int,
            ),
        decreases regions@.len() - k,
    {
        let probe: i32 = if low_side {
            coord(regions[k].max, axis)
        } else {
            coord(regions[k].min, axis)
        };
        if probe == edge {
            return Some(net_of[start + k]);
        }
        k = k + 1;
    }
    None
}

/// Whether a spot lies in an n-well.
fn inside_nwell(polys: &[Polygon], tech: &Tech, p: Spot) -> (is_in: bool)
    ensures
        is_in == in_nwell(shapes(polys@), tech, p),
{
    let ghost layout = shapes(polys@);
    let mut w: usize = 0;
    while w < polys.len()
        invariant
            w <= polys@.len(),
            layout == shapes(polys@),
            forall|v: int|
                0 <= v < w ==> !(shape_role(#[trigger] layout[v], tech) == LayerRole::NWell
                    && inside(layout[v].ring, p)),
        decreases polys@.len() - w,
    {
        assert(layout[w as int] == polys@[w as int]@);
        if tech.role(polys[w].layer, polys[w].datatype) == LayerRole::NWell && point_in_polygon(
            &polys[w].points,
            p,
        ) {
            return true;
        }
        w = w + 1;
    }
    false
}

/// Every gate over `d` among the first `k` polygons is listed once, in the
/// order of the polys, with its channel.
pub(crate) proof fn lemma_gates_listed(layout: Seq<Shape>, tech: &Tech, d: int, k: int)
    requires
        0 <= d < layout.len(),
        0 <= k <= layout.len() <= usize::MAX,
    ensures
        forall|g: int|
            0 <= g < gates_among(layout, tech, d, k).len() ==> {
                let gate = #[trigger] gates_among(layout, tech, d, k)[g];
                &&& gate.poly_index < k
                &&& is_gate(layout, tech, d, gate.poly_index as int)
                &&& gate.region == channel(layout[gate.poly_index as int], layout[d])->0
            },
        forall|g: int, h: int|
            0 <= g < h < gates_among(layout, tech, d, k).len() ==> (#[trigger] gates_among(
                layout,
                tech,
                d,
                k,
            )[g]).poly_index < (#[trigger] gates_among(layout, tech, d, k)[h]).poly_index,
        forall|p: int|
            0 <= p < k && #[trigger] is_gate(layout, tech, d, p) ==> exists|g: int|
                0 <= g < gates_among(layout, tech, d, k).len() && (#[trigger] gates_among(
                    layout,
                    tech,
                    d,
                    k,
                )[g]).poly_index == p,
    decreases k,
{
    if k > 0 {
        lemma_gates_listed(layout, tech, d, k - 1);
        let rest = gates_among(layout, tech, d, k - 1);
        let all = gates_among(layout, tech, d, k);
        assert forall|p: int| 0 <= p < k && #[trigger] is_gate(layout, tech, d, p) implies exists|
            g: int,
        | 0 <= g < all.len() && (#[trigger] all[g]).poly_index == p by {
            if p < k - 1 {
                let g = choose|g: int|
                    0 <= g < rest.len() && (#[trigger] rest[g]).poly_index == p;
                assert(all[g] == rest[g]);
            } else {
                assert(all[rest.len() as int].poly_index == p);
            }
        }
    }
}

proof fn lemma_refined_upto_grows(layout: Seq<Shape>, tech: &Tech, i: int, k: int)
    requires
        0 <= i < k,
    ensures
        device_index(layout, tech, i) + refined(layout, tech, i).len() <= device_index(
            layout,
            tech,
            k,
        ),
    decreases k,
{
    if i < k - 1 {
        lemma_refined_upto_grows(layout, tech, i, k - 1);
    }
}

/// Whether `a` is listed before `b`.
fn precedes(a: &Transistor, b: &Transistor) -> (before: bool)
    ensures
        before == listed_before(*a, *b),
{
    if a.diff_index != b.diff_index {
        a.diff_index < b.diff_index
    } else if a.gate_min.x != b.gate_min.x {
        a.gate_min.x < b.gate_min.x
    } else if a.gate_min.y != b.gate_min.y {
        a.gate_min.y < b.gate_min.y
    } else {
        a.poly_index < b.poly_index
    }
}

/// Puts `t` at its place in a list that is in order.
fn insert_in_order(list: &mut Vec<Transistor>, t: Transistor)
    requires
        forall|k: int, l: int|
            0 <= k < l < old(list)@.len() ==> listed_before(
                #[trigger] old(list)@[k],
                #[trigger] old(list)@[l],
            ),
        !lists(old(list)@, t.diff_index as int, t.poly_index as int),
    ensures
        forall|k: int, l: int|
            0 <= k < l < final(list)@.len() ==> listed_before(
                #[trigger] final(list)@[k],
                #[trigger] final(list)@[l],
            ),
        exists|at: int|
            0 <= at <= old(list)@.len() && final(list)@ == #[trigger] old(list)@.insert(at, t),
{
    let ghost before = list@;
    let mut at: usize = list.len();
    while at > 0 && precedes(&t, &list[at - 1])
        invariant
            at <= list@.len(),
            list@ == before,
            forall|k: int| at <= k < list@.len() ==> listed_before(t, #[trigger] list@[k]),
        decreases at,
    {
        at = at - 1;
    }
    proof {
        assert forall|k: int| 0 <= k < at implies listed_before(#[trigger] before[k], t) by {
            let last = before[at - 1];
            assert(!(last.diff_index == t.diff_index && last.poly_index == t.poly_index));
            if k < at - 1 {
                assert(listed_before(before[k], last));
            }
        }
    }
    list.insert(at, t);
    proof {
        assert forall|k: int, l: int| 0 <= k < l < list@.len() implies listed_before(
            #[trigger] list@[k],
            #[trigger] list@[l],
        ) by {
            assert(list@[k] == if k < at {
                before[k]
            } else if k == at {
                t
            } else {
                before[k - 1]
            });
            assert(list@[l] == if l < at {
                before[l]
            } else if l == at {
                t
            } else {
                before[l - 1]
            });
        }
        assert(list@ == before.insert(at as int, t));
    }
}

/// `list` is the list of transistors so far: every entry is right and they
/// are in order.
spec fn lists_some(
    list: Seq<Transistor>,
    layout: Seq<Shape>,
    tech: &Tech,
    net_of: Seq<u32>,
) -> bool {
    &&& forall|k: int|
        0 <= k < list.len() ==> {
            let t = #[trigger] list[k];
            &&& is_gate(layout, tech, t.diff_index as int, t.poly_index as int)
            &&& t == transistor_at(
                layout,
                tech,
                net_of,
                t.diff_index as int,
                t.poly_index as int,
            )
        }
    &&& forall|k: int, l: int|
        0 <= k < l < list.len() ==> listed_before(#[trigger] list[k], #[trigger] list[l])
}

/// Adds the transistors over diffusion `d`.
#[verifier::spinoff_prover]
#[verifier::rlimit(40)]
fn add_transistors(
    polys: &[Polygon],
    tech: &Tech,
    r: &Refined,
    nets: &Nets,
    d: usize,
    list: &mut Vec<Transistor>,
)
    requires
        d < polys@.len(),
        r.refines(shapes(polys@), tech, polys@.len() as int),
        nets.net_of@.len() == r.polys@.len(),
        lists_some(old(list)@, shapes(polys@), tech, nets.net_of@),
        forall|k: int| 0 <= k < old(list)@.len() ==> (#[trigger] old(list)@[k]).diff_index < d,
    ensures
        lists_some(final(list)@, shapes(polys@), tech, nets.net_of@),
        forall|k: int| 0 <= k < final(list)@.len() ==> (#[trigger] final(list)@[k]).diff_index <= d,
        forall|e: int, p: int| lists(old(list)@, e, p) ==> #[trigger] lists(final(list)@, e, p),
        forall|p: int|
            is_gate(shapes(polys@), tech, d as int, p) ==> #[trigger] lists(
                final(list)@,
                d as int,
                p,
            ),
{
    let n: usize = polys.len();
    let ghost layout = shapes(polys@);
    let ghost net_of = nets.net_of@;
    let ghost before = list@;
    let gates = &r.gates[d];
    let axis: usize = long_axis(&polygon_bbox(&polys[d].points));
    proof {
        assert(n == layout.len());
        assert(layout[d as int] == polys@[d as int]@);
        assert(gates@ == gates_over(layout, tech, d as int));
        lemma_gates_listed(layout, tech, d as int, n as int);
    }
    let mut g: usize = 0;
    while g < gates.len()
        invariant
            g <= gates@.len(),
            d < n == polys@.len(),
            layout == shapes(polys@),
            net_of == nets.net_of@,
            net_of.len() == r.polys@.len(),
            r.refines(layout, tech, n as int),
            gates@ == gates_over(layout, tech, d as int),
            gates@ == r.gates@[d as int]@,
            axis == longer_axis(ring_bbox(layout[d as int].ring)),
            forall|h: int|
                0 <= h < gates@.len() ==> {
                    let gate = #[trigger] gates@[h];
                    &&& gate.poly_index < n
                    &&& is_gate(layout, tech, d as int, gate.poly_index as int)
                    &&& gate.region == channel(
                        layout[gate.poly_index as int],
                        layout[d as int],
                    )->0
                },
            forall|h: int, i: int|
                0 <= h < i < gates@.len() ==> (#[trigger] gates@[h]).poly_index < (
                #[trigger] gates@[i]).poly_index,
            lists_some(list@, layout, tech, net_of),
            forall|k: int|
                0 <= k < list@.len() ==> (#[trigger] list@[k]).diff_index < d || (
                list@[k].diff_index == d && g > 0 && list@[k].poly_index <= gates@[g
                    - 1].poly_index),
            forall|e: int, p: int| lists(before, e, p) ==> #[trigger] lists(list@, e, p),
            forall|h: int|
                0 <= h < g ==> lists(list@, d as int, (#[trigger] gates@[h]).poly_index as int),
        decreases gates@.len() - g,
    {
        let gate = gates[g];
        let region = gate.region;
        let p: usize = gate.poly_index;
        let regions = &r.regions[d];
        proof {
            assert(gates@[g as int] == gate);
            lemma_refined_upto_grows(layout, tech, d as int, n as int);
            lemma_refined_upto_grows(layout, tech, p as int, n as int);
            assert(shape_role(layout[p as int], tech) == LayerRole::Poly);
            lemma_no_gates(layout, tech, p as int, n as int);
            assert(refined(layout, tech, p as int).len() == 1);
            assert(shapes(r.polys@).len() == r.polys@.len());
            assert(regions@ == conducting(ring_bbox(layout[d as int].ring), gates@));
            assert(refined(layout, tech, d as int).len() == regions@.len());
            assert(r.start@[p as int] == device_index(layout, tech, p as int));
            assert(r.start@[d as int] == device_index(layout, tech, d as int));
        }
        let t = Transistor {
            kind: if inside_nwell(polys, tech, rect_center(&region)) {
                TransistorKind::Pmos
            } else {
                TransistorKind::Nmos
            },
            poly_index: p,
            diff_index: d,
            gate_min: region.min,
            gate_max: region.max,
            gate_net: nets.net_of[r.start[p]],
            source_net: region_net(
                regions,
                r.start[d],
                &nets.net_of,
                axis,
                coord(region.min, axis),
                true,
            ),
            drain_net: region_net(
                regions,
                r.start[d],
                &nets.net_of,
                axis,
                coord(region.max, axis),
                false,
            ),
        };
        let ghost sofar = list@;
        proof {
            assert(t == transistor_at(layout, tech, net_of, d as int, p as int));
            assert(!lists(sofar, d as int, p as int));
        }
        insert_in_order(list, t);
        proof {
            let at = choose|at: int|
                0 <= at <= sofar.len() && list@ == #[trigger] sofar.insert(at, t);
            lemma_listed_inserted(sofar, at, t);
            lemma_inserted_is_right(sofar, at, t, layout, tech, net_of);
        }
        g = g + 1;
    }
    proof {
        assert forall|p: int| is_gate(layout, tech, d as int, p) implies #[trigger] lists(
            list@,
            d as int,
            p,
        ) by {
            let h = choose|h: int|
                0 <= h < gates_among(layout, tech, d as int, n as int).len() && (
                #[trigger] gates_among(layout, tech, d as int, n as int)[h]).poly_index == p;
            assert(lists(list@, d as int, gates@[h].poly_index as int));
        }
    }
}

/// A list with one more right entry, still in order, is right.
proof fn lemma_inserted_is_right(
    list: Seq<Transistor>,
    at: int,
    t: Transistor,
    layout: Seq<Shape>,
    tech: &Tech,
    net_of: Seq<u32>,
)
    requires
        0 <= at <= list.len(),
        lists_some(list, layout, tech, net_of),
        is_gate(layout, tech, t.diff_index as int, t.poly_index as int),
        t == transistor_at(layout, tech, net_of, t.diff_index as int, t.poly_index as int),
        forall|k: int, l: int|
            0 <= k < l < list.insert(at, t).len() ==> listed_before(
                #[trigger] list.insert(at, t)[k],
                #[trigger] list.insert(at, t)[l],
            ),
    ensures
        lists_some(list.insert(at, t), layout, tech, net_of),
        forall|k: int|
            0 <= k < list.insert(at, t).len() ==> (#[trigger] list.insert(at, t)[k]) == t || exists|
                m: int,
            | 0 <= m < list.len() && list.insert(at, t)[k] == #[trigger] list[m],
{
    let more = list.insert(at, t);
    assert forall|k: int| 0 <= k < more.len() implies (#[trigger] more[k]) == t || exists|m: int|
        0 <= m < list.len() && more[k] == #[trigger] list[m] by {
        if k < at {
            assert(more[k] == list[k]);
        } else if k > at {
            assert(more[k] == list[k - 1]);
        }
    }
}

proof fn lemma_listed_inserted(list: Seq<Transistor>, at: int, t: Transistor)
    requires
        0 <= at <= list.len(),
    ensures
        lists(list.insert(at, t), t.diff_index as int, t.poly_index as int),
        forall|e: int, p: int| lists(list, e, p) ==> #[trigger] lists(list.insert(at, t), e, p),
{
    let more = list.insert(at, t);
    assert(more[at] == t);
    assert forall|e: int, p: int| lists(list, e, p) implies #[trigger] lists(more, e, p) by {
        let k = choose|k: int|
            0 <= k < list.len() && (#[trigger] list[k]).diff_index == e && list[k].poly_index == p;
        let m = if k < at {
            k
        } else {
            k + 1
        };
        assert(more[m] == list[k]);
    }
}

/// Builds the nets of the device layout and lists the transistors.
fn assemble(polys: &[Polygon], tech: &Tech, r: Refined) -> (ext: Extraction)
    requires
        r.refines(shapes(polys@), tech, polys@.len() as int),
        r.polys@.len() <= 0x1_0000_0000,
    ensures
        ext.extracts(shapes(polys@), tech),
{
    let ghost layout = shapes(polys@);
    let n: usize = polys.len();
    let device_nets = build_nets(&r.polys, tech);
    let mut transistors: Vec<Transistor> = Vec::new();
    let mut d: usize = 0;
    while d < n
        invariant
            d <= n == polys@.len(),
            layout == shapes(polys@),
            r.refines(layout, tech, n as int),
            device_nets.net_of@.len() == r.polys@.len(),
            lists_some(transistors@, layout, tech, device_nets.net_of@),
            forall|k: int|
                0 <= k < transistors@.len() ==> (#[trigger] transistors@[k]).diff_index < d,
            forall|e: int, p: int|
                e < d && #[trigger] is_gate(layout, tech, e, p) ==> lists(transistors@, e, p),
        decreases n - d,
    {
        add_transistors(polys, tech, &r, &device_nets, d, &mut transistors);
        d = d + 1;
    }
    Extraction { transistors, device_nets, device_polys: r.polys }
}

/// Extracts the transistors of a polygon list. Net numbers are 32-bit, so the
/// device layout must not be larger than they can count.
pub fn extract(polys: &[Polygon], tech: &Tech) -> (ext: Extraction)
    requires
        device_layout(shapes(polys@), tech).len() <= 0x1_0000_0000,
    ensures
        ext.extracts(shapes(polys@), tech),
{
    let r = refine(polys, tech);
    assert(shapes(r.polys@).len() == r.polys@.len());
    assemble(polys, tech, r)
}

/// Extracts the transistors of a polygon list, unless its device layout has
/// more polygons than 32-bit net numbers can count.
pub fn try_extract(polys: &[Polygon], tech: &Tech) -> (ext: Option<Extraction>)
    ensures
        ext is Some <==> device_layout(shapes(polys@), tech).len() <= 0x1_0000_0000,
        ext is Some ==> ext->0.extracts(shapes(polys@), tech),
{
    let r = refine(polys, tech);
    assert(shapes(r.polys@).len() == r.polys@.len());
    if r.polys.len() as u64 <= 0x1_0000_0000 {
        Some(assemble(polys, tech, r))
    } else {
        None
    }
}

/// The first device polygon, from number `from` on, with `p` inside.
pub open spec fn device_holding(layout: Seq<Shape>, p: Spot, from: int) -> Option<int>
    decreases layout.len() - from,
{
    if from >= layout.len() {
        None
    } else if inside(layout[from].ring, p) {
        Some(from)
    } else {
        device_holding(layout, p, from + 1)
    }
}

/// The device net at a spot: that of the first device polygon that holds it.
pub fn device_net_at(ext: &Extraction, p: Spot) -> (net: Option<u32>)
    requires
        ext.device_nets.net_of@.len() == ext.device_polys@.len(),
    ensures
        net == match device_holding(shapes(ext.device_polys@), p, 0) {
            Some(i) => Some(ext.device_nets.net_of@[i]),
            None => None::<u32>,
        },
{
    let ghost layout = shapes(ext.device_polys@);
    let mut i: usize = 0;
    while i < ext.device_polys.len()
        invariant
            i <= ext.device_polys@.len(),
            layout == shapes(ext.device_polys@),
            ext.device_nets.net_of@.len() == ext.device_polys@.len(),
            device_holding(layout, p, 0) == device_holding(layout, p, i as int),
        decreases ext.device_polys@.len() - i,
    {
        assert(layout[i as int] == ext.device_polys@[i as int]@);
        if point_in_polygon(&ext.device_polys[i].points, p) {
            return Some(ext.device_nets.net_of[i]);
        }
        i = i + 1;
    }
    None
}

// ---- laws ----

/// The open runs from `from` on, where nothing between `from` and `v` is
/// under a gate: each is a stretch under no gate, between gates or ends; they
/// rise and are apart; together they hold every step under no gate.
proof fn lemma_runs(gates: Seq<Gate>, axis: int, from: int, v: int, end: int)
    requires
        from <= v <= end,
        forall|u: int| from <= u < v ==> !#[trigger] under_gate(gates, axis, u),
    ensures
        forall|k: int|
            0 <= k < open_runs(gates, axis, from, v, end).len() ==> is_stretch(
                gates,
                axis,
                from,
                end,
                #[trigger] open_runs(gates, axis, from, v, end)[k],
            ),
        forall|k: int, l: int|
            0 <= k < l < open_runs(gates, axis, from, v, end).len() ==> (#[trigger] open_runs(
                gates,
                axis,
                from,
                v,
                end,
            )[k]).1 < (#[trigger] open_runs(gates, axis, from, v, end)[l]).0,
        forall|u: int|
            from <= u < end && !#[trigger] under_gate(gates, axis, u) ==> in_some_run(
                open_runs(gates, axis, from, v, end),
                u,
            ),
    decreases end - v,
{
    let runs = open_runs(gates, axis, from, v, end);
    if v >= end {
        assert(from < v ==> runs.len() == 1 && runs[0] == (from, v));
        assert forall|u: int| from <= u < end && !#[trigger] under_gate(
            gates,
            axis,
            u,
        ) implies in_some_run(runs, u) by {
            assert(runs[0].0 <= u < runs[0].1);
        }
    } else if under_gate(gates, axis, v) {
        lemma_runs(gates, axis, v + 1, v + 1, end);
        let rest = open_runs(gates, axis, v + 1, v + 1, end);
        let off: int = if from < v {
            1
        } else {
            0
        };
        assert(from < v ==> runs[0] == (from, v));
        assert forall|k: int| 0 <= k < runs.len() implies is_stretch(
            gates,
            axis,
            from,
            end,
            #[trigger] runs[k],
        ) by {
            if k >= off {
                assert(runs[k] == rest[k - off]);
                assert(is_stretch(gates, axis, v + 1, end, rest[k - off]));
            }
        }
        assert forall|k: int, l: int| 0 <= k < l < runs.len() implies (#[trigger] runs[k]).1 < (
        #[trigger] runs[l]).0 by {
            assert(runs[l] == rest[l - off]);
            assert(is_stretch(gates, axis, v + 1, end, rest[l - off]));
            if k >= off {
                assert(runs[k] == rest[k - off]);
            }
        }
        assert forall|u: int| from <= u < end && !#[trigger] under_gate(
            gates,
            axis,
            u,
        ) implies in_some_run(runs, u) by {
            if u < v {
                assert(runs[0].0 <= u < runs[0].1);
            } else {
                let k = choose|k: int|
                    0 <= k < rest.len() && (#[trigger] rest[k]).0 <= u < rest[k].1;
                assert(runs[k + off] == rest[k]);
            }
        }
    } else {
        lemma_runs(gates, axis, from, v + 1, end);
    }
}

/// `u` lies in one of the runs.
pub open spec fn in_some_run(runs: Seq<(int, int)>, u: int) -> bool {
    exists|k: int| 0 <= k < runs.len() && (#[trigger] runs[k]).0 <= u < runs[k].1
}

/// `s` is a maximal stretch between `lo` and `hi` that is under no gate.
pub open spec fn is_stretch(
    gates: Seq<Gate>,
    axis: int,
    lo: int,
    hi: int,
    s: (int, int),
) -> bool {
    &&& lo <= s.0 < s.1 <= hi
    &&& forall|u: int| s.0 <= u < s.1 ==> !#[trigger] under_gate(gates, axis, u)
    &&& s.0 == lo || under_gate(gates, axis, s.0 - 1)
    &&& s.1 == hi || under_gate(gates, axis, s.1)
}

/// The stretches of a gated diffusion are maximal stretches of it under no
/// gate, in rising order and apart from each other, and nothing else of it is
/// under no gate.
pub proof fn law_stretches(b: Bbox, gates: Seq<Gate>)
    requires
        along(b.min, longer_axis(b)) <= along(b.max, longer_axis(b)),
    ensures
        ({
            let axis = longer_axis(b);
            let lo = along(b.min, axis);
            let hi = along(b.max, axis);
            let s = stretches(b, gates);
            &&& forall|k: int|
                0 <= k < s.len() ==> is_stretch(gates, axis, lo, hi, #[trigger] s[k])
            &&& forall|k: int, l: int|
                0 <= k < l < s.len() ==> (#[trigger] s[k]).1 < (#[trigger] s[l]).0
            &&& forall|u: int|
                lo <= u < hi && !#[trigger] under_gate(gates, axis, u) ==> in_some_run(s, u)
        }),
{
    let axis = longer_axis(b);
    lemma_runs(gates, axis, along(b.min, axis), along(b.min, axis), along(b.max, axis));
}

/// No conducting region of a diffusion shares an area with a channel over it.
pub proof fn law_regions_avoid_channels(b: Bbox, gates: Seq<Gate>, r: int, g: int)
    requires
        along(b.min, longer_axis(b)) <= along(b.max, longer_axis(b)),
        0 <= r < conducting(b, gates).len(),
        0 <= g < gates.len(),
    ensures
        shared_box(conducting(b, gates)[r], gates[g].region) is None,
{
    law_stretches(b, gates);
    let axis = longer_axis(b);
    let s = stretches(b, gates)[r];
    let lo = along(gates[g].region.min, axis);
    let u = if s.0 >= lo {
        s.0
    } else {
        lo
    };
    assert(is_stretch(gates, axis, along(b.min, axis), along(b.max, axis), s));
    assert(conducting(b, gates)[r] == slice(b, axis, s.0, s.1));
    if shared_box(conducting(b, gates)[r], gates[g].region) is Some {
        assert(s.0 <= u < s.1);
        assert(under_gate(gates, axis, u)) by {
            assert(along(gates[g].region.min, axis) <= u);
        }
    }
}

pub(crate) proof fn lemma_region_at(regions: Seq<Bbox>, axis: int, edge: int, low_side: bool, from: int)
    requires
        0 <= from,
    ensures
        match region_at(regions, axis, edge, low_side, from) {
            Some(r) => from <= r < regions.len() && region_meets(
                regions[r],
                axis,
                edge,
                low_side,
            ),
            None => forall|k: int|
                from <= k < regions.len() ==> !region_meets(
                    #[trigger] regions[k],
                    axis,
                    edge,
                    low_side,
                ),
        },
    decreases regions.len() - from,
{
    if from < regions.len() && !region_meets(regions[from], axis, edge, low_side) {
        lemma_region_at(regions, axis, edge, low_side, from + 1);
    }
}

/// What a gate over `d` says of its diffusion.
pub(crate) proof fn lemma_gate_place(layout: Seq<Shape>, tech: &Tech, d: int, p: int)
    requires
        is_gate(layout, tech, d, p),
        layout.len() <= usize::MAX,
    ensures
        ({
            let b = ring_bbox(layout[d].ring);
            let axis = longer_axis(b);
            let gates = gates_over(layout, tech, d);
            let region = channel(layout[p], layout[d])->0;
            &&& gates.len() > 0
            &&& along(b.min, axis) <= along(region.min, axis) < along(region.max, axis) <= along(
                b.max,
                axis,
            )
            &&& forall|u: int|
                along(region.min, axis) <= u < along(region.max, axis)
                    ==> #[trigger] under_gate(gates, axis, u)
            &&& forall|k: int|
                0 <= k < stretches(b, gates).len() ==> {
                    let s = #[trigger] stretches(b, gates)[k];
                    &&& along(conducting(b, gates)[k].min, axis) == s.0
                    &&& along(conducting(b, gates)[k].max, axis) == s.1
                }
        }),
{
    let b = ring_bbox(layout[d].ring);
    let axis = longer_axis(b);
    let gates = gates_over(layout, tech, d);
    let region = channel(layout[p], layout[d])->0;
    lemma_gates_listed(layout, tech, d, layout.len() as int);
    let g = choose|g: int|
        0 <= g < gates_among(layout, tech, d, layout.len() as int).len() && (
        #[trigger] gates_among(layout, tech, d, layout.len() as int)[g]).poly_index == p;
    assert(gates[g].region == region);
    assert forall|u: int| along(region.min, axis) <= u < along(region.max, axis) implies
        #[trigger] under_gate(gates, axis, u) by {
        assert(along(gates[g].region.min, axis) <= u < along(gates[g].region.max, axis));
    }
    law_stretches(b, gates);
    assert forall|k: int| 0 <= k < stretches(b, gates).len() implies {
        let s = #[trigger] stretches(b, gates)[k];
        &&& along(conducting(b, gates)[k].min, axis) == s.0
        &&& along(conducting(b, gates)[k].max, axis) == s.1
    } by {
        let s = stretches(b, gates)[k];
        assert(is_stretch(gates, axis, along(b.min, axis), along(b.max, axis), s));
        assert(conducting(b, gates)[k] == slice(b, axis, s.0, s.1));
    }
}

/// A transistor has no source exactly if its gate is flush with the low end
/// of the diffusion or with another gate there, and no drain exactly if the
/// same holds at the high end.
pub proof fn law_terminals(
    layout: Seq<Shape>,
    tech: &Tech,
    net_of: Seq<u32>,
    d: int,
    p: int,
)
    requires
        is_gate(layout, tech, d, p),
        layout.len() <= usize::MAX,
    ensures
        ({
            let b = ring_bbox(layout[d].ring);
            let axis = longer_axis(b);
            let gates = gates_over(layout, tech, d);
            let t = transistor_at(layout, tech, net_of, d, p);
            let lo = along(t.gate_min, axis);
            let hi = along(t.gate_max, axis);
            &&& t.source_net is None <==> lo == along(b.min, axis) || under_gate(
                gates,
                axis,
                lo - 1,
            )
            &&& t.drain_net is None <==> hi == along(b.max, axis) || under_gate(gates, axis, hi)
        }),
{
    lemma_gate_place(layout, tech, d, p);
    let b = ring_bbox(layout[d].ring);
    let axis = longer_axis(b);
    let gates = gates_over(layout, tech, d);
    let t = transistor_at(layout, tech, net_of, d, p);
    let lo = along(t.gate_min, axis);
    let hi = along(t.gate_max, axis);
    let s = stretches(b, gates);
    let regions = conducting(b, gates);
    law_stretches(b, gates);
    lemma_region_at(regions, axis, lo, true, 0);
    lemma_region_at(regions, axis, hi, false, 0);
    match region_at(regions, axis, lo, true, 0) {
        Some(r) => {
            assert(s[r].1 == lo);
            assert(is_stretch(gates, axis, along(b.min, axis), along(b.max, axis), s[r]));
            assert(!under_gate(gates, axis, lo - 1));
        },
        None => {
            if lo > along(b.min, axis) && !under_gate(gates, axis, lo - 1) {
                assert(in_some_run(s, lo - 1));
                let k = choose|k: int| 0 <= k < s.len() && (#[trigger] s[k]).0 <= lo - 1 < s[k].1;
                assert(is_stretch(gates, axis, along(b.min, axis), along(b.max, axis), s[k]));
                assert(under_gate(gates, axis, lo));
                assert(s[k].1 == lo);
                assert(!region_meets(regions[k], axis, lo, true));
            }
        },
    }
    match region_at(regions, axis, hi, false, 0) {
        Some(r) => {
            assert(s[r].0 == hi);
            assert(is_stretch(gates, axis, along(b.min, axis), along(b.max, axis), s[r]));
            assert(!under_gate(gates, axis, hi));
        },
        None => {
            if hi < along(b.max, axis) && !under_gate(gates, axis, hi) {
                assert(in_some_run(s, hi));
                let k = choose|k: int| 0 <= k < s.len() && (#[trigger] s[k]).0 <= hi < s[k].1;
                assert(is_stretch(gates, axis, along(b.min, axis), along(b.max, axis), s[k]));
                assert(under_gate(gates, axis, hi - 1));
                assert(s[k].0 == hi);
                assert(!region_meets(regions[k], axis, hi, false));
            }
        },
    }
}

/// The source and the drain of a transistor are different pieces of its
/// diffusion.
pub proof fn law_source_and_drain_apart(layout: Seq<Shape>, tech: &Tech, d: int, p: int)
    requires
        is_gate(layout, tech, d, p),
        layout.len() <= usize::MAX,
    ensures
        ({
            let b = ring_bbox(layout[d].ring);
            let axis = longer_axis(b);
            let regions = conducting(b, gates_over(layout, tech, d));
            let region = channel(layout[p], layout[d])->0;
            let source = region_at(regions, axis, along(region.min, axis), true, 0);
            let drain = region_at(regions, axis, along(region.max, axis), false, 0);
            source is Some && drain is Some ==> source->0 < drain->0
        }),
{
    lemma_gate_place(layout, tech, d, p);
    let b = ring_bbox(layout[d].ring);
    let axis = longer_axis(b);
    let gates = gates_over(layout, tech, d);
    let regions = conducting(b, gates);
    let region = channel(layout[p], layout[d])->0;
    let lo = along(region.min, axis);
    let hi = along(region.max, axis);
    law_stretches(b, gates);
    lemma_region_at(regions, axis, lo, true, 0);
    lemma_region_at(regions, axis, hi, false, 0);
    let source = region_at(regions, axis, lo, true, 0);
    let drain = region_at(regions, axis, hi, false, 0);
    if source is Some && drain is Some {
        let s = stretches(b, gates);
        assert(s[source->0].1 == lo);
        assert(s[drain->0].0 == hi);
        assert(is_stretch(gates, axis, along(b.min, axis), along(b.max, axis), s[drain->0]));
    }
}

/// Two gates over one diffusion with no gate between them share the node
/// between them: the drain of the lower one is the source of the higher one.
pub proof fn law_series_gates_share_a_node(
    layout: Seq<Shape>,
    tech: &Tech,
    net_of: Seq<u32>,
    d: int,
    p: int,
    q: int,
)
    requires
        is_gate(layout, tech, d, p),
        is_gate(layout, tech, d, q),
        layout.len() <= usize::MAX,
        ({
            let axis = longer_axis(ring_bbox(layout[d].ring));
            let hi = along((channel(layout[p], layout[d])->0).max, axis);
            let lo = along((channel(layout[q], layout[d])->0).min, axis);
            &&& hi < lo
            &&& forall|u: int|
                hi <= u < lo ==> !#[trigger] under_gate(gates_over(layout, tech, d), axis, u)
        }),
    ensures
        transistor_at(layout, tech, net_of, d, p).drain_net is Some,
        transistor_at(layout, tech, net_of, d, p).drain_net == transistor_at(
            layout,
            tech,
            net_of,
            d,
            q,
        ).source_net,
{
    lemma_gate_place(layout, tech, d, p);
    lemma_gate_place(layout, tech, d, q);
    law_terminals(layout, tech, net_of, d, p);
    law_terminals(layout, tech, net_of, d, q);
    let b = ring_bbox(layout[d].ring);
    let axis = longer_axis(b);
    let gates = gates_over(layout, tech, d);
    let regions = conducting(b, gates);
    let hi = along((channel(layout[p], layout[d])->0).max, axis);
    let lo = along((channel(layout[q], layout[d])->0).min, axis);
    assert(!under_gate(gates, axis, hi));
    assert(!under_gate(gates, axis, lo - 1));
    assert(under_gate(gates, axis, lo));
    law_stretches(b, gates);
    lemma_region_at(regions, axis, hi, false, 0);
    lemma_region_at(regions, axis, lo, true, 0);
    let drain = region_at(regions, axis, hi, false, 0)->0;
    let source = region_at(regions, axis, lo, true, 0)->0;
    let s = stretches(b, gates);
    assert(is_stretch(gates, axis, along(b.min, axis), along(b.max, axis), s[drain]));
    assert(is_stretch(gates, axis, along(b.min, axis), along(b.max, axis), s[source]));
    assert(s[drain].0 == hi);
    assert(s[source].1 == lo);
    assert(s[drain].1 == lo) by {
        if s[drain].1 < lo {
            assert(!under_gate(gates, axis, s[drain].1));
        }
    }
    if drain < source {
        assert(s[drain].1 < s[source].0);
    } else if source < drain {
        assert(s[source].1 < s[drain].0);
    }
}

/// A polygon that is no gated diffusion stands unchanged in the device
/// layout.
pub proof fn law_other_polygons_stay(layout: Seq<Shape>, tech: &Tech, i: int)
    requires
        0 <= i < layout.len(),
        gates_over(layout, tech, i).len() == 0,
    ensures
        device_index(layout, tech, i) < device_layout(layout, tech).len(),
        device_layout(layout, tech)[device_index(layout, tech, i)] == layout[i],
{
    lemma_device_shapes(layout, tech, i, layout.len() as int);
    assert(refined(layout, tech, i)[0] == layout[i]);
}

/// A conducting region stands in the device layout at its place.
pub proof fn law_regions_stand_in_the_device_layout(
    layout: Seq<Shape>,
    tech: &Tech,
    i: int,
    r: int,
)
    requires
        0 <= i < layout.len(),
        gates_over(layout, tech, i).len() > 0,
        0 <= r < conducting(ring_bbox(layout[i].ring), gates_over(layout, tech, i)).len(),
    ensures
        device_index(layout, tech, i) + r < device_layout(layout, tech).len(),
        device_layout(layout, tech)[device_index(layout, tech, i) + r] == (Shape {
            layer: layout[i].layer,
            datatype: layout[i].datatype,
            ring: box_ring(
                conducting(ring_bbox(layout[i].ring), gates_over(layout, tech, i))[r],
            ),
        }),
{
    lemma_device_shapes(layout, tech, i, layout.len() as int);
    let j = device_index(layout, tech, i);
    assert(device_layout(layout, tech)[j + r] == refined(layout, tech, i)[r]);
}

/// What polygon `i` becomes stands in the device layout from its place on.
pub(crate) proof fn lemma_device_shapes(layout: Seq<Shape>, tech: &Tech, i: int, k: int)
    requires
        0 <= i < k <= layout.len(),
    ensures
        device_index(layout, tech, i) + refined(layout, tech, i).len() <= refined_upto(
            layout,
            tech,
            k,
        ).len(),
        forall|r: int|
            0 <= r < refined(layout, tech, i).len() ==> refined_upto(
                layout,
                tech,
                k,
            )[device_index(layout, tech, i) + r] == #[trigger] refined(layout, tech, i)[r],
    decreases k,
{
    if i < k - 1 {
        lemma_device_shapes(layout, tech, i, k - 1);
    }
}

/// A layout has one extraction: any two list the same transistors and number
/// the same nets.
pub proof fn law_extraction_unique(
    a: Extraction,
    b: Extraction,
    layout: Seq<Shape>,
    tech: &Tech,
)
    requires
        a.extracts(layout, tech),
        b.extracts(layout, tech),
    ensures
        a.transistors@ == b.transistors@,
        a.device_nets.net_of@ == b.device_nets.net_of@,
        shapes(a.device_polys@) == shapes(b.device_polys@),
{
    law_nets_unique(a.device_nets, b.device_nets, device_layout(layout, tech), tech);
    lemma_one_list(a.transistors@, b.transistors@, layout, tech, a.device_nets.net_of@);
}

/// A layout has one list of transistors.
pub(crate) proof fn lemma_one_list(
    x: Seq<Transistor>,
    y: Seq<Transistor>,
    layout: Seq<Shape>,
    tech: &Tech,
    net_of: Seq<u32>,
)
    requires
        lists_transistors(x, layout, tech, net_of),
        lists_transistors(y, layout, tech, net_of),
    ensures
        x == y,
{
    if x.len() <= y.len() {
        lemma_lists_agree(x, y, layout, tech, net_of, x.len() as int);
        if x.len() < y.len() {
            lemma_next_is_listed(x, y, layout, tech, net_of, x.len() as int);
        }
    } else {
        lemma_lists_agree(y, x, layout, tech, net_of, y.len() as int);
        lemma_next_is_listed(y, x, layout, tech, net_of, y.len() as int);
    }
    assert(x =~= y);
}

/// Where two lists agree on the first `k` entries, entry `k` of the one is
/// an entry of the other from `k` on.
proof fn lemma_next_is_listed(
    x: Seq<Transistor>,
    y: Seq<Transistor>,
    layout: Seq<Shape>,
    tech: &Tech,
    net_of: Seq<u32>,
    k: int,
)
    requires
        lists_transistors(x, layout, tech, net_of),
        lists_transistors(y, layout, tech, net_of),
        0 <= k < y.len(),
        k <= x.len(),
        forall|i: int| 0 <= i < k ==> x[i] == #[trigger] y[i],
    ensures
        exists|m: int| k <= m < x.len() && #[trigger] x[m] == y[k],
{
    let t = y[k];
    assert(lists(x, t.diff_index as int, t.poly_index as int));
    let m = choose|m: int|
        0 <= m < x.len() && (#[trigger] x[m]).diff_index == t.diff_index as int
            && x[m].poly_index == t.poly_index as int;
    assert(x[m] == t);
    if m < k {
        assert(y[m] == t);
        assert(listed_before(y[m], y[k]));
    }
}

proof fn lemma_lists_agree(
    x: Seq<Transistor>,
    y: Seq<Transistor>,
    layout: Seq<Shape>,
    tech: &Tech,
    net_of: Seq<u32>,
    k: int,
)
    requires
        lists_transistors(x, layout, tech, net_of),
        lists_transistors(y, layout, tech, net_of),
        0 <= k <= x.len() <= y.len(),
    ensures
        forall|i: int| 0 <= i < k ==> x[i] == #[trigger] y[i],
    decreases k,
{
    if k > 0 {
        lemma_lists_agree(x, y, layout, tech, net_of, k - 1);
        lemma_next_is_listed(x, y, layout, tech, net_of, k - 1);
        let m = choose|m: int| k - 1 <= m < x.len() && #[trigger] x[m] == y[k - 1];
        lemma_next_is_listed(y, x, layout, tech, net_of, k - 1);
        let l = choose|l: int| k - 1 <= l < y.len() && #[trigger] y[l] == x[k - 1];
        if m > k - 1 {
            assert(listed_before(x[k - 1], x[m]));
            if l > k - 1 {
                assert(listed_before(y[k - 1], y[l]));
            }
        }
    }
}

} // verus!
