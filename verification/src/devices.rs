//! What an extraction finds: where transistors are, of which polarity, and
//! which pieces of the layout are at their terminals.

use vstd::prelude::*;

use crate::gds::{inside, ring_bbox, shapes, Bbox, Point, Shape, Spot};
use crate::geometry::shape_role;
use crate::rectangles::{goes_round, is_solid, law_box_ring_goes_round, law_inside_any_rectangle};
use crate::tech::{LayerRole, Tech};
use crate::transistors::{along, center, channel, conducting, device_holding, device_index};
use crate::transistors::{gates_fit, gates_over, in_nwell, in_some_run, is_gate};
use crate::transistors::{is_stretch, law_regions_stand_in_the_device_layout, law_stretches};
use crate::transistors::{law_other_polygons_stay, law_terminals, lemma_gate_place};
use crate::transistors::{lemma_gates_fit, lemma_gates_listed, lemma_region_at, listed_before};
use crate::transistors::{lists, longer_axis, region_at, shared_box, slice, stretches};
use crate::transistors::{transistor_at, under_gate, Extraction, Gate, Transistor, TransistorKind};

verus! {

/// `q` lies in the box from `min` to `max`, its edges included.
pub open spec fn is_in(min: Point, max: Point, q: Point) -> bool {
    min.x <= q.x <= max.x && min.y <= q.y <= max.y
}

/// The middle of the box from `min` to `max`.
pub open spec fn middle(min: Point, max: Point) -> Spot {
    Spot { x: (min.x + max.x) as i64, y: (min.y + max.y) as i64, unit: 2 }
}

// ---- where transistors are ----

/// Every transistor stands where a poly crosses a diffusion: its channel is
/// what the boxes of the two have in common, is not without area, and has its
/// middle inside both.
pub proof fn law_transistors_are_crossings(
    layout: Seq<Shape>,
    tech: &Tech,
    ext: Extraction,
    k: int,
    q: Point,
)
    requires
        ext.extracts(layout, tech),
        0 <= k < ext.transistors@.len(),
    ensures
        ({
            let t = ext.transistors@[k];
            let (poly, diff) = (layout[t.poly_index as int], layout[t.diff_index as int]);
            let (a, b) = (ring_bbox(poly.ring), ring_bbox(diff.ring));
            let c = middle(t.gate_min, t.gate_max);
            &&& t.poly_index < layout.len()
            &&& t.diff_index < layout.len()
            &&& tech.role_of(poly.layer, poly.datatype) == LayerRole::Poly
            &&& tech.role_of(diff.layer, diff.datatype) == LayerRole::Diffusion
            &&& t.gate_min.x < t.gate_max.x && t.gate_min.y < t.gate_max.y
            &&& is_in(t.gate_min, t.gate_max, q) <==> is_in(a.min, a.max, q) && is_in(
                b.min,
                b.max,
                q,
            )
            &&& inside(poly.ring, c)
            &&& inside(diff.ring, c)
        }),
{
    let t = ext.transistors@[k];
    let (d, p) = (t.diff_index as int, t.poly_index as int);
    assert(is_gate(layout, tech, d, p));
    assert(t == transistor_at(layout, tech, ext.device_nets.net_of@, d, p));
}

/// Wherever a poly crosses a diffusion there is one transistor.
pub proof fn law_crossings_are_transistors(
    layout: Seq<Shape>,
    tech: &Tech,
    ext: Extraction,
    d: int,
    p: int,
    c: Bbox,
)
    requires
        ext.extracts(layout, tech),
        0 <= d < layout.len() <= usize::MAX,
        0 <= p < layout.len(),
        tech.role_of(layout[p].layer, layout[p].datatype) == LayerRole::Poly,
        tech.role_of(layout[d].layer, layout[d].datatype) == LayerRole::Diffusion,
        is_solid(c),
        forall|q: Point| #[trigger]
            is_in(c.min, c.max, q) <==> is_in(
                ring_bbox(layout[p].ring).min,
                ring_bbox(layout[p].ring).max,
                q,
            ) && is_in(ring_bbox(layout[d].ring).min, ring_bbox(layout[d].ring).max, q),
        inside(layout[p].ring, middle(c.min, c.max)),
        inside(layout[d].ring, middle(c.min, c.max)),
    ensures
        exists|k: int|
            0 <= k < ext.transistors@.len() && (#[trigger] ext.transistors@[k]).diff_index == d
                && ext.transistors@[k].poly_index == p,
        forall|k: int, l: int|
            0 <= k < l < ext.transistors@.len() ==> !((#[trigger] ext.transistors@[k]).diff_index
                == d && ext.transistors@[k].poly_index == p && (
            #[trigger] ext.transistors@[l]).diff_index == d && ext.transistors@[l].poly_index == p),
{
    let (a, b) = (ring_bbox(layout[p].ring), ring_bbox(layout[d].ring));
    assert(is_in(c.min, c.max, c.min));
    assert(is_in(c.min, c.max, c.max));
    let low = Point {
        x: if a.min.x >= b.min.x {
            a.min.x
        } else {
            b.min.x
        },
        y: if a.min.y >= b.min.y {
            a.min.y
        } else {
            b.min.y
        },
    };
    let high = Point {
        x: if a.max.x <= b.max.x {
            a.max.x
        } else {
            b.max.x
        },
        y: if a.max.y <= b.max.y {
            a.max.y
        } else {
            b.max.y
        },
    };
    assert(is_in(a.min, a.max, low) && is_in(b.min, b.max, low));
    assert(is_in(a.min, a.max, high) && is_in(b.min, b.max, high));
    assert(is_in(c.min, c.max, low));
    assert(is_in(c.min, c.max, high));
    assert(shared_box(a, b) == Some(c));
    assert(is_gate(layout, tech, d, p));
    assert(lists(ext.transistors@, d, p));
    assert forall|k: int, l: int| 0 <= k < l < ext.transistors@.len() implies !((
    #[trigger] ext.transistors@[k]).diff_index == d && ext.transistors@[k].poly_index == p && (
    #[trigger] ext.transistors@[l]).diff_index == d && ext.transistors@[l].poly_index == p) by {
        let (t, u) = (ext.transistors@[k], ext.transistors@[l]);
        assert(listed_before(t, u));
        if t.diff_index == d && u.diff_index == d && t.poly_index == p && u.poly_index == p {
            assert(t == transistor_at(layout, tech, ext.device_nets.net_of@, d, p));
            assert(u == transistor_at(layout, tech, ext.device_nets.net_of@, d, p));
        }
    }
}

/// Transistors are listed by diffusion; over one diffusion from left to right,
/// then from low to high, then by poly.
pub proof fn law_transistors_are_in_order(
    layout: Seq<Shape>,
    tech: &Tech,
    ext: Extraction,
    k: int,
    l: int,
)
    requires
        ext.extracts(layout, tech),
        0 <= k < l < ext.transistors@.len(),
    ensures
        ({
            let (t, u) = (ext.transistors@[k], ext.transistors@[l]);
            &&& t.diff_index <= u.diff_index
            &&& t.diff_index == u.diff_index ==> t.gate_min.x <= u.gate_min.x
            &&& t.diff_index == u.diff_index && t.gate_min.x == u.gate_min.x ==> t.gate_min.y
                <= u.gate_min.y
            &&& t.diff_index == u.diff_index && t.gate_min == u.gate_min ==> t.poly_index
                < u.poly_index
        }),
{
    assert(listed_before(ext.transistors@[k], ext.transistors@[l]));
}

// ---- polarity ----

/// A transistor is a PMOS exactly if the middle of its channel lies inside a
/// polygon that is an n-well, whichever way its diffusion runs.
pub proof fn law_wells_make_pmos(layout: Seq<Shape>, tech: &Tech, ext: Extraction, k: int)
    requires
        ext.extracts(layout, tech),
        0 <= k < ext.transistors@.len(),
    ensures
        ({
            let t = ext.transistors@[k];
            &&& t.kind == TransistorKind::Pmos <==> exists|w: int|
                0 <= w < layout.len() && tech.role_of(
                    (#[trigger] layout[w]).layer,
                    layout[w].datatype,
                ) == LayerRole::NWell && inside(
                    layout[w].ring,
                    Spot {
                        x: (t.gate_min.x + t.gate_max.x) as i64,
                        y: (t.gate_min.y + t.gate_max.y) as i64,
                        unit: 2,
                    },
                )
        }),
{
    let t = ext.transistors@[k];
    let (d, p) = (t.diff_index as int, t.poly_index as int);
    assert(t == transistor_at(layout, tech, ext.device_nets.net_of@, d, p));
    let c = middle(t.gate_min, t.gate_max);
    assert(c == center(channel(layout[p], layout[d])->0));
    if in_nwell(layout, tech, c) {
        let w = choose|w: int|
            0 <= w < layout.len() && shape_role(#[trigger] layout[w], tech) == LayerRole::NWell
                && inside(layout[w].ring, c);
        assert(tech.role_of(layout[w].layer, layout[w].datatype) == LayerRole::NWell);
    }
    if exists|w: int|
        0 <= w < layout.len() && tech.role_of((#[trigger] layout[w]).layer, layout[w].datatype)
            == LayerRole::NWell && inside(layout[w].ring, c) {
        let w = choose|w: int|
            0 <= w < layout.len() && tech.role_of((#[trigger] layout[w]).layer, layout[w].datatype)
                == LayerRole::NWell && inside(layout[w].ring, c);
        assert(shape_role(layout[w], tech) == LayerRole::NWell);
    }
}

/// Where the n-wells are rectangles: a transistor is a PMOS exactly if the
/// middle of its channel lies in the box of one of them.
pub proof fn law_rectangular_wells_make_pmos(
    layout: Seq<Shape>,
    tech: &Tech,
    ext: Extraction,
    k: int,
    boxes: Seq<Bbox>,
)
    requires
        ext.extracts(layout, tech),
        0 <= k < ext.transistors@.len(),
        boxes.len() == layout.len(),
        forall|w: int|
            0 <= w < layout.len() && tech.role_of((#[trigger] layout[w]).layer, layout[w].datatype)
                == LayerRole::NWell ==> is_solid(boxes[w]) && goes_round(layout[w].ring, boxes[w]),
    ensures
        ({
            let t = ext.transistors@[k];
            let (x, y) = (t.gate_min.x + t.gate_max.x, t.gate_min.y + t.gate_max.y);
            t.kind == TransistorKind::Pmos <==> exists|w: int|
                0 <= w < layout.len() && tech.role_of(
                    (#[trigger] layout[w]).layer,
                    layout[w].datatype,
                ) == LayerRole::NWell && 2 * boxes[w].min.x <= x < 2 * boxes[w].max.x && 2
                    * boxes[w].min.y <= y < 2 * boxes[w].max.y
        }),
{
    law_wells_make_pmos(layout, tech, ext, k);
    let t = ext.transistors@[k];
    let c = middle(t.gate_min, t.gate_max);
    let (x, y) = (t.gate_min.x + t.gate_max.x, t.gate_min.y + t.gate_max.y);
    assert forall|w: int|
        0 <= w < layout.len() && tech.role_of((#[trigger] layout[w]).layer, layout[w].datatype)
            == LayerRole::NWell implies inside(layout[w].ring, c) == (2 * boxes[w].min.x <= x < 2
        * boxes[w].max.x && 2 * boxes[w].min.y <= y < 2 * boxes[w].max.y) by {
        law_inside_any_rectangle(layout[w].ring, boxes[w], c);
    }
}

// ---- terminals ----

/// The box is wider than tall.
pub open spec fn is_wide(b: Bbox) -> bool {
    b.max.x - b.min.x > b.max.y - b.min.y
}

/// The low end of what is between `min` and `max`: its left end if it is
/// looked at from left to right, otherwise its lower end.
pub open spec fn low_end(wide: bool, min: Point) -> int {
    if wide {
        min.x as int
    } else {
        min.y as int
    }
}

/// The high end of what is between `min` and `max`.
pub open spec fn high_end(wide: bool, max: Point) -> int {
    if wide {
        max.x as int
    } else {
        max.y as int
    }
}

/// `r` is as high as the wide box `b`, or as wide as the tall one.
pub open spec fn goes_across(wide: bool, b: Bbox, r: Bbox) -> bool {
    if wide {
        r.min.y == b.min.y && r.max.y == b.max.y
    } else {
        r.min.x == b.min.x && r.max.x == b.max.x
    }
}

/// Device polygon `i` is a rectangle round `r` on the layer of `diff`, which
/// goes across `diff` without area in common with a channel over it.
pub open spec fn is_diffusion_piece(
    ext: Extraction,
    diff_index: usize,
    diff: Shape,
    i: int,
    r: Bbox,
) -> bool {
    let b = ring_bbox(diff.ring);
    let wide = is_wide(b);
    let s = ext.device_polys@[i]@;
    &&& 0 <= i < ext.device_polys@.len()
    &&& s.layer == diff.layer && s.datatype == diff.datatype
    &&& is_solid(r)
    &&& goes_round(s.ring, r)
    &&& goes_across(wide, b, r)
    &&& low_end(wide, b.min) <= low_end(wide, r.min) && high_end(wide, r.max) <= high_end(
        wide,
        b.max,
    )
    &&& forall|l: int|
        0 <= l < ext.transistors@.len() && (#[trigger] ext.transistors@[l]).diff_index
            == diff_index ==> high_end(wide, ext.transistors@[l].gate_max) <= low_end(wide, r.min)
            || high_end(wide, r.max) <= low_end(wide, ext.transistors@[l].gate_min)
}

/// Each transistor has its gate on the net of its poly, which stands in the
/// device layout as it is.
pub proof fn law_gates_are_on_the_net_of_their_poly(
    layout: Seq<Shape>,
    tech: &Tech,
    ext: Extraction,
    k: int,
)
    requires
        ext.extracts(layout, tech),
        layout.len() <= usize::MAX,
        0 <= k < ext.transistors@.len(),
    ensures
        exists|i: int|
            0 <= i < ext.device_polys@.len() && (#[trigger] ext.device_polys@[i])@
                == layout[ext.transistors@[k].poly_index as int] && ext.device_nets.net_of@[i]
                == ext.transistors@[k].gate_net,
{
    let t = ext.transistors@[k];
    let (d, p) = (t.diff_index as int, t.poly_index as int);
    assert(is_gate(layout, tech, d, p));
    assert(t == transistor_at(layout, tech, ext.device_nets.net_of@, d, p));
    lemma_ungated(layout, tech, p);
    law_other_polygons_stay(layout, tech, p);
    let i = device_index(layout, tech, p);
    assert(shapes(ext.device_polys@)[i] == layout[p]);
}

/// Only a diffusion has gates over it.
proof fn lemma_ungated(layout: Seq<Shape>, tech: &Tech, p: int)
    requires
        0 <= p < layout.len() <= usize::MAX,
        shape_role(layout[p], tech) != LayerRole::Diffusion,
    ensures
        gates_over(layout, tech, p).len() == 0,
{
    lemma_gates_listed(layout, tech, p, layout.len() as int);
    if gates_over(layout, tech, p).len() > 0 {
        let g = gates_over(layout, tech, p)[0];
        assert(is_gate(layout, tech, p, g.poly_index as int));
    }
}

/// Device polygon `i`, a rectangle round `r`, is the piece of the diffusion of
/// `t` that ends where the channel begins, or begins where it ends.
pub open spec fn is_piece_beside(
    layout: Seq<Shape>,
    ext: Extraction,
    t: Transistor,
    low_side: bool,
    i: int,
    r: Bbox,
) -> bool {
    let diff = layout[t.diff_index as int];
    let wide = is_wide(ring_bbox(diff.ring));
    &&& is_diffusion_piece(ext, t.diff_index, diff, i, r)
    &&& if low_side {
        high_end(wide, r.max) == low_end(wide, t.gate_min)
    } else {
        low_end(wide, r.min) == high_end(wide, t.gate_max)
    }
}

/// Another channel over the same diffusion covers what lies just before that
/// of `t`, or just after it.
pub open spec fn is_blocked(
    layout: Seq<Shape>,
    ext: Extraction,
    t: Transistor,
    low_side: bool,
    l: int,
) -> bool {
    let wide = is_wide(ring_bbox(layout[t.diff_index as int].ring));
    let u = ext.transistors@[l];
    &&& 0 <= l < ext.transistors@.len()
    &&& u.diff_index == t.diff_index
    &&& if low_side {
        low_end(wide, u.gate_min) < low_end(wide, t.gate_min) <= high_end(wide, u.gate_max)
    } else {
        low_end(wide, u.gate_min) <= high_end(wide, t.gate_max) < high_end(wide, u.gate_max)
    }
}

/// The source of a transistor is on the net of the piece of its diffusion that
/// ends where the channel begins, and its drain on that of the piece that
/// begins where the channel ends, along the longer side of the diffusion. A
/// transistor lacks the one exactly if its channel begins where the diffusion
/// does, or another channel is there, and likewise the other.
pub proof fn law_terminals_are_on_the_pieces_beside_the_channel(
    layout: Seq<Shape>,
    tech: &Tech,
    ext: Extraction,
    k: int,
)
    requires
        ext.extracts(layout, tech),
        layout.len() <= usize::MAX,
        0 <= k < ext.transistors@.len(),
    ensures
        ({
            let t = ext.transistors@[k];
            let b = ring_bbox(layout[t.diff_index as int].ring);
            let wide = is_wide(b);
            &&& match t.source_net {
                Some(net) => exists|i: int, r: Bbox| #[trigger]
                    is_piece_beside(layout, ext, t, true, i, r) && ext.device_nets.net_of@[i]
                        == net,
                None => low_end(wide, t.gate_min) == low_end(wide, b.min) || exists|l: int|
                    #[trigger]
                    is_blocked(layout, ext, t, true, l),
            }
            &&& match t.drain_net {
                Some(net) => exists|i: int, r: Bbox| #[trigger]
                    is_piece_beside(layout, ext, t, false, i, r) && ext.device_nets.net_of@[i]
                        == net,
                None => high_end(wide, t.gate_max) == high_end(wide, b.max) || exists|l: int|
                    #[trigger]
                    is_blocked(layout, ext, t, false, l),
            }
            &&& t.source_net is Some ==> low_end(wide, t.gate_min) != low_end(wide, b.min) && !(
            exists|l: int| #[trigger] is_blocked(layout, ext, t, true, l))
            &&& t.drain_net is Some ==> high_end(wide, t.gate_max) != high_end(wide, b.max) && !(
            exists|l: int| #[trigger] is_blocked(layout, ext, t, false, l))
        }),
{
    let t = ext.transistors@[k];
    let (d, p) = (t.diff_index as int, t.poly_index as int);
    let net_of = ext.device_nets.net_of@;
    assert(is_gate(layout, tech, d, p));
    assert(t == transistor_at(layout, tech, net_of, d, p));
    let b = ring_bbox(layout[d].ring);
    let axis = longer_axis(b);
    let gates = gates_over(layout, tech, d);
    let wide = is_wide(b);
    assert(low_end(wide, t.gate_min) == along(t.gate_min, axis));
    assert(high_end(wide, t.gate_max) == along(t.gate_max, axis));
    law_terminals(layout, tech, net_of, d, p);
    lemma_gate_place(layout, tech, d, p);
    lemma_blocked(layout, tech, ext, t, true);
    lemma_blocked(layout, tech, ext, t, false);
    let regions = conducting(b, gates);
    lemma_region_at(regions, axis, along(t.gate_min, axis), true, 0);
    lemma_region_at(regions, axis, along(t.gate_max, axis), false, 0);
    if t.source_net is Some {
        let n = region_at(regions, axis, along(t.gate_min, axis), true, 0)->0;
        lemma_piece(layout, tech, ext, d, n);
        let i = device_index(layout, tech, d) + n;
        assert(is_piece_beside(layout, ext, t, true, i, regions[n]));
    }
    if t.drain_net is Some {
        let n = region_at(regions, axis, along(t.gate_max, axis), false, 0)->0;
        lemma_piece(layout, tech, ext, d, n);
        let i = device_index(layout, tech, d) + n;
        assert(is_piece_beside(layout, ext, t, false, i, regions[n]));
    }
}

/// The gates over a diffusion are the channels of its transistors.
proof fn lemma_gate_is_channel(
    layout: Seq<Shape>,
    tech: &Tech,
    ext: Extraction,
    d: int,
    g: int,
) -> (l: int)
    requires
        ext.extracts(layout, tech),
        0 <= d < layout.len() <= usize::MAX,
        0 <= g < gates_over(layout, tech, d).len(),
    ensures
        0 <= l < ext.transistors@.len(),
        ext.transistors@[l].diff_index == d,
        ext.transistors@[l].gate_min == gates_over(layout, tech, d)[g].region.min,
        ext.transistors@[l].gate_max == gates_over(layout, tech, d)[g].region.max,
        ext.transistors@[l].poly_index == gates_over(layout, tech, d)[g].poly_index,
{
    lemma_gates_listed(layout, tech, d, layout.len() as int);
    let gate = gates_over(layout, tech, d)[g];
    let p = gate.poly_index as int;
    assert(is_gate(layout, tech, d, p));
    assert(lists(ext.transistors@, d, p));
    let l = choose|l: int|
        0 <= l < ext.transistors@.len() && (#[trigger] ext.transistors@[l]).diff_index == d
            && ext.transistors@[l].poly_index == p;
    assert(ext.transistors@[l] == transistor_at(layout, tech, ext.device_nets.net_of@, d, p));
    l
}

/// The channels of the transistors over a diffusion are its gates.
proof fn lemma_channel_is_gate(
    layout: Seq<Shape>,
    tech: &Tech,
    ext: Extraction,
    l: int,
) -> (g: int)
    requires
        ext.extracts(layout, tech),
        layout.len() <= usize::MAX,
        0 <= l < ext.transistors@.len(),
    ensures
        ({
            let t = ext.transistors@[l];
            let gates = gates_over(layout, tech, t.diff_index as int);
            &&& t.diff_index < layout.len()
            &&& 0 <= g < gates.len()
            &&& gates[g].region.min == t.gate_min
            &&& gates[g].region.max == t.gate_max
            &&& gates[g].poly_index == t.poly_index
        }),
{
    let t = ext.transistors@[l];
    let (d, p) = (t.diff_index as int, t.poly_index as int);
    assert(is_gate(layout, tech, d, p));
    assert(t == transistor_at(layout, tech, ext.device_nets.net_of@, d, p));
    lemma_gates_listed(layout, tech, d, layout.len() as int);
    let gates = gates_over(layout, tech, d);
    let g = choose|g: int| 0 <= g < gates.len() && (#[trigger] gates[g]).poly_index == p;
    assert(gates[g].region == channel(layout[p], layout[d])->0);
    g
}

proof fn lemma_blocked(
    layout: Seq<Shape>,
    tech: &Tech,
    ext: Extraction,
    t: Transistor,
    low_side: bool,
)
    requires
        ext.extracts(layout, tech),
        t.diff_index < layout.len() <= usize::MAX,
    ensures
        ({
            let d = t.diff_index as int;
            let axis = longer_axis(ring_bbox(layout[d].ring));
            let u = if low_side {
                along(t.gate_min, axis) - 1
            } else {
                along(t.gate_max, axis)
            };
            under_gate(gates_over(layout, tech, d), axis, u) <==> exists|l: int| #[trigger]
                is_blocked(layout, ext, t, low_side, l)
        }),
{
    let d = t.diff_index as int;
    let b = ring_bbox(layout[d].ring);
    let axis = longer_axis(b);
    let wide = is_wide(b);
    let gates = gates_over(layout, tech, d);
    let u = if low_side {
        along(t.gate_min, axis) - 1
    } else {
        along(t.gate_max, axis)
    };
    if under_gate(gates, axis, u) {
        let g = choose|g: int|
            0 <= g < gates.len() && along((#[trigger] gates[g]).region.min, axis) <= u < along(
                gates[g].region.max,
                axis,
            );
        let l = lemma_gate_is_channel(layout, tech, ext, d, g);
        assert(is_blocked(layout, ext, t, low_side, l));
    }
    if exists|l: int| #[trigger] is_blocked(layout, ext, t, low_side, l) {
        let l = choose|l: int| #[trigger] is_blocked(layout, ext, t, low_side, l);
        let g = lemma_channel_is_gate(layout, tech, ext, l);
        assert(along(gates[g].region.min, axis) <= u < along(gates[g].region.max, axis));
    }
}

/// A conducting region is a piece of its diffusion.
proof fn lemma_piece(layout: Seq<Shape>, tech: &Tech, ext: Extraction, d: int, n: int)
    requires
        ext.extracts(layout, tech),
        0 <= d < layout.len() <= usize::MAX,
        gates_over(layout, tech, d).len() > 0,
        0 <= n < conducting(ring_bbox(layout[d].ring), gates_over(layout, tech, d)).len(),
    ensures
        is_diffusion_piece(
            ext,
            d as usize,
            layout[d],
            device_index(layout, tech, d) + n,
            conducting(ring_bbox(layout[d].ring), gates_over(layout, tech, d))[n],
        ),
{
    let b = ring_bbox(layout[d].ring);
    let gates = gates_over(layout, tech, d);
    let r = conducting(b, gates)[n];
    let i = device_index(layout, tech, d) + n;
    let axis = longer_axis(b);
    let wide = is_wide(b);
    lemma_gates_fit(layout, tech, d, layout.len() as int);
    assert(gates_fit(b, gates));
    assert(gates[0].region.min.x < gates[0].region.max.x);
    law_stretches(b, gates);
    let s = stretches(b, gates)[n];
    assert(is_stretch(gates, axis, along(b.min, axis), along(b.max, axis), s));
    assert(r == slice(b, axis, s.0, s.1));
    law_regions_stand_in_the_device_layout(layout, tech, d, n);
    assert(shapes(ext.device_polys@)[i] == ext.device_polys@[i]@);
    law_box_ring_goes_round(r, Seq::empty());
    assert forall|l: int|
        0 <= l < ext.transistors@.len() && (#[trigger] ext.transistors@[l]).diff_index
            == d as usize implies high_end(wide, ext.transistors@[l].gate_max) <= low_end(
        wide,
        r.min,
    ) || high_end(wide, r.max) <= low_end(wide, ext.transistors@[l].gate_min) by {
        let g = lemma_channel_is_gate(layout, tech, ext, l);
        let (lo, hi) = (along(gates[g].region.min, axis), along(gates[g].region.max, axis));
        if lo < s.1 && s.0 < hi {
            let u = if s.0 >= lo {
                s.0
            } else {
                lo
            };
            assert(lo <= u < hi);
            assert(gates_fit(b, gates));
            assert(under_gate(gates, axis, u));
        }
    }
}

/// A polygon over which no transistor is listed stands in the device layout as
/// it is.
pub proof fn law_polygons_without_a_gate_stay(
    layout: Seq<Shape>,
    tech: &Tech,
    ext: Extraction,
    i: int,
)
    requires
        ext.extracts(layout, tech),
        0 <= i < layout.len() <= usize::MAX,
        forall|k: int|
            0 <= k < ext.transistors@.len() ==> (#[trigger] ext.transistors@[k]).diff_index != i,
    ensures
        exists|j: int|
            0 <= j < ext.device_polys@.len() && (#[trigger] ext.device_polys@[j])@ == layout[i],
{
    if gates_over(layout, tech, i).len() > 0 {
        let l = lemma_gate_is_channel(layout, tech, ext, i, 0);
    }
    law_other_polygons_stay(layout, tech, i);
    assert(shapes(ext.device_polys@)[device_index(layout, tech, i)] == layout[i]);
}

/// The gates that cut a diffusion are the channels of the transistors over it,
/// one for one, in the order of their polys.
pub proof fn law_cuts_are_channels(
    layout: Seq<Shape>,
    tech: &Tech,
    ext: Extraction,
    d: int,
    g: int,
    l: int,
)
    requires
        ext.extracts(layout, tech),
        0 <= d < layout.len() <= usize::MAX,
    ensures
        ({
            let gates = gates_over(layout, tech, d);
            &&& 0 <= g < gates.len() ==> exists|k: int|
                0 <= k < ext.transistors@.len() && (#[trigger] ext.transistors@[k]).diff_index == d
                    && ext.transistors@[k].gate_min == gates[g].region.min
                    && ext.transistors@[k].gate_max == gates[g].region.max
                    && ext.transistors@[k].poly_index == gates[g].poly_index
            &&& 0 <= l < ext.transistors@.len() && ext.transistors@[l].diff_index == d ==> exists|
                h: int,
            |
                0 <= h < gates.len() && (#[trigger] gates[h]).poly_index
                    == ext.transistors@[l].poly_index && gates[h].region.min
                    == ext.transistors@[l].gate_min && gates[h].region.max
                    == ext.transistors@[l].gate_max
            &&& 0 < g < gates.len() ==> gates[g - 1].poly_index < gates[g].poly_index
        }),
{
    lemma_gates_listed(layout, tech, d, layout.len() as int);
    let gates = gates_over(layout, tech, d);
    if 0 <= g < gates.len() {
        let k = lemma_gate_is_channel(layout, tech, ext, d, g);
        assert(ext.transistors@[k].diff_index == d);
    }
    if 0 <= l < ext.transistors@.len() && ext.transistors@[l].diff_index == d {
        let h = lemma_channel_is_gate(layout, tech, ext, l);
        assert(gates[h].poly_index == ext.transistors@[l].poly_index);
    }
}

/// The device layout holds nothing else: from the first polygon to the last,
/// one polygon for each that no channel cuts, and the pieces of each other.
pub proof fn law_device_polygons_follow_the_layout(
    layout: Seq<Shape>,
    tech: &Tech,
    ext: Extraction,
    i: int,
)
    requires
        ext.extracts(layout, tech),
        0 <= i < layout.len() <= usize::MAX,
    ensures
        ({
            let gates = gates_over(layout, tech, i);
            let at = device_index(layout, tech, i);
            let next = device_index(layout, tech, i + 1);
            &&& device_index(layout, tech, 0) == 0
            &&& device_index(layout, tech, layout.len() as int) == ext.device_polys@.len()
            &&& gates.len() == 0 ==> next == at + 1 && ext.device_polys@[at]@ == layout[i]
            &&& gates.len() > 0 ==> next == at + conducting(ring_bbox(layout[i].ring), gates).len()
        }),
{
    assert(shapes(ext.device_polys@).len() == ext.device_polys@.len());
    if gates_over(layout, tech, i).len() == 0 {
        law_other_polygons_stay(layout, tech, i);
        assert(shapes(ext.device_polys@)[device_index(layout, tech, i)] == layout[i]);
    }
}

// ---- the pieces of a diffusion ----

/// `x` is between the left and the right end of the channel of gate `g`.
pub open spec fn covers_x(gates: Seq<Gate>, g: int, x: int) -> bool {
    0 <= g < gates.len() && gates[g].region.min.x <= x < gates[g].region.max.x
}

/// `y` is between the lower and the upper end of the channel of gate `g`.
pub open spec fn covers_y(gates: Seq<Gate>, g: int, y: int) -> bool {
    0 <= g < gates.len() && gates[g].region.min.y <= y < gates[g].region.max.y
}

/// The pieces of a diffusion that is wider than tall are what its channels
/// leave of it from left to right, each as high as the diffusion, in rising
/// order and apart from each other.
pub proof fn law_wide_diffusions_are_cut_from_left_to_right(
    b: Bbox,
    gates: Seq<Gate>,
    r: int,
    q: int,
    x: int,
)
    requires
        b.max.x - b.min.x > b.max.y - b.min.y,
        b.min.x <= b.max.x,
    ensures
        ({
            let pieces = conducting(b, gates);
            &&& 0 <= r < pieces.len() ==> pieces[r].min.y == b.min.y && pieces[r].max.y == b.max.y
                && pieces[r].min.x < pieces[r].max.x
            &&& 0 <= r < q < pieces.len() ==> pieces[r].max.x < pieces[q].min.x
            &&& (exists|n: int|
                0 <= n < pieces.len() && (#[trigger] pieces[n]).min.x <= x < pieces[n].max.x) <==> (
            b.min.x <= x < b.max.x && !(exists|g: int| #[trigger] covers_x(gates, g, x)))
        }),
{
    let pieces = conducting(b, gates);
    let s = stretches(b, gates);
    law_stretches(b, gates);
    assert(longer_axis(b) == 0);
    assert forall|n: int| 0 <= n < s.len() implies (#[trigger] pieces[n]).min.x == s[n].0
        && pieces[n].max.x == s[n].1 && b.min.x <= s[n].0 < s[n].1 <= b.max.x by {
        assert(is_stretch(gates, 0, b.min.x as int, b.max.x as int, s[n]));
    }
    if exists|g: int| #[trigger] covers_x(gates, g, x) {
        let g = choose|g: int| #[trigger] covers_x(gates, g, x);
        assert(along(gates[g].region.min, 0) <= x < along(gates[g].region.max, 0));
        assert(under_gate(gates, 0, x));
    }
    if under_gate(gates, 0, x) {
        let g = choose|g: int|
            0 <= g < gates.len() && along((#[trigger] gates[g]).region.min, 0) <= x < along(
                gates[g].region.max,
                0,
            );
        assert(covers_x(gates, g, x));
    }
    if exists|n: int|
        0 <= n < pieces.len() && (#[trigger] pieces[n]).min.x <= x < pieces[n].max.x {
        let n = choose|n: int|
            0 <= n < pieces.len() && (#[trigger] pieces[n]).min.x <= x < pieces[n].max.x;
        assert(is_stretch(gates, 0, b.min.x as int, b.max.x as int, s[n]));
        assert(!under_gate(gates, 0, x));
    }
    if b.min.x <= x < b.max.x && !under_gate(gates, 0, x) {
        assert(in_some_run(s, x));
        let n = choose|n: int| 0 <= n < s.len() && (#[trigger] s[n]).0 <= x < s[n].1;
        assert(pieces[n].min.x <= x < pieces[n].max.x);
    }
    if 0 <= r < q < pieces.len() {
        assert(s[r].1 < s[q].0);
        assert(pieces[r].max.x == s[r].1);
        assert(pieces[q].min.x == s[q].0);
    }
    if 0 <= r < pieces.len() {
        assert(pieces[r] == slice(b, 0, s[r].0, s[r].1));
        assert(pieces[r].min.x == s[r].0);
    }
}

/// The pieces of any other diffusion are what its channels leave of it from
/// low to high, each as wide as the diffusion, in rising order and apart from
/// each other.
pub proof fn law_tall_diffusions_are_cut_from_low_to_high(
    b: Bbox,
    gates: Seq<Gate>,
    r: int,
    q: int,
    y: int,
)
    requires
        b.max.x - b.min.x <= b.max.y - b.min.y,
        b.min.y <= b.max.y,
    ensures
        ({
            let pieces = conducting(b, gates);
            &&& 0 <= r < pieces.len() ==> pieces[r].min.x == b.min.x && pieces[r].max.x == b.max.x
                && pieces[r].min.y < pieces[r].max.y
            &&& 0 <= r < q < pieces.len() ==> pieces[r].max.y < pieces[q].min.y
            &&& (exists|n: int|
                0 <= n < pieces.len() && (#[trigger] pieces[n]).min.y <= y < pieces[n].max.y) <==> (
            b.min.y <= y < b.max.y && !(exists|g: int| #[trigger] covers_y(gates, g, y)))
        }),
{
    let pieces = conducting(b, gates);
    let s = stretches(b, gates);
    law_stretches(b, gates);
    assert(longer_axis(b) == 1);
    assert forall|n: int| 0 <= n < s.len() implies (#[trigger] pieces[n]).min.y == s[n].0
        && pieces[n].max.y == s[n].1 && b.min.y <= s[n].0 < s[n].1 <= b.max.y by {
        assert(is_stretch(gates, 1, b.min.y as int, b.max.y as int, s[n]));
    }
    if exists|g: int| #[trigger] covers_y(gates, g, y) {
        let g = choose|g: int| #[trigger] covers_y(gates, g, y);
        assert(along(gates[g].region.min, 1) <= y < along(gates[g].region.max, 1));
        assert(under_gate(gates, 1, y));
    }
    if under_gate(gates, 1, y) {
        let g = choose|g: int|
            0 <= g < gates.len() && along((#[trigger] gates[g]).region.min, 1) <= y < along(
                gates[g].region.max,
                1,
            );
        assert(covers_y(gates, g, y));
    }
    if exists|n: int|
        0 <= n < pieces.len() && (#[trigger] pieces[n]).min.y <= y < pieces[n].max.y {
        let n = choose|n: int|
            0 <= n < pieces.len() && (#[trigger] pieces[n]).min.y <= y < pieces[n].max.y;
        assert(is_stretch(gates, 1, b.min.y as int, b.max.y as int, s[n]));
        assert(!under_gate(gates, 1, y));
    }
    if b.min.y <= y < b.max.y && !under_gate(gates, 1, y) {
        assert(in_some_run(s, y));
        let n = choose|n: int| 0 <= n < s.len() && (#[trigger] s[n]).0 <= y < s[n].1;
        assert(pieces[n].min.y <= y < pieces[n].max.y);
    }
    if 0 <= r < q < pieces.len() {
        assert(s[r].1 < s[q].0);
        assert(pieces[r].max.y == s[r].1);
        assert(pieces[q].min.y == s[q].0);
    }
    if 0 <= r < pieces.len() {
        assert(pieces[r] == slice(b, 1, s[r].0, s[r].1));
        assert(pieces[r].min.y == s[r].0);
    }
}

// ---- a spot in the device layout ----

/// The device polygon at a spot is the first that holds it.
pub proof fn law_spots_belong_to_the_first_polygon(layout: Seq<Shape>, p: Spot, j: int)
    ensures
        match device_holding(layout, p, 0) {
            Some(i) => 0 <= i < layout.len() && inside(layout[i].ring, p) && (0 <= j < i
                ==> !inside(layout[j].ring, p)),
            None => 0 <= j < layout.len() ==> !inside(layout[j].ring, p),
        },
{
    lemma_first_holding(layout, p, 0, j);
}

proof fn lemma_first_holding(layout: Seq<Shape>, p: Spot, from: int, j: int)
    requires
        0 <= from,
    ensures
        match device_holding(layout, p, from) {
            Some(i) => from <= i < layout.len() && inside(layout[i].ring, p) && (from <= j < i
                ==> !inside(layout[j].ring, p)),
            None => from <= j < layout.len() ==> !inside(layout[j].ring, p),
        },
    decreases layout.len() - from,
{
    if from < layout.len() && !inside(layout[from].ring, p) {
        lemma_first_holding(layout, p, from + 1, j);
    }
}

} // verus!
