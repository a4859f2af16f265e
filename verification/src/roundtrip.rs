//! Generated cells extract to the netlist they were generated from.
//!
//! The layout of a cell is made of pieces, each of which belongs to one net.
//! Two pieces connect only if they belong to the same net, and every piece is
//! connected to the track of its net. So the nets of the extraction are those
//! of the netlist, and each column is one transistor.

use vstd::prelude::*;

use crate::celllib::{box_of, cell_layout, cell_nets, cell_tiles, column_base, column_wiring};
use crate::celllib::{column_x, columns_upto, law_tracks, net_name, nets_upto, part_layer};
use crate::celllib::{pin_x, pin_y, probe_point, tile_box, tile_shape, tile_shapes, track_of};
use crate::celllib::{track_y, Mos, Part, Pin, Tile, MAX_COLUMNS};
use crate::gds::{inside, ring_bbox, shapes, Bbox, Shape};
use crate::geometry::{at, connected, connects, link, rings_touch, shape_role, spot_at};
use crate::geometry::{law_connected_reflexive, law_connected_symmetric};
use crate::geometry::law_connected_transitive;
use crate::graph::{lemma_closed_holds_reached, lemma_step_reached};
use crate::rectangles::{is_solid, law_box_of_ring, law_inside_rectangle, law_rectangles_touch};
use crate::tech::{default_style, LayerRole, Tech};
use crate::transistors::{along, center, channel, conducting, device_holding, device_index};
use crate::transistors::device_layout;
use crate::transistors::{gates_among, gates_over, in_nwell, is_gate, lemma_one_list};
use crate::transistors::{lemma_runs_covered, lemma_runs_open, listed_before, lists};
use crate::transistors::{lists_transistors, longer_axis, open_runs, refined, refined_upto};
use crate::transistors::{region_at, shared_box, stretches, transistor_at, under_gate};
use crate::transistors::{Extraction, Gate, Transistor, TransistorKind};

verus! {

/// The technology gives every pair the style of the built-in technology.
pub open spec fn is_default(tech: &Tech) -> bool {
    forall|l: i16, d: i16| #[trigger] tech.style(l, d) == default_style(l, d)
}

// ---- where the pieces lie ----

/// The piece is one of the cell.
pub open spec fn is_piece(mos: Seq<Mos>, t: Tile) -> bool {
    match t.part {
        Part::Track => 0 <= t.n < cell_nets(mos).len(),
        Part::NWell => 0 <= t.n < mos.len() && mos[t.n].p,
        _ => 0 <= t.n < mos.len(),
    }
}

proof fn lemma_net_count(mos: Seq<Mos>, k: int)
    requires
        0 <= k,
    ensures
        nets_upto(mos, k).len() <= 3 * k,
    decreases k,
{
    if k > 0 {
        lemma_net_count(mos, k - 1);
    }
}

/// The role of a piece.
spec fn part_role(part: Part) -> LayerRole {
    match part {
        Part::Track => LayerRole::Conductor,
        Part::Diffusion | Part::Low | Part::High => LayerRole::Diffusion,
        Part::NWell => LayerRole::NWell,
        Part::Poly => LayerRole::Poly,
        Part::Contact(_) => LayerRole::Via,
        Part::Stub(_) => LayerRole::Conductor,
        Part::Via(_) => LayerRole::Via,
    }
}

proof fn lemma_role(mos: Seq<Mos>, tech: &Tech, t: Tile)
    requires
        is_default(tech),
    ensures
        shape_role(tile_shape(mos, t), tech) == part_role(t.part),
{
    let l = part_layer(t.part);
    assert(tech.style(l, 0) == default_style(l, 0));
}

/// The edges of a piece, as numbers.
spec fn left(mos: Seq<Mos>, t: Tile) -> int {
    match t.part {
        Part::Track => -200,
        Part::Diffusion | Part::Low => column_x(t.n),
        Part::High => column_x(t.n) + 700,
        Part::NWell => column_x(t.n) - 100,
        Part::Poly => column_x(t.n) + 500,
        Part::Contact(pin) | Part::Stub(pin) | Part::Via(pin) => column_x(t.n) + pin_x(pin),
    }
}

spec fn right(mos: Seq<Mos>, t: Tile) -> int {
    match t.part {
        Part::Track => 1400 + column_x(mos.len() as int),
        Part::Diffusion | Part::High => column_x(t.n) + 1200,
        Part::Low => column_x(t.n) + 500,
        Part::NWell => column_x(t.n) + 1300,
        Part::Poly => column_x(t.n) + 700,
        Part::Contact(pin) | Part::Stub(pin) | Part::Via(pin) => column_x(t.n) + pin_x(pin) + 200,
    }
}

spec fn bottom(mos: Seq<Mos>, t: Tile) -> int {
    match t.part {
        Part::Track => track_y(t.n),
        Part::Diffusion | Part::Low | Part::High => 0,
        Part::NWell => -300,
        Part::Poly => -200,
        Part::Contact(pin) | Part::Stub(pin) => pin_y(pin),
        Part::Via(pin) => track_y(track_of(mos, net_name(mos[t.n], pin))),
    }
}

spec fn top(mos: Seq<Mos>, t: Tile) -> int {
    match t.part {
        Part::Track => track_y(t.n) + 200,
        Part::Diffusion | Part::Low | Part::High => 600,
        Part::NWell => 900,
        Part::Poly => 1000,
        Part::Contact(pin) => pin_y(pin) + 200,
        Part::Stub(pin) | Part::Via(pin) => track_y(track_of(mos, net_name(mos[t.n], pin))) + 200,
    }
}

/// The pieces lie in the range of the database.
proof fn lemma_tile_box(mos: Seq<Mos>, t: Tile)
    requires
        is_piece(mos, t),
        mos.len() <= MAX_COLUMNS,
    ensures
        tile_box(mos, t).min.x == left(mos, t),
        tile_box(mos, t).max.x == right(mos, t),
        tile_box(mos, t).min.y == bottom(mos, t),
        tile_box(mos, t).max.y == top(mos, t),
        is_solid(tile_box(mos, t)),
        left(mos, t) < right(mos, t),
        bottom(mos, t) < top(mos, t),
{
    lemma_net_count(mos, mos.len() as int);
    law_tracks(mos);
    match t.part {
        Part::Stub(pin) => {
            assert(0 <= track_of(mos, net_name(mos[t.n], pin)) < cell_nets(mos).len());
        },
        Part::Via(pin) => {
            assert(0 <= track_of(mos, net_name(mos[t.n], pin)) < cell_nets(mos).len());
        },
        _ => {},
    }
}

/// The pieces overlap.
spec fn meet(mos: Seq<Mos>, t: Tile, u: Tile) -> bool {
    &&& left(mos, t) <= right(mos, u)
    &&& left(mos, u) <= right(mos, t)
    &&& bottom(mos, t) <= top(mos, u)
    &&& bottom(mos, u) <= top(mos, t)
}

/// Pieces connect where they overlap on one layer or at a via.
proof fn lemma_connects(mos: Seq<Mos>, tech: &Tech, t: Tile, u: Tile)
    requires
        is_piece(mos, t),
        is_piece(mos, u),
        mos.len() <= MAX_COLUMNS,
        is_default(tech),
    ensures
        connects(tile_shape(mos, t), tile_shape(mos, u), tech) <==> {
            &&& part_role(t.part) != LayerRole::NWell
            &&& part_role(u.part) != LayerRole::NWell
            &&& part_layer(t.part) == part_layer(u.part) || part_role(t.part) == LayerRole::Via
                || part_role(u.part) == LayerRole::Via
            &&& meet(mos, t, u)
        },
{
    lemma_role(mos, tech, t);
    lemma_role(mos, tech, u);
    lemma_tile_box(mos, t);
    lemma_tile_box(mos, u);
    law_rectangles_touch(tile_box(mos, t), tile_box(mos, u));
}

// ---- the net of a piece ----

/// The net to which a piece of the device layout belongs.
pub open spec fn signal(mos: Seq<Mos>, t: Tile) -> Option<Seq<char>> {
    match t.part {
        Part::Track => Some(cell_nets(mos)[t.n]),
        Part::Low => Some(net_name(mos[t.n], Pin::Source)),
        Part::High => Some(net_name(mos[t.n], Pin::Drain)),
        Part::Poly => Some(net_name(mos[t.n], Pin::Gate)),
        Part::Contact(pin) | Part::Stub(pin) | Part::Via(pin) => Some(net_name(mos[t.n], pin)),
        Part::Diffusion | Part::NWell => None,
    }
}

/// The terminal to which a piece of a column belongs.
spec fn lane(part: Part) -> Pin {
    match part {
        Part::Low => Pin::Source,
        Part::High => Pin::Drain,
        Part::Contact(pin) | Part::Stub(pin) | Part::Via(pin) => pin,
        _ => Pin::Gate,
    }
}

/// The part is in a column of the device layout and carries a signal.
spec fn in_column(part: Part) -> bool {
    part != Part::Track && part != Part::NWell && part != Part::Diffusion
}

/// Pieces of one column that connect belong to one terminal.
proof fn lemma_same_lane(mos: Seq<Mos>, t: Tile, u: Tile)
    requires
        is_piece(mos, t),
        is_piece(mos, u),
        mos.len() <= MAX_COLUMNS,
        in_column(t.part),
        in_column(u.part),
        meet(mos, t, u),
        part_layer(t.part) == part_layer(u.part) || part_role(t.part) == LayerRole::Via
            || part_role(u.part) == LayerRole::Via,
    ensures
        t.n == u.n,
        lane(t.part) == lane(u.part),
{
    lemma_tile_box(mos, t);
    lemma_tile_box(mos, u);
    law_tracks(mos);
    assert(column_x(t.n) <= left(mos, t) && right(mos, t) <= column_x(t.n) + 1200);
    assert(column_x(u.n) <= left(mos, u) && right(mos, u) <= column_x(u.n) + 1200);
    assert(t.n == u.n);
    let x = column_x(t.n);
    assert(lane(t.part) == Pin::Source ==> x <= left(mos, t) && right(mos, t) <= x + 500);
    assert(lane(u.part) == Pin::Source ==> x <= left(mos, u) && right(mos, u) <= x + 500);
    assert(lane(t.part) == Pin::Gate ==> left(mos, t) == x + 500 && right(mos, t) == x + 700);
    assert(lane(u.part) == Pin::Gate ==> left(mos, u) == x + 500 && right(mos, u) == x + 700);
    assert(lane(t.part) == Pin::Drain ==> x + 700 <= left(mos, t));
    assert(lane(u.part) == Pin::Drain ==> x + 700 <= left(mos, u));
    match t.part {
        Part::Via(pin) => {
            assert(0 <= track_of(mos, net_name(mos[t.n], pin)));
        },
        _ => {},
    }
    match u.part {
        Part::Via(pin) => {
            assert(0 <= track_of(mos, net_name(mos[u.n], pin)));
        },
        _ => {},
    }
}

/// Pieces that connect belong to one net.
proof fn lemma_connected_pieces_share_signal(mos: Seq<Mos>, tech: &Tech, t: Tile, u: Tile)
    requires
        is_piece(mos, t),
        is_piece(mos, u),
        t.part != Part::Diffusion,
        u.part != Part::Diffusion,
        mos.len() <= MAX_COLUMNS,
        is_default(tech),
        connects(tile_shape(mos, t), tile_shape(mos, u), tech),
    ensures
        signal(mos, t) is Some,
        signal(mos, t) == signal(mos, u),
{
    lemma_connects(mos, tech, t, u);
    lemma_tile_box(mos, t);
    lemma_tile_box(mos, u);
    law_tracks(mos);
    if t.part == Part::Track && u.part == Part::Track {
        assert(t.n == u.n);
    } else if t.part == Part::Track {
        lemma_track_tap(mos, t, u);
    } else if u.part == Part::Track {
        lemma_track_tap(mos, u, t);
    } else {
        lemma_same_lane(mos, t, u);
    }
}

/// What connects to a track is a via of its net.
proof fn lemma_track_tap(mos: Seq<Mos>, t: Tile, u: Tile)
    requires
        is_piece(mos, t),
        is_piece(mos, u),
        mos.len() <= MAX_COLUMNS,
        t.part == Part::Track,
        in_column(u.part),
        meet(mos, t, u),
        part_layer(u.part) == 5 || part_role(u.part) == LayerRole::Via,
    ensures
        signal(mos, t) == signal(mos, u),
{
    law_tracks(mos);
    match u.part {
        Part::Via(pin) => {
            let i = track_of(mos, net_name(mos[u.n], pin));
            assert(0 <= i < cell_nets(mos).len() && cell_nets(mos)[i] == net_name(mos[u.n], pin));
            assert(i == t.n);
        },
        Part::Contact(pin) => {
            assert(pin_y(pin) + 200 <= 1000);
        },
        _ => {},
    }
}

// ---- the place of a piece in the list ----

/// The pieces of column `c`.
spec fn column(mos: Seq<Mos>, c: int) -> Seq<Tile> {
    column_base(mos, c) + column_wiring(c)
}

/// Where column `c` begins in the list of pieces.
spec fn column_start(mos: Seq<Mos>, c: int) -> int {
    (cell_nets(mos).len() + columns_upto(mos, c).len()) as int
}

/// Where the poly gate of column `c` stands in the list of pieces.
spec fn poly_place(mos: Seq<Mos>, c: int) -> int {
    column_start(mos, c) + column_base(mos, c).len()
}

/// Place `i` of the first `k` columns lies in one of them.
proof fn lemma_find_column(mos: Seq<Mos>, i: int, k: int) -> (c: int)
    requires
        0 <= k <= mos.len(),
        0 <= i < columns_upto(mos, k).len(),
    ensures
        0 <= c < k,
        columns_upto(mos, c).len() <= i < columns_upto(mos, c).len() + column(mos, c).len(),
        columns_upto(mos, k)[i] == column(mos, c)[i - columns_upto(mos, c).len()],
    decreases k,
{
    let before = columns_upto(mos, k - 1);
    assert(columns_upto(mos, k) =~= before + column(mos, k - 1));
    if i < before.len() {
        lemma_find_column(mos, i, k - 1)
    } else {
        k - 1
    }
}

/// The pieces of column `c` stand from its beginning on.
proof fn lemma_column_at(mos: Seq<Mos>, c: int, j: int, k: int)
    requires
        0 <= c < k <= mos.len(),
        0 <= j < column(mos, c).len(),
    ensures
        columns_upto(mos, c).len() + column(mos, c).len() <= columns_upto(mos, k).len(),
        columns_upto(mos, k)[columns_upto(mos, c).len() + j] == column(mos, c)[j],
    decreases k,
{
    assert(columns_upto(mos, k) =~= columns_upto(mos, k - 1) + column(mos, k - 1));
    if c < k - 1 {
        lemma_column_at(mos, c, j, k - 1);
    }
}

/// What stands at place `i` of the list of pieces.
proof fn lemma_piece_at(mos: Seq<Mos>, i: int)
    requires
        0 <= i < cell_tiles(mos).len(),
    ensures
        is_piece(mos, cell_tiles(mos)[i]),
        cell_tiles(mos)[i].part != Part::Low,
        cell_tiles(mos)[i].part != Part::High,
        cell_tiles(mos)[i].part == Part::Poly ==> i == poly_place(mos, cell_tiles(mos)[i].n),
        cell_tiles(mos)[i].part == Part::Diffusion ==> i == column_start(
            mos,
            cell_tiles(mos)[i].n,
        ),
{
    let tracks = cell_nets(mos).len() as int;
    if i >= tracks {
        let k = mos.len() as int;
        assert(cell_tiles(mos)[i] == columns_upto(mos, k)[i - tracks]);
        let c = lemma_find_column(mos, i - tracks, k);
    } else {
        assert(cell_tiles(mos)[i] == (Tile { part: Part::Track, n: i }));
    }
}

/// Piece `j` of column `c` stands in the list of pieces.
proof fn lemma_column_piece(mos: Seq<Mos>, c: int, j: int)
    requires
        0 <= c < mos.len(),
        0 <= j < column(mos, c).len(),
    ensures
        column_start(mos, c) + j < cell_tiles(mos).len(),
        cell_tiles(mos)[column_start(mos, c) + j] == column(mos, c)[j],
{
    lemma_column_at(mos, c, j, mos.len() as int);
}

// ---- the gates ----

/// The channel of column `c`.
pub open spec fn channel_box(c: int) -> Bbox {
    box_of(column_x(c) + 500, 0, column_x(c) + 700, 600)
}

/// A poly crosses a diffusion exactly if they are of one column.
proof fn lemma_is_gate(mos: Seq<Mos>, tech: &Tech, d: int, p: int)
    requires
        mos.len() <= MAX_COLUMNS,
        is_default(tech),
        0 <= d < cell_tiles(mos).len(),
        0 <= p < cell_tiles(mos).len(),
    ensures
        is_gate(cell_layout(mos), tech, d, p) <==> cell_tiles(mos)[d].part == Part::Diffusion
            && cell_tiles(mos)[p].part == Part::Poly && cell_tiles(mos)[d].n == cell_tiles(
            mos,
        )[p].n,
        is_gate(cell_layout(mos), tech, d, p) ==> channel(
            cell_layout(mos)[p],
            cell_layout(mos)[d],
        ) == Some(channel_box(cell_tiles(mos)[d].n)),
{
    let t = cell_tiles(mos)[d];
    let u = cell_tiles(mos)[p];
    lemma_piece_at(mos, d);
    lemma_piece_at(mos, p);
    lemma_role(mos, tech, t);
    lemma_role(mos, tech, u);
    assert(cell_layout(mos)[d] == tile_shape(mos, t));
    assert(cell_layout(mos)[p] == tile_shape(mos, u));
    if t.part == Part::Diffusion && u.part == Part::Poly {
        lemma_tile_box(mos, t);
        lemma_tile_box(mos, u);
        let (bt, bu) = (tile_box(mos, t), tile_box(mos, u));
        law_box_of_ring(bt);
        law_box_of_ring(bu);
        if t.n == u.n {
            let b = channel_box(t.n);
            assert(shared_box(bu, bt) == Some(b));
            law_inside_rectangle(bt, center(b));
            law_inside_rectangle(bu, center(b));
        } else {
            assert(shared_box(bu, bt) is None);
        }
    }
}

/// The gates over a piece among the first `k` pieces: the poly of its column
/// over a diffusion, none over anything else.
proof fn lemma_gates_among(mos: Seq<Mos>, tech: &Tech, d: int, k: int)
    requires
        mos.len() <= MAX_COLUMNS,
        is_default(tech),
        0 <= d < cell_tiles(mos).len(),
        0 <= k <= cell_tiles(mos).len() <= usize::MAX,
    ensures
        ({
            let t = cell_tiles(mos)[d];
            let p = poly_place(mos, t.n);
            gates_among(cell_layout(mos), tech, d, k) == if t.part == Part::Diffusion && p < k {
                seq![Gate { poly_index: p as usize, region: channel_box(t.n) }]
            } else {
                Seq::<Gate>::empty()
            }
        }),
    decreases k,
{
    let t = cell_tiles(mos)[d];
    let p = poly_place(mos, t.n);
    if k > 0 {
        lemma_gates_among(mos, tech, d, k - 1);
        lemma_is_gate(mos, tech, d, k - 1);
        lemma_piece_at(mos, k - 1);
        if t.part == Part::Diffusion && p == k - 1 {
            lemma_piece_at(mos, d);
            let c = t.n;
            let j = column_base(mos, c).len() as int;
            lemma_column_piece(mos, c, j);
            assert(column(mos, c)[j] == column_wiring(c)[0]);
            assert(cell_tiles(mos)[p] == (Tile { part: Part::Poly, n: c }));
        }
    } else if t.part == Part::Diffusion {
        lemma_piece_at(mos, d);
        assert(p >= 0);
    }
}

/// The conducting regions of a diffusion: what is left and right of its gate.
proof fn lemma_regions(mos: Seq<Mos>, c: int, p: usize)
    requires
        mos.len() <= MAX_COLUMNS,
        0 <= c < mos.len(),
    ensures
        ({
            let b = tile_box(mos, Tile { part: Part::Diffusion, n: c });
            let gates = seq![Gate { poly_index: p, region: channel_box(c) }];
            &&& longer_axis(b) == 0
            &&& conducting(b, gates) == seq![
                tile_box(mos, Tile { part: Part::Low, n: c }),
                tile_box(mos, Tile { part: Part::High, n: c }),
            ]
        }),
{
    let d = Tile { part: Part::Diffusion, n: c };
    let low = Tile { part: Part::Low, n: c };
    let high = Tile { part: Part::High, n: c };
    lemma_tile_box(mos, d);
    lemma_tile_box(mos, low);
    lemma_tile_box(mos, high);
    let b = tile_box(mos, d);
    let gates = seq![Gate { poly_index: p, region: channel_box(c) }];
    let x = column_x(c);
    assert(gates[0].region.min.x == x + 500 && gates[0].region.max.x == x + 700);
    assert forall|u: int| x <= u < x + 500 implies !#[trigger] under_gate(gates, 0, u) by {}
    assert forall|u: int| x + 700 <= u < x + 1200 implies !#[trigger] under_gate(
        gates,
        0,
        u,
    ) by {}
    assert forall|u: int| x + 500 <= u < x + 700 implies #[trigger] under_gate(gates, 0, u) by {
        assert(along(gates[0].region.min, 0) <= u < along(gates[0].region.max, 0));
    }
    lemma_runs_open(gates, 0, x, x, x + 500, x + 1200);
    assert(under_gate(gates, 0, x + 500));
    lemma_runs_covered(gates, 0, x + 501, x + 700, x + 1200);
    lemma_runs_open(gates, 0, x + 700, x + 700, x + 1200, x + 1200);
    assert(open_runs(gates, 0, x + 700, x + 1200, x + 1200) =~= seq![(x + 700, x + 1200)]);
    assert(stretches(b, gates) =~= seq![(x, x + 500), (x + 700, x + 1200)]);
    assert(conducting(b, gates) =~= seq![tile_box(mos, low), tile_box(mos, high)]);
}

// ---- the device layout ----

/// What a piece becomes in the device layout: a diffusion becomes the parts
/// beside its gate.
spec fn split(t: Tile) -> Seq<Tile> {
    if t.part == Part::Diffusion {
        seq![Tile { part: Part::Low, n: t.n }, Tile { part: Part::High, n: t.n }]
    } else {
        seq![t]
    }
}

/// What the first `k` pieces become.
spec fn split_upto(tiles: Seq<Tile>, k: int) -> Seq<Tile>
    decreases k,
{
    if k <= 0 {
        Seq::empty()
    } else {
        split_upto(tiles, k - 1) + split(tiles[k - 1])
    }
}

/// The pieces of the device layout.
spec fn device_tiles(mos: Seq<Mos>) -> Seq<Tile> {
    split_upto(cell_tiles(mos), cell_tiles(mos).len() as int)
}

proof fn lemma_refined(mos: Seq<Mos>, tech: &Tech, i: int)
    requires
        mos.len() <= MAX_COLUMNS,
        is_default(tech),
        0 <= i < cell_tiles(mos).len() <= usize::MAX,
    ensures
        refined(cell_layout(mos), tech, i) == tile_shapes(mos, split(cell_tiles(mos)[i])),
{
    let layout = cell_layout(mos);
    let t = cell_tiles(mos)[i];
    lemma_gates_among(mos, tech, i, cell_tiles(mos).len() as int);
    assert(layout.len() == cell_tiles(mos).len());
    assert(layout[i] == tile_shape(mos, t));
    if t.part == Part::Diffusion {
        lemma_piece_at(mos, i);
        lemma_column_piece(mos, t.n, column_base(mos, t.n).len() as int);
        let p = poly_place(mos, t.n);
        assert(p < layout.len());
        lemma_tile_box(mos, t);
        law_box_of_ring(tile_box(mos, t));
        lemma_regions(mos, t.n, p as usize);
        assert(refined(layout, tech, i) =~= tile_shapes(mos, split(t)));
    } else {
        assert(refined(layout, tech, i) =~= tile_shapes(mos, split(t)));
    }
}

proof fn lemma_refined_upto(mos: Seq<Mos>, tech: &Tech, k: int)
    requires
        mos.len() <= MAX_COLUMNS,
        is_default(tech),
        0 <= k <= cell_tiles(mos).len() <= usize::MAX,
    ensures
        refined_upto(cell_layout(mos), tech, k) == tile_shapes(
            mos,
            split_upto(cell_tiles(mos), k),
        ),
    decreases k,
{
    if k > 0 {
        lemma_refined_upto(mos, tech, k - 1);
        lemma_refined(mos, tech, k - 1);
    }
    assert(refined_upto(cell_layout(mos), tech, k) =~= tile_shapes(
        mos,
        split_upto(cell_tiles(mos), k),
    ));
}

/// What piece `i` becomes stands in the device layout.
proof fn lemma_split_at(tiles: Seq<Tile>, i: int, k: int)
    requires
        0 <= i < k <= tiles.len(),
    ensures
        split_upto(tiles, i).len() + split(tiles[i]).len() <= split_upto(tiles, k).len(),
        forall|r: int|
            0 <= r < split(tiles[i]).len() ==> split_upto(tiles, k)[split_upto(tiles, i).len() + r]
                == #[trigger] split(tiles[i])[r],
    decreases k,
{
    if i < k - 1 {
        lemma_split_at(tiles, i, k - 1);
    }
}

/// What stands at place `j` of the device layout is a piece of it.
proof fn lemma_device_piece(mos: Seq<Mos>, j: int, k: int)
    requires
        0 <= k <= cell_tiles(mos).len(),
        0 <= j < split_upto(cell_tiles(mos), k).len(),
    ensures
        is_piece(mos, split_upto(cell_tiles(mos), k)[j]),
        split_upto(cell_tiles(mos), k)[j].part != Part::Diffusion,
    decreases k,
{
    if k > 0 {
        let before = split_upto(cell_tiles(mos), k - 1);
        if j < before.len() {
            lemma_device_piece(mos, j, k - 1);
        } else {
            lemma_piece_at(mos, k - 1);
        }
    }
}

/// Track `i` stands at place `i` of the device layout.
proof fn lemma_track_place(mos: Seq<Mos>, i: int)
    requires
        0 <= i <= cell_nets(mos).len(),
    ensures
        split_upto(cell_tiles(mos), i).len() == i,
    decreases i,
{
    if i > 0 {
        lemma_track_place(mos, i - 1);
        assert(cell_tiles(mos)[i - 1] == (Tile { part: Part::Track, n: i - 1 }));
    }
}

/// The pieces of a cell can be counted.
proof fn lemma_tile_count(mos: Seq<Mos>, k: int)
    requires
        0 <= k,
    ensures
        columns_upto(mos, k).len() <= 12 * k,
    decreases k,
{
    if k > 0 {
        lemma_tile_count(mos, k - 1);
    }
}

/// A piece of column `c` that carries a signal stands in the device layout.
proof fn lemma_column_piece_place(mos: Seq<Mos>, c: int, part: Part) -> (j: int)
    requires
        0 <= c < mos.len(),
        in_column(part),
    ensures
        0 <= j < device_tiles(mos).len(),
        device_tiles(mos)[j] == (Tile { part, n: c }),
        part == Part::Low ==> j == split_upto(cell_tiles(mos), column_start(mos, c)).len(),
        part == Part::High ==> j == split_upto(cell_tiles(mos), column_start(mos, c)).len() + 1,
        part == Part::Poly ==> j == split_upto(cell_tiles(mos), poly_place(mos, c)).len(),
{
    let tiles = cell_tiles(mos);
    let n = tiles.len() as int;
    let base = column_base(mos, c).len() as int;
    let (o, r): (int, int) = match part {
        Part::Low => (0, 0),
        Part::High => (0, 1),
        Part::Poly => (base, 0),
        Part::Contact(Pin::Source) => (base + 1, 0),
        Part::Contact(Pin::Drain) => (base + 2, 0),
        Part::Contact(Pin::Gate) => (base + 3, 0),
        Part::Stub(Pin::Source) => (base + 4, 0),
        Part::Via(Pin::Source) => (base + 5, 0),
        Part::Stub(Pin::Drain) => (base + 6, 0),
        Part::Via(Pin::Drain) => (base + 7, 0),
        Part::Stub(Pin::Gate) => (base + 8, 0),
        _ => (base + 9, 0),
    };
    lemma_column_piece(mos, c, o);
    let i = column_start(mos, c) + o;
    if o >= base {
        assert(column(mos, c)[o] == column_wiring(c)[o - base]);
    }
    lemma_split_at(tiles, i, n);
    assert(split(tiles[i])[r] == (Tile { part, n: c }));
    split_upto(tiles, i).len() + r
}

/// Pieces of the device layout are on one net exactly if they belong to one
/// net of the netlist.
proof fn lemma_nets(mos: Seq<Mos>, tech: &Tech, i: int, j: int)
    requires
        mos.len() <= MAX_COLUMNS,
        is_default(tech),
        0 <= i < device_tiles(mos).len(),
        0 <= j < device_tiles(mos).len(),
        signal(mos, device_tiles(mos)[i]) is Some,
        signal(mos, device_tiles(mos)[j]) is Some,
    ensures
        connected(tile_shapes(mos, device_tiles(mos)), tech, i, j) <==> signal(
            mos,
            device_tiles(mos)[i],
        ) == signal(mos, device_tiles(mos)[j]),
{
    let tiles = device_tiles(mos);
    let layout = tile_shapes(mos, tiles);
    let n = cell_tiles(mos).len() as int;
    if connected(layout, tech, i, j) {
        let step = link(layout, tech);
        let held = |k: int|
            0 <= k < tiles.len() && signal(mos, tiles[k]) == signal(mos, tiles[i]);
        assert forall|a: int, b: int| held(a) && #[trigger] step(a, b) implies held(b) by {
            lemma_device_piece(mos, a, n);
            lemma_device_piece(mos, b, n);
            lemma_connected_pieces_share_signal(mos, tech, tiles[a], tiles[b]);
        }
        lemma_closed_holds_reached(at(i), step, held, j);
    }
    if signal(mos, tiles[i]) == signal(mos, tiles[j]) {
        let t = lemma_to_track(mos, tech, i);
        let u = lemma_to_track(mos, tech, j);
        law_tracks(mos);
        assert(t == u);
        law_connected_symmetric(layout, tech, j, u);
        law_connected_transitive(layout, tech, i, t, j);
    }
}

/// A direct connection of two pieces of the device layout.
proof fn lemma_linked(mos: Seq<Mos>, tech: &Tech, i: int, j: int)
    requires
        mos.len() <= MAX_COLUMNS,
        is_default(tech),
        0 <= i < device_tiles(mos).len(),
        0 <= j < device_tiles(mos).len(),
        connects(
            tile_shape(mos, device_tiles(mos)[i]),
            tile_shape(mos, device_tiles(mos)[j]),
            tech,
        ),
    ensures
        connected(tile_shapes(mos, device_tiles(mos)), tech, i, j),
{
    let layout = tile_shapes(mos, device_tiles(mos));
    law_connected_reflexive(layout, tech, i);
    assert(link(layout, tech)(i, j));
    lemma_step_reached(at(i), link(layout, tech), i, j);
}

/// Every piece that belongs to a net is connected to the track of that net.
proof fn lemma_to_track(mos: Seq<Mos>, tech: &Tech, i: int) -> (t: int)
    requires
        mos.len() <= MAX_COLUMNS,
        is_default(tech),
        0 <= i < device_tiles(mos).len(),
        signal(mos, device_tiles(mos)[i]) is Some,
    ensures
        0 <= t < cell_nets(mos).len(),
        signal(mos, device_tiles(mos)[i]) == Some(cell_nets(mos)[t]),
        connected(tile_shapes(mos, device_tiles(mos)), tech, i, t),
    decreases rank(device_tiles(mos)[i].part),
{
    let tiles = device_tiles(mos);
    let layout = tile_shapes(mos, tiles);
    let tile = tiles[i];
    let c = tile.n;
    lemma_device_piece(mos, i, cell_tiles(mos).len() as int);
    lemma_tile_box(mos, tile);
    law_tracks(mos);
    match tile.part {
        Part::Track => {
            lemma_track_tile(mos, c);
            lemma_connects(mos, tech, tile, tile);
            lemma_linked(mos, tech, i, c);
            c
        },
        Part::Via(pin) => {
            let t = track_of(mos, net_name(mos[c], pin));
            assert(0 <= t < cell_nets(mos).len());
            lemma_track_tile(mos, t);
            lemma_tile_box(mos, tiles[t]);
            lemma_connects(mos, tech, tile, tiles[t]);
            lemma_linked(mos, tech, i, t);
            t
        },
        _ => {
            let next = match tile.part {
                Part::Low => Part::Contact(Pin::Source),
                Part::High => Part::Contact(Pin::Drain),
                Part::Poly => Part::Contact(Pin::Gate),
                Part::Contact(pin) => Part::Stub(pin),
                Part::Stub(pin) => Part::Via(pin),
                _ => Part::Via(Pin::Gate),
            };
            let j = lemma_column_piece_place(mos, c, next);
            lemma_tile_box(mos, tiles[j]);
            assert(0 <= track_of(mos, net_name(mos[c], lane(tile.part))));
            lemma_connects(mos, tech, tile, tiles[j]);
            lemma_linked(mos, tech, i, j);
            let t = lemma_to_track(mos, tech, j);
            law_connected_transitive(layout, tech, i, j, t);
            t
        },
    }
}

/// How far a piece is from its track.
spec fn rank(part: Part) -> int {
    match part {
        Part::Track => 0,
        Part::Via(_) => 1,
        Part::Stub(_) => 2,
        Part::Contact(_) => 3,
        _ => 4,
    }
}

/// Track `t` stands at place `t` of the device layout.
proof fn lemma_track_tile(mos: Seq<Mos>, t: int)
    requires
        0 <= t < cell_nets(mos).len(),
    ensures
        t < device_tiles(mos).len(),
        device_tiles(mos)[t] == (Tile { part: Part::Track, n: t }),
{
    let tiles = cell_tiles(mos);
    lemma_track_place(mos, t);
    lemma_split_at(tiles, t, tiles.len() as int);
    assert(tiles[t] == (Tile { part: Part::Track, n: t }));
    assert(split(tiles[t])[0] == tiles[t]);
}

// ---- the transistors ----

/// The net of a terminal of an extracted transistor.
pub open spec fn terminal_net(t: Transistor, pin: Pin) -> Option<u32> {
    match pin {
        Pin::Source => t.source_net,
        Pin::Drain => t.drain_net,
        Pin::Gate => Some(t.gate_net),
    }
}

/// The part of a column that a terminal is.
spec fn terminal_part(pin: Pin) -> Part {
    match pin {
        Pin::Source => Part::Low,
        Pin::Drain => Part::High,
        Pin::Gate => Part::Poly,
    }
}

/// The transistor of column `c`.
spec fn column_transistor(mos: Seq<Mos>, tech: &Tech, net_of: Seq<u32>, c: int) -> Transistor {
    transistor_at(
        cell_layout(mos),
        tech,
        net_of,
        column_start(mos, c),
        poly_place(mos, c),
    )
}

/// The centre of the channel of a column is in an n-well exactly if its
/// transistor is a PMOS.
proof fn lemma_kind(mos: Seq<Mos>, tech: &Tech, c: int)
    requires
        mos.len() <= MAX_COLUMNS,
        is_default(tech),
        0 <= c < mos.len(),
    ensures
        in_nwell(cell_layout(mos), tech, center(channel_box(c))) == mos[c].p,
{
    let layout = cell_layout(mos);
    let spot = center(channel_box(c));
    let x = column_x(c);
    assert(spot.x == 2 * x + 1200 && spot.y == 600 && spot.unit == 2);
    if mos[c].p {
        lemma_column_piece(mos, c, 1);
        let w = column_start(mos, c) + 1;
        let t = Tile { part: Part::NWell, n: c };
        assert(column(mos, c)[1] == t);
        assert(layout[w] == tile_shape(mos, t));
        lemma_role(mos, tech, t);
        lemma_tile_box(mos, t);
        law_inside_rectangle(tile_box(mos, t), spot);
        assert(shape_role(layout[w], tech) == LayerRole::NWell && inside(layout[w].ring, spot));
    }
    if in_nwell(layout, tech, spot) {
        let w = choose|w: int|
            0 <= w < layout.len() && shape_role(#[trigger] layout[w], tech) == LayerRole::NWell
                && inside(layout[w].ring, spot);
        let t = cell_tiles(mos)[w];
        assert(layout[w] == tile_shape(mos, t));
        lemma_piece_at(mos, w);
        lemma_role(mos, tech, t);
        lemma_tile_box(mos, t);
        law_inside_rectangle(tile_box(mos, t), spot);
        assert(t.n == c);
    }
}

/// The terminals of the transistor of column `c` are the parts of its column.
proof fn lemma_column_transistor(mos: Seq<Mos>, tech: &Tech, net_of: Seq<u32>, c: int)
    requires
        mos.len() <= MAX_COLUMNS,
        is_default(tech),
        0 <= c < mos.len(),
        cell_tiles(mos).len() <= usize::MAX,
    ensures
        ({
            let t = column_transistor(mos, tech, net_of, c);
            &&& is_gate(cell_layout(mos), tech, column_start(mos, c), poly_place(mos, c))
            &&& t.kind == if mos[c].p {
                TransistorKind::Pmos
            } else {
                TransistorKind::Nmos
            }
            &&& t.gate_net == net_of[device_index(cell_layout(mos), tech, poly_place(mos, c))]
            &&& t.source_net == Some(
                net_of[device_index(cell_layout(mos), tech, column_start(mos, c))],
            )
            &&& t.drain_net == Some(
                net_of[device_index(cell_layout(mos), tech, column_start(mos, c)) + 1],
            )
        }),
{
    let layout = cell_layout(mos);
    let tiles = cell_tiles(mos);
    let base = column_base(mos, c).len() as int;
    let d = column_start(mos, c);
    let p = poly_place(mos, c);
    let diff = Tile { part: Part::Diffusion, n: c };
    lemma_column_piece(mos, c, 0);
    lemma_column_piece(mos, c, base);
    assert(column(mos, c)[0] == diff);
    assert(column(mos, c)[base] == column_wiring(c)[0]);
    lemma_is_gate(mos, tech, d, p);
    lemma_kind(mos, tech, c);
    lemma_gates_among(mos, tech, d, tiles.len() as int);
    assert(layout[d] == tile_shape(mos, diff));
    lemma_tile_box(mos, diff);
    law_box_of_ring(tile_box(mos, diff));
    lemma_regions(mos, c, p as usize);
    let low = Tile { part: Part::Low, n: c };
    let high = Tile { part: Part::High, n: c };
    lemma_tile_box(mos, low);
    lemma_tile_box(mos, high);
    let regions = conducting(ring_bbox(layout[d].ring), gates_over(layout, tech, d));
    assert(layout.len() == tiles.len());
    assert(regions == seq![tile_box(mos, low), tile_box(mos, high)]);
    let x = column_x(c);
    reveal_with_fuel(region_at, 3);
    assert(region_at(regions, 0, x + 500, true, 0) == Some(0int));
    assert(region_at(regions, 0, x + 700, false, 0) == Some(1int));
}

proof fn lemma_columns_rise(mos: Seq<Mos>, c: int, e: int)
    requires
        0 <= c < e,
    ensures
        column_start(mos, c) < column_start(mos, e),
    decreases e,
{
    if c < e - 1 {
        lemma_columns_rise(mos, c, e - 1);
    }
}

/// A generated cell extracts to its netlist. The extraction has one
/// transistor per transistor of the netlist, in the same order and of the
/// same type, every terminal is on a net, and two terminals are on one net
/// exactly if the netlist wires them to the same net.
pub proof fn law_cell_extracts_to_its_netlist(mos: Seq<Mos>, tech: &Tech, ext: Extraction)
    requires
        mos.len() <= MAX_COLUMNS,
        is_default(tech),
        ext.extracts(cell_layout(mos), tech),
    ensures
        ext.transistors@.len() == mos.len(),
        forall|c: int|
            0 <= c < mos.len() ==> (#[trigger] ext.transistors@[c]).kind == if mos[c].p {
                TransistorKind::Pmos
            } else {
                TransistorKind::Nmos
            },
        forall|c: int, pin: Pin|
            0 <= c < mos.len() ==> #[trigger] terminal_net(ext.transistors@[c], pin) is Some,
        forall|c: int, pin: Pin, e: int, other: Pin|
            0 <= c < mos.len() && 0 <= e < mos.len() ==> (#[trigger] terminal_net(
                ext.transistors@[c],
                pin,
            ) == #[trigger] terminal_net(ext.transistors@[e], other) <==> net_name(mos[c], pin)
                == net_name(mos[e], other)),
{
    let layout = cell_layout(mos);
    let tiles = cell_tiles(mos);
    let net_of = ext.device_nets.net_of@;
    let n = mos.len() as int;
    lemma_tile_count(mos, n);
    lemma_net_count(mos, n);
    assert(tiles.len() <= usize::MAX);
    assert(layout.len() == tiles.len());
    lemma_refined_upto(mos, tech, tiles.len() as int);
    let list = Seq::new(mos.len(), |c: int| column_transistor(mos, tech, net_of, c));
    lemma_column_list(mos, tech, net_of, list);
    lemma_one_list(ext.transistors@, list, layout, tech, net_of);
    assert forall|c: int| 0 <= c < n implies (#[trigger] ext.transistors@[c]).kind == if mos[c].p {
        TransistorKind::Pmos
    } else {
        TransistorKind::Nmos
    } by {
        lemma_column_transistor(mos, tech, net_of, c);
    }
    assert forall|c: int, pin: Pin| 0 <= c < n implies #[trigger] terminal_net(
        ext.transistors@[c],
        pin,
    ) is Some by {
        lemma_terminal(mos, tech, net_of, c, pin);
    }
    assert forall|c: int, pin: Pin, e: int, other: Pin| 0 <= c < n && 0 <= e < n implies (
    #[trigger] terminal_net(ext.transistors@[c], pin) == #[trigger] terminal_net(
        ext.transistors@[e],
        other,
    ) <==> net_name(mos[c], pin) == net_name(mos[e], other)) by {
        let i = lemma_terminal(mos, tech, net_of, c, pin);
        let j = lemma_terminal(mos, tech, net_of, e, other);
        lemma_nets(mos, tech, i, j);
        assert(net_of[i] == net_of[j] <==> connected(device_layout(layout, tech), tech, i, j));
    }
}

/// The place in the device layout of a terminal of column `c`.
proof fn lemma_terminal(
    mos: Seq<Mos>,
    tech: &Tech,
    net_of: Seq<u32>,
    c: int,
    pin: Pin,
) -> (i: int)
    requires
        mos.len() <= MAX_COLUMNS,
        is_default(tech),
        0 <= c < mos.len(),
        cell_tiles(mos).len() <= usize::MAX,
    ensures
        0 <= i < device_tiles(mos).len(),
        signal(mos, device_tiles(mos)[i]) == Some(net_name(mos[c], pin)),
        terminal_net(column_transistor(mos, tech, net_of, c), pin) == Some(net_of[i]),
{
    lemma_column_transistor(mos, tech, net_of, c);
    let base = column_base(mos, c).len() as int;
    lemma_column_piece(mos, c, base);
    lemma_refined_upto(mos, tech, column_start(mos, c));
    lemma_refined_upto(mos, tech, poly_place(mos, c));
    lemma_column_piece_place(mos, c, terminal_part(pin))
}

/// The transistors of the columns are the transistors of the layout.
proof fn lemma_column_list(
    mos: Seq<Mos>,
    tech: &Tech,
    net_of: Seq<u32>,
    list: Seq<Transistor>,
)
    requires
        mos.len() <= MAX_COLUMNS,
        is_default(tech),
        cell_tiles(mos).len() <= usize::MAX,
        list == Seq::new(mos.len(), |c: int| column_transistor(mos, tech, net_of, c)),
    ensures
        lists_transistors(list, cell_layout(mos), tech, net_of),
{
    let layout = cell_layout(mos);
    assert(layout.len() == cell_tiles(mos).len());
    assert forall|c: int| 0 <= c < list.len() implies {
        let t = #[trigger] list[c];
        &&& t.diff_index == column_start(mos, c)
        &&& t.poly_index == poly_place(mos, c)
        &&& is_gate(layout, tech, t.diff_index as int, t.poly_index as int)
        &&& t == transistor_at(layout, tech, net_of, t.diff_index as int, t.poly_index as int)
    } by {
        lemma_column_transistor(mos, tech, net_of, c);
    }
    assert forall|c: int, e: int| 0 <= c < e < list.len() implies listed_before(
        #[trigger] list[c],
        #[trigger] list[e],
    ) by {
        lemma_columns_rise(mos, c, e);
    }
    assert forall|d: int, p: int| #[trigger] is_gate(layout, tech, d, p) implies lists(
        list,
        d,
        p,
    ) by {
        lemma_is_gate(mos, tech, d, p);
        lemma_piece_at(mos, d);
        lemma_piece_at(mos, p);
        let c = cell_tiles(mos)[d].n;
        assert(list[c].diff_index == d && list[c].poly_index == p);
    }
}

/// A generated cell is small enough to be extracted.
pub proof fn law_cell_can_be_extracted(mos: Seq<Mos>, tech: &Tech)
    requires
        mos.len() <= MAX_COLUMNS,
        is_default(tech),
    ensures
        device_layout(cell_layout(mos), tech).len() <= 0x1_0000_0000,
{
    let n = mos.len() as int;
    let tiles = cell_tiles(mos);
    lemma_tile_count(mos, n);
    lemma_net_count(mos, n);
    assert(tiles.len() <= usize::MAX);
    assert(cell_layout(mos).len() == tiles.len());
    lemma_refined_upto(mos, tech, tiles.len() as int);
    lemma_split_count(tiles, tiles.len() as int);
}

proof fn lemma_split_count(tiles: Seq<Tile>, k: int)
    requires
        0 <= k,
    ensures
        split_upto(tiles, k).len() <= 2 * k,
    decreases k,
{
    if k > 0 {
        lemma_split_count(tiles, k - 1);
    }
}

/// The probe of a net finds it: the first device polygon at the probe point
/// of a net is its track, and the net there is that of every terminal which
/// the netlist wires to it.
pub proof fn law_probes_find_their_nets(mos: Seq<Mos>, tech: &Tech, ext: Extraction, i: int)
    requires
        mos.len() <= MAX_COLUMNS,
        is_default(tech),
        ext.extracts(cell_layout(mos), tech),
        0 <= i < cell_nets(mos).len(),
    ensures
        device_holding(shapes(ext.device_polys@), spot_at(probe_point(i)), 0) == Some(i),
        forall|c: int, pin: Pin|
            0 <= c < mos.len() ==> (#[trigger] terminal_net(ext.transistors@[c], pin) == Some(
                ext.device_nets.net_of@[i],
            ) <==> net_name(mos[c], pin) == cell_nets(mos)[i]),
{
    let layout = cell_layout(mos);
    let tiles = cell_tiles(mos);
    let net_of = ext.device_nets.net_of@;
    let n = mos.len() as int;
    lemma_tile_count(mos, n);
    lemma_net_count(mos, n);
    assert(tiles.len() <= usize::MAX);
    assert(layout.len() == tiles.len());
    lemma_refined_upto(mos, tech, tiles.len() as int);
    lemma_probe(mos, i, 0);
    lemma_track_tile(mos, i);
    let list = Seq::new(mos.len(), |c: int| column_transistor(mos, tech, net_of, c));
    lemma_column_list(mos, tech, net_of, list);
    lemma_one_list(ext.transistors@, list, layout, tech, net_of);
    assert forall|c: int, pin: Pin| 0 <= c < n implies (#[trigger] terminal_net(
        ext.transistors@[c],
        pin,
    ) == Some(net_of[i]) <==> net_name(mos[c], pin) == cell_nets(mos)[i]) by {
        let j = lemma_terminal(mos, tech, net_of, c, pin);
        lemma_nets(mos, tech, i, j);
        assert(net_of[i] == net_of[j] <==> connected(device_layout(layout, tech), tech, i, j));
    }
}

/// Every net of the netlist has a net of its own in the extraction: that of
/// its track, on which its terminals are.
pub proof fn law_nets_of_a_cell_stay_apart(
    mos: Seq<Mos>,
    tech: &Tech,
    ext: Extraction,
    i: int,
    j: int,
)
    requires
        mos.len() <= MAX_COLUMNS,
        is_default(tech),
        ext.extracts(cell_layout(mos), tech),
        0 <= i < cell_nets(mos).len(),
        0 <= j < cell_nets(mos).len(),
    ensures
        ext.device_nets.net_of@[i] == ext.device_nets.net_of@[j] <==> i == j,
        forall|c: int, pin: Pin|
            0 <= c < mos.len() ==> #[trigger] terminal_net(ext.transistors@[c], pin) == Some(
                ext.device_nets.net_of@[track_of(mos, net_name(mos[c], pin))],
            ),
{
    let layout = cell_layout(mos);
    let tiles = cell_tiles(mos);
    let net_of = ext.device_nets.net_of@;
    let n = mos.len() as int;
    lemma_tile_count(mos, n);
    lemma_net_count(mos, n);
    assert(tiles.len() <= usize::MAX);
    assert(layout.len() == tiles.len());
    lemma_refined_upto(mos, tech, tiles.len() as int);
    lemma_track_tile(mos, i);
    lemma_track_tile(mos, j);
    law_tracks(mos);
    lemma_nets(mos, tech, i, j);
    assert(net_of[i] == net_of[j] <==> connected(device_layout(layout, tech), tech, i, j));
    assert forall|c: int, pin: Pin| 0 <= c < n implies #[trigger] terminal_net(
        ext.transistors@[c],
        pin,
    ) == Some(net_of[track_of(mos, net_name(mos[c], pin))]) by {
        let t = track_of(mos, net_name(mos[c], pin));
        assert(cell_nets(mos).contains(net_name(mos[c], pin)));
        law_probes_find_their_nets(mos, tech, ext, t);
    }
}

proof fn lemma_probe(mos: Seq<Mos>, i: int, k: int)
    requires
        mos.len() <= MAX_COLUMNS,
        0 <= k <= i < cell_nets(mos).len(),
    ensures
        device_holding(
            tile_shapes(mos, device_tiles(mos)),
            spot_at(probe_point(i)),
            k,
        ) == Some(i),
    decreases i - k,
{
    let p = spot_at(probe_point(i));
    let t = Tile { part: Part::Track, n: k };
    lemma_net_count(mos, mos.len() as int);
    lemma_track_tile(mos, k);
    lemma_tile_box(mos, t);
    law_inside_rectangle(tile_box(mos, t), p);
    assert(p.x == 0 && p.y == track_y(i) + 100 && p.unit == 1);
    if k < i {
        lemma_probe(mos, i, k + 1);
    }
}

/// Tracks never touch each other.
pub proof fn law_tracks_never_touch(mos: Seq<Mos>, i: int, j: int)
    requires
        mos.len() <= MAX_COLUMNS,
        0 <= i < cell_nets(mos).len(),
        0 <= j < cell_nets(mos).len(),
        i != j,
    ensures
        !rings_touch(
            tile_shape(mos, Tile { part: Part::Track, n: i }).ring,
            tile_shape(mos, Tile { part: Part::Track, n: j }).ring,
        ),
{
    let t = Tile { part: Part::Track, n: i };
    let u = Tile { part: Part::Track, n: j };
    lemma_tile_box(mos, t);
    lemma_tile_box(mos, u);
    law_rectangles_touch(tile_box(mos, t), tile_box(mos, u));
}

/// Stubs never touch each other.
pub proof fn law_stubs_never_touch(mos: Seq<Mos>, c: int, pin: Pin, e: int, other: Pin)
    requires
        mos.len() <= MAX_COLUMNS,
        0 <= c < mos.len(),
        0 <= e < mos.len(),
        c != e || pin != other,
    ensures
        !rings_touch(
            tile_shape(mos, Tile { part: Part::Stub(pin), n: c }).ring,
            tile_shape(mos, Tile { part: Part::Stub(other), n: e }).ring,
        ),
{
    let t = Tile { part: Part::Stub(pin), n: c };
    let u = Tile { part: Part::Stub(other), n: e };
    lemma_tile_box(mos, t);
    lemma_tile_box(mos, u);
    law_rectangles_touch(tile_box(mos, t), tile_box(mos, u));
}

/// A stub does not connect to the tracks it crosses.
pub proof fn law_stubs_do_not_connect_to_tracks(
    mos: Seq<Mos>,
    tech: &Tech,
    c: int,
    pin: Pin,
    i: int,
)
    requires
        mos.len() <= MAX_COLUMNS,
        is_default(tech),
        0 <= c < mos.len(),
        0 <= i < cell_nets(mos).len(),
    ensures
        !connects(
            tile_shape(mos, Tile { part: Part::Stub(pin), n: c }),
            tile_shape(mos, Tile { part: Part::Track, n: i }),
            tech,
        ),
{
    lemma_connects(
        mos,
        tech,
        Tile { part: Part::Stub(pin), n: c },
        Tile { part: Part::Track, n: i },
    );
}

// ---- the layout in numbers ----

/// The shape is the rectangle from `(x0, y0)` to `(x1, y1)` on `layer`.
pub open spec fn is_rectangle(s: Shape, layer: i16, x0: int, y0: int, x1: int, y1: int) -> bool {
    &&& s.layer == layer && s.datatype == 0
    &&& s.ring.len() == 4
    &&& s.ring[0].x == x0 && s.ring[0].y == y0
    &&& s.ring[1].x == x1 && s.ring[1].y == y0
    &&& s.ring[2].x == x1 && s.ring[2].y == y1
    &&& s.ring[3].x == x0 && s.ring[3].y == y1
}

/// How many polygons the columns before column `c` have: eleven each, and a
/// well for a PMOS.
pub open spec fn polygons_of_columns(mos: Seq<Mos>, c: int) -> int
    decreases c,
{
    if c <= 0 {
        0
    } else {
        polygons_of_columns(mos, c - 1) + if mos[c - 1].p {
            12int
        } else {
            11
        }
    }
}

proof fn lemma_column_count(mos: Seq<Mos>, c: int)
    requires
        0 <= c,
    ensures
        columns_upto(mos, c).len() == polygons_of_columns(mos, c),
    decreases c,
{
    if c > 0 {
        lemma_column_count(mos, c - 1);
    }
}

/// The tracks of a cell come first, one for each net: 200 high, 400 from each
/// other, from 200 left of the origin to 200 right of where another column
/// would end. The probe of a net is at the middle of its track, above the
/// origin.
pub proof fn law_tracks_are_evenly_spaced(mos: Seq<Mos>, i: int)
    requires
        mos.len() <= MAX_COLUMNS,
        0 <= i < cell_nets(mos).len(),
    ensures
        cell_layout(mos).len() == cell_nets(mos).len() + polygons_of_columns(
            mos,
            mos.len() as int,
        ),
        is_rectangle(
            cell_layout(mos)[i],
            5,
            -200,
            1200 + 400 * i,
            1800 + 2000 * (mos.len() as int),
            1400 + 400 * i,
        ),
        probe_point(i).x == 0,
        probe_point(i).y == 1300 + 400 * i,
{
    lemma_net_count(mos, mos.len() as int);
    lemma_column_count(mos, mos.len() as int);
    assert(cell_tiles(mos)[i] == (Tile { part: Part::Track, n: i }));
}

/// Piece `j` of column `c` in the layout.
proof fn lemma_column_shape(mos: Seq<Mos>, c: int, j: int)
    requires
        0 <= c < mos.len(),
        0 <= j < column(mos, c).len(),
    ensures
        column_start(mos, c) == cell_nets(mos).len() + polygons_of_columns(mos, c),
        column_start(mos, c) + j < cell_layout(mos).len(),
        cell_layout(mos)[column_start(mos, c) + j] == tile_shape(mos, column(mos, c)[j]),
{
    lemma_column_count(mos, c);
    lemma_column_piece(mos, c, j);
}

/// The shape of a piece of column `c` is the rectangle of its box.
proof fn lemma_piece_is_rectangle(mos: Seq<Mos>, c: int, part: Part, track: int)
    requires
        mos.len() <= MAX_COLUMNS,
        0 <= c < mos.len(),
        part is Diffusion || part is NWell || part is Poly || part is Contact || part is Stub
            || part is Via,
        part is Stub || part is Via ==> {
            let name = net_name(mos[c], if part is Stub { part->Stub_0 } else { part->Via_0 });
            0 <= track < cell_nets(mos).len() && cell_nets(mos)[track] == name
        },
    ensures
        ({
            let x = 400 + 2000 * c;
            let y = 1200 + 400 * track;
            let s = tile_shape(mos, Tile { part, n: c });
            let layer = part_layer(part);
            match part {
                Part::Diffusion => is_rectangle(s, layer, x, 0, x + 1200, 600),
                Part::NWell => is_rectangle(s, layer, x - 100, -300, x + 1300, 900),
                Part::Poly => is_rectangle(s, layer, x + 500, -200, x + 700, 1000),
                Part::Contact(pin) => is_rectangle(
                    s,
                    layer,
                    x + pin_x(pin),
                    pin_y(pin),
                    x + pin_x(pin) + 200,
                    pin_y(pin) + 200,
                ),
                Part::Stub(pin) => is_rectangle(
                    s,
                    layer,
                    x + pin_x(pin),
                    pin_y(pin),
                    x + pin_x(pin) + 200,
                    y + 200,
                ),
                Part::Via(pin) => is_rectangle(
                    s,
                    layer,
                    x + pin_x(pin),
                    y,
                    x + pin_x(pin) + 200,
                    y + 200,
                ),
                _ => true,
            }
        }),
{
    if part is Stub || part is Via {
        lemma_net_count(mos, mos.len() as int);
        law_tracks(mos);
        let pin = if part is Stub {
            part->Stub_0
        } else {
            part->Via_0
        };
        assert(track_of(mos, net_name(mos[c], pin)) == track);
    }
}

/// The shapes of column `c`, a diffusion, a well for a PMOS, a poly across the
/// diffusion, a contact on each terminal, and a stub from each contact to the
/// track of its net, with a via where it gets there.
#[verifier::spinoff_prover]
pub proof fn law_columns_are_drawn_to_measure(mos: Seq<Mos>, c: int, ta: int, tb: int, tg: int)
    requires
        mos.len() <= MAX_COLUMNS,
        0 <= c < mos.len(),
        0 <= ta < cell_nets(mos).len() && cell_nets(mos)[ta] == mos[c].a@,
        0 <= tb < cell_nets(mos).len() && cell_nets(mos)[tb] == mos[c].b@,
        0 <= tg < cell_nets(mos).len() && cell_nets(mos)[tg] == mos[c].gate@,
    ensures
        ({
            let l = cell_layout(mos);
            let first = cell_nets(mos).len() + polygons_of_columns(mos, c);
            let w: int = first + if mos[c].p {
                2int
            } else {
                1
            };
            let x = 400 + 2000 * c;
            let (ya, yb, yg) = (1200 + 400 * ta, 1200 + 400 * tb, 1200 + 400 * tg);
            &&& w + 9 < l.len()
            &&& is_rectangle(l[first], 2, x, 0, x + 1200, 600)
            &&& mos[c].p ==> is_rectangle(l[first + 1], 8, x - 100, -300, x + 1300, 900)
            &&& is_rectangle(l[w], 1, x + 500, -200, x + 700, 1000)
            &&& is_rectangle(l[w + 1], 3, x + 200, 200, x + 400, 400)
            &&& is_rectangle(l[w + 2], 3, x + 850, 200, x + 1050, 400)
            &&& is_rectangle(l[w + 3], 3, x + 500, 800, x + 700, 1000)
            &&& is_rectangle(l[w + 4], 4, x + 200, 200, x + 400, ya + 200)
            &&& is_rectangle(l[w + 5], 7, x + 200, ya, x + 400, ya + 200)
            &&& is_rectangle(l[w + 6], 4, x + 850, 200, x + 1050, yb + 200)
            &&& is_rectangle(l[w + 7], 7, x + 850, yb, x + 1050, yb + 200)
            &&& is_rectangle(l[w + 8], 4, x + 500, 800, x + 700, yg + 200)
            &&& is_rectangle(l[w + 9], 7, x + 500, yg, x + 700, yg + 200)
        }),
{
    let base = column_base(mos, c).len() as int;
    let wiring = column_wiring(c);
    let pieces = column(mos, c);
    assert(pieces.len() == base + 10);
    assert forall|j: int| 0 <= j < 10 implies #[trigger] pieces[base + j] == wiring[j] by {}
    assert(pieces[0] == column_base(mos, c)[0]);
    lemma_column_shape(mos, c, 0);
    lemma_piece_is_rectangle(mos, c, Part::Diffusion, 0);
    if mos[c].p {
        assert(pieces[1] == column_base(mos, c)[1]);
        lemma_column_shape(mos, c, 1);
        lemma_piece_is_rectangle(mos, c, Part::NWell, 0);
    }
    assert(pieces[base + 0] == wiring[0]);
    lemma_column_shape(mos, c, base + 0);
    lemma_piece_is_rectangle(mos, c, Part::Poly, 0);
    assert(pieces[base + 1] == wiring[1]);
    lemma_column_shape(mos, c, base + 1);
    lemma_piece_is_rectangle(mos, c, Part::Contact(Pin::Source), 0);
    assert(pieces[base + 2] == wiring[2]);
    lemma_column_shape(mos, c, base + 2);
    lemma_piece_is_rectangle(mos, c, Part::Contact(Pin::Drain), 0);
    assert(pieces[base + 3] == wiring[3]);
    lemma_column_shape(mos, c, base + 3);
    lemma_piece_is_rectangle(mos, c, Part::Contact(Pin::Gate), 0);
    assert(pieces[base + 4] == wiring[4]);
    lemma_column_shape(mos, c, base + 4);
    lemma_piece_is_rectangle(mos, c, Part::Stub(Pin::Source), ta);
    assert(pieces[base + 5] == wiring[5]);
    lemma_column_shape(mos, c, base + 5);
    lemma_piece_is_rectangle(mos, c, Part::Via(Pin::Source), ta);
    assert(pieces[base + 6] == wiring[6]);
    lemma_column_shape(mos, c, base + 6);
    lemma_piece_is_rectangle(mos, c, Part::Stub(Pin::Drain), tb);
    assert(pieces[base + 7] == wiring[7]);
    lemma_column_shape(mos, c, base + 7);
    lemma_piece_is_rectangle(mos, c, Part::Via(Pin::Drain), tb);
    assert(pieces[base + 8] == wiring[8]);
    lemma_column_shape(mos, c, base + 8);
    lemma_piece_is_rectangle(mos, c, Part::Stub(Pin::Gate), tg);
    assert(pieces[base + 9] == wiring[9]);
    lemma_column_shape(mos, c, base + 9);
    lemma_piece_is_rectangle(mos, c, Part::Via(Pin::Gate), tg);
}

} // verus!
