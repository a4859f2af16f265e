//! Synthetic CMOS cells.
//!
//! A layout is generated from a transistor netlist by a gate-matrix scheme:
//!
//!   - Each transistor sits in its own column: a diffusion with a poly gate
//!     across the middle, so that the extractor sees one device, with its
//!     source to the left and its drain to the right.
//!   - Each net has a horizontal metal2 track at a y of its own. Tracks never
//!     touch each other.
//!   - Each terminal taps the track of its net through a contact (to metal1),
//!     a vertical metal1 stub, and a via (to metal2). Stubs sit at distinct x
//!     columns and never touch each other, and a stub that crosses an
//!     unrelated track has no via there and does not connect to it.
//!
//! The result is no compact standard cell, but it can be extracted and
//! simulated.
//!
//! Layers follow the built-in technology: 1 poly, 2 active, 3 contact, 4
//! metal1, 5 metal2, 7 via, 8 nwell.

use vstd::prelude::*;

use crate::gds::{shapes, Bbox, Point, Polygon, Shape};
use crate::transistors::{box_ring, rect_polygon};

verus! {

/// One transistor of a netlist: type, gate net, and its two source/drain nets
/// (their order does not matter, the device is symmetric).
#[derive(Debug, Clone, Copy)]
pub struct Mos {
    pub p: bool,
    pub gate: &'static str,
    pub a: &'static str,
    pub b: &'static str,
}

/// A cell: a name and its transistors, wired by net name.
#[derive(Debug)]
pub struct Cell {
    pub name: &'static str,
    pub mos: Vec<Mos>,
}

/// A terminal of a transistor.
#[derive(Debug, Clone, Copy, PartialEq, Eq, Structural)]
pub enum Pin {
    Source,
    Drain,
    Gate,
}

// ---- nets ----

/// The net of a terminal.
pub open spec fn net_name(m: Mos, pin: Pin) -> Seq<char> {
    match pin {
        Pin::Source => m.a@,
        Pin::Drain => m.b@,
        Pin::Gate => m.gate@,
    }
}

/// `names` with `name` added, unless it is there.
pub open spec fn with_name(names: Seq<Seq<char>>, name: Seq<char>) -> Seq<Seq<char>> {
    if names.contains(name) {
        names
    } else {
        names.push(name)
    }
}

/// The distinct nets of the first `k` transistors, in the order in which
/// they are first seen: gate, source, drain.
pub open spec fn nets_upto(mos: Seq<Mos>, k: int) -> Seq<Seq<char>>
    decreases k,
{
    if k <= 0 {
        Seq::empty()
    } else {
        let m = mos[k - 1];
        with_name(with_name(with_name(nets_upto(mos, k - 1), m.gate@), m.a@), m.b@)
    }
}

/// The distinct nets of a netlist.
pub open spec fn cell_nets(mos: Seq<Mos>) -> Seq<Seq<char>> {
    nets_upto(mos, mos.len() as int)
}

/// The track of a net: its place among the nets.
pub open spec fn track_of(mos: Seq<Mos>, name: Seq<char>) -> int {
    cell_nets(mos).index_of(name)
}

// ---- the layout ----

/// A piece of a cell.
#[derive(Debug, Clone, Copy, PartialEq, Eq, Structural)]
pub enum Part {
    /// The track of a net.
    Track,
    /// The diffusion of a transistor.
    Diffusion,
    /// The parts of the diffusion beside the poly.
    Low,
    High,
    NWell,
    Poly,
    Contact(Pin),
    Stub(Pin),
    Via(Pin),
}

/// Piece `part` of track or column `n`.
pub struct Tile {
    pub part: Part,
    pub n: int,
}

/// The layer of a piece.
pub open spec fn part_layer(part: Part) -> i16 {
    match part {
        Part::Track => 5,
        Part::Diffusion | Part::Low | Part::High => 2,
        Part::NWell => 8,
        Part::Poly => 1,
        Part::Contact(_) => 3,
        Part::Stub(_) => 4,
        Part::Via(_) => 7,
    }
}

/// Left edge of column `c`.
pub open spec fn column_x(c: int) -> int {
    400 + c * 2000
}

/// Lower edge of track `i`.
pub open spec fn track_y(i: int) -> int {
    1200 + i * 400
}

/// Left edge of a terminal, from that of its column. A terminal is 200 wide.
pub open spec fn pin_x(pin: Pin) -> int {
    match pin {
        Pin::Source => 200,
        Pin::Drain => 850,
        Pin::Gate => 500,
    }
}

/// Lower edge of a terminal.
pub open spec fn pin_y(pin: Pin) -> int {
    match pin {
        Pin::Source | Pin::Drain => 200,
        Pin::Gate => 800,
    }
}

/// The box from `(x0, y0)` to `(x1, y1)`.
pub open spec fn box_of(x0: int, y0: int, x1: int, y1: int) -> Bbox {
    Bbox {
        min: Point { x: x0 as i32, y: y0 as i32 },
        max: Point { x: x1 as i32, y: y1 as i32 },
    }
}

/// Where a piece lies.
pub open spec fn tile_box(mos: Seq<Mos>, t: Tile) -> Bbox {
    let x = column_x(t.n);
    match t.part {
        Part::Track => box_of(
            -200,
            track_y(t.n),
            1800 + column_x(mos.len() as int) - 400,
            track_y(t.n) + 200,
        ),
        Part::Diffusion => box_of(x, 0, x + 1200, 600),
        Part::Low => box_of(x, 0, x + 500, 600),
        Part::High => box_of(x + 700, 0, x + 1200, 600),
        Part::NWell => box_of(x - 100, -300, x + 1300, 900),
        Part::Poly => box_of(x + 500, -200, x + 700, 1000),
        Part::Contact(pin) => box_of(
            x + pin_x(pin),
            pin_y(pin),
            x + pin_x(pin) + 200,
            pin_y(pin) + 200,
        ),
        Part::Stub(pin) => box_of(
            x + pin_x(pin),
            pin_y(pin),
            x + pin_x(pin) + 200,
            track_y(track_of(mos, net_name(mos[t.n], pin))) + 200,
        ),
        Part::Via(pin) => box_of(
            x + pin_x(pin),
            track_y(track_of(mos, net_name(mos[t.n], pin))),
            x + pin_x(pin) + 200,
            track_y(track_of(mos, net_name(mos[t.n], pin))) + 200,
        ),
    }
}

/// The shape of a piece.
pub open spec fn tile_shape(mos: Seq<Mos>, t: Tile) -> Shape {
    Shape { layer: part_layer(t.part), datatype: 0, ring: box_ring(tile_box(mos, t)) }
}

/// The shapes of a list of pieces.
pub open spec fn tile_shapes(mos: Seq<Mos>, tiles: Seq<Tile>) -> Seq<Shape> {
    Seq::new(tiles.len(), |i: int| tile_shape(mos, tiles[i]))
}

/// The first `k` tracks.
pub open spec fn track_tiles(k: int) -> Seq<Tile> {
    Seq::new(k as nat, |i: int| Tile { part: Part::Track, n: i })
}

/// The pieces of column `c` before the poly gate.
pub open spec fn column_base(mos: Seq<Mos>, c: int) -> Seq<Tile> {
    if mos[c].p {
        seq![Tile { part: Part::Diffusion, n: c }, Tile { part: Part::NWell, n: c }]
    } else {
        seq![Tile { part: Part::Diffusion, n: c }]
    }
}

/// The pieces of column `c` from the poly gate on.
pub open spec fn column_wiring(c: int) -> Seq<Tile> {
    seq![
        Tile { part: Part::Poly, n: c },
        Tile { part: Part::Contact(Pin::Source), n: c },
        Tile { part: Part::Contact(Pin::Drain), n: c },
        Tile { part: Part::Contact(Pin::Gate), n: c },
        Tile { part: Part::Stub(Pin::Source), n: c },
        Tile { part: Part::Via(Pin::Source), n: c },
        Tile { part: Part::Stub(Pin::Drain), n: c },
        Tile { part: Part::Via(Pin::Drain), n: c },
        Tile { part: Part::Stub(Pin::Gate), n: c },
        Tile { part: Part::Via(Pin::Gate), n: c },
    ]
}

/// The pieces of the first `k` columns.
pub open spec fn columns_upto(mos: Seq<Mos>, k: int) -> Seq<Tile>
    decreases k,
{
    if k <= 0 {
        Seq::empty()
    } else {
        columns_upto(mos, k - 1) + column_base(mos, k - 1) + column_wiring(k - 1)
    }
}

/// The pieces of a cell: its tracks, then its columns.
pub open spec fn cell_tiles(mos: Seq<Mos>) -> Seq<Tile> {
    track_tiles(cell_nets(mos).len() as int) + columns_upto(mos, mos.len() as int)
}

/// The layout of a netlist.
pub open spec fn cell_layout(mos: Seq<Mos>) -> Seq<Shape> {
    tile_shapes(mos, cell_tiles(mos))
}

/// The most transistors whose layout fits the range of the database.
pub const MAX_COLUMNS: usize = 1_073_740;

/// A point on track `i`.
pub open spec fn probe_point(i: int) -> Point {
    Point { x: 0, y: (track_y(i) + 100) as i32 }
}

/// The place of `name` in `names`.
fn find_name(names: &[String], name: &'static str) -> (i: Option<usize>)
    ensures
        match i {
            Some(i) => i < names@.len() && names@[i as int]@ == name@ && forall|k: int|
                0 <= k < i ==> (#[trigger] names@[k])@ != name@,
            None => forall|k: int| 0 <= k < names@.len() ==> (#[trigger] names@[k])@ != name@,
        },
{
    let wanted: String = name.to_owned();
    let mut i: usize = 0;
    while i < names.len()
        invariant
            i <= names@.len(),
            wanted@ == name@,
            forall|k: int| 0 <= k < i ==> (#[trigger] names@[k])@ != name@,
        decreases names@.len() - i,
    {
        if names[i] == wanted {
            return Some(i);
        }
        i = i + 1;
    }
    None
}

/// The names of a list.
spec fn name_views(names: Seq<String>) -> Seq<Seq<char>> {
    Seq::new(names.len(), |i: int| names[i]@)
}

/// The names of a list of literals.
spec fn str_views(names: Seq<&'static str>) -> Seq<Seq<char>> {
    Seq::new(names.len(), |i: int| names[i]@)
}

/// Adds `name` to the nets, unless it is there.
fn add_name(order: &mut Vec<&'static str>, names: &mut Vec<String>, name: &'static str)
    requires
        str_views(old(order)@) == name_views(old(names)@),
    ensures
        name_views(final(names)@) == with_name(name_views(old(names)@), name@),
        str_views(final(order)@) == name_views(final(names)@),
{
    let ghost before = name_views(names@);
    match find_name(names, name) {
        Some(i) => {
            assert(before[i as int] == name@);
        },
        None => {
            assert(!before.contains(name@)) by {
                if before.contains(name@) {
                    let k = choose|k: int| 0 <= k < before.len() && before[k] == name@;
                    assert(names@[k]@ == name@);
                }
            }
            let ghost old_order = str_views(order@);
            order.push(name);
            names.push(name.to_owned());
            assert(name_views(names@) =~= before.push(name@));
            assert(str_views(order@) =~= old_order.push(name@));
        },
    }
}

/// The distinct nets of a netlist.
fn collect_names(mos: &[Mos]) -> (r: (Vec<&'static str>, Vec<String>))
    requires
        mos@.len() <= MAX_COLUMNS,
    ensures
        str_views(r.0@) == cell_nets(mos@),
        name_views(r.1@) == cell_nets(mos@),
        r.0@.len() <= 3 * mos@.len(),
{
    let mut order: Vec<&'static str> = Vec::new();
    let mut names: Vec<String> = Vec::new();
    let mut k: usize = 0;
    assert(name_views(names@) =~= nets_upto(mos@, 0));
    assert(str_views(order@) =~= nets_upto(mos@, 0));
    while k < mos.len()
        invariant
            k <= mos@.len() <= MAX_COLUMNS,
            name_views(names@) == nets_upto(mos@, k as int),
            str_views(order@) == name_views(names@),
            order@.len() <= 3 * k,
        decreases mos@.len() - k,
    {
        let m = mos[k];
        let ghost count = name_views(names@).len();
        add_name(&mut order, &mut names, m.gate);
        add_name(&mut order, &mut names, m.a);
        add_name(&mut order, &mut names, m.b);
        proof {
            assert(str_views(order@).len() == order@.len());
            assert(count <= 3 * k);
        }
        k = k + 1;
    }
    (order, names)
}

proof fn lemma_name_listed(mos: Seq<Mos>, c: int, pin: Pin, k: int)
    requires
        0 <= c < k <= mos.len(),
    ensures
        nets_upto(mos, k).contains(net_name(mos[c], pin)),
    decreases k,
{
    let m = mos[k - 1];
    let n0 = nets_upto(mos, k - 1);
    let n1 = with_name(n0, m.gate@);
    let n2 = with_name(n1, m.a@);
    lemma_with_name(n0, m.gate@);
    lemma_with_name(n1, m.a@);
    lemma_with_name(n2, m.b@);
    if c < k - 1 {
        lemma_name_listed(mos, c, pin, k - 1);
    }
}

proof fn lemma_with_name(names: Seq<Seq<char>>, name: Seq<char>)
    ensures
        with_name(names, name).contains(name),
        forall|n: Seq<char>|
            #[trigger] names.contains(n) ==> with_name(names, name).contains(n),
        names.no_duplicates() ==> with_name(names, name).no_duplicates(),
{
    let more = with_name(names, name);
    if !names.contains(name) {
        assert(more[names.len() as int] == name);
    }
    assert forall|n: Seq<char>| #[trigger] names.contains(n) implies more.contains(n) by {
        let k = choose|k: int| 0 <= k < names.len() && names[k] == n;
        assert(more[k] == n);
    }
}

proof fn lemma_nets_distinct(mos: Seq<Mos>, k: int)
    ensures
        nets_upto(mos, k).no_duplicates(),
    decreases k,
{
    if k > 0 {
        let m = mos[k - 1];
        lemma_nets_distinct(mos, k - 1);
        let n0 = nets_upto(mos, k - 1);
        let n1 = with_name(n0, m.gate@);
        let n2 = with_name(n1, m.a@);
        lemma_with_name(n0, m.gate@);
        lemma_with_name(n1, m.a@);
        lemma_with_name(n2, m.b@);
    }
}

/// Every net of a netlist has one track, and different nets have different
/// tracks.
pub proof fn law_tracks(mos: Seq<Mos>)
    ensures
        cell_nets(mos).no_duplicates(),
        forall|c: int, pin: Pin|
            0 <= c < mos.len() ==> {
                let t = track_of(mos, #[trigger] net_name(mos[c], pin));
                0 <= t < cell_nets(mos).len() && cell_nets(mos)[t] == net_name(mos[c], pin)
            },
{
    lemma_nets_distinct(mos, mos.len() as int);
    assert forall|c: int, pin: Pin| 0 <= c < mos.len() implies {
        let t = track_of(mos, #[trigger] net_name(mos[c], pin));
        0 <= t < cell_nets(mos).len() && cell_nets(mos)[t] == net_name(mos[c], pin)
    } by {
        lemma_name_listed(mos, c, pin, mos.len() as int);
    }
}

/// The name that is seen at place `n` of a netlist: of each transistor the
/// net of its gate, then its source, then its drain.
pub open spec fn name_seen(mos: Seq<Mos>, n: int) -> Seq<char> {
    let m = mos[n / 3];
    if n % 3 == 0 {
        m.gate@
    } else if n % 3 == 1 {
        m.a@
    } else {
        m.b@
    }
}

/// The distinct names among the first `n` that are seen.
spec fn names_seen(mos: Seq<Mos>, n: int) -> Seq<Seq<char>>
    decreases n,
{
    if n <= 0 {
        Seq::empty()
    } else {
        with_name(names_seen(mos, n - 1), name_seen(mos, n - 1))
    }
}

proof fn lemma_names_seen(mos: Seq<Mos>, k: int)
    requires
        0 <= k,
    ensures
        names_seen(mos, 3 * k) == nets_upto(mos, k),
    decreases k,
{
    if k > 0 {
        lemma_names_seen(mos, k - 1);
        let n = 3 * (k - 1);
        assert(n / 3 == k - 1 && (n + 1) / 3 == k - 1 && (n + 2) / 3 == k - 1);
        assert(n % 3 == 0 && (n + 1) % 3 == 1 && (n + 2) % 3 == 2);
        reveal_with_fuel(names_seen, 4);
        assert(names_seen(mos, n + 3) == with_name(
            with_name(with_name(names_seen(mos, n), mos[k - 1].gate@), mos[k - 1].a@),
            mos[k - 1].b@,
        ));
    }
}

/// What is listed of the first `n` names: each is one of them, and the list
/// only grows at its end.
proof fn lemma_seen_grows(mos: Seq<Mos>, n: int, m: int, t: int)
    requires
        0 <= n <= m,
        0 <= t < names_seen(mos, n).len(),
    ensures
        names_seen(mos, n).len() <= names_seen(mos, m).len(),
        names_seen(mos, m)[t] == names_seen(mos, n)[t],
        exists|q: int| 0 <= q < n && #[trigger] name_seen(mos, q) == names_seen(mos, n)[t],
    decreases m,
{
    if n < m {
        lemma_seen_grows(mos, n, m - 1, t);
    } else {
        let before = names_seen(mos, n - 1);
        if t < before.len() {
            lemma_seen_grows(mos, n - 1, n - 1, t);
            let q = choose|q: int| 0 <= q < n - 1 && #[trigger] name_seen(mos, q) == before[t];
            assert(name_seen(mos, q) == names_seen(mos, n)[t]);
        } else {
            assert(name_seen(mos, n - 1) == names_seen(mos, n)[t]);
        }
    }
}

/// Tracks are numbered in the order in which their nets are first seen: before
/// a name on any track but the first one, the name on the track before it has
/// been seen.
pub proof fn law_tracks_follow_the_netlist(mos: Seq<Mos>, n: int, t: int)
    requires
        0 <= n < 3 * mos.len(),
        0 < t < cell_nets(mos).len(),
        cell_nets(mos)[t] == name_seen(mos, n),
    ensures
        exists|q: int| 0 <= q < n && #[trigger] name_seen(mos, q) == cell_nets(mos)[t - 1],
{
    let all = 3 * mos.len() as int;
    lemma_names_seen(mos, mos.len() as int);
    lemma_nets_distinct(mos, mos.len() as int);
    let before = names_seen(mos, n);
    let now = names_seen(mos, n + 1);
    lemma_with_name(before, name_seen(mos, n));
    let at = choose|at: int| 0 <= at < now.len() && now[at] == name_seen(mos, n);
    lemma_seen_grows(mos, n + 1, all, at);
    assert(at == t);
    assert(t - 1 < before.len());
    lemma_seen_grows(mos, n, all, t - 1);
}

/// A rectangle polygon.
fn rect(layer: i16, x0: i32, y0: i32, x1: i32, y1: i32) -> (p: Polygon)
    ensures
        p@ == (Shape {
            layer,
            datatype: 0,
            ring: box_ring(box_of(x0 as int, y0 as int, x1 as int, y1 as int)),
        }),
{
    rect_polygon(
        layer,
        0,
        &Bbox { min: Point { x: x0, y: y0 }, max: Point { x: x1, y: y1 } },
    )
}

/// Connects a terminal of column `c` to its track: the stub and the via.
fn tap(
    polys: &mut Vec<Polygon>,
    x: i32,
    y: i32,
    track: usize,
    Ghost(mos): Ghost<Seq<Mos>>,
    Ghost(c): Ghost<int>,
    Ghost(pin): Ghost<Pin>,
)
    requires
        0 <= c < mos.len() <= MAX_COLUMNS,
        x == column_x(c) + pin_x(pin),
        y == pin_y(pin),
        track == track_of(mos, net_name(mos[c], pin)),
        track <= 3 * MAX_COLUMNS,
    ensures
        shapes(final(polys)@) == shapes(old(polys)@) + tile_shapes(
            mos,
            seq![Tile { part: Part::Stub(pin), n: c }, Tile { part: Part::Via(pin), n: c }],
        ),
{
    let ghost before = shapes(polys@);
    let yt: i32 = 1200 + track as i32 * 400;
    polys.push(rect(4, x, y, x + 200, yt + 200));
    polys.push(rect(7, x, yt, x + 200, yt + 200));
    assert(shapes(polys@) =~= before + tile_shapes(
        mos,
        seq![Tile { part: Part::Stub(pin), n: c }, Tile { part: Part::Via(pin), n: c }],
    ));
}

/// The track of a terminal.
fn track_index(
    names: &[String],
    name: &'static str,
    Ghost(mos): Ghost<Seq<Mos>>,
    Ghost(c): Ghost<int>,
    Ghost(pin): Ghost<Pin>,
) -> (t: usize)
    requires
        0 <= c < mos.len(),
        name@ == net_name(mos[c], pin),
        name_views(names@) == cell_nets(mos),
    ensures
        t == track_of(mos, name@),
        t < names@.len(),
{
    proof {
        law_tracks(mos);
    }
    let ghost want = track_of(mos, net_name(mos[c], pin));
    assert(name_views(names@)[want] == names@[want]@);
    match find_name(names, name) {
        Some(t) => {
            assert(cell_nets(mos)[t as int] == names@[t as int]@);
            t
        },
        None => 0,
    }
}

/// Draws column `c`.
fn draw_column(polys: &mut Vec<Polygon>, mos: &[Mos], names: &[String], c: usize)
    requires
        c < mos@.len() <= MAX_COLUMNS,
        name_views(names@) == cell_nets(mos@),
        names@.len() <= 3 * mos@.len(),
    ensures
        shapes(final(polys)@) == shapes(old(polys)@) + tile_shapes(
            mos@,
            column_base(mos@, c as int) + column_wiring(c as int),
        ),
{
    let ghost before = shapes(polys@);
    let ghost cells = mos@;
    let ghost col = c as int;
    let m = mos[c];
    let x: i32 = 400 + c as i32 * 2000;
    let gx: i32 = x + 500;
    polys.push(rect(2, x, 0, x + 1200, 600));
    if m.p {
        polys.push(rect(8, x - 100, -300, x + 1300, 900));
    }
    assert(shapes(polys@) =~= before + tile_shapes(cells, column_base(cells, col)));
    let ghost s0 = shapes(polys@);
    polys.push(rect(1, gx, -200, gx + 200, 1000));
    polys.push(rect(3, x + 200, 200, x + 400, 400));
    polys.push(rect(3, x + 850, 200, x + 1050, 400));
    polys.push(rect(3, gx, 800, gx + 200, 1000));
    assert(shapes(polys@) =~= s0 + tile_shapes(cells, column_wiring(col).take(4)));
    let ta: usize = track_index(names, m.a, Ghost(cells), Ghost(col), Ghost(Pin::Source));
    let tb: usize = track_index(names, m.b, Ghost(cells), Ghost(col), Ghost(Pin::Drain));
    let tg: usize = track_index(names, m.gate, Ghost(cells), Ghost(col), Ghost(Pin::Gate));
    tap(polys, x + 200, 200, ta, Ghost(cells), Ghost(col), Ghost(Pin::Source));
    tap(polys, x + 850, 200, tb, Ghost(cells), Ghost(col), Ghost(Pin::Drain));
    tap(polys, gx, 800, tg, Ghost(cells), Ghost(col), Ghost(Pin::Gate));
    assert(shapes(polys@) =~= before + tile_shapes(
        cells,
        column_base(cells, col) + column_wiring(col),
    ));
}

/// Builds the layout of a cell. Returns the polygons and, for each net, a
/// probe point on its track.
pub fn build(cell: &Cell) -> (r: (Vec<Polygon>, Vec<(&'static str, Point)>))
    requires
        cell.mos@.len() <= MAX_COLUMNS,
    ensures
        shapes(r.0@) == cell_layout(cell.mos@),
        r.1@.len() == cell_nets(cell.mos@).len(),
        forall|i: int|
            0 <= i < r.1@.len() ==> (#[trigger] r.1@[i]).0@ == cell_nets(cell.mos@)[i]
                && r.1@[i].1 == probe_point(i),
{
    let mos = &cell.mos;
    let ghost cells = mos@;
    let (order, names) = collect_names(mos);
    proof {
        assert(str_views(order@).len() == order@.len());
        assert(name_views(names@).len() == names@.len());
    }
    let count: usize = mos.len();
    let right: i32 = 400 + count as i32 * 2000 + 1200 + 200;
    let mut polys: Vec<Polygon> = Vec::new();
    let mut probes: Vec<(&'static str, Point)> = Vec::new();
    let mut i: usize = 0;
    assert(shapes(polys@) =~= tile_shapes(cells, track_tiles(0)));
    while i < order.len()
        invariant
            i <= order@.len() <= 3 * MAX_COLUMNS,
            mos@ == cells,
            count == cells.len() <= MAX_COLUMNS,
            right == 1800 + column_x(count as int) - 400,
            str_views(order@) == cell_nets(cells),
            polys@.len() == i,
            shapes(polys@) == tile_shapes(cells, track_tiles(i as int)),
            probes@.len() == i,
            forall|k: int|
                0 <= k < i ==> (#[trigger] probes@[k]).0@ == cell_nets(cells)[k] && probes@[k].1
                    == probe_point(k),
        decreases order@.len() - i,
    {
        let y: i32 = 1200 + i as i32 * 400;
        let ghost before = shapes(polys@);
        polys.push(rect(5, -200, y, right, y + 200));
        let ghost here = Tile { part: Part::Track, n: i as int };
        assert(polys@[i as int]@ == tile_shape(cells, here));
        assert(track_tiles(i + 1) =~= track_tiles(i as int).push(here));
        assert(shapes(polys@) =~= before.push(tile_shape(cells, here)));
        assert(shapes(polys@) =~= tile_shapes(cells, track_tiles(i + 1)));
        assert(str_views(order@)[i as int] == order@[i as int]@);
        probes.push((order[i], Point { x: 0, y: y + 100 }));
        i = i + 1;
    }
    let ghost tracks = track_tiles(i as int);
    let mut c: usize = 0;
    assert(shapes(polys@) =~= tile_shapes(cells, tracks + columns_upto(cells, 0)));
    while c < count
        invariant
            c <= count == cells.len() <= MAX_COLUMNS,
            mos@ == cells,
            name_views(names@) == cell_nets(cells),
            names@.len() <= 3 * cells.len(),
            shapes(polys@) == tile_shapes(cells, tracks + columns_upto(cells, c as int)),
        decreases count - c,
    {
        draw_column(&mut polys, mos, &names, c);
        assert(shapes(polys@) =~= tile_shapes(cells, tracks + columns_upto(cells, c + 1)));
        c = c + 1;
    }
    (polys, probes)
}

// ---- the zoo ----

/// A transistor of a netlist is of the given type and wired to the given
/// nets.
pub open spec fn wired(
    m: Mos,
    p: bool,
    gate: Seq<char>,
    a: Seq<char>,
    b: Seq<char>,
) -> bool {
    m.p == p && m.gate@ == gate && m.a@ == a && m.b@ == b
}

/// The netlist of a NAND gate: series NMOS pulldown, parallel PMOS pullup.
pub open spec fn is_nand2(cell: Cell) -> bool {
    &&& cell.name@ == "NAND2"@
    &&& cell.mos@.len() == 4
    &&& wired(cell.mos@[0], true, "A"@, "VDD"@, "OUT"@)
    &&& wired(cell.mos@[1], true, "B"@, "VDD"@, "OUT"@)
    &&& wired(cell.mos@[2], false, "A"@, "GND"@, "NINT"@)
    &&& wired(cell.mos@[3], false, "B"@, "NINT"@, "OUT"@)
}

/// 2-input NAND.
pub fn nand2() -> (cell: Cell)
    ensures
        is_nand2(cell),
{
    Cell {
        name: "NAND2",
        mos: vec![
            Mos { p: true, gate: "A", a: "VDD", b: "OUT" },
            Mos { p: true, gate: "B", a: "VDD", b: "OUT" },
            Mos { p: false, gate: "A", a: "GND", b: "NINT" },
            Mos { p: false, gate: "B", a: "NINT", b: "OUT" },
        ],
    }
}

/// The netlist of a NOR gate: series PMOS pullup, parallel NMOS pulldown.
pub open spec fn is_nor2(cell: Cell) -> bool {
    &&& cell.name@ == "NOR2"@
    &&& cell.mos@.len() == 4
    &&& wired(cell.mos@[0], true, "A"@, "VDD"@, "PINT"@)
    &&& wired(cell.mos@[1], true, "B"@, "PINT"@, "OUT"@)
    &&& wired(cell.mos@[2], false, "A"@, "GND"@, "OUT"@)
    &&& wired(cell.mos@[3], false, "B"@, "GND"@, "OUT"@)
}

/// 2-input NOR.
pub fn nor2() -> (cell: Cell)
    ensures
        is_nor2(cell),
{
    Cell {
        name: "NOR2",
        mos: vec![
            Mos { p: true, gate: "A", a: "VDD", b: "PINT" },
            Mos { p: true, gate: "B", a: "PINT", b: "OUT" },
            Mos { p: false, gate: "A", a: "GND", b: "OUT" },
            Mos { p: false, gate: "B", a: "GND", b: "OUT" },
        ],
    }
}

/// The netlist of an SR latch from cross-coupled NOR gates:
/// Q = NOR(R, QBAR), QBAR = NOR(S, Q).
pub open spec fn is_sr_latch(cell: Cell) -> bool {
    &&& cell.name@ == "SR_LATCH"@
    &&& cell.mos@.len() == 8
    &&& wired(cell.mos@[0], true, "R"@, "VDD"@, "PA"@)
    &&& wired(cell.mos@[1], true, "QBAR"@, "PA"@, "Q"@)
    &&& wired(cell.mos@[2], false, "R"@, "GND"@, "Q"@)
    &&& wired(cell.mos@[3], false, "QBAR"@, "GND"@, "Q"@)
    &&& wired(cell.mos@[4], true, "S"@, "VDD"@, "PB"@)
    &&& wired(cell.mos@[5], true, "Q"@, "PB"@, "QBAR"@)
    &&& wired(cell.mos@[6], false, "S"@, "GND"@, "QBAR"@)
    &&& wired(cell.mos@[7], false, "Q"@, "GND"@, "QBAR"@)
}

/// SR latch.
pub fn sr_latch() -> (cell: Cell)
    ensures
        is_sr_latch(cell),
{
    Cell {
        name: "SR_LATCH",
        mos: vec![
            Mos { p: true, gate: "R", a: "VDD", b: "PA" },
            Mos { p: true, gate: "QBAR", a: "PA", b: "Q" },
            Mos { p: false, gate: "R", a: "GND", b: "Q" },
            Mos { p: false, gate: "QBAR", a: "GND", b: "Q" },
            Mos { p: true, gate: "S", a: "VDD", b: "PB" },
            Mos { p: true, gate: "Q", a: "PB", b: "QBAR" },
            Mos { p: false, gate: "S", a: "GND", b: "QBAR" },
            Mos { p: false, gate: "Q", a: "GND", b: "QBAR" },
        ],
    }
}

/// Every cell of the zoo.
pub fn zoo() -> (cells: Vec<Cell>)
    ensures
        cells@.len() == 3,
        is_nand2(cells@[0]),
        is_nor2(cells@[1]),
        is_sr_latch(cells@[2]),
{
    vec![nand2(), nor2(), sr_latch()]
}

} // verus!
