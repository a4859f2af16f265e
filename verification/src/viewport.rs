//! Scene buffers for the viewport, and click hit-testing.
//!
//! The scene is grouped by layer, so that a layer can be shown or hidden
//! without uploading anything again. Each layer carries triangle indices for
//! the fill and edge indices for a thin outline on top of it, which keeps
//! small features visible at any zoom.

use vstd::prelude::*;

use crate::gds::{area2, bbox, inside, layout_bbox, point_in_polygon, polygon_area2};
use crate::gds::{polygon_bbox, ring_bbox, shapes, LoadInfo, Point, Polygon, Shape, Spot};
use crate::tech::{fallback_color, hash_color, Color};

verus! {

// ---- colours ----

/// The colour of a layer: a palette for the first eight, a hash colour for
/// the others.
pub open spec fn palette_color(layer: i16) -> Color {
    if layer == 0 {
        Color::Listed { r: 0x3f0c_cccd, g: 0x3f0c_cccd, b: 0x3f0c_cccd }
    } else if layer == 1 {
        Color::Listed { r: 0x3ee6_6666, g: 0x3f59_999a, b: 0x3ecc_cccd }
    } else if layer == 2 {
        Color::Listed { r: 0x3e99_999a, g: 0x3f0c_cccd, b: 0x3f73_3333 }
    } else if layer == 3 {
        Color::Listed { r: 0x3f73_3333, g: 0x3f59_999a, b: 0x3e99_999a }
    } else if layer == 4 {
        Color::Listed { r: 0x3f66_6666, g: 0x3ecc_cccd, b: 0x3ecc_cccd }
    } else if layer == 5 {
        Color::Listed { r: 0x3ecc_cccd, g: 0x3f59_999a, b: 0x3f59_999a }
    } else if layer == 6 {
        Color::Listed { r: 0x3f59_999a, g: 0x3f00_0000, b: 0x3f59_999a }
    } else if layer == 7 {
        Color::Listed { r: 0x3f73_3333, g: 0x3f26_6666, b: 0x3e99_999a }
    } else {
        hash_color(layer)
    }
}

/// Deterministic colour of a layer.
pub fn layer_color(layer: i16) -> (c: Color)
    ensures
        c == palette_color(layer),
{
    match layer {
        0 => Color::Listed { r: 0x3f0c_cccd, g: 0x3f0c_cccd, b: 0x3f0c_cccd },
        1 => Color::Listed { r: 0x3ee6_6666, g: 0x3f59_999a, b: 0x3ecc_cccd },
        2 => Color::Listed { r: 0x3e99_999a, g: 0x3f0c_cccd, b: 0x3f73_3333 },
        3 => Color::Listed { r: 0x3f73_3333, g: 0x3f59_999a, b: 0x3e99_999a },
        4 => Color::Listed { r: 0x3f66_6666, g: 0x3ecc_cccd, b: 0x3ecc_cccd },
        5 => Color::Listed { r: 0x3ecc_cccd, g: 0x3f59_999a, b: 0x3f59_999a },
        6 => Color::Listed { r: 0x3f59_999a, g: 0x3f00_0000, b: 0x3f59_999a },
        7 => Color::Listed { r: 0x3f73_3333, g: 0x3f26_6666, b: 0x3e99_999a },
        _ => fallback_color(layer),
    }
}

// ---- hit test ----

/// The polygon under a click.
#[derive(Debug)]
pub struct PolygonHit {
    /// Index into the flat polygon list.
    pub index: usize,
    pub layer: i16,
    pub datatype: i16,
    pub point_count: usize,
    pub bbox_min: Point,
    pub bbox_max: Point,
    /// Twice the area of the polygon.
    pub area2: u128,
    /// The ring, for the highlight outline.
    pub points: Vec<Point>,
}

/// Polygon `i` is the one that a click at `p` means: of those that hold `p`
/// it has the smallest area, and is the first with that area.
pub open spec fn is_pick(layout: Seq<Shape>, p: Spot, i: int) -> bool {
    &&& 0 <= i < layout.len()
    &&& inside(layout[i].ring, p)
    &&& forall|j: int|
        0 <= j < layout.len() && inside((#[trigger] layout[j]).ring, p) ==> area2(layout[i].ring)
            < area2(layout[j].ring) || (area2(layout[i].ring) == area2(layout[j].ring) && i <= j)
}

/// `h` describes the polygon that a click at `p` means.
pub open spec fn is_hit(layout: Seq<Shape>, p: Spot, h: PolygonHit) -> bool {
    let s = layout[h.index as int];
    &&& is_pick(layout, p, h.index as int)
    &&& h.layer == s.layer
    &&& h.datatype == s.datatype
    &&& h.point_count == s.ring.len()
    &&& h.bbox_min == ring_bbox(s.ring).min
    &&& h.bbox_max == ring_bbox(s.ring).max
    &&& h.area2 == area2(s.ring)
    &&& h.points@ == s.ring
}

/// No polygon holds `p`.
pub open spec fn is_miss(layout: Seq<Shape>, p: Spot) -> bool {
    forall|i: int| 0 <= i < layout.len() ==> !inside((#[trigger] layout[i]).ring, p)
}

/// Finds the polygon under `p`. Where several overlap, the smallest one wins:
/// it is almost always the most specific feature.
pub fn hit_test(polys: &[Polygon], p: Spot) -> (hit: Option<PolygonHit>)
    ensures
        match hit {
            Some(h) => is_hit(shapes(polys@), p, h),
            None => is_miss(shapes(polys@), p),
        },
{
    let ghost layout = shapes(polys@);
    let mut best: Option<(usize, u128)> = None;
    let mut i: usize = 0;
    while i < polys.len()
        invariant
            i <= polys@.len(),
            layout == shapes(polys@),
            match best {
                Some(b) => is_pick(layout.take(i as int), p, b.0 as int) && b.1 == area2(
                    layout[b.0 as int].ring,
                ),
                None => forall|j: int|
                    0 <= j < i ==> !inside((#[trigger] layout[j]).ring, p),
            },
        decreases polys@.len() - i,
    {
        let ghost before = layout.take(i as int);
        let ghost now = layout.take(i + 1);
        assert(layout[i as int] == polys@[i as int]@);
        assert(forall|j: int| 0 <= j < i ==> #[trigger] now[j] == before[j]);
        assert(now[i as int] == layout[i as int]);
        if point_in_polygon(&polys[i].points, p) {
            let area: u128 = polygon_area2(&polys[i].points);
            let smaller = match best {
                Some(b) => area < b.1,
                None => true,
            };
            if smaller {
                best = Some((i, area));
            }
        }
        i = i + 1;
    }
    assert(layout.take(i as int) =~= layout);
    match best {
        Some(b) => {
            let index: usize = b.0;
            let poly = &polys[index];
            let bb = polygon_bbox(&poly.points);
            let points = poly.points.clone();
            assert(points@ =~= poly.points@);
            Some(
                PolygonHit {
                    index,
                    layer: poly.layer,
                    datatype: poly.datatype,
                    point_count: poly.points.len(),
                    bbox_min: bb.min,
                    bbox_max: bb.max,
                    area2: b.1,
                    points,
                },
            )
        },
        None => None,
    }
}

/// A click means one polygon at most.
pub proof fn law_pick_unique(layout: Seq<Shape>, p: Spot, i: int, j: int)
    requires
        is_pick(layout, p, i),
        is_pick(layout, p, j),
    ensures
        i == j,
{
    assert(inside(layout[i].ring, p) && inside(layout[j].ring, p));
}

// ---- scene ----

/// Buffers of one layer.
#[derive(Debug)]
pub struct LayerData {
    pub layer: i16,
    /// The colour of every vertex of the layer.
    pub color: Color,
    pub polygon_count: usize,
    pub vertices: Vec<Point>,
    /// Triangle list.
    pub triangle_indices: Vec<u32>,
    /// Line list: pairs around each polygon ring.
    pub edge_indices: Vec<u32>,
}

/// Everything the viewport draws.
#[derive(Debug)]
pub struct Scene {
    pub polygon_count: usize,
    pub bbox_min: Point,
    pub bbox_max: Point,
    /// By rising layer number.
    pub layers: Vec<LayerData>,
    pub top_cell: String,
    pub cell_names: Vec<String>,
}

/// The triangulation of each polygon of a layout, as indices into its ring;
/// none for a polygon that could not be triangulated.
pub open spec fn triangulations(tris: Seq<Option<Vec<usize>>>) -> Seq<Option<Seq<usize>>> {
    Seq::new(
        tris.len(),
        |i: int|
            match tris[i] {
                Some(t) => Some(t@),
                None => None,
            },
    )
}

/// Polygon `i` is drawn: it is a polygon and has a triangulation.
pub open spec fn is_shown(layout: Seq<Shape>, tris: Seq<Option<Seq<usize>>>, i: int) -> bool {
    layout[i].ring.len() >= 3 && tris[i] is Some
}

/// Polygon `i` is drawn on `layer`.
pub open spec fn shown_on(
    layout: Seq<Shape>,
    tris: Seq<Option<Seq<usize>>>,
    layer: i16,
    i: int,
) -> bool {
    is_shown(layout, tris, i) && layout[i].layer == layer
}

/// How many of the first `k` polygons are drawn on `layer`.
pub open spec fn layer_count(
    layout: Seq<Shape>,
    tris: Seq<Option<Seq<usize>>>,
    layer: i16,
    k: int,
) -> nat
    decreases k,
{
    if k <= 0 {
        0
    } else {
        layer_count(layout, tris, layer, k - 1) + if shown_on(layout, tris, layer, k - 1) {
            1nat
        } else {
            0nat
        }
    }
}

/// How many of the first `k` polygons are drawn.
pub open spec fn shown_count(layout: Seq<Shape>, tris: Seq<Option<Seq<usize>>>, k: int) -> nat
    decreases k,
{
    if k <= 0 {
        0
    } else {
        shown_count(layout, tris, k - 1) + if is_shown(layout, tris, k - 1) {
            1nat
        } else {
            0nat
        }
    }
}

/// The vertices of `layer`: the rings of those of the first `k` polygons that
/// are drawn on it, one after the other.
pub open spec fn layer_vertices(
    layout: Seq<Shape>,
    tris: Seq<Option<Seq<usize>>>,
    layer: i16,
    k: int,
) -> Seq<Point>
    decreases k,
{
    if k <= 0 {
        Seq::empty()
    } else if shown_on(layout, tris, layer, k - 1) {
        layer_vertices(layout, tris, layer, k - 1) + layout[k - 1].ring
    } else {
        layer_vertices(layout, tris, layer, k - 1)
    }
}

/// `indices` counted from the vertex `base` on.
pub open spec fn shifted(indices: Seq<usize>, base: int) -> Seq<u32> {
    Seq::new(indices.len(), |j: int| (base + indices[j]) as u32)
}

/// The triangles of `layer`: those of its polygons, counted from the first
/// vertex of each.
pub open spec fn layer_triangles(
    layout: Seq<Shape>,
    tris: Seq<Option<Seq<usize>>>,
    layer: i16,
    k: int,
) -> Seq<u32>
    decreases k,
{
    if k <= 0 {
        Seq::empty()
    } else if shown_on(layout, tris, layer, k - 1) {
        layer_triangles(layout, tris, layer, k - 1) + shifted(
            tris[k - 1]->0,
            layer_vertices(layout, tris, layer, k - 1).len() as int,
        )
    } else {
        layer_triangles(layout, tris, layer, k - 1)
    }
}

/// The edges of a ring of `n` vertices from `base` on: each vertex with the
/// next one, and the last with the first.
pub open spec fn ring_edges(base: int, n: int) -> Seq<u32> {
    Seq::new(
        (2 * n) as nat,
        |j: int|
            if j % 2 == 0 {
                (base + j / 2) as u32
            } else if j / 2 + 1 < n {
                (base + j / 2 + 1) as u32
            } else {
                base as u32
            },
    )
}

/// The edges of `layer`: those of its polygons, one after the other.
pub open spec fn layer_edges(
    layout: Seq<Shape>,
    tris: Seq<Option<Seq<usize>>>,
    layer: i16,
    k: int,
) -> Seq<u32>
    decreases k,
{
    if k <= 0 {
        Seq::empty()
    } else if shown_on(layout, tris, layer, k - 1) {
        layer_edges(layout, tris, layer, k - 1) + ring_edges(
            layer_vertices(layout, tris, layer, k - 1).len() as int,
            layout[k - 1].ring.len() as int,
        )
    } else {
        layer_edges(layout, tris, layer, k - 1)
    }
}

impl LayerData {
    /// These are the buffers of its layer.
    pub open spec fn draws(&self, layout: Seq<Shape>, tris: Seq<Option<Seq<usize>>>) -> bool {
        let n = layout.len() as int;
        &&& self.color == palette_color(self.layer)
        &&& self.polygon_count == layer_count(layout, tris, self.layer, n)
        &&& self.vertices@ == layer_vertices(layout, tris, self.layer, n)
        &&& self.triangle_indices@ == layer_triangles(layout, tris, self.layer, n)
        &&& self.edge_indices@ == layer_edges(layout, tris, self.layer, n)
    }
}

/// Some entry of `layers` is for `layer`.
pub open spec fn has_layer(layers: Seq<LayerData>, layer: i16) -> bool {
    exists|k: int| 0 <= k < layers.len() && (#[trigger] layers[k]).layer == layer
}

/// `layers` holds the buffers of the layers on which something is drawn, by
/// rising layer number.
pub open spec fn draws_layers(
    layers: Seq<LayerData>,
    layout: Seq<Shape>,
    tris: Seq<Option<Seq<usize>>>,
) -> bool {
    &&& forall|k: int|
        0 <= k < layers.len() ==> (#[trigger] layers[k]).draws(layout, tris)
            && layers[k].polygon_count > 0
    &&& forall|k: int, l: int|
        0 <= k < l < layers.len() ==> (#[trigger] layers[k]).layer < (#[trigger] layers[l]).layer
    &&& forall|i: int|
        0 <= i < layout.len() && is_shown(layout, tris, i) ==> has_layer(
            layers,
            (#[trigger] layout[i]).layer,
        )
}

/// The number of points of the first `k` polygons.
pub open spec fn point_total(layout: Seq<Shape>, k: int) -> nat
    decreases k,
{
    if k <= 0 {
        0
    } else {
        point_total(layout, k - 1) + layout[k - 1].ring.len()
    }
}

/// Every triangulation is over the points of its ring.
pub open spec fn triangulates(layout: Seq<Shape>, tris: Seq<Option<Seq<usize>>>) -> bool {
    &&& tris.len() == layout.len()
    &&& forall|i: int, j: int|
        0 <= i < tris.len() && tris[i] is Some && 0 <= j < (tris[i]->0).len() ==> (
        #[trigger] (tris[i]->0)[j]) < layout[i].ring.len()
}

proof fn lemma_vertices_bounded(
    layout: Seq<Shape>,
    tris: Seq<Option<Seq<usize>>>,
    layer: i16,
    k: int,
    n: int,
)
    requires
        0 <= k <= n <= layout.len(),
    ensures
        layer_vertices(layout, tris, layer, k).len() <= point_total(layout, k),
        point_total(layout, k) <= point_total(layout, n),
    decreases n,
{
    if k < n {
        lemma_vertices_bounded(layout, tris, layer, k, n - 1);
    } else if k > 0 {
        lemma_vertices_bounded(layout, tris, layer, k - 1, k - 1);
    }
}

/// Adds the triangles of one polygon.
fn push_triangles(out: &mut Vec<u32>, tri: &[usize], base: u32, Ghost(n): Ghost<int>)
    requires
        base + n <= u32::MAX,
        forall|j: int| 0 <= j < tri@.len() ==> (#[trigger] tri@[j]) < n,
    ensures
        final(out)@ == old(out)@ + shifted(tri@, base as int),
{
    let ghost before = out@;
    let mut j: usize = 0;
    assert(out@ =~= before + shifted(tri@, base as int).take(0));
    while j < tri.len()
        invariant
            j <= tri@.len(),
            base + n <= u32::MAX,
            forall|i: int| 0 <= i < tri@.len() ==> (#[trigger] tri@[i]) < n,
            out@ == before + shifted(tri@, base as int).take(j as int),
        decreases tri@.len() - j,
    {
        assert(tri@[j as int] < n);
        out.push(base + tri[j] as u32);
        assert(out@ =~= before + shifted(tri@, base as int).take(j + 1));
        j = j + 1;
    }
    assert(shifted(tri@, base as int).take(j as int) =~= shifted(tri@, base as int));
}

/// Adds the edges of a ring of `n` vertices from `base` on.
fn push_edges(out: &mut Vec<u32>, base: u32, n: u32)
    requires
        base + n <= u32::MAX,
    ensures
        final(out)@ == old(out)@ + ring_edges(base as int, n as int),
{
    let ghost before = out@;
    let ghost all = ring_edges(base as int, n as int);
    let mut i: u32 = 0;
    assert(out@ =~= before + all.take(0));
    while i < n
        invariant
            i <= n,
            base + n <= u32::MAX,
            all == ring_edges(base as int, n as int),
            out@ == before + all.take(2 * i),
        decreases n - i,
    {
        out.push(base + i);
        out.push(
            if i + 1 < n {
                base + i + 1
            } else {
                base
            },
        );
        proof {
            assert(all[2 * i] == base + i);
            assert((2 * i + 1) / 2 == i);
            assert(out@ =~= before + all.take(2 * i + 2));
        }
        i = i + 1;
    }
    assert(all.take(2 * i) =~= all);
}

/// Adds the points of a ring.
fn push_points(out: &mut Vec<Point>, points: &[Point])
    ensures
        final(out)@ == old(out)@ + points@,
{
    let ghost before = out@;
    let mut i: usize = 0;
    assert(out@ =~= before + points@.take(0));
    while i < points.len()
        invariant
            i <= points@.len(),
            out@ == before + points@.take(i as int),
        decreases points@.len() - i,
    {
        out.push(points[i]);
        assert(out@ =~= before + points@.take(i + 1));
        i = i + 1;
    }
    assert(points@.take(i as int) =~= points@);
}

/// Builds the buffers of one layer.
fn build_layer(polys: &[Polygon], tris: &[Option<Vec<usize>>], layer: i16) -> (data: LayerData)
    requires
        triangulates(shapes(polys@), triangulations(tris@)),
        point_total(shapes(polys@), polys@.len() as int) <= u32::MAX,
    ensures
        data.layer == layer,
        data.draws(shapes(polys@), triangulations(tris@)),
{
    let ghost layout = shapes(polys@);
    let ghost ts = triangulations(tris@);
    let ghost n = polys@.len() as int;
    let mut count: usize = 0;
    let mut vertices: Vec<Point> = Vec::new();
    let mut triangle_indices: Vec<u32> = Vec::new();
    let mut edge_indices: Vec<u32> = Vec::new();
    let mut i: usize = 0;
    while i < polys.len()
        invariant
            i <= polys@.len() == n,
            layout == shapes(polys@),
            ts == triangulations(tris@),
            triangulates(layout, ts),
            point_total(layout, n) <= u32::MAX,
            count <= i,
            count == layer_count(layout, ts, layer, i as int),
            vertices@ == layer_vertices(layout, ts, layer, i as int),
            triangle_indices@ == layer_triangles(layout, ts, layer, i as int),
            edge_indices@ == layer_edges(layout, ts, layer, i as int),
        decreases n - i,
    {
        let poly = &polys[i];
        assert(layout[i as int] == poly@);
        assert(ts[i as int] == match tris@[i as int] {
            Some(t) => Some(t@),
            None => None,
        });
        if poly.layer == layer && poly.points.len() >= 3 {
            if let Some(tri) = &tris[i] {
                proof {
                    lemma_vertices_bounded(layout, ts, layer, i as int, i as int);
                    lemma_vertices_bounded(layout, ts, layer, i + 1, n);
                }
                let base: u32 = vertices.len() as u32;
                let len: u32 = poly.points.len() as u32;
                assert(base + len <= point_total(layout, i + 1));
                assert(ts[i as int]->0 == tri@);
                push_points(&mut vertices, &poly.points);
                push_triangles(&mut triangle_indices, tri, base, Ghost(len as int));
                push_edges(&mut edge_indices, base, len);
                count = count + 1;
            }
        }
        i = i + 1;
    }
    LayerData {
        layer,
        color: layer_color(layer),
        polygon_count: count,
        vertices,
        triangle_indices,
        edge_indices,
    }
}

/// `layers` rises and holds the layers of those of the first `k` polygons
/// that are drawn.
spec fn lists_layers(
    layers: Seq<i16>,
    layout: Seq<Shape>,
    tris: Seq<Option<Seq<usize>>>,
    k: int,
) -> bool {
    &&& forall|a: int, b: int|
        0 <= a < b < layers.len() ==> #[trigger] layers[a] < #[trigger] layers[b]
    &&& forall|a: int|
        0 <= a < layers.len() ==> layer_count(layout, tris, #[trigger] layers[a], k) > 0
    &&& forall|i: int|
        0 <= i < k && is_shown(layout, tris, i) ==> layers.contains((#[trigger] layout[i]).layer)
}

/// Puts `layer` at its place in a rising list, unless it is there.
fn insert_layer(layers: &mut Vec<i16>, layer: i16)
    requires
        forall|a: int, b: int|
            0 <= a < b < old(layers)@.len() ==> #[trigger] old(layers)@[a] < #[trigger] old(
                layers,
            )@[b],
    ensures
        forall|a: int, b: int|
            0 <= a < b < final(layers)@.len() ==> #[trigger] final(layers)@[a]
                < #[trigger] final(layers)@[b],
        forall|l: i16|
            #[trigger] final(layers)@.contains(l) <==> old(layers)@.contains(l) || l == layer,
{
    let ghost before = layers@;
    let mut at: usize = layers.len();
    while at > 0 && layers[at - 1] > layer
        invariant
            at <= layers@.len(),
            layers@ == before,
            forall|a: int| at <= a < layers@.len() ==> #[trigger] layers@[a] > layer,
        decreases at,
    {
        at = at - 1;
    }
    if at > 0 && layers[at - 1] == layer {
        assert(before[at - 1] == layer);
        assert(before.contains(layer));
        return ;
    }
    proof {
        assert forall|a: int| 0 <= a < at implies #[trigger] before[a] < layer by {
            assert(before[a] <= before[at - 1]);
        }
    }
    layers.insert(at, layer);
    proof {
        let now = layers@;
        assert forall|a: int, b: int| 0 <= a < b < now.len() implies #[trigger] now[a]
            < #[trigger] now[b] by {
            assert(now[a] == if a < at {
                before[a]
            } else if a == at {
                layer
            } else {
                before[a - 1]
            });
            assert(now[b] == if b < at {
                before[b]
            } else if b == at {
                layer
            } else {
                before[b - 1]
            });
        }
        assert forall|l: i16| #[trigger] now.contains(l) <==> before.contains(l) || l == layer by {
            if before.contains(l) {
                let a = choose|a: int| 0 <= a < before.len() && before[a] == l;
                if a < at {
                    assert(now[a] == l);
                } else {
                    assert(now[a + 1] == l);
                }
            }
            assert(now[at as int] == layer);
            if now.contains(l) {
                let a = choose|a: int| 0 <= a < now.len() && now[a] == l;
                if a < at {
                    assert(before[a] == l);
                } else if a > at {
                    assert(before[a - 1] == l);
                }
            }
        }
    }
}

/// The layers on which something is drawn, rising, and how many polygons are
/// drawn.
fn shown_layers(polys: &[Polygon], tris: &[Option<Vec<usize>>]) -> (r: (Vec<i16>, usize))
    requires
        polys@.len() == tris@.len(),
    ensures
        lists_layers(r.0@, shapes(polys@), triangulations(tris@), polys@.len() as int),
        r.1 == shown_count(shapes(polys@), triangulations(tris@), polys@.len() as int),
{
    let ghost layout = shapes(polys@);
    let ghost ts = triangulations(tris@);
    let mut layers: Vec<i16> = Vec::new();
    let mut count: usize = 0;
    let mut i: usize = 0;
    while i < polys.len()
        invariant
            i <= polys@.len() == tris@.len(),
            layout == shapes(polys@),
            ts == triangulations(tris@),
            lists_layers(layers@, layout, ts, i as int),
            count <= i,
            count == shown_count(layout, ts, i as int),
        decreases polys@.len() - i,
    {
        assert(layout[i as int] == polys@[i as int]@);
        let ghost before = layers@;
        if polys[i].points.len() >= 3 && tris[i].is_some() {
            assert(is_shown(layout, ts, i as int));
            insert_layer(&mut layers, polys[i].layer);
            count = count + 1;
            proof {
                let layer = polys@[i as int].layer;
                assert(layers@.contains(layer));
                assert forall|a: int| 0 <= a < layers@.len() implies layer_count(
                    layout,
                    ts,
                    #[trigger] layers@[a],
                    i + 1,
                ) > 0 by {
                    assert(layers@.contains(layers@[a]));
                    if layers@[a] != layer {
                        let b = choose|b: int| 0 <= b < before.len() && before[b] == layers@[a];
                        assert(layer_count(layout, ts, before[b], i as int) > 0);
                    }
                }
                assert forall|j: int| 0 <= j < i + 1 && is_shown(
                    layout,
                    ts,
                    j,
                ) implies layers@.contains((#[trigger] layout[j]).layer) by {
                    if j < i {
                        assert(before.contains(layout[j].layer));
                    }
                }
            }
        } else {
            assert(!is_shown(layout, ts, i as int));
        }
        i = i + 1;
    }
    (layers, count)
}

/// Copies a list of names.
fn copy_names(names: &[String]) -> (c: Vec<String>)
    ensures
        c@.len() == names@.len(),
        forall|i: int| 0 <= i < names@.len() ==> (#[trigger] c@[i])@ == names@[i]@,
{
    let mut c: Vec<String> = Vec::new();
    let mut i: usize = 0;
    while i < names.len()
        invariant
            i <= names@.len(),
            c@.len() == i,
            forall|k: int| 0 <= k < i ==> (#[trigger] c@[k])@ == names@[k]@,
        decreases names@.len() - i,
    {
        c.push(names[i].clone());
        i = i + 1;
    }
    c
}

/// Builds the scene of a layout, given the triangulation of each of its
/// polygons. A polygon without one is left out. Vertex indices are 32-bit, so
/// there must not be more points than they can count.
pub fn build_scene(info: &LoadInfo, tris: &[Option<Vec<usize>>]) -> (scene: Scene)
    requires
        triangulates(shapes(info.polygons@), triangulations(tris@)),
        point_total(shapes(info.polygons@), info.polygons@.len() as int) <= u32::MAX,
    ensures
        draws_layers(scene.layers@, shapes(info.polygons@), triangulations(tris@)),
        scene.polygon_count == shown_count(
            shapes(info.polygons@),
            triangulations(tris@),
            info.polygons@.len() as int,
        ),
        scene.bbox_min == layout_bbox(shapes(info.polygons@)).min,
        scene.bbox_max == layout_bbox(shapes(info.polygons@)).max,
        scene.top_cell@ == info.top_cell@,
        scene.cell_names@.len() == info.cell_names@.len(),
        forall|i: int|
            0 <= i < info.cell_names@.len() ==> (#[trigger] scene.cell_names@[i])@
                == info.cell_names@[i]@,
{
    let polys = &info.polygons;
    let ghost layout = shapes(polys@);
    let ghost ts = triangulations(tris@);
    let bb = bbox(polys);
    assert(ts.len() == tris@.len());
    let (numbers, polygon_count) = shown_layers(polys, tris);
    let mut layers: Vec<LayerData> = Vec::new();
    let mut k: usize = 0;
    while k < numbers.len()
        invariant
            k <= numbers@.len(),
            polys@ == info.polygons@,
            layout == shapes(polys@),
            ts == triangulations(tris@),
            triangulates(layout, ts),
            point_total(layout, polys@.len() as int) <= u32::MAX,
            lists_layers(numbers@, layout, ts, polys@.len() as int),
            layers@.len() == k,
            forall|a: int|
                0 <= a < k ==> (#[trigger] layers@[a]).draws(layout, ts) && layers@[a].layer
                    == numbers@[a],
        decreases numbers@.len() - k,
    {
        layers.push(build_layer(polys, tris, numbers[k]));
        k = k + 1;
    }
    proof {
        assert forall|a: int| 0 <= a < layers@.len() implies (#[trigger] layers@[a]).draws(
            layout,
            ts,
        ) && layers@[a].polygon_count > 0 by {
            assert(layer_count(layout, ts, numbers@[a], layout.len() as int) > 0);
        }
        assert forall|i: int| 0 <= i < layout.len() && is_shown(layout, ts, i) implies has_layer(
            layers@,
            (#[trigger] layout[i]).layer,
        ) by {
            assert(numbers@.contains(layout[i].layer));
            let a = choose|a: int| 0 <= a < numbers@.len() && numbers@[a] == layout[i].layer;
            assert(layers@[a].layer == layout[i].layer);
        }
    }
    Scene {
        polygon_count,
        bbox_min: bb.min,
        bbox_max: bb.max,
        layers,
        top_cell: info.top_cell.clone(),
        cell_names: copy_names(&info.cell_names),
    }
}

/// Every index of a layer is that of one of its vertices, and each vertex
/// starts one edge.
pub proof fn law_indices_in_range(
    layout: Seq<Shape>,
    tris: Seq<Option<Seq<usize>>>,
    layer: i16,
    k: int,
)
    requires
        triangulates(layout, tris),
        0 <= k <= layout.len(),
        point_total(layout, layout.len() as int) <= u32::MAX,
    ensures
        forall|j: int|
            0 <= j < layer_triangles(layout, tris, layer, k).len() ==> (#[trigger] layer_triangles(
                layout,
                tris,
                layer,
                k,
            )[j]) < layer_vertices(layout, tris, layer, k).len(),
        forall|j: int|
            0 <= j < layer_edges(layout, tris, layer, k).len() ==> (#[trigger] layer_edges(
                layout,
                tris,
                layer,
                k,
            )[j]) < layer_vertices(layout, tris, layer, k).len(),
        layer_edges(layout, tris, layer, k).len() == 2 * layer_vertices(
            layout,
            tris,
            layer,
            k,
        ).len(),
    decreases k,
{
    if k > 0 {
        law_indices_in_range(layout, tris, layer, k - 1);
        lemma_vertices_bounded(layout, tris, layer, k, layout.len() as int);
        if shown_on(layout, tris, layer, k - 1) {
            let base = layer_vertices(layout, tris, layer, k - 1).len() as int;
            let n = layout[k - 1].ring.len() as int;
            let tri = tris[k - 1]->0;
            let more = shifted(tri, base);
            assert forall|j: int| 0 <= j < more.len() implies (#[trigger] more[j]) < base + n by {
                assert(tri[j] < n);
            }
            let edges = ring_edges(base, n);
            assert forall|j: int| 0 <= j < edges.len() implies (#[trigger] edges[j]) < base + n by {
                assert(j / 2 < n);
            }
            let before = layer_triangles(layout, tris, layer, k - 1);
            let all = layer_triangles(layout, tris, layer, k);
            assert forall|j: int| 0 <= j < all.len() implies (#[trigger] all[j]) < base + n by {
                if j < before.len() {
                    assert(all[j] == before[j]);
                } else {
                    assert(all[j] == more[j - before.len()]);
                }
            }
            assert(layer_vertices(layout, tris, layer, k).len() == base + n);
            assert(layer_edges(layout, tris, layer, k) == layer_edges(layout, tris, layer, k - 1)
                + edges);
        } else {
            assert(layer_triangles(layout, tris, layer, k) == layer_triangles(
                layout,
                tris,
                layer,
                k - 1,
            ));
        }
    }
}

/// The number of polygons on the first `a` layers of a list.
pub open spec fn count_sum(layers: Seq<LayerData>, a: int) -> nat
    decreases a,
{
    if a <= 0 {
        0
    } else {
        count_sum(layers, a - 1) + layers[a - 1].polygon_count as nat
    }
}

/// Of the first `k` polygons, those on the first `a` layers of a list.
spec fn count_on(
    layers: Seq<LayerData>,
    layout: Seq<Shape>,
    tris: Seq<Option<Seq<usize>>>,
    a: int,
    k: int,
) -> nat
    decreases a,
{
    if a <= 0 {
        0
    } else {
        count_on(layers, layout, tris, a - 1, k) + layer_count(
            layout,
            tris,
            layers[a - 1].layer,
            k,
        )
    }
}

/// The polygons of a scene are those of its layers together.
pub proof fn law_layer_counts_add_up(
    layers: Seq<LayerData>,
    layout: Seq<Shape>,
    tris: Seq<Option<Seq<usize>>>,
)
    requires
        draws_layers(layers, layout, tris),
    ensures
        count_sum(layers, layers.len() as int) == shown_count(layout, tris, layout.len() as int),
{
    lemma_counts(layers, layout, tris, layout.len() as int);
    lemma_count_sum(layers, layout, tris, layers.len() as int);
}

proof fn lemma_count_sum(
    layers: Seq<LayerData>,
    layout: Seq<Shape>,
    tris: Seq<Option<Seq<usize>>>,
    a: int,
)
    requires
        draws_layers(layers, layout, tris),
        0 <= a <= layers.len(),
    ensures
        count_sum(layers, a) == count_on(layers, layout, tris, a, layout.len() as int),
    decreases a,
{
    if a > 0 {
        lemma_count_sum(layers, layout, tris, a - 1);
        assert(layers[a - 1].draws(layout, tris));
    }
}

proof fn lemma_counts(
    layers: Seq<LayerData>,
    layout: Seq<Shape>,
    tris: Seq<Option<Seq<usize>>>,
    k: int,
)
    requires
        draws_layers(layers, layout, tris),
        0 <= k <= layout.len(),
    ensures
        count_on(layers, layout, tris, layers.len() as int, k) == shown_count(layout, tris, k),
    decreases k,
{
    if k > 0 {
        lemma_counts(layers, layout, tris, k - 1);
        let at = if is_shown(layout, tris, k - 1) {
            assert(has_layer(layers, layout[k - 1].layer));
            choose|a: int| 0 <= a < layers.len() && (#[trigger] layers[a]).layer == layout[k
                - 1].layer
        } else {
            -1
        };
        lemma_one_more(layers, layout, tris, layers.len() as int, k, at);
    } else {
        lemma_none_yet(layers, layout, tris, layers.len() as int);
    }
}

proof fn lemma_none_yet(
    layers: Seq<LayerData>,
    layout: Seq<Shape>,
    tris: Seq<Option<Seq<usize>>>,
    a: int,
)
    ensures
        count_on(layers, layout, tris, a, 0) == 0,
    decreases a,
{
    if a > 0 {
        lemma_none_yet(layers, layout, tris, a - 1);
    }
}

/// One more polygon counts on its layer, number `at`, and on no other.
proof fn lemma_one_more(
    layers: Seq<LayerData>,
    layout: Seq<Shape>,
    tris: Seq<Option<Seq<usize>>>,
    a: int,
    k: int,
    at: int,
)
    requires
        draws_layers(layers, layout, tris),
        0 <= a <= layers.len(),
        0 < k <= layout.len(),
        is_shown(layout, tris, k - 1) ==> 0 <= at < layers.len() && layers[at].layer == layout[k
            - 1].layer,
        !is_shown(layout, tris, k - 1) ==> at == -1,
    ensures
        count_on(layers, layout, tris, a, k) == count_on(layers, layout, tris, a, k - 1) + if 0
            <= at < a {
            1nat
        } else {
            0nat
        },
    decreases a,
{
    if a > 0 {
        lemma_one_more(layers, layout, tris, a - 1, k, at);
        if at >= 0 && at < a - 1 {
            assert(layers[at].layer < layers[a - 1].layer);
        } else if at > a - 1 {
            assert(layers[a - 1].layer < layers[at].layer);
        }
    }
}

} // verus!
