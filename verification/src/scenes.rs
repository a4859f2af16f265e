//! What the viewport shows: every corner, triangle and edge of the drawn
//! polygons, and the polygon that a click means.

use vstd::prelude::*;

use crate::areas::{fan, law_area_is_that_of_triangles, law_box_sides_are_reached};
use crate::areas::{law_inner_rectangles_are_smaller, law_inside_lies_in_the_box};
use crate::gds::{area2, inside, Bbox, Shape, Spot};
use crate::rectangles::{goes_round, is_solid};
use crate::tech::hash_color;
use crate::viewport::{draws_layers, is_hit, is_pick, layer_count, layer_edges, layer_triangles};
use crate::viewport::{has_layer, layer_vertices, point_total, ring_edges, shifted, shown_count};
use crate::viewport::{is_miss, is_shown, palette_color, shown_on, triangulates};
use crate::viewport::{LayerData, PolygonHit};

verus! {

// ---- the buffers of a layer ----

/// Polygon `i` has three corners or more, a triangulation, and lies on
/// `layer`.
pub open spec fn appears(
    layout: Seq<Shape>,
    tris: Seq<Option<Seq<usize>>>,
    layer: i16,
    i: int,
) -> bool {
    layout[i].ring.len() >= 3 && tris[i] is Some && layout[i].layer == layer
}

/// How many corners the polygons before polygon `k` have that appear on
/// `layer`.
pub open spec fn corners_before(
    layout: Seq<Shape>,
    tris: Seq<Option<Seq<usize>>>,
    layer: i16,
    k: int,
) -> int
    decreases k,
{
    if k <= 0 {
        0
    } else {
        corners_before(layout, tris, layer, k - 1) + if appears(layout, tris, layer, k - 1) {
            layout[k - 1].ring.len() as int
        } else {
            0
        }
    }
}

/// How many triangle corners the polygons before polygon `k` have that appear
/// on `layer`.
pub open spec fn indices_before(
    layout: Seq<Shape>,
    tris: Seq<Option<Seq<usize>>>,
    layer: i16,
    k: int,
) -> int
    decreases k,
{
    if k <= 0 {
        0
    } else {
        indices_before(layout, tris, layer, k - 1) + if appears(layout, tris, layer, k - 1) {
            tris[k - 1]->0.len() as int
        } else {
            0
        }
    }
}

/// How many of the polygons before polygon `k` appear on `layer`.
pub open spec fn polygons_before(
    layout: Seq<Shape>,
    tris: Seq<Option<Seq<usize>>>,
    layer: i16,
    k: int,
) -> int
    decreases k,
{
    if k <= 0 {
        0
    } else {
        polygons_before(layout, tris, layer, k - 1) + if appears(layout, tris, layer, k - 1) {
            1int
        } else {
            0
        }
    }
}

/// The buffers of a layer have room for its polygons and nothing else: one
/// vertex for each corner, the corners of its triangles, and one edge from
/// each corner.
pub proof fn law_buffers_hold_nothing_else(
    data: LayerData,
    layout: Seq<Shape>,
    tris: Seq<Option<Seq<usize>>>,
)
    requires
        data.draws(layout, tris),
        triangulates(layout, tris),
        point_total(layout, layout.len() as int) <= u32::MAX,
    ensures
        ({
            let n = layout.len() as int;
            &&& data.polygon_count == polygons_before(layout, tris, data.layer, n)
            &&& data.vertices@.len() == corners_before(layout, tris, data.layer, n)
            &&& data.triangle_indices@.len() == indices_before(layout, tris, data.layer, n)
            &&& data.edge_indices@.len() == 2 * corners_before(layout, tris, data.layer, n)
        }),
{
    lemma_sizes(layout, tris, data.layer, layout.len() as int);
}

/// The buffers of a layer draw each of its polygons, from its first corner and
/// its first triangle on: the vertices are the corners of its ring, each
/// triangle index gives the corner that the triangulation means, and each edge
/// leads from a corner to the next one, the last to the first.
pub proof fn law_buffers_draw_each_polygon(
    data: LayerData,
    layout: Seq<Shape>,
    tris: Seq<Option<Seq<usize>>>,
    i: int,
    j: int,
)
    requires
        data.draws(layout, tris),
        triangulates(layout, tris),
        point_total(layout, layout.len() as int) <= u32::MAX,
        0 <= i < layout.len(),
        appears(layout, tris, data.layer, i),
    ensures
        ({
            let ring = layout[i].ring;
            let tri = tris[i]->0;
            let n = ring.len() as int;
            let base = corners_before(layout, tris, data.layer, i);
            let first = indices_before(layout, tris, data.layer, i);
            let (v, t, e) = (data.vertices@, data.triangle_indices@, data.edge_indices@);
            &&& 0 <= j < n ==> v[base + j] == ring[j]
            &&& 0 <= j < tri.len() ==> t[first + j] == base + tri[j] && v[t[first + j] as int]
                == ring[tri[j] as int]
            &&& 0 <= j < n ==> e[2 * (base + j)] == base + j && v[e[2 * (base + j)] as int]
                == ring[j]
            &&& 0 <= j < n ==> v[e[2 * (base + j) + 1] as int] == ring[(j + 1) % n]
        }),
{
    let layer = data.layer;
    let n = layout.len() as int;
    let ring = layout[i].ring;
    let len = ring.len() as int;
    let base = corners_before(layout, tris, layer, i);
    lemma_sizes(layout, tris, layer, i);
    lemma_sizes(layout, tris, layer, i + 1);
    lemma_prefix(layout, tris, layer, i + 1, n);
    lemma_bounded(layout, tris, layer, i + 1);
    lemma_total(layout, i + 1, n);
    let v = layer_vertices(layout, tris, layer, i);
    let t = layer_triangles(layout, tris, layer, i);
    let e = layer_edges(layout, tris, layer, i);
    let tri = tris[i]->0;
    assert(shown_on(layout, tris, layer, i));
    assert(layer_vertices(layout, tris, layer, i + 1) == v + ring);
    assert(layer_triangles(layout, tris, layer, i + 1) == t + shifted(tri, base));
    assert(layer_edges(layout, tris, layer, i + 1) == e + ring_edges(base, len));
    if 0 <= j < len {
        assert((v + ring)[base + j] == ring[j]);
        let edges = ring_edges(base, len);
        assert(edges[2 * j] == base + j);
        assert((2 * j + 1) / 2 == j && (2 * j + 1) % 2 == 1);
        let next = if j + 1 < len {
            j + 1
        } else {
            0
        };
        lemma_wraps(j, len);
        assert(edges[2 * j + 1] == base + next);
        assert((e + edges)[2 * (base + j)] == edges[2 * j]);
        assert((e + edges)[2 * (base + j) + 1] == edges[2 * j + 1]);
        assert((v + ring)[base + next] == ring[next]);
    }
    if 0 <= j < tri.len() {
        assert(tri[j] < len);
        let first = indices_before(layout, tris, layer, i);
        assert((t + shifted(tri, base))[first + j] == shifted(tri, base)[j]);
        assert((v + ring)[base + tri[j]] == ring[tri[j] as int]);
    }
}

proof fn lemma_wraps(j: int, n: int)
    requires
        0 <= j < n,
    ensures
        (j + 1) % n == if j + 1 < n {
            j + 1
        } else {
            0
        },
{
    if j + 1 < n {
        assert((j + 1) % n == j + 1) by (nonlinear_arith)
            requires
                0 <= j + 1 < n,
        ;
    } else {
        assert(n % n == 0) by (nonlinear_arith)
            requires
                n > 0,
        ;
    }
}

proof fn lemma_sizes(layout: Seq<Shape>, tris: Seq<Option<Seq<usize>>>, layer: i16, k: int)
    requires
        0 <= k,
    ensures
        layer_count(layout, tris, layer, k) == polygons_before(layout, tris, layer, k),
        layer_vertices(layout, tris, layer, k).len() == corners_before(layout, tris, layer, k),
        layer_triangles(layout, tris, layer, k).len() == indices_before(layout, tris, layer, k),
        layer_edges(layout, tris, layer, k).len() == 2 * corners_before(layout, tris, layer, k),
    decreases k,
{
    if k > 0 {
        lemma_sizes(layout, tris, layer, k - 1);
    }
}

/// The buffers of the first polygons begin those of all.
proof fn lemma_prefix(
    layout: Seq<Shape>,
    tris: Seq<Option<Seq<usize>>>,
    layer: i16,
    k: int,
    n: int,
)
    requires
        0 <= k <= n,
    ensures
        ({
            let (v, w) = (
                layer_vertices(layout, tris, layer, k),
                layer_vertices(layout, tris, layer, n),
            );
            &&& v.len() <= w.len()
            &&& forall|j: int| 0 <= j < v.len() ==> #[trigger] w[j] == v[j]
        }),
        ({
            let (v, w) = (
                layer_triangles(layout, tris, layer, k),
                layer_triangles(layout, tris, layer, n),
            );
            &&& v.len() <= w.len()
            &&& forall|j: int| 0 <= j < v.len() ==> #[trigger] w[j] == v[j]
        }),
        ({
            let (v, w) = (
                layer_edges(layout, tris, layer, k),
                layer_edges(layout, tris, layer, n),
            );
            &&& v.len() <= w.len()
            &&& forall|j: int| 0 <= j < v.len() ==> #[trigger] w[j] == v[j]
        }),
    decreases n - k,
{
    if k < n {
        lemma_prefix(layout, tris, layer, k, n - 1);
    }
}

proof fn lemma_bounded(layout: Seq<Shape>, tris: Seq<Option<Seq<usize>>>, layer: i16, k: int)
    requires
        0 <= k <= layout.len(),
    ensures
        0 <= corners_before(layout, tris, layer, k) <= point_total(layout, k),
    decreases k,
{
    if k > 0 {
        lemma_bounded(layout, tris, layer, k - 1);
    }
}

proof fn lemma_total(layout: Seq<Shape>, k: int, n: int)
    requires
        0 <= k <= n <= layout.len(),
    ensures
        point_total(layout, k) <= point_total(layout, n),
    decreases n - k,
{
    if k < n {
        lemma_total(layout, k, n - 1);
    }
}

// ---- the layers of a scene ----

/// Every polygon of three corners or more that has a triangulation is in the
/// buffers of its layer, and no other layer has buffers. The layers rise.
pub proof fn law_scenes_have_the_layers_in_use(
    layers: Seq<LayerData>,
    layout: Seq<Shape>,
    tris: Seq<Option<Seq<usize>>>,
    i: int,
    k: int,
)
    requires
        draws_layers(layers, layout, tris),
    ensures
        0 <= i < layout.len() && layout[i].ring.len() >= 3 && tris[i] is Some ==> exists|a: int|
            0 <= a < layers.len() && (#[trigger] layers[a]).layer == layout[i].layer,
        0 <= k < layers.len() ==> exists|m: int|
            0 <= m < layout.len() && #[trigger] appears(layout, tris, layers[k].layer, m),
        0 < k < layers.len() ==> layers[k - 1].layer < layers[k].layer,
{
    if 0 <= i < layout.len() && layout[i].ring.len() >= 3 && tris[i] is Some {
        assert(is_shown(layout, tris, i));
        assert(has_layer(layers, layout[i].layer));
    }
    if 0 <= k < layers.len() {
        assert(layers[k].draws(layout, tris));
        lemma_some_appear(layout, tris, layers[k].layer, layout.len() as int);
    }
}

proof fn lemma_some_appear(layout: Seq<Shape>, tris: Seq<Option<Seq<usize>>>, layer: i16, k: int)
    requires
        0 <= k <= layout.len(),
        layer_count(layout, tris, layer, k) > 0,
    ensures
        exists|m: int| 0 <= m < k && #[trigger] appears(layout, tris, layer, m),
    decreases k,
{
    if appears(layout, tris, layer, k - 1) {
    } else {
        lemma_some_appear(layout, tris, layer, k - 1);
    }
}

/// One more polygon adds one to the number of polygons that a scene shows, if
/// it has three corners or more and a triangulation, and nothing otherwise.
pub proof fn law_scenes_count_their_polygons(
    layout: Seq<Shape>,
    tris: Seq<Option<Seq<usize>>>,
    k: int,
)
    requires
        0 <= k < layout.len(),
    ensures
        shown_count(layout, tris, 0) == 0,
        shown_count(layout, tris, k + 1) - shown_count(layout, tris, k) == if layout[k].ring.len()
            >= 3 && tris[k] is Some {
            1int
        } else {
            0
        },
{
}

// ---- a click ----

/// A click gives a polygon that holds it. Any other polygon that holds it has
/// a greater area, or the same and comes later. What is told of the polygon
/// is its own: its corners in order, how many they are, its layer and
/// datatype, its area, and the box that its corners span.
pub proof fn law_clicks_give_the_smallest_polygon(
    layout: Seq<Shape>,
    p: Spot,
    h: PolygonHit,
    j: int,
)
    requires
        is_hit(layout, p, h),
        p.unit > 0,
    ensures
        ({
            let i = h.index as int;
            let ring = layout[i].ring;
            let area = fan(ring, ring.len() as int);
            &&& i < layout.len()
            &&& inside(ring, p)
            &&& 0 <= j < layout.len() && j != i && inside(layout[j].ring, p) ==> h.area2 < area2(
                layout[j].ring,
            ) || (h.area2 == area2(layout[j].ring) && i < j)
            &&& h.points@ == ring
            &&& h.point_count == ring.len()
            &&& h.layer == layout[i].layer
            &&& h.datatype == layout[i].datatype
            &&& h.area2 == area || h.area2 == -area
            &&& 0 <= j < ring.len() ==> h.bbox_min.x <= ring[j].x <= h.bbox_max.x && h.bbox_min.y
                <= ring[j].y <= h.bbox_max.y
            &&& exists|k: int| 0 <= k < ring.len() && (#[trigger] ring[k]).x == h.bbox_min.x
            &&& exists|k: int| 0 <= k < ring.len() && (#[trigger] ring[k]).x == h.bbox_max.x
            &&& exists|k: int| 0 <= k < ring.len() && (#[trigger] ring[k]).y == h.bbox_min.y
            &&& exists|k: int| 0 <= k < ring.len() && (#[trigger] ring[k]).y == h.bbox_max.y
        }),
{
    let ring = layout[h.index as int].ring;
    law_area_is_that_of_triangles(ring);
    law_inside_lies_in_the_box(ring, p);
    law_box_sides_are_reached(ring);
}

/// A click gives nothing exactly if no polygon holds it, and a polygon
/// otherwise.
pub proof fn law_clicks_miss_only_outside(layout: Seq<Shape>, p: Spot, i: int)
    ensures
        is_miss(layout, p) && 0 <= i < layout.len() ==> !inside(layout[i].ring, p),
        is_miss(layout, p) <==> forall|k: int| !#[trigger] is_pick(layout, p, k),
{
    if !is_miss(layout, p) {
        let k = lemma_some_pick(layout, p, layout.len() as int);
        assert(is_pick(layout, p, k));
    } else {
        assert forall|k: int| !#[trigger] is_pick(layout, p, k) by {}
    }
}

/// The pick among the first `n` polygons, of which one holds the click.
proof fn lemma_some_pick(layout: Seq<Shape>, p: Spot, n: int) -> (k: int)
    requires
        0 <= n <= layout.len(),
        exists|i: int| 0 <= i < n && inside((#[trigger] layout[i]).ring, p),
    ensures
        0 <= k < n,
        inside(layout[k].ring, p),
        forall|j: int|
            0 <= j < n && inside((#[trigger] layout[j]).ring, p) ==> area2(layout[k].ring) < area2(
                layout[j].ring,
            ) || (area2(layout[k].ring) == area2(layout[j].ring) && k <= j),
    decreases n,
{
    if exists|i: int| 0 <= i < n - 1 && inside((#[trigger] layout[i]).ring, p) {
        let k = lemma_some_pick(layout, p, n - 1);
        if inside(layout[n - 1].ring, p) && area2(layout[n - 1].ring) < area2(layout[k].ring) {
            n - 1
        } else {
            k
        }
    } else {
        n - 1
    }
}

/// The colour of a layer is that of the palette, which is for the first eight
/// layers; any other layer has the colour of its hash.
pub proof fn law_other_layers_have_hash_colours(
    data: LayerData,
    layout: Seq<Shape>,
    tris: Seq<Option<Seq<usize>>>,
)
    requires
        data.draws(layout, tris),
    ensures
        data.color == palette_color(data.layer),
        0 <= data.layer < 8 ==> data.color is Listed,
        data.layer < 0 || data.layer >= 8 ==> data.color == hash_color(data.layer),
{
}

/// A click on a rectangle that lies in another one does not give the other.
pub proof fn law_clicks_prefer_the_inner_rectangle(
    layout: Seq<Shape>,
    p: Spot,
    i: int,
    j: int,
    a: Bbox,
    b: Bbox,
)
    requires
        0 <= i < layout.len(),
        0 <= j < layout.len(),
        is_solid(a),
        is_solid(b),
        goes_round(layout[i].ring, a),
        goes_round(layout[j].ring, b),
        a != b,
        b.min.x <= a.min.x && a.max.x <= b.max.x,
        b.min.y <= a.min.y && a.max.y <= b.max.y,
        inside(layout[i].ring, p),
    ensures
        !is_pick(layout, p, j),
{
    law_inner_rectangles_are_smaller(layout[i].ring, a, layout[j].ring, b);
}

} // verus!
