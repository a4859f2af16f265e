//! Layout data in GDS-II database units: points, polygons and their boxes.

use vstd::prelude::*;

verus! {

/// A point in database units.
#[derive(Debug, Clone, Copy, PartialEq, Eq, Structural)]
pub struct Point {
    pub x: i32,
    pub y: i32,
}

/// A point on a grid finer than the database grid: `(x / unit, y / unit)` in
/// database units.
#[derive(Debug, Clone, Copy, PartialEq, Eq, Structural)]
pub struct Spot {
    pub x: i64,
    pub y: i64,
    pub unit: u32,
}

/// A flattened polygon in database units.
#[derive(Debug)]
pub struct Polygon {
    pub layer: i16,
    pub datatype: i16,
    /// Closed ring; the first point is not repeated as the last.
    pub points: Vec<Point>,
}

/// What a [`Polygon`] stands for.
#[verifier::ext_equal]
pub struct Shape {
    pub layer: i16,
    pub datatype: i16,
    pub ring: Seq<Point>,
}

impl View for Polygon {
    type V = Shape;

    open spec fn view(&self) -> Shape {
        Shape { layer: self.layer, datatype: self.datatype, ring: self.points@ }
    }
}

impl Clone for Polygon {
    fn clone(&self) -> (p: Polygon)
        ensures
            p@ == self@,
    {
        let points = self.points.clone();
        assert(points@ =~= self.points@);
        Polygon { layer: self.layer, datatype: self.datatype, points }
    }
}

/// The shapes of a polygon list.
pub open spec fn shapes(polys: Seq<Polygon>) -> Seq<Shape> {
    Seq::new(polys.len(), |i: int| polys[i]@)
}

/// An axis-aligned box, corners included.
#[derive(Debug, Clone, Copy, PartialEq, Eq, Structural)]
pub struct Bbox {
    pub min: Point,
    pub max: Point,
}

/// A loaded layout.
#[derive(Debug)]
pub struct LoadInfo {
    /// The polygons of the top cell, with the hierarchy flattened.
    pub polygons: Vec<Polygon>,
    pub top_cell: String,
    pub cell_names: Vec<String>,
}

/// A layout that cannot be loaded.
#[derive(Debug)]
pub enum GdsError {
    /// The file is not readable GDS-II.
    Parse(String),
    /// The library has no structures.
    Empty,
}

impl GdsError {
    /// The message of an error.
    pub fn message(&self) -> (text: String)
        ensures
            text@ == match *self {
                GdsError::Parse(reason) => "gds21 parse error: "@ + reason@,
                GdsError::Empty => "library has no structures"@,
            },
    {
        match self {
            GdsError::Parse(reason) => {
                let mut text = "gds21 parse error: ".to_owned();
                text.append(reason.as_str());
                text
            },
            GdsError::Empty => "library has no structures".to_owned(),
        }
    }
}

// ---- bounding boxes ----

impl Point {
    pub fn new(x: i32, y: i32) -> (p: Point)
        ensures
            p == (Point { x, y }),
    {
        Point { x, y }
    }
}

/// `p` lies in the box `b`.
pub open spec fn in_bbox(b: Bbox, p: Point) -> bool {
    b.min.x <= p.x <= b.max.x && b.min.y <= p.y <= b.max.y
}

/// The box around no point at all: it overlaps nothing, and widening it by
/// one point gives that point.
pub open spec fn empty_bbox() -> Bbox {
    Bbox {
        min: Point { x: i32::MAX, y: i32::MAX },
        max: Point { x: i32::MIN, y: i32::MIN },
    }
}

/// The smallest box that holds `b` and `p`.
pub open spec fn widened(b: Bbox, p: Point) -> Bbox {
    Bbox {
        min: Point {
            x: if p.x < b.min.x { p.x } else { b.min.x },
            y: if p.y < b.min.y { p.y } else { b.min.y },
        },
        max: Point {
            x: if p.x > b.max.x { p.x } else { b.max.x },
            y: if p.y > b.max.y { p.y } else { b.max.y },
        },
    }
}

/// The smallest box that holds `b` and every point of `ring`.
pub open spec fn ring_bbox_from(b: Bbox, ring: Seq<Point>) -> Bbox
    decreases ring.len(),
{
    if ring.len() == 0 {
        b
    } else {
        widened(ring_bbox_from(b, ring.drop_last()), ring.last())
    }
}

/// The bounding box of a ring.
pub open spec fn ring_bbox(ring: Seq<Point>) -> Bbox {
    ring_bbox_from(empty_bbox(), ring)
}

/// The bounding box of all rings of a layout.
pub open spec fn layout_bbox(layout: Seq<Shape>) -> Bbox
    decreases layout.len(),
{
    if layout.len() == 0 {
        empty_bbox()
    } else {
        ring_bbox_from(layout_bbox(layout.drop_last()), layout.last().ring)
    }
}

impl Bbox {
    /// The box around no point.
    pub fn empty() -> (b: Bbox)
        ensures
            b == empty_bbox(),
    {
        Bbox {
            min: Point { x: i32::MAX, y: i32::MAX },
            max: Point { x: i32::MIN, y: i32::MIN },
        }
    }

    /// Widens the box to hold `p`.
    pub fn expand(&mut self, p: Point)
        ensures
            *final(self) == widened(*old(self), p),
    {
        if p.x < self.min.x {
            self.min.x = p.x;
        }
        if p.y < self.min.y {
            self.min.y = p.y;
        }
        if p.x > self.max.x {
            self.max.x = p.x;
        }
        if p.y > self.max.y {
            self.max.y = p.y;
        }
    }
}

/// Widens `b` to hold every point of `points`.
fn widen_by_ring(b: Bbox, points: &[Point]) -> (r: Bbox)
    ensures
        r == ring_bbox_from(b, points@),
{
    let mut r = b;
    let mut i: usize = 0;
    while i < points.len()
        invariant
            i <= points@.len(),
            r == ring_bbox_from(b, points@.take(i as int)),
        decreases points@.len() - i,
    {
        r.expand(points[i]);
        assert(points@.take(i + 1).drop_last() =~= points@.take(i as int));
        i = i + 1;
    }
    assert(points@.take(i as int) =~= points@);
    r
}

/// Bounding box of one ring.
pub fn polygon_bbox(points: &[Point]) -> (b: Bbox)
    ensures
        b == ring_bbox(points@),
{
    widen_by_ring(Bbox::empty(), points)
}

/// Bounding box of a polygon set.
pub fn bbox(polys: &[Polygon]) -> (b: Bbox)
    ensures
        b == layout_bbox(shapes(polys@)),
{
    let mut b = Bbox::empty();
    let mut i: usize = 0;
    while i < polys.len()
        invariant
            i <= polys@.len(),
            b == layout_bbox(shapes(polys@).take(i as int)),
        decreases polys@.len() - i,
    {
        b = widen_by_ring(b, &polys[i].points);
        assert(shapes(polys@).take(i + 1).drop_last() =~= shapes(polys@).take(i as int));
        i = i + 1;
    }
    assert(shapes(polys@).take(i as int) =~= shapes(polys@));
    b
}

/// `a` lies in `b`.
pub open spec fn bbox_within(a: Bbox, b: Bbox) -> bool {
    b.min.x <= a.min.x && b.min.y <= a.min.y && a.max.x <= b.max.x && a.max.y <= b.max.y
}

/// A box widened by a ring holds the box and every point of the ring, and
/// lies in every box that does: it is the smallest such box.
pub proof fn law_ring_bbox_is_smallest(b: Bbox, ring: Seq<Point>)
    ensures
        bbox_within(b, ring_bbox_from(b, ring)),
        forall|i: int| 0 <= i < ring.len() ==> in_bbox(ring_bbox_from(b, ring), #[trigger] ring[i]),
        forall|o: Bbox|
            bbox_within(b, o) && (forall|i: int| 0 <= i < ring.len() ==> in_bbox(o, ring[i]))
                ==> #[trigger] bbox_within(ring_bbox_from(b, ring), o),
    decreases ring.len(),
{
    if ring.len() > 0 {
        let head = ring.drop_last();
        law_ring_bbox_is_smallest(b, head);
        assert forall|i: int| 0 <= i < ring.len() implies in_bbox(
            ring_bbox_from(b, ring),
            #[trigger] ring[i],
        ) by {
            if i < head.len() {
                assert(head[i] == ring[i]);
            }
        }
        assert forall|o: Bbox|
            bbox_within(b, o) && (forall|i: int| 0 <= i < ring.len() ==> in_bbox(
                o,
                ring[i],
            )) implies #[trigger] bbox_within(ring_bbox_from(b, ring), o) by {
            assert forall|i: int| 0 <= i < head.len() implies in_bbox(o, head[i]) by {
                assert(head[i] == ring[i]);
            }
            assert(bbox_within(ring_bbox_from(b, head), o));
            assert(in_bbox(o, ring[ring.len() - 1]));
        }
    }
}

// ---- area ----

/// The edge from `ring[i]` goes to `ring[after(ring, i)]`.
pub open spec fn after(ring: Seq<Point>, i: int) -> int {
    if i + 1 < ring.len() {
        i + 1
    } else {
        0
    }
}

/// Twice the signed area between the first `k` edges of `ring` and the
/// origin.
pub open spec fn signed_area2(ring: Seq<Point>, k: int) -> int
    decreases k,
{
    if k <= 0 {
        0
    } else {
        let a = ring[k - 1];
        let b = ring[after(ring, k - 1)];
        signed_area2(ring, k - 1) + (a.x * b.y - b.x * a.y)
    }
}

/// Twice the area that `ring` encloses.
pub open spec fn area2(ring: Seq<Point>) -> int {
    let s = signed_area2(ring, ring.len() as int);
    if s < 0 {
        -s
    } else {
        s
    }
}

proof fn lemma_product_bound(a: int, b: int)
    requires
        -0x8000_0000 <= a < 0x8000_0000,
        -0x8000_0000 <= b < 0x8000_0000,
    ensures
        -0x4000_0000_0000_0000 <= a * b <= 0x4000_0000_0000_0000,
{
    assert(-0x4000_0000_0000_0000 <= a * b <= 0x4000_0000_0000_0000) by (nonlinear_arith)
        requires
            -0x8000_0000 <= a < 0x8000_0000,
            -0x8000_0000 <= b < 0x8000_0000,
    ;
}

/// Twice the area of a polygon ring.
pub fn polygon_area2(points: &[Point]) -> (area: u128)
    ensures
        area == area2(points@),
{
    let n: usize = points.len();
    let mut sum: i128 = 0;
    let mut i: usize = 0;
    while i < n
        invariant
            i <= n == points@.len(),
            sum == signed_area2(points@, i as int),
            -0x8000_0000_0000_0000 * i <= sum <= 0x8000_0000_0000_0000 * i,
        decreases n - i,
    {
        let a = points[i];
        let b = points[if i + 1 < n { i + 1 } else { 0 }];
        proof {
            lemma_product_bound(a.x as int, b.y as int);
            lemma_product_bound(b.x as int, a.y as int);
        }
        let cross: i128 = a.x as i128 * b.y as i128 - b.x as i128 * a.y as i128;
        sum = sum + cross;
        i = i + 1;
    }
    if sum < 0 {
        (-sum) as u128
    } else {
        sum as u128
    }
}

// ---- containment ----

/// The edge from `a` to `b` crosses the horizontal ray that runs from `p`
/// towards larger x. The lower end of an edge belongs to it, the upper end
/// does not.
pub open spec fn crosses(a: Point, b: Point, p: Spot) -> bool {
    &&& (a.y * p.unit > p.y) != (b.y * p.unit > p.y)
    &&& if b.y > a.y {
        (p.x - a.x * p.unit) * (b.y - a.y) < (b.x - a.x) * (p.y - a.y * p.unit)
    } else {
        (p.x - a.x * p.unit) * (b.y - a.y) > (b.x - a.x) * (p.y - a.y * p.unit)
    }
}

/// How many of the first `k` edges of `ring` cross the ray from `p`.
pub open spec fn crossings(ring: Seq<Point>, p: Spot, k: int) -> nat
    decreases k,
{
    if k <= 0 {
        0
    } else {
        crossings(ring, p, k - 1) + if crosses(ring[k - 1], ring[after(ring, k - 1)], p) {
            1nat
        } else {
            0nat
        }
    }
}

/// `p` is inside `ring` by the even-odd rule.
pub open spec fn inside(ring: Seq<Point>, p: Spot) -> bool {
    crossings(ring, p, ring.len() as int) % 2 == 1
}

/// Whether the edge from `a` to `b` crosses the ray from `p`.
fn edge_crosses(a: Point, b: Point, p: Spot) -> (c: bool)
    ensures
        c == crosses(a, b, p),
{
    let unit: i128 = p.unit as i128;
    proof {
        lemma_scaled_bound(a.x as int, p.unit as int);
        lemma_scaled_bound(a.y as int, p.unit as int);
        lemma_scaled_bound(b.y as int, p.unit as int);
    }
    let ay: i128 = a.y as i128 * unit;
    let by: i128 = b.y as i128 * unit;
    let py: i128 = p.y as i128;
    if (ay > py) == (by > py) {
        return false;
    }
    let dx: i128 = p.x as i128 - a.x as i128 * unit;
    let dy: i128 = b.y as i128 - a.y as i128;
    let ex: i128 = b.x as i128 - a.x as i128;
    let ey: i128 = py - ay;
    proof {
        lemma_edge_product_bound(dx as int, dy as int);
        lemma_edge_product_bound(ey as int, ex as int);
        assert(ex * ey == ey * ex) by (nonlinear_arith);
    }
    let lhs: i128 = dx * dy;
    let rhs: i128 = ex * ey;
    if b.y > a.y {
        lhs < rhs
    } else {
        lhs > rhs
    }
}

proof fn lemma_scaled_bound(a: int, u: int)
    requires
        -0x8000_0000 <= a < 0x8000_0000,
        0 <= u < 0x1_0000_0000,
    ensures
        -0x8000_0000_0000_0000 <= a * u <= 0x8000_0000_0000_0000,
{
    assert(-0x8000_0000_0000_0000 <= a * u <= 0x8000_0000_0000_0000) by (nonlinear_arith)
        requires
            -0x8000_0000 <= a < 0x8000_0000,
            0 <= u < 0x1_0000_0000,
    ;
}

proof fn lemma_edge_product_bound(a: int, b: int)
    requires
        -0x1_0000_0000_0000_0000 <= a <= 0x1_0000_0000_0000_0000,
        -0x1_0000_0000 <= b <= 0x1_0000_0000,
    ensures
        -0x1_0000_0000_0000_0000_0000_0000 <= a * b <= 0x1_0000_0000_0000_0000_0000_0000,
{
    assert(-0x1_0000_0000_0000_0000_0000_0000 <= a * b <= 0x1_0000_0000_0000_0000_0000_0000)
        by (nonlinear_arith)
        requires
            -0x1_0000_0000_0000_0000 <= a <= 0x1_0000_0000_0000_0000,
            -0x1_0000_0000 <= b <= 0x1_0000_0000,
    ;
}

/// Whether `p` is inside the ring `points`, by the even-odd rule.
pub fn point_in_polygon(points: &[Point], p: Spot) -> (is_in: bool)
    ensures
        is_in == inside(points@, p),
{
    let n: usize = points.len();
    let mut odd = false;
    let mut i: usize = 0;
    while i < n
        invariant
            i <= n == points@.len(),
            odd == (crossings(points@, p, i as int) % 2 == 1),
        decreases n - i,
    {
        let b = points[if i + 1 < n { i + 1 } else { 0 }];
        if edge_crosses(points[i], b, p) {
            odd = !odd;
        }
        i = i + 1;
    }
    odd
}

} // verus!
