//! Paths: a line of points, drawn with some width, and its outline.
//!
//! A path whose segments run along the axes, of an even width and with square
//! ends, has an outline on the database grid: it is computed here, exactly.
//! Where the line turns, the outline has a mitred corner.

use vstd::prelude::*;

use crate::gds::Point;

verus! {

/// The points of a line without those that repeat the one before.
pub open spec fn spine(points: Seq<Point>) -> Seq<Point>
    decreases points.len(),
{
    if points.len() == 0 {
        Seq::empty()
    } else {
        let before = spine(points.drop_last());
        if before.len() > 0 && before.last() == points.last() {
            before
        } else {
            before.push(points.last())
        }
    }
}

/// The sign of a number.
pub open spec fn sign(v: int) -> int {
    if v < 0 {
        -1
    } else if v > 0 {
        1
    } else {
        0
    }
}

/// `v` in the direction `u`, which is -1, 0 or 1.
pub open spec fn toward(u: int, v: int) -> int {
    if u < 0 {
        -v
    } else if u > 0 {
        v
    } else {
        0
    }
}

/// The direction from `p` to `q`, along both axes.
pub open spec fn heading(p: Point, q: Point) -> (int, int) {
    (sign(q.x - p.x), sign(q.y - p.y))
}

/// How the line `s` arrives at its point `i`; at the first point, how it
/// leaves.
pub open spec fn arrival(s: Seq<Point>, i: int) -> (int, int) {
    if i == 0 {
        heading(s[0], s[1])
    } else {
        heading(s[i - 1], s[i])
    }
}

/// How the line `s` leaves its point `i`; at the last point, how it arrives.
pub open spec fn departure(s: Seq<Point>, i: int) -> (int, int) {
    if i == s.len() - 1 {
        heading(s[i - 1], s[i])
    } else {
        heading(s[i], s[i + 1])
    }
}

/// At its point `i` the line `s` runs along the axes, and does not turn back.
pub open spec fn is_square_at(s: Seq<Point>, i: int) -> bool {
    let a = arrival(s, i);
    let d = departure(s, i);
    &&& (a.0 == 0) != (a.1 == 0)
    &&& (d.0 == 0) != (d.1 == 0)
    &&& a.0 + d.0 != 0 || a.1 + d.1 != 0
}

/// The corner of the outline at point `i` of the line `s`, to the left of the
/// line or to the right of it: `half` away from the line, and at either end
/// `reach` beyond it.
pub open spec fn corner(s: Seq<Point>, i: int, half: int, reach: int, left: bool) -> (int, int) {
    let a = arrival(s, i);
    let d = departure(s, i);
    let (nx, ny) = if a == d {
        (-a.1, a.0)
    } else {
        (-a.1 - d.1, a.0 + d.0)
    };
    let side = if left {
        half
    } else {
        -half
    };
    let beyond = if i == 0 {
        -reach
    } else if i == s.len() - 1 {
        reach
    } else {
        0
    };
    (
        s[i].x + toward(nx, side) + toward(a.0, beyond),
        s[i].y + toward(ny, side) + toward(a.1, beyond),
    )
}

/// Corner `k` of the outline: along the left side of the line, and back along
/// the right side.
pub open spec fn outline_at(s: Seq<Point>, half: int, reach: int, k: int) -> (int, int) {
    if k < s.len() {
        corner(s, k, half, reach, true)
    } else {
        corner(s, 2 * s.len() - 1 - k, half, reach, false)
    }
}

/// The place fits the database.
pub open spec fn in_range(q: (int, int)) -> bool {
    i32::MIN <= q.0 <= i32::MAX && i32::MIN <= q.1 <= i32::MAX
}

/// How far the outline reaches beyond either end of a path of type `ends`.
pub open spec fn reach_of(half: int, ends: int) -> int {
    if ends == 2 {
        half
    } else {
        0
    }
}

/// The line runs along the axes and never turns back.
pub open spec fn is_square_line(s: Seq<Point>) -> bool {
    forall|i: int| 0 <= i < s.len() ==> #[trigger] is_square_at(s, i)
}

/// Every corner of the outline fits the database.
pub open spec fn outline_fits(s: Seq<Point>, half: int, reach: int) -> bool {
    forall|k: int| 0 <= k < 2 * s.len() ==> in_range(#[trigger] outline_at(s, half, reach, k))
}

/// The corners of the outline.
pub open spec fn outline(s: Seq<Point>, half: int, reach: int) -> Seq<Point> {
    Seq::new(
        2 * s.len(),
        |k: int|
            {
                let q = outline_at(s, half, reach, k);
                Point { x: q.0 as i32, y: q.1 as i32 }
            },
    )
}

/// The outline of the path along `points`, where it lies on the database grid
/// and in its range. `ends` is the path type: 0 for ends flush with the first
/// and the last point, 2 for ends half the width beyond them; the outline of
/// a path of another type does not lie on the grid.
pub open spec fn path_ring(points: Seq<Point>, width: int, ends: int) -> Option<Seq<Point>> {
    let s = spine(points);
    let half = width / 2;
    let reach = reach_of(half, ends);
    let is_even = width > 0 && width % 2 == 0;
    if s.len() >= 2 && is_even && (ends == 0 || ends == 2) && is_square_line(s) && outline_fits(
        s,
        half,
        reach,
    ) {
        Some(outline(s, half, reach))
    } else {
        None
    }
}

/// Drops the points that repeat the one before.
fn spine_of(points: &[Point]) -> (s: Vec<Point>)
    ensures
        s@ == spine(points@),
{
    let mut s: Vec<Point> = Vec::new();
    let mut i: usize = 0;
    while i < points.len()
        invariant
            i <= points@.len(),
            s@ == spine(points@.take(i as int)),
        decreases points@.len() - i,
    {
        assert(points@.take(i + 1).drop_last() =~= points@.take(i as int));
        let n: usize = s.len();
        if n == 0 || s[n - 1] != points[i] {
            s.push(points[i]);
        }
        i = i + 1;
    }
    assert(points@.take(points@.len() as int) =~= points@);
    s
}

/// The direction from `p` to `q`, along both axes.
fn heading_of(p: Point, q: Point) -> (h: (i64, i64))
    ensures
        h.0 == heading(p, q).0,
        h.1 == heading(p, q).1,
{
    let x: i64 = if q.x > p.x {
        1
    } else if q.x < p.x {
        -1
    } else {
        0
    };
    let y: i64 = if q.y > p.y {
        1
    } else if q.y < p.y {
        -1
    } else {
        0
    };
    (x, y)
}

/// How the line arrives at its point `i`, and how it leaves it.
fn headings(s: &Vec<Point>, i: usize) -> (r: ((i64, i64), (i64, i64)))
    requires
        s@.len() >= 2,
        i < s@.len(),
    ensures
        r.0.0 == arrival(s@, i as int).0,
        r.0.1 == arrival(s@, i as int).1,
        r.1.0 == departure(s@, i as int).0,
        r.1.1 == departure(s@, i as int).1,
{
    let a = if i == 0 {
        heading_of(s[0], s[1])
    } else {
        heading_of(s[i - 1], s[i])
    };
    let d = if i == s.len() - 1 {
        heading_of(s[i - 1], s[i])
    } else {
        heading_of(s[i], s[i + 1])
    };
    (a, d)
}

/// `v` in the direction `u`.
fn step(u: i64, v: i64) -> (r: i64)
    requires
        -0x8000_0000 <= v <= 0x8000_0000,
    ensures
        r == toward(u as int, v as int),
        -0x8000_0000 <= r <= 0x8000_0000,
{
    if u < 0 {
        -v
    } else if u > 0 {
        v
    } else {
        0
    }
}

/// The corner of the outline at point `i` of the line, if it fits the
/// database.
fn corner_of(s: &Vec<Point>, i: usize, half: i64, reach: i64, left: bool) -> (r: Option<Point>)
    requires
        s@.len() >= 2,
        i < s@.len(),
        0 <= half <= 0x8000_0000,
        0 <= reach <= 0x8000_0000,
    ensures
        r is Some <==> in_range(corner(s@, i as int, half as int, reach as int, left)),
        r is Some ==> r->0.x == corner(s@, i as int, half as int, reach as int, left).0,
        r is Some ==> r->0.y == corner(s@, i as int, half as int, reach as int, left).1,
{
    let (a, d) = headings(s, i);
    let (nx, ny): (i64, i64) = if a.0 == d.0 && a.1 == d.1 {
        (-a.1, a.0)
    } else {
        (-a.1 - d.1, a.0 + d.0)
    };
    let side: i64 = if left {
        half
    } else {
        -half
    };
    let beyond: i64 = if i == 0 {
        -reach
    } else if i == s.len() - 1 {
        reach
    } else {
        0
    };
    let x: i64 = s[i].x as i64 + step(nx, side) + step(a.0, beyond);
    let y: i64 = s[i].y as i64 + step(ny, side) + step(a.1, beyond);
    if i32::MIN as i64 <= x && x <= i32::MAX as i64 && i32::MIN as i64 <= y && y
        <= i32::MAX as i64 {
        Some(Point { x: x as i32, y: y as i32 })
    } else {
        None
    }
}

/// Whether the line runs along the axes and never turns back.
fn is_square(s: &Vec<Point>) -> (r: bool)
    requires
        s@.len() >= 2,
    ensures
        r == is_square_line(s@),
{
    let mut i: usize = 0;
    while i < s.len()
        invariant
            i <= s@.len(),
            s@.len() >= 2,
            forall|k: int| 0 <= k < i ==> #[trigger] is_square_at(s@, k),
        decreases s@.len() - i,
    {
        let (a, d) = headings(s, i);
        let ok = (a.0 == 0) != (a.1 == 0) && (d.0 == 0) != (d.1 == 0) && (a.0 + d.0 != 0 || a.1
            + d.1 != 0);
        if !ok {
            assert(!is_square_at(s@, i as int));
            return false;
        }
        i = i + 1;
    }
    true
}

/// Whether the path along `points` has an area: a width, and two points that
/// differ.
pub fn has_area(points: &[Point], width: u32) -> (r: bool)
    ensures
        r == (width > 0 && spine(points@).len() >= 2),
{
    width > 0 && spine_of(points).len() >= 2
}

/// The outline of the path along `points`, if it lies on the database grid
/// and in its range.
pub fn path_outline(points: &[Point], width: u32, ends: i16) -> (r: Option<Vec<Point>>)
    ensures
        match path_ring(points@, width as int, ends as int) {
            Some(ring) => r is Some && r->0@ == ring,
            None => r is None,
        },
{
    let s = spine_of(points);
    let n: usize = s.len();
    if n < 2 || width == 0 || width % 2 != 0 || (ends != 0 && ends != 2) || !is_square(&s) {
        return None;
    }
    let half: i64 = (width / 2) as i64;
    let reach: i64 = if ends == 2 {
        half
    } else {
        0
    };
    let mut ring: Vec<Point> = Vec::new();
    let mut i: usize = 0;
    while i < n
        invariant
            i <= n == s@.len(),
            n >= 2,
            0 <= half <= 0x8000_0000,
            0 <= reach <= 0x8000_0000,
            width % 2 == 0,
            half == width as int / 2,
            reach == reach_of(half as int, ends as int),
            s@ == spine(points@),
            ring@.len() == i,
            forall|k: int|
                0 <= k < i ==> in_range(
                    #[trigger] outline_at(s@, half as int, reach as int, k),
                ),
            forall|k: int|
                0 <= k < i ==> is_place(
                    #[trigger] ring@[k],
                    outline_at(s@, half as int, reach as int, k),
                ),
        decreases n - i,
    {
        match corner_of(&s, i, half, reach, true) {
            Some(p) => {
                ring.push(p);
            },
            None => {
                assert(!in_range(outline_at(s@, half as int, reach as int, i as int)));
                return None;
            },
        }
        i = i + 1;
    }
    let mut j: usize = n;
    while j > 0
        invariant
            j <= n == s@.len(),
            n >= 2,
            0 <= half <= 0x8000_0000,
            0 <= reach <= 0x8000_0000,
            width % 2 == 0,
            half == width as int / 2,
            reach == reach_of(half as int, ends as int),
            s@ == spine(points@),
            ring@.len() == 2 * n - j,
            forall|k: int|
                0 <= k < 2 * n - j ==> in_range(
                    #[trigger] outline_at(s@, half as int, reach as int, k),
                ),
            forall|k: int|
                0 <= k < 2 * n - j ==> is_place(
                    #[trigger] ring@[k],
                    outline_at(s@, half as int, reach as int, k),
                ),
        decreases j,
    {
        let ghost k = 2 * n - j;
        match corner_of(&s, j - 1, half, reach, false) {
            Some(p) => {
                ring.push(p);
            },
            None => {
                assert(!in_range(outline_at(s@, half as int, reach as int, k)));
                return None;
            },
        }
        j = j - 1;
    }
    proof {
        let want = path_ring(points@, width as int, ends as int);
        assert(want is Some);
        assert(ring@.len() == want->0.len());
        assert forall|k: int| 0 <= k < ring@.len() implies #[trigger] ring@[k] == want->0[k] by {
            assert(is_place(ring@[k], outline_at(s@, half as int, reach as int, k)));
        }
        assert(ring@ =~= want->0);
    }
    Some(ring)
}

/// `p` is the point at the place `q`.
spec fn is_place(p: Point, q: (int, int)) -> bool {
    p.x == q.0 && p.y == q.1
}

// ---- laws ----

/// A line with two points that differ has a spine of two points at least.
pub proof fn law_distinct_points_make_a_line(points: Seq<Point>, i: int, j: int)
    requires
        0 <= i < points.len(),
        0 <= j < points.len(),
        points[i] != points[j],
    ensures
        spine(points).len() >= 2,
{
    if spine(points).len() < 2 {
        lemma_one_point(points, i);
        lemma_one_point(points, j);
    }
}

/// A spine of fewer than two points comes from a line of one place.
proof fn lemma_one_point(points: Seq<Point>, i: int)
    requires
        spine(points).len() < 2,
        0 <= i < points.len(),
    ensures
        spine(points).len() == 1,
        points[i] == spine(points)[0],
    decreases points.len(),
{
    let front = points.drop_last();
    if i < points.len() - 1 {
        lemma_one_point(front, i);
        assert(front[i] == points[i]);
    }
}

/// The spine passes through the same places, and no two neighbours are equal.
pub proof fn law_spine_keeps_every_place(points: Seq<Point>)
    ensures
        forall|p: Point| #[trigger] spine(points).contains(p) == points.contains(p),
        forall|i: int, j: int|
            0 <= i && j == i + 1 && j < spine(points).len() ==> #[trigger] spine(points)[i]
                != #[trigger] spine(points)[j],
    decreases points.len(),
{
    if points.len() > 0 {
        let front = points.drop_last();
        law_spine_keeps_every_place(front);
        let s = spine(points);
        let before = spine(front);
        assert forall|p: Point| #[trigger] s.contains(p) == points.contains(p) by {
            assert(before.contains(p) == front.contains(p));
            if points.contains(p) {
                let k = choose|k: int| 0 <= k < points.len() && points[k] == p;
                if k < points.len() - 1 {
                    assert(front[k] == p);
                    let m = choose|m: int| 0 <= m < before.len() && before[m] == p;
                    assert(s[m] == p);
                } else {
                    assert(s[s.len() - 1] == p);
                }
            }
            if s.contains(p) {
                let k = choose|k: int| 0 <= k < s.len() && s[k] == p;
                if k < before.len() {
                    assert(before[k] == p);
                    let m = choose|m: int| 0 <= m < front.len() && front[m] == p;
                    assert(points[m] == p);
                } else {
                    assert(points[points.len() - 1] == p);
                }
            }
        }
    }
}

/// The outline runs along the line, at half the width from it: the corners at
/// the two ends of a segment lie on a parallel to its left, and on one to its
/// right.
pub proof fn law_outline_keeps_its_distance(points: Seq<Point>, width: int, ends: int, i: int)
    requires
        path_ring(points, width, ends) is Some,
        0 <= i < spine(points).len() - 1,
    ensures
        ({
            let s = spine(points);
            let n = s.len() as int;
            let ring = path_ring(points, width, ends)->0;
            let h = heading(s[i], s[i + 1]);
            let half = width / 2;
            if h.1 == 0 {
                &&& ring[i].y == ring[i + 1].y == s[i].y + toward(h.0, half)
                &&& ring[2 * n - 1 - i].y == ring[2 * n - 2 - i].y == s[i].y - toward(h.0, half)
            } else {
                &&& ring[i].x == ring[i + 1].x == s[i].x - toward(h.1, half)
                &&& ring[2 * n - 1 - i].x == ring[2 * n - 2 - i].x == s[i].x + toward(h.1, half)
            }
        }),
{
    let s = spine(points);
    let n = s.len() as int;
    let half = width / 2;
    let reach = reach_of(half, ends);
    assert(is_square_at(s, i) && is_square_at(s, i + 1));
    assert(in_range(outline_at(s, half, reach, i)));
    assert(in_range(outline_at(s, half, reach, i + 1)));
    assert(in_range(outline_at(s, half, reach, 2 * n - 1 - i)));
    assert(in_range(outline_at(s, half, reach, 2 * n - 2 - i)));
}

/// A path of one segment along the x axis is a rectangle: as long as the
/// segment, or longer by the width, and as high as the path is wide.
pub proof fn law_straight_path_is_a_rectangle(p: Point, q: Point, half: int, ends: int)
    requires
        p.y == q.y,
        p.x < q.x,
        half > 0,
        ends == 0 || ends == 2,
        ({
            let reach = reach_of(half, ends);
            &&& i32::MIN <= p.y - half && p.y + half <= i32::MAX
            &&& i32::MIN <= p.x - reach && q.x + reach <= i32::MAX
        }),
    ensures
        ({
            let reach = reach_of(half, ends);
            path_ring(seq![p, q], 2 * half, ends) == Some(
                seq![
                    Point { x: (p.x - reach) as i32, y: (p.y + half) as i32 },
                    Point { x: (q.x + reach) as i32, y: (p.y + half) as i32 },
                    Point { x: (q.x + reach) as i32, y: (p.y - half) as i32 },
                    Point { x: (p.x - reach) as i32, y: (p.y - half) as i32 },
                ],
            )
        }),
{
    let reach = reach_of(half, ends);
    let line = seq![p, q];
    assert(line.drop_last() =~= seq![p]);
    assert(seq![p].drop_last() =~= Seq::<Point>::empty());
    reveal_with_fuel(spine, 3);
    assert(spine(line) =~= line);
    assert((2 * half) / 2 == half && (2 * half) % 2 == 0);
    assert forall|i: int| 0 <= i < 2 implies #[trigger] is_square_at(line, i) by {}
    assert forall|k: int| 0 <= k < 4 implies in_range(
        #[trigger] outline_at(line, half, reach, k),
    ) by {}
    let ring = path_ring(line, 2 * half, ends)->0;
    assert(ring =~= seq![
        Point { x: (p.x - reach) as i32, y: (p.y + half) as i32 },
        Point { x: (q.x + reach) as i32, y: (p.y + half) as i32 },
        Point { x: (q.x + reach) as i32, y: (p.y - half) as i32 },
        Point { x: (p.x - reach) as i32, y: (p.y - half) as i32 },
    ]);
}

/// The four ways along the axes from `p` to another point `q`.
pub open spec fn goes_east(p: Point, q: Point) -> bool {
    p.y == q.y && p.x < q.x
}

pub open spec fn goes_west(p: Point, q: Point) -> bool {
    p.y == q.y && p.x > q.x
}

pub open spec fn goes_north(p: Point, q: Point) -> bool {
    p.x == q.x && p.y < q.y
}

pub open spec fn goes_south(p: Point, q: Point) -> bool {
    p.x == q.x && p.y > q.y
}

/// `c` is `dx` to the right of `p` and `dy` above it.
pub open spec fn is_off(p: Point, dx: int, dy: int, c: Point) -> bool {
    c.x == p.x + dx && c.y == p.y + dy
}

/// The outline goes beside each segment at half the width, on the left of it
/// on the way there and on its right on the way back.
pub proof fn law_outline_goes_beside_each_segment(points: Seq<Point>, width: int, ends: int, i: int)
    requires
        path_ring(points, width, ends) is Some,
        0 <= i < spine(points).len() - 1,
    ensures
        ({
            let s = spine(points);
            let n = s.len() as int;
            let ring = path_ring(points, width, ends)->0;
            let (p, q) = (s[i], s[i + 1]);
            let (a, b) = (ring[i], ring[i + 1]);
            let (c, d) = (ring[2 * n - 2 - i], ring[2 * n - 1 - i]);
            let half = width / 2;
            &&& ring.len() == 2 * n
            &&& goes_east(p, q) || goes_west(p, q) || goes_north(p, q) || goes_south(p, q)
            &&& goes_east(p, q) ==> a.y == b.y == p.y + half && c.y == d.y == p.y - half
            &&& goes_west(p, q) ==> a.y == b.y == p.y - half && c.y == d.y == p.y + half
            &&& goes_north(p, q) ==> a.x == b.x == p.x - half && c.x == d.x == p.x + half
            &&& goes_south(p, q) ==> a.x == b.x == p.x + half && c.x == d.x == p.x - half
        }),
{
    law_outline_keeps_its_distance(points, width, ends, i);
    let s = spine(points);
    assert(is_square_at(s, i));
}

/// Where a path goes on straight, the outline has its corners straight beside
/// the point between the two segments.
pub proof fn law_outline_passes_straight_points(points: Seq<Point>, width: int, ends: int, i: int)
    requires
        path_ring(points, width, ends) is Some,
        0 < i < spine(points).len() - 1,
    ensures
        ({
            let s = spine(points);
            let n = s.len() as int;
            let ring = path_ring(points, width, ends)->0;
            let (o, p, q) = (s[i - 1], s[i], s[i + 1]);
            let (a, b) = (ring[i], ring[2 * n - 1 - i]);
            let half = width / 2;
            &&& goes_east(o, p) && goes_east(p, q) ==> is_off(p, 0, half, a) && is_off(
                p,
                0,
                -half,
                b,
            )
            &&& goes_west(o, p) && goes_west(p, q) ==> is_off(p, 0, -half, a) && is_off(
                p,
                0,
                half,
                b,
            )
            &&& goes_north(o, p) && goes_north(p, q) ==> is_off(p, -half, 0, a) && is_off(
                p,
                half,
                0,
                b,
            )
            &&& goes_south(o, p) && goes_south(p, q) ==> is_off(p, half, 0, a) && is_off(
                p,
                -half,
                0,
                b,
            )
        }),
{
    let s = spine(points);
    let n = s.len() as int;
    let half = width / 2;
    let reach = reach_of(half, ends);
    assert(is_square_at(s, i));
    assert(in_range(outline_at(s, half, reach, i)));
    assert(in_range(outline_at(s, half, reach, 2 * n - 1 - i)));
}

/// The outline ends half the width beyond the first and the last point of a
/// path of type 2, and at them otherwise.
pub proof fn law_outline_ends_with_the_path(points: Seq<Point>, width: int, ends: int)
    requires
        path_ring(points, width, ends) is Some,
    ensures
        ({
            let s = spine(points);
            let n = s.len() as int;
            let ring = path_ring(points, width, ends)->0;
            let half = width / 2;
            let beyond = if ends == 2 {
                half
            } else {
                0
            };
            let (p, q) = (s[0], s[1]);
            let (o, e) = (s[n - 2], s[n - 1]);
            let (a, b) = (ring[0], ring[2 * n - 1]);
            let (c, d) = (ring[n - 1], ring[n]);
            &&& goes_east(p, q) ==> is_off(p, -beyond, half, a) && is_off(p, -beyond, -half, b)
            &&& goes_west(p, q) ==> is_off(p, beyond, -half, a) && is_off(p, beyond, half, b)
            &&& goes_north(p, q) ==> is_off(p, -half, -beyond, a) && is_off(p, half, -beyond, b)
            &&& goes_south(p, q) ==> is_off(p, half, beyond, a) && is_off(p, -half, beyond, b)
            &&& goes_east(o, e) ==> is_off(e, beyond, half, c) && is_off(e, beyond, -half, d)
            &&& goes_west(o, e) ==> is_off(e, -beyond, -half, c) && is_off(e, -beyond, half, d)
            &&& goes_north(o, e) ==> is_off(e, -half, beyond, c) && is_off(e, half, beyond, d)
            &&& goes_south(o, e) ==> is_off(e, half, -beyond, c) && is_off(e, -half, -beyond, d)
        }),
{
    let s = spine(points);
    let n = s.len() as int;
    let half = width / 2;
    let reach = reach_of(half, ends);
    assert(is_square_at(s, 0) && is_square_at(s, n - 1));
    assert(in_range(outline_at(s, half, reach, 0)));
    assert(in_range(outline_at(s, half, reach, 2 * n - 1)));
    assert(in_range(outline_at(s, half, reach, n - 1)));
    assert(in_range(outline_at(s, half, reach, n)));
}

/// The line goes along the axes from point `i` on, and not straight back.
pub open spec fn goes_on_squarely(s: Seq<Point>, i: int) -> bool {
    let (p, q) = (s[i], s[i + 1]);
    &&& goes_east(p, q) || goes_west(p, q) || goes_north(p, q) || goes_south(p, q)
    &&& i > 0 ==> {
        let o = s[i - 1];
        &&& !(goes_east(o, p) && goes_west(p, q)) && !(goes_west(o, p) && goes_east(p, q))
        &&& !(goes_north(o, p) && goes_south(p, q)) && !(goes_south(o, p) && goes_north(p, q))
    }
}

/// A path has an outline on the grid only if it is of an even width, of type 0
/// or 2, and goes along the axes without turning back; such a path has one
/// unless it comes too close to the ends of the range of the database.
pub proof fn law_square_paths_have_outlines(points: Seq<Point>, width: int, ends: int)
    ensures
        ({
            let s = spine(points);
            let square = s.len() >= 2 && forall|i: int|
                0 <= i < s.len() - 1 ==> #[trigger] goes_on_squarely(s, i);
            let plain = width > 0 && width % 2 == 0 && (ends == 0 || ends == 2);
            let roomy = forall|i: int|
                0 <= i < s.len() ==> i32::MIN + width <= (#[trigger] s[i]).x <= i32::MAX - width
                    && i32::MIN + width <= s[i].y <= i32::MAX - width;
            &&& path_ring(points, width, ends) is Some ==> square && plain
            &&& square && plain && roomy ==> path_ring(points, width, ends) is Some
        }),
{
    let s = spine(points);
    let n = s.len() as int;
    let half = width / 2;
    let reach = reach_of(half, ends);
    if path_ring(points, width, ends) is Some {
        assert forall|i: int| 0 <= i < n - 1 implies #[trigger] goes_on_squarely(s, i) by {
            assert(is_square_at(s, i));
        }
    }
    if n >= 2 && (forall|i: int| 0 <= i < n - 1 ==> #[trigger] goes_on_squarely(s, i)) {
        assert forall|i: int| 0 <= i < n implies #[trigger] is_square_at(s, i) by {
            if i > 0 {
                assert(goes_on_squarely(s, i - 1));
            }
            if i < n - 1 {
                assert(goes_on_squarely(s, i));
            }
        }
        if width > 0 && width % 2 == 0 && (forall|i: int|
            0 <= i < n ==> i32::MIN + width <= (#[trigger] s[i]).x <= i32::MAX - width && i32::MIN
                + width <= s[i].y <= i32::MAX - width) {
            assert forall|k: int| 0 <= k < 2 * n implies in_range(
                #[trigger] outline_at(s, half, reach, k),
            ) by {
                let i = if k < n {
                    k
                } else {
                    2 * n - 1 - k
                };
                assert(i32::MIN + width <= s[i].x <= i32::MAX - width);
            }
        }
    }
}

/// A line of which no two neighbours are equal is its own spine, and a point
/// that repeats its neighbour changes nothing.
pub proof fn law_spine_drops_repeated_points(points: Seq<Point>, i: int)
    ensures
        (forall|j: int, k: int|
            0 <= j && k == j + 1 && k < points.len() ==> #[trigger] points[j]
                != #[trigger] points[k]) ==> spine(points) == points,
        0 <= i < points.len() ==> spine(points.insert(i, points[i])) == spine(points),
{
    if forall|j: int, k: int|
        0 <= j && k == j + 1 && k < points.len() ==> #[trigger] points[j] != #[trigger] points[k] {
        lemma_own_spine(points);
    }
    if 0 <= i < points.len() {
        lemma_repeated_point(points, i);
    }
}

proof fn lemma_own_spine(points: Seq<Point>)
    requires
        forall|j: int, k: int|
            0 <= j && k == j + 1 && k < points.len() ==> #[trigger] points[j]
                != #[trigger] points[k],
    ensures
        spine(points) == points,
    decreases points.len(),
{
    if points.len() > 0 {
        let front = points.drop_last();
        assert forall|j: int, k: int| 0 <= j && k == j + 1 && k < front.len() implies
            #[trigger] front[j] != #[trigger] front[k] by {
            assert(points[j] != points[k]);
        }
        lemma_own_spine(front);
        if front.len() > 0 {
            let n = points.len() as int;
            assert(points[n - 2] != points[n - 1]);
            assert(front.last() == points[n - 2]);
        }
        assert(spine(points) =~= points);
    } else {
        assert(spine(points) =~= points);
    }
}

/// The spine ends where the line ends.
proof fn lemma_spine_ends(points: Seq<Point>)
    requires
        points.len() > 0,
    ensures
        spine(points).len() > 0,
        spine(points).last() == points.last(),
{
}

proof fn lemma_repeated_point(points: Seq<Point>, i: int)
    requires
        0 <= i < points.len(),
    ensures
        spine(points.insert(i, points[i])) == spine(points),
    decreases points.len(),
{
    let more = points.insert(i, points[i]);
    let n = points.len() as int;
    if i == n - 1 {
        assert(more.drop_last() =~= points);
        assert(more.last() == points.last());
        lemma_spine_ends(points);
    } else {
        let front = points.drop_last();
        lemma_repeated_point(front, i);
        assert(more.drop_last() =~= front.insert(i, front[i]));
        assert(more.last() == points.last());
    }
}

} // verus!
