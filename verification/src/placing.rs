//! Where flattening puts what a library draws, point by point.

use vstd::prelude::*;

use crate::gds::{Point, Shape};
use crate::hierarchy::{child_of, copy_motion, drawn, elem_at, ends_of, fits, fits_all, flattened};
use crate::hierarchy::{flattened_upto, is_numbered, is_referenced, is_step, law_drawn_elements};
use crate::hierarchy::{law_motions_compose, law_top_structure, moved, moved_ring, opened};
use crate::hierarchy::{path_motion, placement, points_of, quarter_turns, reaches, refers_to};
use crate::hierarchy::{struct_named, top_of, ElementModel, FlatView, Motion, Occurrence, Step};
use crate::hierarchy::{width_of, Strans, StructureModel};
use crate::paths::{path_ring, spine};

verus! {

// ---- one reference ----

/// The transform turns left by `turns` quarter turns and keeps the size. The
/// numbers are the bits of double-precision 1, 0, -0, 90, 180 and 270.
pub open spec fn turns_by(strans: Option<Strans>, turns: int) -> bool {
    match strans {
        None => turns == 0,
        Some(s) => {
            &&& s.mag is None || s.mag == Some(0x3ff0_0000_0000_0000u64)
            &&& match s.angle {
                None => turns == 0,
                Some(bits) => {
                    ||| turns == 0 && (bits == 0 || bits == 0x8000_0000_0000_0000)
                    ||| turns == 1 && bits == 0x4056_8000_0000_0000
                    ||| turns == 2 && bits == 0x4066_8000_0000_0000
                    ||| turns == 3 && bits == 0x4070_e000_0000_0000
                },
            }
        },
    }
}

/// The transform mirrors about X.
pub open spec fn mirrors(strans: Option<Strans>) -> bool {
    strans is Some && strans->0.reflected
}

/// The point turned left about the origin, a quarter turn at a time.
pub open spec fn turned_left(p: (int, int), turns: int) -> (int, int)
    decreases turns,
{
    if turns <= 0 {
        p
    } else {
        let q = turned_left(p, turns - 1);
        (-q.1, q.0)
    }
}

/// Where a reference puts the point `p` of its structure: mirrored about X, if
/// it mirrors, then turned, then counted from the origin of the reference.
pub open spec fn put(mirrored: bool, turns: int, origin: (int, int), p: (int, int)) -> (int, int) {
    let q = turned_left(
        if mirrored {
            (p.0, -p.1)
        } else {
            p
        },
        turns,
    );
    (origin.0 + q.0, origin.1 + q.1)
}

/// A structure reference mirrors, turns and moves every point; it keeps the
/// grid exactly if it does not magnify and turns by quarter turns.
pub proof fn law_references_put_points(
    name: Seq<char>,
    origin: Point,
    strans: Option<Strans>,
    turns: int,
    p: (int, int),
)
    ensures
        ({
            let e = ElementModel::StructRef { name, origin, strans };
            &&& copy_motion(e, 0, 0) is Some <==> exists|t: int|
                0 <= t < 4 && #[trigger] turns_by(strans, t)
            &&& turns_by(strans, turns) ==> moved(copy_motion(e, 0, 0)->0, p) == put(
                mirrors(strans),
                turns,
                (origin.x as int, origin.y as int),
                p,
            )
        }),
{
    lemma_quarter_turns(strans, turns);
    if quarter_turns(strans) is Some {
        lemma_quarter_turns(strans, quarter_turns(strans)->0);
        assert(turns_by(strans, quarter_turns(strans)->0));
    }
    if exists|t: int| 0 <= t < 4 && #[trigger] turns_by(strans, t) {
        let t = choose|t: int| 0 <= t < 4 && #[trigger] turns_by(strans, t);
        lemma_quarter_turns(strans, t);
    }
    if turns_by(strans, turns) {
        lemma_placement_puts(mirrors(strans), turns, origin.x as int, origin.y as int, p);
    }
}

proof fn lemma_quarter_turns(strans: Option<Strans>, turns: int)
    ensures
        turns_by(strans, turns) <==> quarter_turns(strans) == Some(turns),
        quarter_turns(strans) is Some ==> 0 <= quarter_turns(strans)->0 < 4,
{
}

proof fn lemma_placement_puts(mirrored: bool, turns: int, x: int, y: int, p: (int, int))
    requires
        0 <= turns < 4,
    ensures
        moved(placement(mirrored, turns, x, y), p) == put(mirrored, turns, (x, y), p),
{
    reveal_with_fuel(turned_left, 5);
    let m = placement(mirrored, turns, x, y);
    lemma_unit(m.a, p.0);
    lemma_unit(m.b, p.1);
    lemma_unit(m.c, p.0);
    lemma_unit(m.d, p.1);
}

proof fn lemma_unit(u: int, v: int)
    requires
        -1 <= u <= 1,
    ensures
        u == 0 ==> u * v == 0,
        u == 1 ==> u * v == v,
        u == -1 ==> u * v == -v,
{
}

/// `v`, or the nearest number that fits the database.
pub open spec fn is_kept_in_range(v: int, c: i32) -> bool {
    ||| c == v
    ||| v > i32::MAX && c == i32::MAX
    ||| v < i32::MIN && c == i32::MIN
}

/// `v` is the coordinate of the copy at `row` and `col` of an array that goes
/// in `cols` steps from `o` to `row_end` and in `rows` steps to `col_end`.
pub open spec fn is_on_lattice(
    o: int,
    row_end: int,
    col_end: int,
    rows: int,
    cols: int,
    row: int,
    col: int,
    v: int,
) -> bool {
    rows * (cols * (v - o)) == rows * (col * (row_end - o)) + cols * (row * (col_end - o))
}

/// Each copy of an array is placed like a structure reference with the same
/// transform at the copy's origin, a whole number of equal steps from that of
/// the array. An array whose steps are not whole does not keep the grid.
pub proof fn law_array_copies_are_references(
    name: Seq<char>,
    origin: Point,
    strans: Option<Strans>,
    row_end: Point,
    col_end: Point,
    rows: i16,
    cols: i16,
    row: int,
    col: int,
    vx: int,
    vy: int,
    at: Point,
)
    requires
        0 <= row < rows,
        0 <= col < cols,
        is_on_lattice(
            origin.x as int,
            row_end.x as int,
            col_end.x as int,
            rows as int,
            cols as int,
            row,
            col,
            vx,
        ),
        is_on_lattice(
            origin.y as int,
            row_end.y as int,
            col_end.y as int,
            rows as int,
            cols as int,
            row,
            col,
            vy,
        ),
        is_kept_in_range(vx, at.x),
        is_kept_in_range(vy, at.y),
    ensures
        ({
            let e = ElementModel::ArrayRef { name, origin, strans, row_end, col_end, rows, cols };
            let whole = (row_end.x - origin.x) % (cols as int) == 0 && (row_end.y - origin.y) % (
            cols as int) == 0 && (col_end.x - origin.x) % (rows as int) == 0 && (col_end.y
                - origin.y) % (rows as int) == 0;
            &&& whole ==> copy_motion(e, row, col) == copy_motion(
                ElementModel::StructRef { name, origin: at, strans },
                0,
                0,
            )
            &&& !whole ==> copy_motion(e, row, col) is None
        }),
{
    let (r, c) = (rows as int, cols as int);
    if (row_end.x - origin.x) % c == 0 && (col_end.x - origin.x) % r == 0 {
        lemma_lattice(
            origin.x as int,
            row_end.x as int,
            col_end.x as int,
            r,
            c,
            row,
            col,
            vx,
        );
    }
    if (row_end.y - origin.y) % c == 0 && (col_end.y - origin.y) % r == 0 {
        lemma_lattice(
            origin.y as int,
            row_end.y as int,
            col_end.y as int,
            r,
            c,
            row,
            col,
            vy,
        );
    }
}

proof fn lemma_lattice(
    o: int,
    row_end: int,
    col_end: int,
    rows: int,
    cols: int,
    row: int,
    col: int,
    v: int,
)
    requires
        rows > 0,
        cols > 0,
        (row_end - o) % cols == 0,
        (col_end - o) % rows == 0,
        is_on_lattice(o, row_end, col_end, rows, cols, row, col, v),
    ensures
        v == o + ((row_end - o) / cols) * col + ((col_end - o) / rows) * row,
{
    let (a, b) = ((row_end - o) / cols, (col_end - o) / rows);
    assert(row_end - o == cols * a) by (nonlinear_arith)
        requires
            cols > 0,
            (row_end - o) % cols == 0,
            a == (row_end - o) / cols,
    ;
    assert(col_end - o == rows * b) by (nonlinear_arith)
        requires
            rows > 0,
            (col_end - o) % rows == 0,
            b == (col_end - o) / rows,
    ;
    let w = v - o;
    assert(rows * (col * (cols * a)) == rows * cols * (a * col)) by (nonlinear_arith);
    assert(cols * (row * (rows * b)) == rows * cols * (b * row)) by (nonlinear_arith);
    assert(rows * (cols * w) == rows * cols * w) by (nonlinear_arith);
    let k = rows * cols;
    let z = a * col + b * row;
    assert(k * z == k * (a * col) + k * (b * row)) by (nonlinear_arith)
        requires
            z == a * col + b * row,
    ;
    assert(k > 0) by (nonlinear_arith)
        requires
            rows > 0,
            cols > 0,
            k == rows * cols,
    ;
    assert(w == z) by (nonlinear_arith)
        requires
            k > 0,
            k * w == k * z,
    ;
}

// ---- a way down the hierarchy ----

/// References act from the inside: what is drawn below a path of references
/// is put by the last of them first, and by the others after it. It keeps the
/// grid if every reference does.
pub proof fn law_paths_put_points_from_the_inside(
    lib: Seq<StructureModel>,
    path: Seq<Step>,
    k: int,
    p: (int, int),
)
    requires
        0 < k <= path.len(),
    ensures
        ({
            let st = path[k - 1];
            let inner = copy_motion(
                lib[st.structure as int].elems[st.element as int],
                st.row as int,
                st.col as int,
            );
            let outer = path_motion(lib, path, k - 1);
            let whole = path_motion(lib, path, k);
            &&& whole is Some <==> inner is Some && outer is Some
            &&& whole is Some ==> moved(whole->0, p) == moved(outer->0, moved(inner->0, p))
        }),
        path_motion(lib, path, 0) is Some,
        moved(path_motion(lib, path, 0)->0, p) == p,
{
    let st = path[k - 1];
    let inner = copy_motion(elem_at(lib, st.structure, st.element), st.row as int, st.col as int);
    let outer = path_motion(lib, path, k - 1);
    if inner is Some && outer is Some {
        law_motions_compose(inner->0, outer->0, p);
    }
    let m = path_motion(lib, path, 0)->0;
    lemma_unit(m.a, p.0);
    lemma_unit(m.b, p.1);
    lemma_unit(m.c, p.0);
    lemma_unit(m.d, p.1);
}

/// The points of `ring` lie where `m` takes those of `from`.
pub open spec fn is_image(m: Motion, from: Seq<Point>, ring: Seq<Point>) -> bool {
    &&& ring.len() <= from.len()
    &&& forall|i: int|
        0 <= i < ring.len() ==> (#[trigger] ring[i]).x == moved(
            m,
            (from[i].x as int, from[i].y as int),
        ).0 && ring[i].y == moved(m, (from[i].x as int, from[i].y as int)).1
}

/// The place fits the database.
pub open spec fn in_database(q: (int, int)) -> bool {
    i32::MIN <= q.0 <= i32::MAX && i32::MIN <= q.1 <= i32::MAX
}

/// `m` takes some point of `ring` out of the range of the database.
pub open spec fn leaves_database(m: Motion, ring: Seq<Point>) -> bool {
    exists|i: int|
        0 <= i < ring.len() && !in_database(
            moved(m, ((#[trigger] ring[i]).x as int, ring[i].y as int)),
        )
}

/// A boundary or a box becomes one polygon, on its layer and of its datatype,
/// with every corner where the references put it; a corner that repeats the
/// first one at the end is dropped. It is listed by its place instead where
/// the grid or its range is left, and only a ring of fewer than three corners
/// becomes nothing.
pub proof fn law_drawn_rings_become_polygons(
    lib: Seq<StructureModel>,
    o: Occurrence,
    layer: i16,
    datatype: i16,
    points: Seq<Point>,
)
    requires
        lib[o.structure as int].elems[o.element as int] == (ElementModel::Drawn {
            layer,
            datatype,
            points,
        }),
    ensures
        ({
            let motion = path_motion(lib, o.path, o.path.len() as int);
            let f = flattened(lib, o);
            let n = points.len() as int;
            if motion is None || leaves_database(motion->0, points) {
                f == seq![FlatView::OffGrid(o)]
            } else {
                let m = motion->0;
                let closed = n >= 2 && moved(m, (points[0].x as int, points[0].y as int)) == moved(
                    m,
                    (points[n - 1].x as int, points[n - 1].y as int),
                );
                let corners = if closed {
                    n - 1
                } else {
                    n
                };
                if corners < 3 {
                    f.len() == 0
                } else {
                    &&& f.len() == 1
                    &&& f[0] is Placed
                    &&& f[0]->Placed_0.layer == layer
                    &&& f[0]->Placed_0.datatype == datatype
                    &&& f[0]->Placed_0.ring.len() == corners
                    &&& is_image(m, points, f[0]->Placed_0.ring)
                }
            }
        }),
{
    let e = elem_at(lib, o.structure, o.element);
    let motion = path_motion(lib, o.path, o.path.len() as int);
    assert(points_of(e) == points);
    if motion is Some {
        let m = motion->0;
        let n = points.len() as int;
        if fits_all(m, points) {
            assert forall|i: int| 0 <= i < n implies in_database(
                moved(m, ((#[trigger] points[i]).x as int, points[i].y as int)),
            ) by {
                assert(fits(m, points[i]));
            }
            let ring = moved_ring(m, points);
            if n >= 2 {
                assert(in_database(moved(m, (points[0].x as int, points[0].y as int))));
                assert(in_database(moved(m, (points[n - 1].x as int, points[n - 1].y as int))));
            }
            assert(is_image(m, points, opened(ring)));
        } else {
            let i = choose|i: int| 0 <= i < n && !fits(m, #[trigger] points[i]);
            assert(!in_database(moved(m, (points[i].x as int, points[i].y as int))));
        }
    }
}

/// A path of some width becomes the polygon of its outline, on its layer and
/// of its datatype, with every corner where the references put it, or is
/// listed by its place where the outline or the references leave the grid.
pub proof fn law_drawn_paths_become_polygons(
    lib: Seq<StructureModel>,
    o: Occurrence,
    layer: i16,
    datatype: i16,
    width: Option<i32>,
    path_type: Option<i16>,
    points: Seq<Point>,
)
    requires
        lib[o.structure as int].elems[o.element as int] == (ElementModel::Path {
            layer,
            datatype,
            width,
            path_type,
            points,
        }),
    ensures
        ({
            let motion = path_motion(lib, o.path, o.path.len() as int);
            let f = flattened(lib, o);
            let w: int = match width {
                None => 0,
                Some(w) => if w < 0 {
                    -w
                } else {
                    w as int
                },
            };
            let ends: int = match path_type {
                None => 0,
                Some(t) => t as int,
            };
            let ring = path_ring(points, w, ends);
            if w == 0 || spine(points).len() < 2 {
                f.len() == 0
            } else if motion is None || ring is None || leaves_database(motion->0, ring->0) {
                f == seq![FlatView::OffGrid(o)]
            } else {
                &&& f.len() == 1
                &&& f[0] is Placed
                &&& f[0]->Placed_0.layer == layer
                &&& f[0]->Placed_0.datatype == datatype
                &&& f[0]->Placed_0.ring.len() == ring->0.len()
                &&& is_image(motion->0, ring->0, f[0]->Placed_0.ring)
            }
        }),
{
    let motion = path_motion(lib, o.path, o.path.len() as int);
    let w: int = match width {
        None => 0,
        Some(w) => if w < 0 {
            -w
        } else {
            w as int
        },
    };
    let ends: int = match path_type {
        None => 0,
        Some(t) => t as int,
    };
    let e = elem_at(lib, o.structure, o.element);
    assert(points_of(e) == points);
    assert(width_of(e) == w);
    assert(ends_of(e) == ends);
    if motion is Some && path_ring(points, w, ends) is Some {
        let m = motion->0;
        let ring = path_ring(points, w, ends)->0;
        if fits_all(m, ring) {
            assert forall|i: int| 0 <= i < ring.len() implies in_database(
                moved(m, ((#[trigger] ring[i]).x as int, ring[i].y as int)),
            ) by {
                assert(fits(m, ring[i]));
            }
            assert(is_image(m, ring, moved_ring(m, ring)));
            if w != 0 && spine(points).len() >= 2 {
                let shape = Shape { layer, datatype, ring: moved_ring(m, ring) };
                assert(flattened(lib, o) =~= seq![FlatView::Placed(shape)]);
            }
        } else {
            let i = choose|i: int| 0 <= i < ring.len() && !fits(m, #[trigger] ring[i]);
            assert(!in_database(moved(m, (ring[i].x as int, ring[i].y as int))));
            if w != 0 && spine(points).len() >= 2 {
                assert(flattened(lib, o) =~= seq![FlatView::OffGrid(o)]);
            }
        }
    } else if w != 0 && spine(points).len() >= 2 {
        assert(flattened(lib, o) =~= seq![FlatView::OffGrid(o)]);
    }
}

/// The list keeps the order of the occurrences: what comes of two lists one
/// after the other is what comes of the first and then what comes of the
/// second, and one occurrence gives its own entries.
pub proof fn law_flattening_keeps_the_order(
    lib: Seq<StructureModel>,
    a: Seq<Occurrence>,
    b: Seq<Occurrence>,
    o: Occurrence,
)
    ensures
        flattened_upto(lib, a + b, (a.len() + b.len()) as int) == flattened_upto(
            lib,
            a,
            a.len() as int,
        ) + flattened_upto(lib, b, b.len() as int),
        flattened_upto(lib, seq![o], 1) == flattened(lib, o),
        flattened_upto(lib, Seq::empty(), 0).len() == 0,
{
    lemma_flattened_sum(lib, a, b, b.len() as int);
    reveal_with_fuel(flattened_upto, 2);
    assert(flattened_upto(lib, seq![o], 1) =~= flattened(lib, o));
}

proof fn lemma_flattened_sum(
    lib: Seq<StructureModel>,
    a: Seq<Occurrence>,
    b: Seq<Occurrence>,
    k: int,
)
    requires
        0 <= k <= b.len(),
    ensures
        flattened_upto(lib, a + b, a.len() + k) == flattened_upto(lib, a, a.len() as int)
            + flattened_upto(lib, b, k),
    decreases k,
{
    if k == 0 {
        lemma_flattened_prefix(lib, a, b, a.len() as int);
        assert(flattened_upto(lib, b, 0) =~= Seq::<FlatView>::empty());
        assert(flattened_upto(lib, a + b, a.len() + k) =~= flattened_upto(lib, a, a.len() as int)
            + flattened_upto(lib, b, k));
    } else {
        lemma_flattened_sum(lib, a, b, k - 1);
        assert((a + b)[a.len() + k - 1] == b[k - 1]);
        assert(flattened_upto(lib, a + b, a.len() + k) =~= flattened_upto(lib, a, a.len() as int)
            + flattened_upto(lib, b, k));
    }
}

proof fn lemma_flattened_prefix(
    lib: Seq<StructureModel>,
    a: Seq<Occurrence>,
    b: Seq<Occurrence>,
    k: int,
)
    requires
        k <= a.len(),
    ensures
        flattened_upto(lib, a + b, k) == flattened_upto(lib, a, k),
    decreases k,
{
    if k > 0 {
        lemma_flattened_prefix(lib, a, b, k - 1);
        assert((a + b)[k - 1] == a[k - 1]);
    }
}

// ---- names ----

/// The element is a reference to `name`.
pub open spec fn names(e: ElementModel, name: Seq<char>) -> bool {
    match e {
        ElementModel::StructRef { name: n, .. } => n == name,
        ElementModel::ArrayRef { name: n, .. } => n == name,
        _ => false,
    }
}

/// A reference leads to the last structure with its name, and nowhere if
/// there is none.
pub proof fn law_references_lead_to_their_names(
    lib: Seq<StructureModel>,
    e: ElementModel,
    name: Seq<char>,
)
    requires
        names(e, name),
        lib.len() <= usize::MAX,
    ensures
        match child_of(lib, e) {
            Some(c) => {
                &&& c < lib.len()
                &&& lib[c as int].name == name
                &&& forall|t: int| c < t < lib.len() ==> (#[trigger] lib[t]).name != name
            },
            None => forall|t: int| 0 <= t < lib.len() ==> (#[trigger] lib[t]).name != name,
        },
{
    lemma_named(lib, name, lib.len() as int);
}

proof fn lemma_named(lib: Seq<StructureModel>, name: Seq<char>, k: int)
    requires
        0 <= k <= lib.len() <= usize::MAX,
    ensures
        match struct_named(lib, name, k) {
            Some(c) => {
                &&& c < k
                &&& lib[c as int].name == name
                &&& forall|t: int| c < t < k ==> (#[trigger] lib[t]).name != name
            },
            None => forall|t: int| 0 <= t < k ==> (#[trigger] lib[t]).name != name,
        },
    decreases k,
{
    if k > 0 {
        lemma_named(lib, name, k - 1);
    }
}

/// Some element of structure `s`, which has another name, is a reference to
/// `name`.
pub open spec fn is_named_by(lib: Seq<StructureModel>, name: Seq<char>, s: int) -> bool {
    &&& 0 <= s < lib.len()
    &&& lib[s].name != name
    &&& exists|e: int| 0 <= e < lib[s].elems.len() && names(#[trigger] lib[s].elems[e], name)
}

/// No structure with another name refers to the top structure, unless others
/// refer to every structure, and it is the last; others refer to each
/// structure before it.
pub proof fn law_nothing_refers_to_the_top(lib: Seq<StructureModel>, u: int, s: int)
    requires
        lib.len() > 0,
    ensures
        0 <= top_of(lib) < lib.len(),
        top_of(lib) < lib.len() - 1 ==> !is_named_by(lib, lib[top_of(lib)].name, s),
        0 <= u < top_of(lib) ==> exists|t: int| #[trigger] is_named_by(lib, lib[u].name, t),
{
    law_top_structure(lib);
    let top = top_of(lib);
    if is_named_by(lib, lib[top].name, s) {
        let e = choose|e: int|
            0 <= e < lib[s].elems.len() && names(#[trigger] lib[s].elems[e], lib[top].name);
        assert(refers_to(lib[s].elems[e]) == Some(lib[top].name));
        assert(is_referenced(lib, lib[top].name));
    }
    if 0 <= u < top {
        let name = lib[u].name;
        assert(is_referenced(lib, lib[u].name));
        let (t, e) = choose|t: int, e: int|
            0 <= t < lib.len() && 0 <= e < lib[t].elems.len() && lib[t].name != name && refers_to(
                #[trigger] lib[t].elems[e],
            ) == Some(name);
        assert(names(lib[t].elems[e], name));
        assert(is_named_by(lib, name, t));
    }
}

/// The step is along a reference of structure `st.structure`, to its only copy
/// or to one in the rows and columns of the array.
pub open spec fn is_to_a_copy(lib: Seq<StructureModel>, st: Step) -> bool {
    &&& st.structure < lib.len()
    &&& st.element < lib[st.structure as int].elems.len()
    &&& match lib[st.structure as int].elems[st.element as int] {
        ElementModel::StructRef { .. } => st.row == 0 && st.col == 0,
        ElementModel::ArrayRef { rows, cols, .. } => 0 <= st.row < rows && 0 <= st.col < cols,
        _ => false,
    }
}

/// A path of no references stays where it is; one more reference leads, by
/// each of its copies, from the structure that holds it to the one that it
/// names, and from no other.
pub proof fn law_every_copy_leads_on(
    lib: Seq<StructureModel>,
    from: usize,
    path: Seq<Step>,
    st: Step,
)
    ensures
        reaches(lib, from, Seq::empty()) == Some(from),
        reaches(lib, from, path.push(st)) == if reaches(lib, from, path) == Some(st.structure)
            && is_to_a_copy(lib, st) {
            child_of(lib, lib[st.structure as int].elems[st.element as int])
        } else {
            None
        },
    decreases path.len(),
{
    reveal_with_fuel(reaches, 2);
    let longer = path.push(st);
    if path.len() == 0 {
        assert(longer.subrange(1, 1) =~= Seq::<Step>::empty());
        assert(path =~= Seq::<Step>::empty());
    } else {
        let rest = path.subrange(1, path.len() as int);
        assert(longer.subrange(1, longer.len() as int) =~= rest.push(st));
        if path[0].structure == from && is_step(lib, path[0]) {
            let child = child_of(lib, elem_at(lib, from, path[0].element))->0;
            law_every_copy_leads_on(lib, child, rest, st);
        }
    }
}

/// Every boundary, box and path of a structure to which at most 64 references
/// lead from the top structure is flattened, and nothing else is.
pub proof fn law_everything_drawn_is_flattened(lib: Seq<StructureModel>, o: Occurrence)
    requires
        lib.len() > 0,
        is_numbered(lib),
        o.structure < lib.len(),
        o.element < lib[o.structure as int].elems.len(),
    ensures
        drawn(lib).contains(o) <==> {
            let e = lib[o.structure as int].elems[o.element as int];
            &&& e is Drawn || e is Path
            &&& o.path.len() <= 64
            &&& reaches(lib, top_of(lib) as usize, o.path) == Some(o.structure)
        },
{
    law_drawn_elements(lib, o);
}

} // verus!
