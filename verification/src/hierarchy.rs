//! Hierarchy flattening: from a library of structures that refer to each
//! other to a flat list of polygons.
//!
//! Structure references and array references are expanded with their
//! transform: reflect about X, rotate, translate. The top structure is the
//! first one that no other structure refers to; if there is none, the last
//! one.
//!
//! A boundary or a box is a polygon, and so is the outline of a path. A
//! placement by quarter turns keeps the integer database grid, and its
//! polygons are placed here, exactly. What another angle or a magnification
//! places off the grid, and a path whose outline is off the grid, is listed
//! by its place in the hierarchy.

use vstd::arithmetic::div_mod::lemma_fundamental_div_mod;
use vstd::arithmetic::div_mod::lemma_fundamental_div_mod_converse;
use vstd::arithmetic::mul::lemma_mul_is_commutative;
use vstd::prelude::*;

use crate::gds::{GdsError, LoadInfo, Point, Polygon, Shape};
use crate::paths::{has_area, law_distinct_points_make_a_line, path_outline, path_ring, spine};

verus! {

/// How a reference turns its structure. Magnification and angle (in degrees)
/// are the bits of double-precision numbers; where one is absent, it is 1 or
/// 0.
#[derive(Debug, Clone, Copy, PartialEq, Eq, Structural)]
pub struct Strans {
    pub reflected: bool,
    pub mag: Option<u64>,
    pub angle: Option<u64>,
}

/// One element of a structure.
#[derive(Debug)]
pub enum Element {
    /// A boundary or a box.
    Drawn { layer: i16, datatype: i16, points: Vec<Point> },
    /// A line of some width. Where the width is absent, it is 0, as is the
    /// path type; a width below 0 is one that no magnification changes.
    Path {
        layer: i16,
        datatype: i16,
        width: Option<i32>,
        path_type: Option<i16>,
        points: Vec<Point>,
    },
    StructRef { name: String, origin: Point, strans: Option<Strans> },
    /// `cols` steps lead from `origin` to `row_end`, and `rows` steps to
    /// `col_end`.
    ArrayRef {
        name: String,
        origin: Point,
        strans: Option<Strans>,
        row_end: Point,
        col_end: Point,
        rows: i16,
        cols: i16,
    },
    /// Texts and nodes.
    Other,
}

/// What an [`Element`] stands for.
#[verifier::ext_equal]
pub enum ElementModel {
    Drawn { layer: i16, datatype: i16, points: Seq<Point> },
    Path {
        layer: i16,
        datatype: i16,
        width: Option<i32>,
        path_type: Option<i16>,
        points: Seq<Point>,
    },
    StructRef { name: Seq<char>, origin: Point, strans: Option<Strans> },
    ArrayRef {
        name: Seq<char>,
        origin: Point,
        strans: Option<Strans>,
        row_end: Point,
        col_end: Point,
        rows: i16,
        cols: i16,
    },
    Other,
}

impl View for Element {
    type V = ElementModel;

    open spec fn view(&self) -> ElementModel {
        match *self {
            Element::Drawn { layer, datatype, points } => ElementModel::Drawn {
                layer,
                datatype,
                points: points@,
            },
            Element::Path { layer, datatype, width, path_type, points } => ElementModel::Path {
                layer,
                datatype,
                width,
                path_type,
                points: points@,
            },
            Element::StructRef { name, origin, strans } => ElementModel::StructRef {
                name: name@,
                origin,
                strans,
            },
            Element::ArrayRef { name, origin, strans, row_end, col_end, rows, cols } => {
                ElementModel::ArrayRef { name: name@, origin, strans, row_end, col_end, rows, cols }
            },
            Element::Other => ElementModel::Other,
        }
    }
}

/// A named list of elements.
#[derive(Debug)]
pub struct Structure {
    pub name: String,
    pub elems: Vec<Element>,
}

/// What a [`Structure`] stands for.
#[verifier::ext_equal]
pub struct StructureModel {
    pub name: Seq<char>,
    pub elems: Seq<ElementModel>,
}

impl View for Structure {
    type V = StructureModel;

    open spec fn view(&self) -> StructureModel {
        StructureModel {
            name: self.name@,
            elems: Seq::new(self.elems@.len(), |e: int| self.elems@[e]@),
        }
    }
}

/// A library of structures.
#[derive(Debug)]
pub struct Library {
    pub structs: Vec<Structure>,
}

impl View for Library {
    type V = Seq<StructureModel>;

    open spec fn view(&self) -> Seq<StructureModel> {
        Seq::new(self.structs@.len(), |s: int| self.structs@[s]@)
    }
}

/// The structures and elements of the library have machine numbers.
pub open spec fn is_numbered(lib: Seq<StructureModel>) -> bool {
    &&& lib.len() <= usize::MAX
    &&& forall|s: int| 0 <= s < lib.len() ==> (#[trigger] lib[s]).elems.len() <= usize::MAX
}

proof fn lemma_numbered(lib: Library)
    ensures
        is_numbered(lib@),
{
    assert(lib.structs.len() == lib.structs@.len());
    assert forall|s: int| 0 <= s < lib@.len() implies (#[trigger] lib@[s]).elems.len()
        <= usize::MAX by {
        assert(lib.structs@[s].elems.len() == lib.structs@[s].elems@.len());
    }
}

/// One reference on the way down the hierarchy: element `element` of
/// structure `structure`, and which of its copies.
#[derive(Debug, Clone, Copy, PartialEq, Eq, Structural)]
pub struct Step {
    pub structure: usize,
    pub element: usize,
    pub row: i16,
    pub col: i16,
}

/// One occurrence of a drawn element below the top structure.
#[derive(Debug)]
pub struct Instance {
    pub path: Vec<Step>,
    pub structure: usize,
    pub element: usize,
}

/// What an [`Instance`] stands for.
#[verifier::ext_equal]
pub struct Occurrence {
    pub path: Seq<Step>,
    pub structure: usize,
    pub element: usize,
}

impl View for Instance {
    type V = Occurrence;

    open spec fn view(&self) -> Occurrence {
        Occurrence { path: self.path@, structure: self.structure, element: self.element }
    }
}

impl Clone for Instance {
    fn clone(&self) -> (i: Instance)
        ensures
            i@ == self@,
    {
        let path = self.path.clone();
        assert(path@ =~= self.path@);
        Instance { path, structure: self.structure, element: self.element }
    }
}

/// What the instances of a list stand for.
pub open spec fn occurrences(list: Seq<Instance>) -> Seq<Occurrence> {
    Seq::new(list.len(), |i: int| list[i]@)
}

/// The greatest number of references on the way down to an element.
pub const MAX_DEPTH: usize = 64;

// ---- names and references ----

/// The name that an element refers to.
pub open spec fn refers_to(e: ElementModel) -> Option<Seq<char>> {
    match e {
        ElementModel::StructRef { name, .. } => Some(name),
        ElementModel::ArrayRef { name, .. } => Some(name),
        _ => None,
    }
}

/// Some element of a structure with another name refers to `name`.
pub open spec fn is_referenced(lib: Seq<StructureModel>, name: Seq<char>) -> bool {
    exists|s: int, e: int|
        0 <= s < lib.len() && 0 <= e < lib[s].elems.len() && lib[s].name != name && refers_to(
            #[trigger] lib[s].elems[e],
        ) == Some(name)
}

/// The first structure, from number `k` on, that no other refers to; the last
/// structure if there is none.
pub open spec fn top_from(lib: Seq<StructureModel>, k: int) -> int
    decreases lib.len() - k,
{
    if k >= lib.len() - 1 || !is_referenced(lib, lib[k].name) {
        k
    } else {
        top_from(lib, k + 1)
    }
}

/// The top structure of a library.
pub open spec fn top_of(lib: Seq<StructureModel>) -> int {
    top_from(lib, 0)
}

/// The last of the first `k` structures with the name `name`.
pub open spec fn struct_named(lib: Seq<StructureModel>, name: Seq<char>, k: int) -> Option<usize>
    decreases k,
{
    if k <= 0 {
        None
    } else if lib[k - 1].name == name {
        Some((k - 1) as usize)
    } else {
        struct_named(lib, name, k - 1)
    }
}

/// The structure that an element refers to, if the library has it.
pub open spec fn child_of(lib: Seq<StructureModel>, e: ElementModel) -> Option<usize> {
    match refers_to(e) {
        Some(name) => struct_named(lib, name, lib.len() as int),
        None => None,
    }
}

/// The number of copies that a reference places.
pub open spec fn copies(e: ElementModel) -> int {
    match e {
        ElementModel::StructRef { .. } => 1,
        ElementModel::ArrayRef { rows, cols, .. } => if rows > 0 && cols > 0 {
            rows * cols
        } else {
            0
        },
        _ => 0,
    }
}

/// Row and column of copy number `m`: row by row.
pub open spec fn copy_place(e: ElementModel, m: int) -> (i16, i16) {
    match e {
        ElementModel::ArrayRef { cols, .. } => ((m / (cols as int)) as i16, (m % (cols as int)) as i16),
        _ => (0, 0),
    }
}

/// The element is drawn.
pub open spec fn is_drawn(e: ElementModel) -> bool {
    e is Drawn || e is Path
}

// ---- the occurrences below a structure ----

/// The drawn elements below structure `s`, which is reached by `path`, in the
/// order of the elements.
pub open spec fn below_struct(lib: Seq<StructureModel>, s: usize, path: Seq<Step>) -> Seq<Occurrence>
    decreases (if path.len() <= 64 { 65 - path.len() } else { 0 }), 3int, 0int,
{
    if path.len() > 64 {
        Seq::empty()
    } else {
        below_elems(lib, s, path, lib[s as int].elems.len() as int)
    }
}

/// The drawn elements below the first `k` elements of structure `s`.
pub open spec fn below_elems(lib: Seq<StructureModel>, s: usize, path: Seq<Step>, k: int) -> Seq<Occurrence>
    decreases (if path.len() <= 64 { 65 - path.len() } else { 0 }), 2int, k,
{
    if k <= 0 {
        Seq::empty()
    } else {
        below_elems(lib, s, path, k - 1) + below_elem(lib, s, path, (k - 1) as usize)
    }
}

/// The drawn elements below element `e` of structure `s`.
pub open spec fn below_elem(lib: Seq<StructureModel>, s: usize, path: Seq<Step>, e: usize) -> Seq<Occurrence>
    decreases (if path.len() <= 64 { 65 - path.len() } else { 0 }), 1int, 0int,
{
    let elem = lib[s as int].elems[e as int];
    if is_drawn(elem) {
        seq![Occurrence { path, structure: s, element: e }]
    } else {
        match child_of(lib, elem) {
            Some(c) => below_copies(lib, s, path, e, c, copies(elem)),
            None => Seq::empty(),
        }
    }
}

/// The drawn elements below the first `m` copies that element `e` of
/// structure `s` places of structure `c`.
pub open spec fn below_copies(
    lib: Seq<StructureModel>,
    s: usize,
    path: Seq<Step>,
    e: usize,
    c: usize,
    m: int,
) -> Seq<Occurrence>
    decreases (if path.len() <= 64 { 65 - path.len() } else { 0 }), 0int, m,
{
    if m <= 0 || path.len() > 64 {
        Seq::empty()
    } else {
        below_copies(lib, s, path, e, c, m - 1) + below_struct(
            lib,
            c,
            path.push(copy_step(lib, s, e, m - 1)),
        )
    }
}

/// The step to copy number `m` of element `e` of structure `s`.
pub open spec fn copy_step(lib: Seq<StructureModel>, s: usize, e: usize, m: int) -> Step {
    let place = copy_place(lib[s as int].elems[e as int], m);
    Step { structure: s, element: e, row: place.0, col: place.1 }
}

// ---- finding structures ----

/// Whether some element of a structure with another name refers to `name`.
fn referenced(lib: &Library, name: &String) -> (r: bool)
    ensures
        r == is_referenced(lib@, name@),
{
    let mut s: usize = 0;
    while s < lib.structs.len()
        invariant
            s <= lib@.len(),
            forall|t: int, e: int|
                0 <= t < s && 0 <= e < lib@[t].elems.len() && lib@[t].name != name@ ==> refers_to(
                    #[trigger] lib@[t].elems[e],
                ) != Some(name@),
        decreases lib@.len() - s,
    {
        if lib.structs[s].name == *name {
            s = s + 1;
            continue ;
        }
        let elems = &lib.structs[s].elems;
        let mut e: usize = 0;
        while e < elems.len()
            invariant
                s < lib@.len(),
                lib@[s as int].name != name@,
                e <= elems@.len() == lib@[s as int].elems.len(),
                elems@ == lib.structs@[s as int].elems@,
                forall|t: int, f: int|
                    0 <= t < s && 0 <= f < lib@[t].elems.len() && lib@[t].name != name@
                        ==> refers_to(#[trigger] lib@[t].elems[f]) != Some(name@),
                forall|f: int|
                    0 <= f < e ==> refers_to(#[trigger] lib@[s as int].elems[f]) != Some(
                        name@,
                    ),
            decreases elems@.len() - e,
        {
            let hit = match &elems[e] {
                Element::StructRef { name: n, .. } => *n == *name,
                Element::ArrayRef { name: n, .. } => *n == *name,
                _ => false,
            };
            assert(hit == (refers_to(lib@[s as int].elems[e as int]) == Some(name@)));
            if hit {
                return true;
            }
            e = e + 1;
        }
        s = s + 1;
    }
    false
}

/// The top structure of a library.
pub fn top_struct(lib: &Library) -> (t: usize)
    requires
        lib@.len() > 0,
    ensures
        t == top_of(lib@),
        t < lib@.len(),
{
    let last: usize = lib.structs.len() - 1;
    let mut t: usize = 0;
    while t < last
        invariant
            t <= last,
            last == lib@.len() - 1,
            top_from(lib@, t as int) == top_of(lib@),
        decreases last - t,
    {
        if !referenced(lib, &lib.structs[t].name) {
            return t;
        }
        t = t + 1;
    }
    t
}

/// The last structure with the name `name`.
fn find_struct(lib: &Library, name: &String) -> (s: Option<usize>)
    ensures
        s == struct_named(lib@, name@, lib@.len() as int),
{
    let mut k: usize = lib.structs.len();
    while k > 0
        invariant
            k <= lib@.len(),
            struct_named(lib@, name@, k as int) == struct_named(
                lib@,
                name@,
                lib@.len() as int,
            ),
        decreases k,
    {
        if lib.structs[k - 1].name == *name {
            return Some(k - 1);
        }
        k = k - 1;
    }
    None
}

/// The structure that each element refers to.
spec fn resolves(children: Seq<Vec<Option<usize>>>, lib: Seq<StructureModel>, k: int) -> bool {
    &&& children.len() == k
    &&& forall|s: int|
        0 <= s < k ==> (#[trigger] children[s])@.len() == lib[s].elems.len()
    &&& forall|s: int, e: int|
        0 <= s < k && 0 <= e < lib[s].elems.len() ==> #[trigger] children[s]@[e]
            == child_of(lib, lib[s].elems[e])
}

fn resolve_children(lib: &Library) -> (children: Vec<Vec<Option<usize>>>)
    ensures
        resolves(children@, lib@, lib@.len() as int),
{
    let mut children: Vec<Vec<Option<usize>>> = Vec::new();
    let mut s: usize = 0;
    while s < lib.structs.len()
        invariant
            s <= lib@.len(),
            resolves(children@, lib@, s as int),
        decreases lib@.len() - s,
    {
        let elems = &lib.structs[s].elems;
        let mut row: Vec<Option<usize>> = Vec::new();
        let mut e: usize = 0;
        while e < elems.len()
            invariant
                s < lib@.len(),
                e <= elems@.len() == lib@[s as int].elems.len(),
                elems@ == lib.structs@[s as int].elems@,
                row@.len() == e,
                forall|f: int|
                    0 <= f < e ==> #[trigger] row@[f] == child_of(
                        lib@,
                        lib@[s as int].elems[f],
                    ),
            decreases elems@.len() - e,
        {
            let child = match &elems[e] {
                Element::StructRef { name, .. } => find_struct(lib, name),
                Element::ArrayRef { name, .. } => find_struct(lib, name),
                _ => None,
            };
            row.push(child);
            e = e + 1;
        }
        children.push(row);
        s = s + 1;
    }
    children
}

proof fn lemma_struct_named_in_range(lib: Seq<StructureModel>, name: Seq<char>, k: int)
    requires
        0 <= k <= lib.len() <= usize::MAX,
    ensures
        match struct_named(lib, name, k) {
            Some(s) => s < k && lib[s as int].name == name,
            None => true,
        },
    decreases k,
{
    if k > 0 {
        lemma_struct_named_in_range(lib, name, k - 1);
    }
}

// ---- listing the occurrences ----

/// Adds the drawn elements below structure `s`, which is reached by `path`.
fn list_struct(
    lib: &Library,
    children: &Vec<Vec<Option<usize>>>,
    s: usize,
    path: &Vec<Step>,
    out: &mut Vec<Instance>,
)
    requires
        resolves(children@, lib@, lib@.len() as int),
        s < lib@.len(),
        path@.len() <= 65,
    ensures
        occurrences(final(out)@) == occurrences(old(out)@) + below_struct(lib@, s, path@),
    decreases 66 - path@.len(), 1int,
{
    let ghost before = occurrences(out@);
    if path.len() > MAX_DEPTH {
        assert(occurrences(out@) =~= before + below_struct(lib@, s, path@));
        return ;
    }
    let count: usize = lib.structs[s].elems.len();
    let mut e: usize = 0;
    assert(occurrences(out@) =~= before + below_elems(lib@, s, path@, 0));
    while e < count
        invariant
            e <= count == lib@[s as int].elems.len(),
            resolves(children@, lib@, lib@.len() as int),
            s < lib@.len(),
            path@.len() <= 64,
            occurrences(out@) == before + below_elems(lib@, s, path@, e as int),
        decreases count - e,
    {
        list_elem(lib, children, s, path, e, out);
        assert(occurrences(out@) =~= before + below_elems(lib@, s, path@, e + 1));
        e = e + 1;
    }
}

/// Adds the drawn elements below element `e` of structure `s`.
fn list_elem(
    lib: &Library,
    children: &Vec<Vec<Option<usize>>>,
    s: usize,
    path: &Vec<Step>,
    e: usize,
    out: &mut Vec<Instance>,
)
    requires
        resolves(children@, lib@, lib@.len() as int),
        s < lib@.len(),
        e < lib@[s as int].elems.len(),
        path@.len() <= 64,
    ensures
        occurrences(final(out)@) == occurrences(old(out)@) + below_elem(lib@, s, path@, e),
    decreases 66 - path@.len(), 0int,
{
    let ghost before = occurrences(out@);
    let ghost elem = lib@[s as int].elems[e as int];
    let (count, cols): (i32, i32) = match &lib.structs[s].elems[e] {
        Element::Drawn { .. } | Element::Path { .. } => {
            let item = Instance { path: path.clone(), structure: s, element: e };
            assert(item.path@ =~= path@);
            let ghost list = out@;
            out.push(item);
            assert(occurrences(out@) =~= occurrences(list).push(item@));
            assert(occurrences(out@) =~= before + below_elem(lib@, s, path@, e));
            return ;
        },
        Element::StructRef { .. } => (1, 1),
        Element::ArrayRef { rows, cols, .. } => {
            if *rows > 0 && *cols > 0 {
                let (r, c): (i32, i32) = (*rows as i32, *cols as i32);
                assert(0 < r * c < 0x4000_0000) by (nonlinear_arith)
                    requires
                        0 < r < 0x8000,
                        0 < c < 0x8000,
                ;
                (r * c, c)
            } else {
                (0, 1)
            }
        },
        Element::Other => (0, 1),
    };
    let child = children[s][e];
    assert(child == child_of(lib@, elem));
    let c: usize = match child {
        Some(c) => c,
        None => {
            assert(occurrences(out@) =~= before + below_elem(lib@, s, path@, e));
            return ;
        },
    };
    proof {
        lemma_numbered(*lib);
        lemma_struct_named_in_range(lib@, refers_to(elem)->0, lib@.len() as int);
    }
    let mut m: i32 = 0;
    assert(occurrences(out@) =~= before + below_copies(lib@, s, path@, e, c, 0));
    while m < count
        invariant
            0 <= m <= count,
            count == copies(elem),
            cols >= 1,
            elem is ArrayRef ==> count > 0 ==> cols == elem->cols && count == elem->rows
                * elem->cols,
            elem is StructRef ==> cols == 1 && count == 1,
            elem is StructRef || elem is ArrayRef,
            elem == lib@[s as int].elems[e as int],
            resolves(children@, lib@, lib@.len() as int),
            s < lib@.len(),
            c < lib@.len(),
            path@.len() <= 64,
            occurrences(out@) == before + below_copies(lib@, s, path@, e, c, m as int),
        decreases count - m,
    {
        let row: i32 = m / cols;
        let col: i32 = m % cols;
        proof {
            lemma_row_and_col(m as int, cols as int, elem);
        }
        let step = Step { structure: s, element: e, row: row as i16, col: col as i16 };
        assert(step == copy_step(lib@, s, e, m as int));
        let mut longer = path.clone();
        assert(longer@ =~= path@);
        longer.push(step);
        list_struct(lib, children, c, &longer, out);
        assert(occurrences(out@) =~= before + below_copies(lib@, s, path@, e, c, m + 1));
        m = m + 1;
    }
    assert(below_elem(lib@, s, path@, e) == below_copies(lib@, s, path@, e, c, count as int));
}

proof fn lemma_row_and_col(m: int, cols: int, elem: ElementModel)
    requires
        0 <= m < copies(elem),
        elem is ArrayRef ==> cols == elem->cols,
        elem is StructRef ==> cols == 1,
        elem is StructRef || elem is ArrayRef,
    ensures
        elem is ArrayRef ==> 0 <= m / cols < elem->rows && 0 <= m % cols < elem->cols,
        elem is StructRef ==> m / cols == 0 && m % cols == 0,
{
    if elem is ArrayRef {
        let rows = elem->rows as int;
        assert(0 <= m / cols < rows && 0 <= m % cols < cols) by (nonlinear_arith)
            requires
                0 <= m < rows * cols,
                cols > 0,
        ;
    }
}

/// The drawn elements below the top structure of a library, in the order in
/// which its polygons are listed.
pub open spec fn drawn(lib: Seq<StructureModel>) -> Seq<Occurrence> {
    below_struct(lib, top_of(lib) as usize, Seq::empty())
}

/// Lists the drawn elements below the top structure.
pub fn instances(lib: &Library) -> (r: Result<Vec<Instance>, GdsError>)
    ensures
        r is Err <==> lib@.len() == 0,
        match r {
            Ok(list) => occurrences(list@) == drawn(lib@),
            Err(e) => e is Empty,
        },
{
    if lib.structs.len() == 0 {
        return Err(GdsError::Empty);
    }
    let children = resolve_children(lib);
    let top: usize = top_struct(lib);
    let path: Vec<Step> = Vec::new();
    let mut list: Vec<Instance> = Vec::new();
    list_struct(lib, &children, top, &path, &mut list);
    assert(path@ =~= Seq::<Step>::empty());
    assert(occurrences(list@) =~= drawn(lib@));
    Ok(list)
}

// ---- where the occurrences are ----

/// The step leads along a reference of the library to one of its copies.
pub open spec fn is_step(lib: Seq<StructureModel>, st: Step) -> bool {
    &&& st.structure < lib.len()
    &&& st.element < lib[st.structure as int].elems.len()
    &&& child_of(lib, elem_at(lib, st.structure, st.element)) is Some
    &&& match elem_at(lib, st.structure, st.element) {
        ElementModel::StructRef { .. } => st.row == 0 && st.col == 0,
        ElementModel::ArrayRef { rows, cols, .. } => 0 <= st.row < rows && 0 <= st.col < cols,
        _ => false,
    }
}

/// Element `e` of structure `s`.
pub open spec fn elem_at(lib: Seq<StructureModel>, s: usize, e: usize) -> ElementModel {
    lib[s as int].elems[e as int]
}

/// The structure to which `path` leads from structure `s`.
pub open spec fn reaches(lib: Seq<StructureModel>, s: usize, path: Seq<Step>) -> Option<usize>
    decreases path.len(),
{
    if path.len() == 0 {
        Some(s)
    } else if path[0].structure == s && is_step(lib, path[0]) {
        reaches(
            lib,
            child_of(lib, elem_at(lib, s, path[0].element))->0,
            path.subrange(1, path.len() as int),
        )
    } else {
        None
    }
}

/// `o` is a drawn element of the structure that it names.
pub open spec fn draws(lib: Seq<StructureModel>, o: Occurrence) -> bool {
    &&& o.structure < lib.len()
    &&& o.element < lib[o.structure as int].elems.len()
    &&& is_drawn(elem_at(lib, o.structure, o.element))
}

/// A path of at most 64 references leads from structure `s`, itself reached
/// by `path`, to the drawn element `o`.
pub open spec fn occurs_below(lib: Seq<StructureModel>, s: usize, path: Seq<Step>, o: Occurrence) -> bool {
    &&& path.len() <= o.path.len() <= 64
    &&& o.path.subrange(0, path.len() as int) == path
    &&& reaches(lib, s, o.path.subrange(path.len() as int, o.path.len() as int)) == Some(
        o.structure,
    )
    &&& draws(lib, o)
}

proof fn lemma_in_sum(a: Seq<Occurrence>, b: Seq<Occurrence>, o: Occurrence)
    ensures
        (a + b).contains(o) == (a.contains(o) || b.contains(o)),
{
    let c = a + b;
    if a.contains(o) {
        let i = choose|i: int| 0 <= i < a.len() && a[i] == o;
        assert(c[i] == o);
    }
    if b.contains(o) {
        let i = choose|i: int| 0 <= i < b.len() && b[i] == o;
        assert(c[a.len() + i] == o);
    }
    if c.contains(o) {
        let i = choose|i: int| 0 <= i < c.len() && c[i] == o;
        if i < a.len() {
            assert(a[i] == o);
        } else {
            assert(b[i - a.len()] == o);
        }
    }
}

proof fn lemma_in_elems(lib: Seq<StructureModel>, s: usize, path: Seq<Step>, k: int, o: Occurrence)
    requires
        0 <= k <= usize::MAX,
    ensures
        below_elems(lib, s, path, k).contains(o) <==> exists|e: usize|
            e < k && (#[trigger] below_elem(lib, s, path, e)).contains(o),
    decreases k,
{
    if k > 0 {
        lemma_in_elems(lib, s, path, k - 1, o);
        let last = (k - 1) as usize;
        lemma_in_sum(
            below_elems(lib, s, path, k - 1),
            below_elem(lib, s, path, last),
            o,
        );
        if below_elems(lib, s, path, k).contains(o) {
            if below_elems(lib, s, path, k - 1).contains(o) {
                let e = choose|e: usize|
                    e < k - 1 && (#[trigger] below_elem(lib, s, path, e)).contains(o);
                assert(e < k && below_elem(lib, s, path, e).contains(o));
            } else {
                assert(last < k && below_elem(lib, s, path, last).contains(o));
            }
        }
    }
}

proof fn lemma_in_copies(
    lib: Seq<StructureModel>,
    s: usize,
    path: Seq<Step>,
    e: usize,
    c: usize,
    m: int,
    o: Occurrence,
)
    requires
        path.len() <= 64,
        m >= 0,
    ensures
        below_copies(lib, s, path, e, c, m).contains(o) <==> exists|n: int|
            0 <= n < m && below_struct(lib, c, path.push(#[trigger] copy_step(lib, s, e, n))).contains(
                o,
            ),
    decreases m,
{
    if m > 0 {
        lemma_in_copies(lib, s, path, e, c, m - 1, o);
        let last = below_struct(lib, c, path.push(copy_step(lib, s, e, m - 1)));
        lemma_in_sum(below_copies(lib, s, path, e, c, m - 1), last, o);
    }
}

/// A step from `s` is one of the copies that its element places.
proof fn lemma_step_is_copy(lib: Seq<StructureModel>, st: Step) -> (m: int)
    requires
        is_step(lib, st),
    ensures
        0 <= m < copies(elem_at(lib, st.structure, st.element)),
        copy_step(lib, st.structure, st.element, m) == st,
{
    let elem = elem_at(lib, st.structure, st.element);
    if elem is ArrayRef {
        let (row, col) = (st.row as int, st.col as int);
        let (rows, cols) = (elem->rows as int, elem->cols as int);
        let m = row * cols + col;
        assert(0 <= m < rows * cols && m / cols == row && m % cols == col) by (nonlinear_arith)
            requires
                m == row * cols + col,
                0 <= row < rows,
                0 <= col < cols,
        ;
        m
    } else {
        0
    }
}

/// The occurrences below a structure are those to which a path leads.
proof fn lemma_below_struct(lib: Seq<StructureModel>, s: usize, path: Seq<Step>, o: Occurrence)
    requires
        s < lib.len(),
        is_numbered(lib),
    ensures
        below_struct(lib, s, path).contains(o) <==> occurs_below(lib, s, path, o),
    decreases (if path.len() <= 64 { 65 - path.len() } else { 0 }),
{
    if path.len() <= 64 {
        let n = lib[s as int].elems.len() as int;
        lemma_in_elems(lib, s, path, n, o);
        let len = path.len() as int;
        if below_struct(lib, s, path).contains(o) {
            let e = choose|e: usize|
                e < n && (#[trigger] below_elem(lib, s, path, e)).contains(o);
            let elem = elem_at(lib, s, e);
            if is_drawn(elem) {
                let own = Occurrence { path, structure: s, element: e };
                assert(below_elem(lib, s, path, e) =~= seq![own]);
                assert(o == own);
                assert(o.path.subrange(0, len) =~= path);
                assert(o.path.subrange(len, len).len() == 0);
            } else {
                let c = child_of(lib, elem)->0;
                let count = copies(elem);
                lemma_copies_nonnegative(elem);
                lemma_in_copies(lib, s, path, e, c, count, o);
                let m = choose|m: int|
                    0 <= m < count && below_struct(
                        lib,
                        c,
                        path.push(#[trigger] copy_step(lib, s, e, m)),
                    ).contains(o);
                let st = copy_step(lib, s, e, m);
                lemma_struct_named_in_range(lib, refers_to(elem)->0, lib.len() as int);
                lemma_below_struct(lib, c, path.push(st), o);
                let cols = if elem is ArrayRef {
                    elem->cols as int
                } else {
                    1
                };
                lemma_row_and_col(m, cols, elem);
                assert(is_step(lib, st));
                let rest = o.path.subrange(len, o.path.len() as int);
                assert(o.path.subrange(0, len + 1)[len] == st);
                assert(rest[0] == st);
                assert(rest.subrange(1, rest.len() as int) =~= o.path.subrange(
                    len + 1,
                    o.path.len() as int,
                ));
                assert(o.path.subrange(0, len) =~= o.path.subrange(0, len + 1).drop_last());
                assert(path.push(st).drop_last() =~= path);
            }
        }
        if occurs_below(lib, s, path, o) {
            if o.path.len() == len {
                assert(o.path =~= path);
                let own = Occurrence { path, structure: s, element: o.element };
                assert(o == own);
                let here = below_elem(lib, s, path, o.element);
                assert(here[0] == own);
                assert(o.element < n && here.contains(o));
            } else {
                let rest = o.path.subrange(len, o.path.len() as int);
                let st = rest[0];
                let elem = elem_at(lib, s, st.element);
                let c = child_of(lib, elem)->0;
                let m = lemma_step_is_copy(lib, st);
                assert(rest.subrange(1, rest.len() as int) =~= o.path.subrange(
                    len + 1,
                    o.path.len() as int,
                ));
                assert(o.path.subrange(0, len + 1) =~= path.push(st));
                lemma_struct_named_in_range(lib, refers_to(elem)->0, lib.len() as int);
                lemma_below_struct(lib, c, path.push(st), o);
                lemma_in_copies(lib, s, path, st.element, c, copies(elem), o);
                assert(below_struct(
                    lib,
                    c,
                    path.push(copy_step(lib, s, st.element, m)),
                ).contains(o));
                assert(st.element < n && below_elem(lib, s, path, st.element).contains(o));
            }
        }
    }
}

proof fn lemma_top(lib: Seq<StructureModel>, k: int)
    requires
        0 <= k < lib.len(),
    ensures
        k <= top_from(lib, k) < lib.len(),
        is_referenced(lib, lib[top_from(lib, k)].name) ==> top_from(lib, k)
            == lib.len() - 1,
        forall|u: int|
            k <= u < top_from(lib, k) ==> is_referenced(lib, (#[trigger] lib[u]).name),
    decreases lib.len() - k,
{
    if k < lib.len() - 1 && is_referenced(lib, lib[k].name) {
        lemma_top(lib, k + 1);
    }
}

/// The top structure is the first that no other refers to; only if there is
/// none, the last structure stands in.
pub proof fn law_top_structure(lib: Seq<StructureModel>)
    requires
        lib.len() > 0,
    ensures
        0 <= top_of(lib) < lib.len(),
        is_referenced(lib, lib[top_of(lib)].name) ==> top_of(lib) == lib.len()
            - 1,
        forall|u: int|
            0 <= u < top_of(lib) ==> is_referenced(lib, (#[trigger] lib[u]).name),
{
    lemma_top(lib, 0);
}

/// Flattening misses nothing and adds nothing: an element is listed exactly
/// if it is drawn and a path of at most 64 references leads to its structure
/// from the top.
pub proof fn law_drawn_elements(lib: Seq<StructureModel>, o: Occurrence)
    requires
        lib.len() > 0,
        is_numbered(lib),
    ensures
        drawn(lib).contains(o) <==> o.path.len() <= 64 && reaches(
            lib,
            top_of(lib) as usize,
            o.path,
        ) == Some(o.structure) && draws(lib, o),
{
    law_top_structure(lib);
    lemma_below_struct(lib, top_of(lib) as usize, Seq::empty(), o);
    assert(o.path.subrange(0, o.path.len() as int) =~= o.path);
    assert(o.path.subrange(0, 0) =~= Seq::<Step>::empty());
}

/// What an occurrence below element `e` of structure `s` shows of `e`.
proof fn lemma_elem_shows(lib: Seq<StructureModel>, s: usize, path: Seq<Step>, e: usize, o: Occurrence)
    requires
        s < lib.len(),
        e < lib[s as int].elems.len(),
        is_numbered(lib),
        path.len() <= 64,
        below_elem(lib, s, path, e).contains(o),
    ensures
        o.path.len() >= path.len(),
        o.path.len() == path.len() ==> o.element == e,
        o.path.len() > path.len() ==> o.path[path.len() as int].element == e,
{
    let elem = elem_at(lib, s, e);
    if !is_drawn(elem) {
        let c = child_of(lib, elem)->0;
        let count = copies(elem);
        lemma_copies_nonnegative(elem);
        lemma_in_copies(lib, s, path, e, c, count, o);
        let m = choose|m: int|
            0 <= m < count && below_struct(
                lib,
                c,
                path.push(#[trigger] copy_step(lib, s, e, m)),
            ).contains(o);
        lemma_copy_shows(lib, s, path, e, c, m, o);
    }
}

/// What an occurrence below a copy shows of the copy.
proof fn lemma_copy_shows(
    lib: Seq<StructureModel>,
    s: usize,
    path: Seq<Step>,
    e: usize,
    c: usize,
    m: int,
    o: Occurrence,
)
    requires
        is_numbered(lib),
        s < lib.len(),
        e < lib[s as int].elems.len(),
        child_of(lib, elem_at(lib, s, e)) == Some(c),
        below_struct(lib, c, path.push(copy_step(lib, s, e, m))).contains(o),
    ensures
        o.path.len() > path.len(),
        o.path[path.len() as int] == copy_step(lib, s, e, m),
{
    let st = copy_step(lib, s, e, m);
    let len = path.len() as int;
    lemma_struct_named_in_range(lib, refers_to(elem_at(lib, s, e))->0, lib.len() as int);
    lemma_below_struct(lib, c, path.push(st), o);
    assert(o.path.subrange(0, len + 1)[len] == path.push(st)[len]);
}

proof fn lemma_copies_nonnegative(elem: ElementModel)
    ensures
        copies(elem) >= 0,
{
    if elem is ArrayRef && elem->rows > 0 && elem->cols > 0 {
        let (rows, cols) = (elem->rows as int, elem->cols as int);
        assert(rows * cols >= 0) by (nonlinear_arith)
            requires
                rows > 0,
                cols > 0,
        ;
    }
}

/// Different copies are different steps.
proof fn lemma_copies_differ(lib: Seq<StructureModel>, s: usize, e: usize, m: int, n: int)
    requires
        0 <= m < copies(elem_at(lib, s, e)),
        0 <= n < copies(elem_at(lib, s, e)),
        copy_step(lib, s, e, m) == copy_step(lib, s, e, n),
    ensures
        m == n,
{
    let elem = elem_at(lib, s, e);
    if elem is ArrayRef {
        let cols = elem->cols as int;
        lemma_row_and_col(m, cols, elem);
        lemma_row_and_col(n, cols, elem);
        lemma_fundamental_div_mod(m, cols);
        lemma_fundamental_div_mod(n, cols);
    }
}

proof fn lemma_sum_distinct(a: Seq<Occurrence>, b: Seq<Occurrence>)
    requires
        a.no_duplicates(),
        b.no_duplicates(),
        forall|o: Occurrence| #[trigger] a.contains(o) ==> !b.contains(o),
    ensures
        (a + b).no_duplicates(),
{
    let c = a + b;
    assert forall|i: int, j: int| 0 <= i < c.len() && 0 <= j < c.len() && i != j implies c[i]
        != c[j] by {
        if i < a.len() && j >= a.len() {
            assert(a.contains(a[i]) && b.contains(b[j - a.len()]));
        } else if j < a.len() && i >= a.len() {
            assert(a.contains(a[j]) && b.contains(b[i - a.len()]));
        }
    }
}

proof fn lemma_struct_distinct(lib: Seq<StructureModel>, s: usize, path: Seq<Step>)
    requires
        s < lib.len(),
        is_numbered(lib),
    ensures
        below_struct(lib, s, path).no_duplicates(),
    decreases (if path.len() <= 64 { 65 - path.len() } else { 0 }), 3int, 0int,
{
    if path.len() <= 64 {
        lemma_elems_distinct(lib, s, path, lib[s as int].elems.len() as int);
    }
}

proof fn lemma_elems_distinct(lib: Seq<StructureModel>, s: usize, path: Seq<Step>, k: int)
    requires
        s < lib.len(),
        is_numbered(lib),
        path.len() <= 64,
        0 <= k <= lib[s as int].elems.len(),
    ensures
        below_elems(lib, s, path, k).no_duplicates(),
    decreases (if path.len() <= 64 { 65 - path.len() } else { 0 }), 2int, k,
{
    if k > 0 {
        let last = (k - 1) as usize;
        let elem = elem_at(lib, s, last);
        lemma_elems_distinct(lib, s, path, k - 1);
        if !is_drawn(elem) && child_of(lib, elem) is Some {
            let c = child_of(lib, elem)->0;
            lemma_struct_named_in_range(lib, refers_to(elem)->0, lib.len() as int);
            lemma_copies_nonnegative(elem);
            lemma_copies_distinct(lib, s, path, last, c, copies(elem));
        }
        assert(below_elem(lib, s, path, last).no_duplicates());
        assert forall|o: Occurrence| #[trigger]
            below_elems(lib, s, path, k - 1).contains(o) implies !below_elem(
            lib,
            s,
            path,
            last,
        ).contains(o) by {
            lemma_in_elems(lib, s, path, k - 1, o);
            let e = choose|e: usize|
                e < k - 1 && (#[trigger] below_elem(lib, s, path, e)).contains(o);
            lemma_elem_shows(lib, s, path, e, o);
            if below_elem(lib, s, path, last).contains(o) {
                lemma_elem_shows(lib, s, path, last, o);
            }
        }
        lemma_sum_distinct(
            below_elems(lib, s, path, k - 1),
            below_elem(lib, s, path, last),
        );
    }
}

proof fn lemma_copies_distinct(
    lib: Seq<StructureModel>,
    s: usize,
    path: Seq<Step>,
    e: usize,
    c: usize,
    m: int,
)
    requires
        s < lib.len(),
        c < lib.len(),
        e < lib[s as int].elems.len(),
        is_numbered(lib),
        path.len() <= 64,
        child_of(lib, elem_at(lib, s, e)) == Some(c),
        0 <= m <= copies(elem_at(lib, s, e)),
    ensures
        below_copies(lib, s, path, e, c, m).no_duplicates(),
    decreases (if path.len() <= 64 { 65 - path.len() } else { 0 }), 0int, m,
{
    if m > 0 {
        let st = copy_step(lib, s, e, m - 1);
        let last = below_struct(lib, c, path.push(st));
        lemma_copies_distinct(lib, s, path, e, c, m - 1);
        lemma_struct_distinct(lib, c, path.push(st));
        assert forall|o: Occurrence| #[trigger]
            below_copies(lib, s, path, e, c, m - 1).contains(o) implies !last.contains(o) by {
            lemma_in_copies(lib, s, path, e, c, m - 1, o);
            let n = choose|n: int|
                0 <= n < m - 1 && below_struct(
                    lib,
                    c,
                    path.push(#[trigger] copy_step(lib, s, e, n)),
                ).contains(o);
            lemma_copy_shows(lib, s, path, e, c, n, o);
            if last.contains(o) {
                lemma_copy_shows(lib, s, path, e, c, m - 1, o);
                lemma_copies_differ(lib, s, e, n, m - 1);
            }
        }
        lemma_sum_distinct(below_copies(lib, s, path, e, c, m - 1), last);
    }
}

/// Flattening lists no element twice.
pub proof fn law_drawn_elements_are_listed_once(lib: Seq<StructureModel>)
    requires
        lib.len() > 0,
        is_numbered(lib),
    ensures
        drawn(lib).no_duplicates(),
{
    law_top_structure(lib);
    lemma_struct_distinct(lib, top_of(lib) as usize, Seq::empty());
}

/// The element at which the way to `o` goes on after `k` references: the next
/// reference, or `o` itself.
pub open spec fn element_on_way(o: Occurrence, k: int) -> usize {
    if k < o.path.len() {
        o.path[k].element
    } else {
        o.element
    }
}

/// The way to `a` comes before the way to `b`, from reference `k` on: at the
/// first difference it takes an earlier element, or an earlier row of the same
/// array, or an earlier column of the same row.
pub open spec fn is_earlier(a: Occurrence, b: Occurrence, k: int) -> bool
    decreases a.path.len() - k,
{
    if element_on_way(a, k) != element_on_way(b, k) {
        element_on_way(a, k) < element_on_way(b, k)
    } else if k >= a.path.len() || k >= b.path.len() {
        false
    } else if a.path[k].row != b.path[k].row {
        a.path[k].row < b.path[k].row
    } else if a.path[k].col != b.path[k].col {
        a.path[k].col < b.path[k].col
    } else {
        is_earlier(a, b, k + 1)
    }
}

/// Every entry of the list is earlier than those after it.
spec fn is_in_order(list: Seq<Occurrence>, k: int) -> bool {
    forall|i: int, j: int|
        0 <= i < j < list.len() ==> is_earlier(#[trigger] list[i], #[trigger] list[j], k)
}

/// Flattening lists the drawn elements in the order of the elements on the way
/// down, and the copies of an array row by row.
pub proof fn law_drawn_elements_are_in_order(lib: Seq<StructureModel>, i: int, j: int)
    requires
        lib.len() > 0,
        is_numbered(lib),
        0 <= i < j < drawn(lib).len(),
    ensures
        is_earlier(drawn(lib)[i], drawn(lib)[j], 0),
{
    law_top_structure(lib);
    lemma_struct_in_order(lib, top_of(lib) as usize, Seq::empty());
}

proof fn lemma_sum_in_order(a: Seq<Occurrence>, b: Seq<Occurrence>, k: int)
    requires
        is_in_order(a, k),
        is_in_order(b, k),
        forall|o: Occurrence, u: Occurrence|
            #![trigger a.contains(o), b.contains(u)]
            a.contains(o) && b.contains(u) ==> is_earlier(o, u, k),
    ensures
        is_in_order(a + b, k),
{
    let c = a + b;
    assert forall|i: int, j: int| 0 <= i < j < c.len() implies is_earlier(
        #[trigger] c[i],
        #[trigger] c[j],
        k,
    ) by {
        if j < a.len() {
            assert(c[i] == a[i] && c[j] == a[j]);
        } else if i >= a.len() {
            assert(c[i] == b[i - a.len()] && c[j] == b[j - a.len()]);
        } else {
            assert(c[i] == a[i] && c[j] == b[j - a.len()]);
            assert(a.contains(a[i]) && b.contains(b[j - a.len()]));
        }
    }
}

proof fn lemma_struct_in_order(lib: Seq<StructureModel>, s: usize, path: Seq<Step>)
    requires
        s < lib.len(),
        is_numbered(lib),
    ensures
        is_in_order(below_struct(lib, s, path), path.len() as int),
    decreases (if path.len() <= 64 { 65 - path.len() } else { 0 }), 3int, 0int,
{
    if path.len() <= 64 {
        lemma_elems_in_order(lib, s, path, lib[s as int].elems.len() as int);
    }
}

proof fn lemma_elems_in_order(lib: Seq<StructureModel>, s: usize, path: Seq<Step>, k: int)
    requires
        s < lib.len(),
        is_numbered(lib),
        path.len() <= 64,
        0 <= k <= lib[s as int].elems.len(),
    ensures
        is_in_order(below_elems(lib, s, path, k), path.len() as int),
    decreases (if path.len() <= 64 { 65 - path.len() } else { 0 }), 2int, k,
{
    if k > 0 {
        let last = (k - 1) as usize;
        let elem = elem_at(lib, s, last);
        let before = below_elems(lib, s, path, k - 1);
        let more = below_elem(lib, s, path, last);
        lemma_elems_in_order(lib, s, path, k - 1);
        if !is_drawn(elem) && child_of(lib, elem) is Some {
            let c = child_of(lib, elem)->0;
            lemma_struct_named_in_range(lib, refers_to(elem)->0, lib.len() as int);
            lemma_copies_nonnegative(elem);
            lemma_copies_in_order(lib, s, path, last, c, copies(elem));
        }
        assert(is_in_order(more, path.len() as int));
        assert forall|o: Occurrence, u: Occurrence|
            #![trigger before.contains(o), more.contains(u)]
            before.contains(o) && more.contains(u) implies is_earlier(o, u, path.len() as int) by {
            lemma_in_elems(lib, s, path, k - 1, o);
            let e = choose|e: usize|
                e < k - 1 && (#[trigger] below_elem(lib, s, path, e)).contains(o);
            lemma_elem_shows(lib, s, path, e, o);
            lemma_elem_shows(lib, s, path, last, u);
        }
        lemma_sum_in_order(before, more, path.len() as int);
    }
}

/// Copies are numbered row by row.
proof fn lemma_copies_rise(lib: Seq<StructureModel>, s: usize, e: usize, m: int, n: int)
    requires
        0 <= m < n < copies(elem_at(lib, s, e)),
    ensures
        ({
            let (a, b) = (copy_step(lib, s, e, m), copy_step(lib, s, e, n));
            a.row < b.row || (a.row == b.row && a.col < b.col)
        }),
{
    let elem = elem_at(lib, s, e);
    if elem is ArrayRef {
        let cols = elem->cols as int;
        lemma_row_and_col(m, cols, elem);
        lemma_row_and_col(n, cols, elem);
        lemma_fundamental_div_mod(m, cols);
        lemma_fundamental_div_mod(n, cols);
        let (p, q) = (m / cols, n / cols);
        assert(p <= q) by (nonlinear_arith)
            requires
                cols > 0,
                m < n,
                m == cols * p + m % cols,
                n == cols * q + n % cols,
                0 <= m % cols < cols,
                0 <= n % cols < cols,
        ;
    }
}

proof fn lemma_copies_in_order(
    lib: Seq<StructureModel>,
    s: usize,
    path: Seq<Step>,
    e: usize,
    c: usize,
    m: int,
)
    requires
        s < lib.len(),
        c < lib.len(),
        e < lib[s as int].elems.len(),
        is_numbered(lib),
        path.len() <= 64,
        child_of(lib, elem_at(lib, s, e)) == Some(c),
        0 <= m <= copies(elem_at(lib, s, e)),
    ensures
        is_in_order(below_copies(lib, s, path, e, c, m), path.len() as int),
    decreases (if path.len() <= 64 { 65 - path.len() } else { 0 }), 0int, m,
{
    if m > 0 {
        let k = path.len() as int;
        let st = copy_step(lib, s, e, m - 1);
        let before = below_copies(lib, s, path, e, c, m - 1);
        let last = below_struct(lib, c, path.push(st));
        lemma_copies_in_order(lib, s, path, e, c, m - 1);
        lemma_struct_in_order(lib, c, path.push(st));
        assert forall|i: int, j: int| 0 <= i < j < last.len() implies is_earlier(
            #[trigger] last[i],
            #[trigger] last[j],
            k,
        ) by {
            assert(last.contains(last[i]) && last.contains(last[j]));
            lemma_copy_shows(lib, s, path, e, c, m - 1, last[i]);
            lemma_copy_shows(lib, s, path, e, c, m - 1, last[j]);
            assert(is_earlier(last[i], last[j], k + 1));
        }
        assert forall|o: Occurrence, u: Occurrence|
            #![trigger before.contains(o), last.contains(u)]
            before.contains(o) && last.contains(u) implies is_earlier(o, u, k) by {
            lemma_in_copies(lib, s, path, e, c, m - 1, o);
            let n = choose|n: int|
                0 <= n < m - 1 && below_struct(
                    lib,
                    c,
                    path.push(#[trigger] copy_step(lib, s, e, n)),
                ).contains(o);
            lemma_copy_shows(lib, s, path, e, c, n, o);
            lemma_copy_shows(lib, s, path, e, c, m - 1, u);
            lemma_copies_rise(lib, s, e, n, m - 1);
        }
        lemma_sum_in_order(before, last, k);
    }
}

// ---- placing an element ----

/// A motion of the plane: x' = a x + b y + tx, y' = c x + d y + ty.
#[verifier::ext_equal]
pub struct Motion {
    pub a: int,
    pub b: int,
    pub c: int,
    pub d: int,
    pub tx: int,
    pub ty: int,
}

/// The motion that leaves everything in place.
pub open spec fn rest() -> Motion {
    Motion { a: 1, b: 0, c: 0, d: 1, tx: 0, ty: 0 }
}

/// Where a motion takes the point `(x, y)`.
pub open spec fn moved(m: Motion, p: (int, int)) -> (int, int) {
    (m.a * p.0 + m.b * p.1 + m.tx, m.c * p.0 + m.d * p.1 + m.ty)
}

/// The motion `inner` followed by `outer`.
pub open spec fn followed_by(inner: Motion, outer: Motion) -> Motion {
    Motion {
        a: outer.a * inner.a + outer.b * inner.c,
        b: outer.a * inner.b + outer.b * inner.d,
        c: outer.c * inner.a + outer.d * inner.c,
        d: outer.c * inner.b + outer.d * inner.d,
        tx: outer.a * inner.tx + outer.b * inner.ty + outer.tx,
        ty: outer.c * inner.tx + outer.d * inner.ty + outer.ty,
    }
}

/// Motions compose: the one motion takes a point where the two take it one
/// after the other.
pub proof fn law_motions_compose(inner: Motion, outer: Motion, p: (int, int))
    ensures
        moved(followed_by(inner, outer), p) == moved(outer, moved(inner, p)),
{
    lemma_row_composes(
        outer.a,
        outer.b,
        inner.a,
        inner.b,
        inner.c,
        inner.d,
        inner.tx,
        inner.ty,
        p.0,
        p.1,
    );
    lemma_row_composes(
        outer.c,
        outer.d,
        inner.a,
        inner.b,
        inner.c,
        inner.d,
        inner.tx,
        inner.ty,
        p.0,
        p.1,
    );
}

proof fn lemma_row_composes(
    u: int,
    v: int,
    a: int,
    b: int,
    c: int,
    d: int,
    tx: int,
    ty: int,
    x: int,
    y: int,
)
    ensures
        (u * a + v * c) * x + (u * b + v * d) * y + (u * tx + v * ty) == u * (a * x + b * y + tx)
            + v * (c * x + d * y + ty),
{
    assert((u * a + v * c) * x == u * (a * x) + v * (c * x)) by (nonlinear_arith);
    assert((u * b + v * d) * y == u * (b * y) + v * (d * y)) by (nonlinear_arith);
    lemma_distributes(u, a * x, b * y, tx);
    lemma_distributes(v, c * x, d * y, ty);
}

proof fn lemma_distributes(u: int, p: int, q: int, r: int)
    ensures
        u * (p + q + r) == u * p + u * q + u * r,
{
    assert(u * (p + q + r) == u * p + u * q + u * r) by (nonlinear_arith);
}

/// The bits of the magnification 1.
pub const ONE: u64 = 0x3ff0_0000_0000_0000;

/// The bits of the angles 0, 90, 180 and 270, and of the negative zero.
pub const DEG_0: u64 = 0x0000_0000_0000_0000;

pub const DEG_90: u64 = 0x4056_8000_0000_0000;

pub const DEG_180: u64 = 0x4066_8000_0000_0000;

pub const DEG_270: u64 = 0x4070_e000_0000_0000;

pub const NEG_0: u64 = 0x8000_0000_0000_0000;

/// The transform of a reference that may name none.
pub open spec fn given(strans: Option<Strans>) -> Strans {
    match strans {
        Some(s) => s,
        None => Strans { reflected: false, mag: None, angle: None },
    }
}

/// The number of quarter turns, for a transform that keeps the grid: it does
/// not magnify, and its angle is a quarter turn or none.
pub open spec fn quarter_turns(strans: Option<Strans>) -> Option<int> {
    let s = given(strans);
    if s.mag is Some && s.mag != Some(ONE) {
        None
    } else if s.angle is None || s.angle == Some(DEG_0) || s.angle == Some(NEG_0) {
        Some(0)
    } else if s.angle == Some(DEG_90) {
        Some(1)
    } else if s.angle == Some(DEG_180) {
        Some(2)
    } else if s.angle == Some(DEG_270) {
        Some(3)
    } else {
        None
    }
}

/// Reflects about X if asked to, then turns by quarter turns, then moves the
/// origin to `(x, y)`.
pub open spec fn placement(reflected: bool, turns: int, x: int, y: int) -> Motion {
    let cos: int = if turns == 0 {
        1
    } else if turns == 2 {
        -1
    } else {
        0
    };
    let sin: int = if turns == 1 {
        1
    } else if turns == 3 {
        -1
    } else {
        0
    };
    if reflected {
        Motion { a: cos, b: sin, c: sin, d: -cos, tx: x, ty: y }
    } else {
        Motion { a: cos, b: -sin, c: sin, d: cos, tx: x, ty: y }
    }
}

/// A placement is a reflection about X, if there is one, then the turn, then
/// the translation.
pub proof fn law_placement_order(reflected: bool, turns: int, x: int, y: int)
    requires
        0 <= turns < 4,
    ensures
        placement(reflected, turns, x, y) == followed_by(
            followed_by(placement(reflected, 0, 0, 0), placement(false, turns, 0, 0)),
            placement(false, 0, x, y),
        ),
{
    let turned = placement(false, turns, 0, 0);
    let m = followed_by(placement(reflected, 0, 0, 0), turned);
    lemma_unit_product(turned.a, placement(reflected, 0, 0, 0).d);
    lemma_unit_product(turned.b, placement(reflected, 0, 0, 0).d);
    lemma_unit_product(turned.c, placement(reflected, 0, 0, 0).d);
    lemma_unit_product(turned.d, placement(reflected, 0, 0, 0).d);
    assert(turned.a * 0 == 0 && turned.b * 0 == 0 && turned.c * 0 == 0 && turned.d * 0 == 0);
    assert(m == placement(reflected, turns, 0, 0));
    let shift = Motion { a: 1, b: 0, c: 0, d: 1, tx: x, ty: y };
    assert(placement(false, 0, x, y) == shift);
    lemma_shift(m, x, y);
}

/// A translation after a motion moves its origin.
proof fn lemma_shift(m: Motion, x: int, y: int)
    ensures
        followed_by(m, Motion { a: 1, b: 0, c: 0, d: 1, tx: x, ty: y }) == (Motion {
            tx: m.tx + x,
            ty: m.ty + y,
            ..m
        }),
{
    let f = followed_by(m, Motion { a: 1, b: 0, c: 0, d: 1, tx: x, ty: y });
    assert(f.a == 1 * m.a + 0 * m.c);
    assert(f.b == 1 * m.b + 0 * m.d);
    assert(f.c == 0 * m.a + 1 * m.c);
    assert(f.d == 0 * m.b + 1 * m.d);
    assert(f.tx == 1 * m.tx + 0 * m.ty + x);
    assert(f.ty == 0 * m.tx + 1 * m.ty + y);
}

/// A coordinate held to the range of the database.
pub open spec fn held_to_range(v: int) -> int {
    if v > i32::MAX {
        i32::MAX as int
    } else if v < i32::MIN {
        i32::MIN as int
    } else {
        v
    }
}

/// The coordinate of a copy along one axis of an array: `col` of `cols` steps
/// towards `row_end` and `row` of `rows` steps towards `col_end`. There is
/// none if the steps are not whole.
pub open spec fn lattice(
    origin: int,
    row_end: int,
    col_end: int,
    rows: int,
    cols: int,
    row: int,
    col: int,
) -> Option<int> {
    if (row_end - origin) % cols == 0 && (col_end - origin) % rows == 0 {
        Some(
            held_to_range(
                origin + ((row_end - origin) / cols) * col + ((col_end - origin) / rows) * row,
            ),
        )
    } else {
        None
    }
}

/// The motion of one copy that element `e` places, if it keeps the grid.
pub open spec fn copy_motion(e: ElementModel, row: int, col: int) -> Option<Motion> {
    match e {
        ElementModel::StructRef { origin, strans, .. } => match quarter_turns(strans) {
            Some(t) => Some(placement(given(strans).reflected, t, origin.x as int, origin.y as int)),
            None => None,
        },
        ElementModel::ArrayRef { origin, strans, row_end, col_end, rows, cols, .. } => {
            let x = lattice(
                origin.x as int,
                row_end.x as int,
                col_end.x as int,
                rows as int,
                cols as int,
                row,
                col,
            );
            let y = lattice(
                origin.y as int,
                row_end.y as int,
                col_end.y as int,
                rows as int,
                cols as int,
                row,
                col,
            );
            if quarter_turns(strans) is Some && x is Some && y is Some {
                Some(placement(given(strans).reflected, quarter_turns(strans)->0, x->0, y->0))
            } else {
                None
            }
        },
        _ => None,
    }
}

/// The motion of what the first `k` references of `path` lead to, if it
/// keeps the grid.
pub open spec fn path_motion(lib: Seq<StructureModel>, path: Seq<Step>, k: int) -> Option<Motion>
    decreases k,
{
    if k <= 0 {
        Some(rest())
    } else {
        let st = path[k - 1];
        let local = copy_motion(
            elem_at(lib, st.structure, st.element),
            st.row as int,
            st.col as int,
        );
        match path_motion(lib, path, k - 1) {
            Some(outer) => match local {
                Some(inner) => Some(followed_by(inner, outer)),
                None => None,
            },
            None => None,
        }
    }
}

/// The points of a drawn element.
pub open spec fn points_of(e: ElementModel) -> Seq<Point> {
    match e {
        ElementModel::Drawn { points, .. } => points,
        ElementModel::Path { points, .. } => points,
        _ => Seq::empty(),
    }
}

/// Layer and datatype of a drawn element.
pub open spec fn layer_of(e: ElementModel) -> (i16, i16) {
    match e {
        ElementModel::Drawn { layer, datatype, .. } => (layer, datatype),
        ElementModel::Path { layer, datatype, .. } => (layer, datatype),
        _ => (0, 0),
    }
}

/// The width of a path, where it is not magnified; 0 for another element.
pub open spec fn width_of(e: ElementModel) -> int {
    match e {
        ElementModel::Path { width: Some(w), .. } => if w < 0 {
            -w
        } else {
            w as int
        },
        _ => 0,
    }
}

/// The type of a path, which says how it ends; 0 for another element.
pub open spec fn ends_of(e: ElementModel) -> int {
    match e {
        ElementModel::Path { path_type: Some(t), .. } => t as int,
        _ => 0,
    }
}

/// The moved point fits the database.
pub open spec fn fits(m: Motion, p: Point) -> bool {
    let q = moved(m, (p.x as int, p.y as int));
    i32::MIN <= q.0 <= i32::MAX && i32::MIN <= q.1 <= i32::MAX
}

/// Every point of the moved ring fits the database.
pub open spec fn fits_all(m: Motion, ring: Seq<Point>) -> bool {
    forall|i: int| 0 <= i < ring.len() ==> fits(m, #[trigger] ring[i])
}

/// The moved ring, where every point fits the database.
pub open spec fn moved_ring(m: Motion, ring: Seq<Point>) -> Seq<Point> {
    Seq::new(
        ring.len(),
        |i: int|
            {
                let q = moved(m, (ring[i].x as int, ring[i].y as int));
                Point { x: q.0 as i32, y: q.1 as i32 }
            },
    )
}

/// A ring without the repeated first point at its end.
pub open spec fn opened(ring: Seq<Point>) -> Seq<Point> {
    if ring.len() >= 2 && ring[0] == ring[ring.len() - 1] {
        ring.drop_last()
    } else {
        ring
    }
}

/// One entry of a flattened library.
#[derive(Debug)]
pub enum Flat {
    /// A polygon, placed exactly.
    Placed(Polygon),
    /// An element whose outline is off the grid, or out of its range.
    OffGrid(Instance),
}

/// What a [`Flat`] stands for.
#[verifier::ext_equal]
pub enum FlatView {
    Placed(Shape),
    OffGrid(Occurrence),
}

impl View for Flat {
    type V = FlatView;

    open spec fn view(&self) -> FlatView {
        match *self {
            Flat::Placed(p) => FlatView::Placed(p@),
            Flat::OffGrid(i) => FlatView::OffGrid(i@),
        }
    }
}

/// What the entries of a list stand for.
pub open spec fn flats(list: Seq<Flat>) -> Seq<FlatView> {
    Seq::new(list.len(), |i: int| list[i]@)
}

/// What the path of an occurrence becomes: the polygon of its outline, an
/// element off the grid, or nothing if it has no width or no two points that
/// differ.
pub open spec fn flattened_path(lib: Seq<StructureModel>, o: Occurrence) -> Seq<FlatView> {
    let e = elem_at(lib, o.structure, o.element);
    if width_of(e) == 0 || spine(points_of(e)).len() < 2 {
        Seq::empty()
    } else {
        match (
            path_motion(lib, o.path, o.path.len() as int),
            path_ring(points_of(e), width_of(e), ends_of(e)),
        ) {
            (Some(m), Some(ring)) => if fits_all(m, ring) {
                seq![
                    FlatView::Placed(
                        Shape {
                            layer: layer_of(e).0,
                            datatype: layer_of(e).1,
                            ring: moved_ring(m, ring),
                        },
                    ),
                ]
            } else {
                seq![FlatView::OffGrid(o)]
            },
            _ => seq![FlatView::OffGrid(o)],
        }
    }
}

/// What the boundary or box of an occurrence becomes: a polygon, nothing if
/// its ring has fewer than three points, or an element off the grid.
pub open spec fn flattened_ring(lib: Seq<StructureModel>, o: Occurrence) -> Seq<FlatView> {
    let e = elem_at(lib, o.structure, o.element);
    match path_motion(lib, o.path, o.path.len() as int) {
        None => seq![FlatView::OffGrid(o)],
        Some(m) => if fits_all(m, points_of(e)) {
            let ring = opened(moved_ring(m, points_of(e)));
            if ring.len() >= 3 {
                seq![
                    FlatView::Placed(
                        Shape { layer: layer_of(e).0, datatype: layer_of(e).1, ring },
                    ),
                ]
            } else {
                Seq::empty()
            }
        } else {
            seq![FlatView::OffGrid(o)]
        },
    }
}

/// What an occurrence becomes.
pub open spec fn flattened(lib: Seq<StructureModel>, o: Occurrence) -> Seq<FlatView> {
    if elem_at(lib, o.structure, o.element) is Path {
        flattened_path(lib, o)
    } else {
        flattened_ring(lib, o)
    }
}

/// A path of some width with two points that differ never vanishes: it
/// becomes one entry of the list.
pub proof fn law_paths_never_vanish(lib: Seq<StructureModel>, o: Occurrence, i: int, j: int)
    requires
        ({
            let e = elem_at(lib, o.structure, o.element);
            &&& e is Path
            &&& width_of(e) > 0
            &&& 0 <= i < points_of(e).len()
            &&& 0 <= j < points_of(e).len()
            &&& points_of(e)[i] != points_of(e)[j]
        }),
    ensures
        flattened(lib, o).len() == 1,
{
    let e = elem_at(lib, o.structure, o.element);
    law_distinct_points_make_a_line(points_of(e), i, j);
}

/// What the first `k` occurrences become.
pub open spec fn flattened_upto(lib: Seq<StructureModel>, list: Seq<Occurrence>, k: int) -> Seq<FlatView>
    decreases k,
{
    if k <= 0 {
        Seq::empty()
    } else {
        flattened_upto(lib, list, k - 1) + flattened(lib, list[k - 1])
    }
}

/// A motion by quarter turns, in machine numbers.
#[derive(Debug, Clone, Copy, PartialEq, Eq, Structural)]
pub struct Affine {
    pub a: i64,
    pub b: i64,
    pub c: i64,
    pub d: i64,
    pub tx: i64,
    pub ty: i64,
}

impl View for Affine {
    type V = Motion;

    open spec fn view(&self) -> Motion {
        Motion {
            a: self.a as int,
            b: self.b as int,
            c: self.c as int,
            d: self.d as int,
            tx: self.tx as int,
            ty: self.ty as int,
        }
    }
}

/// The motion turns by quarter turns and moves by less than `k` times the
/// range of the database.
pub open spec fn bounded(m: Motion, k: int) -> bool {
    &&& -1 <= m.a <= 1 && -1 <= m.b <= 1 && -1 <= m.c <= 1 && -1 <= m.d <= 1
    &&& m.a == 0 || m.b == 0
    &&& m.c == 0 || m.d == 0
    &&& m.a == 0 || m.c == 0
    &&& m.b == 0 || m.d == 0
    &&& -0x8000_0000 * k <= m.tx <= 0x8000_0000 * k
    &&& -0x8000_0000 * k <= m.ty <= 0x8000_0000 * k
}

proof fn lemma_unit_product(u: int, v: int)
    requires
        -1 <= u <= 1,
    ensures
        u == 0 ==> u * v == 0,
        u == 1 ==> u * v == v,
        u == -1 ==> u * v == -v,
{
}

impl Affine {
    /// Where the motion takes a point.
    pub fn apply(&self, p: Point) -> (q: (i64, i64))
        requires
            bounded(self@, 0x1_0000),
        ensures
            q.0 == moved(self@, (p.x as int, p.y as int)).0,
            q.1 == moved(self@, (p.x as int, p.y as int)).1,
    {
        proof {
            lemma_unit_product(self.a as int, p.x as int);
            lemma_unit_product(self.b as int, p.y as int);
            lemma_unit_product(self.c as int, p.x as int);
            lemma_unit_product(self.d as int, p.y as int);
        }
        let (x, y): (i64, i64) = (p.x as i64, p.y as i64);
        (self.a * x + self.b * y + self.tx, self.c * x + self.d * y + self.ty)
    }

    /// This motion followed by `outer`.
    fn followed_by(&self, outer: &Affine, Ghost(k): Ghost<int>) -> (r: Affine)
        requires
            bounded(self@, 1),
            bounded(outer@, k),
            0 <= k < 0x1_0000,
        ensures
            r@ == followed_by(self@, outer@),
            bounded(r@, k + 1),
    {
        proof {
            lemma_unit_product(outer.a as int, self.a as int);
            lemma_unit_product(outer.a as int, self.b as int);
            lemma_unit_product(outer.a as int, self.tx as int);
            lemma_unit_product(outer.b as int, self.c as int);
            lemma_unit_product(outer.b as int, self.d as int);
            lemma_unit_product(outer.b as int, self.ty as int);
            lemma_unit_product(outer.c as int, self.a as int);
            lemma_unit_product(outer.c as int, self.b as int);
            lemma_unit_product(outer.c as int, self.tx as int);
            lemma_unit_product(outer.d as int, self.c as int);
            lemma_unit_product(outer.d as int, self.d as int);
            lemma_unit_product(outer.d as int, self.ty as int);
        }
        Affine {
            a: outer.a * self.a + outer.b * self.c,
            b: outer.a * self.b + outer.b * self.d,
            c: outer.c * self.a + outer.d * self.c,
            d: outer.c * self.b + outer.d * self.d,
            tx: outer.a * self.tx + outer.b * self.ty + outer.tx,
            ty: outer.c * self.tx + outer.d * self.ty + outer.ty,
        }
    }
}

/// Whole-number division; there is none if a remainder is left.
fn exact_quotient(n: i64, d: i64) -> (q: Option<i64>)
    requires
        -0x1_0000_0000 < n < 0x1_0000_0000,
        0 < d < 0x1_0000_0000,
    ensures
        q is Some <==> (n as int) % (d as int) == 0,
        q is Some ==> q->0 == (n as int) / (d as int) && q->0 * d == n,
{
    if n >= 0 {
        proof {
            lemma_fundamental_div_mod(n as int, d as int);
            lemma_mul_is_commutative(d as int, n as int / d as int);
        }
        if n % d == 0 {
            Some(n / d)
        } else {
            None
        }
    } else {
        let m: i64 = -n;
        proof {
            lemma_fundamental_div_mod(m as int, d as int);
            lemma_fundamental_div_mod(n as int, d as int);
            lemma_mul_is_commutative(d as int, n as int / d as int);
        }
        if m % d == 0 {
            let q: i64 = m / d;
            proof {
                assert(d * q == m);
                assert((-q) * d == n) by (nonlinear_arith)
                    requires
                        d * q == m,
                        m == -n,
                ;
                lemma_fundamental_div_mod_converse(n as int, d as int, -q as int, 0);
            }
            Some(-q)
        } else {
            proof {
                if n as int % d as int == 0 {
                    let q = n as int / d as int;
                    assert((-q) * d == m) by (nonlinear_arith)
                        requires
                            d * q == n,
                            m == -n,
                    ;
                    lemma_fundamental_div_mod_converse(m as int, d as int, -q, 0);
                }
            }
            None
        }
    }
}

/// A coordinate held to the range of the database.
fn hold_to_range(v: i64) -> (h: i64)
    ensures
        h == held_to_range(v as int),
        i32::MIN <= h <= i32::MAX,
{
    if v > i32::MAX as i64 {
        i32::MAX as i64
    } else if v < i32::MIN as i64 {
        i32::MIN as i64
    } else {
        v
    }
}

/// The coordinate of a copy along one axis of an array.
fn lattice_point(
    origin: i32,
    row_end: i32,
    col_end: i32,
    rows: i16,
    cols: i16,
    row: i16,
    col: i16,
) -> (v: Option<i64>)
    requires
        0 <= row < rows,
        0 <= col < cols,
    ensures
        v is Some <==> lattice(
            origin as int,
            row_end as int,
            col_end as int,
            rows as int,
            cols as int,
            row as int,
            col as int,
        ) is Some,
        v is Some ==> v->0 == lattice(
            origin as int,
            row_end as int,
            col_end as int,
            rows as int,
            cols as int,
            row as int,
            col as int,
        )->0 && i32::MIN <= v->0 <= i32::MAX,
{
    let o: i64 = origin as i64;
    let dcol: Option<i64> = exact_quotient(row_end as i64 - o, cols as i64);
    let drow: Option<i64> = exact_quotient(col_end as i64 - o, rows as i64);
    match (dcol, drow) {
        (Some(dc), Some(dr)) => {
            proof {
                lemma_part_of_product(dc as int, cols as int, col as int);
                lemma_part_of_product(dr as int, rows as int, row as int);
            }
            Some(hold_to_range(o + dc * col as i64 + dr * row as i64))
        },
        _ => None,
    }
}

/// A part of the steps leads no farther than all of them.
proof fn lemma_part_of_product(step: int, count: int, part: int)
    requires
        0 <= part < count,
        -0x1_0000_0000 < step * count < 0x1_0000_0000,
    ensures
        -0x1_0000_0000 < step * part < 0x1_0000_0000,
{
    assert(-0x1_0000_0000 < step * part < 0x1_0000_0000) by (nonlinear_arith)
        requires
            0 <= part < count,
            -0x1_0000_0000 < step * count < 0x1_0000_0000,
    ;
}

/// The number of quarter turns of a transform that keeps the grid.
fn turns_of(s: &Strans) -> (t: Option<u8>)
    ensures
        t is Some <==> quarter_turns(Some(*s)) is Some,
        t is Some ==> t->0 == quarter_turns(Some(*s))->0 && t->0 < 4,
{
    if let Some(mag) = s.mag {
        if mag != ONE {
            return None;
        }
    }
    match s.angle {
        None => Some(0),
        Some(angle) => if angle == DEG_0 || angle == NEG_0 {
            Some(0)
        } else if angle == DEG_90 {
            Some(1)
        } else if angle == DEG_180 {
            Some(2)
        } else if angle == DEG_270 {
            Some(3)
        } else {
            None
        },
    }
}

/// Reflects about X if asked to, then turns by quarter turns, then moves the
/// origin to `(x, y)`.
fn place_at(reflected: bool, turns: u8, x: i64, y: i64) -> (m: Affine)
    requires
        turns < 4,
        i32::MIN <= x <= i32::MAX,
        i32::MIN <= y <= i32::MAX,
    ensures
        m@ == placement(reflected, turns as int, x as int, y as int),
        bounded(m@, 1),
{
    let (cos, sin): (i64, i64) = match turns {
        0 => (1, 0),
        1 => (0, 1),
        2 => (-1, 0),
        _ => (0, -1),
    };
    if reflected {
        Affine { a: cos, b: sin, c: sin, d: -cos, tx: x, ty: y }
    } else {
        Affine { a: cos, b: -sin, c: sin, d: cos, tx: x, ty: y }
    }
}

/// The motion of one copy that an element places, if it keeps the grid.
fn ref_transform(e: &Element, row: i16, col: i16) -> (m: Option<Affine>)
    requires
        match e@ {
            ElementModel::StructRef { .. } => true,
            ElementModel::ArrayRef { rows, cols, .. } => 0 <= row < rows && 0 <= col < cols,
            _ => false,
        },
    ensures
        m is Some <==> copy_motion(e@, row as int, col as int) is Some,
        m is Some ==> m->0@ == copy_motion(e@, row as int, col as int)->0 && bounded(m->0@, 1),
{
    match e {
        Element::StructRef { origin, strans, .. } => {
            let s = strans_or_none(strans);
            match turns_of(&s) {
                Some(t) => Some(place_at(s.reflected, t, origin.x as i64, origin.y as i64)),
                None => None,
            }
        },
        Element::ArrayRef { origin, strans, row_end, col_end, rows, cols, .. } => {
            let s = strans_or_none(strans);
            let x = lattice_point(origin.x, row_end.x, col_end.x, *rows, *cols, row, col);
            let y = lattice_point(origin.y, row_end.y, col_end.y, *rows, *cols, row, col);
            match (turns_of(&s), x, y) {
                (Some(t), Some(x), Some(y)) => Some(place_at(s.reflected, t, x, y)),
                _ => None,
            }
        },
        _ => None,
    }
}

/// The transform of a reference that may name none.
fn strans_or_none(strans: &Option<Strans>) -> (s: Strans)
    ensures
        s == given(*strans),
{
    match strans {
        Some(s) => *s,
        None => Strans { reflected: false, mag: None, angle: None },
    }
}

/// Every step of the path is a step of the library.
pub open spec fn is_path(lib: Seq<StructureModel>, path: Seq<Step>) -> bool {
    forall|k: int| 0 <= k < path.len() ==> is_step(lib, #[trigger] path[k])
}

/// The motion of what a path leads to, if it keeps the grid.
fn path_transform(lib: &Library, path: &[Step]) -> (m: Option<Affine>)
    requires
        is_path(lib@, path@),
        path@.len() <= 64,
    ensures
        m is Some <==> path_motion(lib@, path@, path@.len() as int) is Some,
        m is Some ==> m->0@ == path_motion(lib@, path@, path@.len() as int)->0 && bounded(
            m->0@,
            0x1_0000,
        ),
{
    let mut m = Affine { a: 1, b: 0, c: 0, d: 1, tx: 0, ty: 0 };
    let mut k: usize = 0;
    while k < path.len()
        invariant
            k <= path@.len() <= 64,
            is_path(lib@, path@),
            path_motion(lib@, path@, k as int) == Some(m@),
            bounded(m@, k as int),
        decreases path@.len() - k,
    {
        let st = path[k];
        assert(is_step(lib@, path@[k as int]));
        match ref_transform(&lib.structs[st.structure].elems[st.element], st.row, st.col) {
            Some(local) => {
                m = local.followed_by(&m, Ghost(k as int));
            },
            None => {
                proof {
                    lemma_off_grid_stays(lib@, path@, k + 1, path@.len() as int);
                }
                return None;
            },
        }
        k = k + 1;
    }
    Some(m)
}

proof fn lemma_off_grid_stays(lib: Seq<StructureModel>, path: Seq<Step>, k: int, n: int)
    requires
        path_motion(lib, path, k) is None,
        k <= n,
    ensures
        path_motion(lib, path, n) is None,
    decreases n - k,
{
    if k < n {
        lemma_off_grid_stays(lib, path, k, n - 1);
    }
}

/// A polygon from a ring that may repeat its first point at its end. Fewer
/// than three points make no polygon.
pub fn ring_polygon(layer: i16, datatype: i16, points: Vec<Point>) -> (p: Option<Polygon>)
    ensures
        p is Some <==> opened(points@).len() >= 3,
        p is Some ==> p->0@ == (Shape { layer, datatype, ring: opened(points@) }),
{
    let mut ring = points;
    let n: usize = ring.len();
    if n >= 2 && ring[0] == ring[n - 1] {
        ring.pop();
        assert(ring@ =~= points@.drop_last());
    }
    if ring.len() >= 3 {
        Some(Polygon { layer, datatype, points: ring })
    } else {
        None
    }
}

/// Moves the points of a ring; there is no result if one does not fit the
/// database.
fn move_ring(m: &Affine, points: &[Point]) -> (ring: Option<Vec<Point>>)
    requires
        bounded(m@, 0x1_0000),
    ensures
        ring is Some <==> fits_all(m@, points@),
        ring is Some ==> ring->0@ == moved_ring(m@, points@),
{
    let mut ring: Vec<Point> = Vec::new();
    let mut i: usize = 0;
    while i < points.len()
        invariant
            i <= points@.len(),
            bounded(m@, 0x1_0000),
            forall|k: int| 0 <= k < i ==> fits(m@, #[trigger] points@[k]),
            ring@ == moved_ring(m@, points@).take(i as int),
        decreases points@.len() - i,
    {
        let q = m.apply(points[i]);
        if q.0 < i32::MIN as i64 || q.0 > i32::MAX as i64 || q.1 < i32::MIN as i64 || q.1
            > i32::MAX as i64 {
            assert(!fits(m@, points@[i as int]));
            return None;
        }
        ring.push(Point { x: q.0 as i32, y: q.1 as i32 });
        assert(ring@ =~= moved_ring(m@, points@).take(i + 1));
        i = i + 1;
    }
    assert(ring@ =~= moved_ring(m@, points@));
    Some(ring)
}

/// What a boundary or a box becomes.
fn flatten_ring(
    lib: &Library,
    inst: &Instance,
    layer: i16,
    datatype: i16,
    points: &Vec<Point>,
) -> (r: Option<Flat>)
    requires
        is_path(lib@, inst@.path),
        inst@.path.len() <= 64,
        elem_at(lib@, inst@.structure, inst@.element) == (ElementModel::Drawn {
            layer,
            datatype,
            points: points@,
        }),
    ensures
        flattened_ring(lib@, inst@) == match r {
            Some(f) => seq![f@],
            None => Seq::empty(),
        },
{
    let m = match path_transform(lib, &inst.path) {
        Some(m) => m,
        None => {
            return Some(Flat::OffGrid(inst.clone()));
        },
    };
    match move_ring(&m, points) {
        Some(ring) => match ring_polygon(layer, datatype, ring) {
            Some(p) => Some(Flat::Placed(p)),
            None => None,
        },
        None => Some(Flat::OffGrid(inst.clone())),
    }
}

/// The width of a path, where it is not magnified.
fn pen_width(width: Option<i32>) -> (w: u32)
    ensures
        w == match width {
            Some(w) => if w < 0 {
                -w
            } else {
                w as int
            },
            None => 0,
        },
{
    match width {
        Some(w) => if w < 0 {
            (-(w as i64)) as u32
        } else {
            w as u32
        },
        None => 0,
    }
}

/// What a path becomes.
fn flatten_path(
    lib: &Library,
    inst: &Instance,
    layer: i16,
    datatype: i16,
    width: Option<i32>,
    path_type: Option<i16>,
    points: &Vec<Point>,
) -> (r: Option<Flat>)
    requires
        is_path(lib@, inst@.path),
        inst@.path.len() <= 64,
        elem_at(lib@, inst@.structure, inst@.element) == (ElementModel::Path {
            layer,
            datatype,
            width,
            path_type,
            points: points@,
        }),
    ensures
        flattened_path(lib@, inst@) == match r {
            Some(f) => seq![f@],
            None => Seq::empty(),
        },
{
    let pen: u32 = pen_width(width);
    let ends: i16 = match path_type {
        Some(t) => t,
        None => 0,
    };
    if !has_area(points, pen) {
        return None;
    }
    let m = match path_transform(lib, &inst.path) {
        Some(m) => m,
        None => {
            return Some(Flat::OffGrid(inst.clone()));
        },
    };
    let outline = match path_outline(points, pen, ends) {
        Some(ring) => ring,
        None => {
            return Some(Flat::OffGrid(inst.clone()));
        },
    };
    match move_ring(&m, &outline) {
        Some(ring) => Some(Flat::Placed(Polygon { layer, datatype, points: ring })),
        None => Some(Flat::OffGrid(inst.clone())),
    }
}

/// Adds what an instance becomes to `out`.
fn flatten_instance(lib: &Library, inst: &Instance, out: &mut Vec<Flat>)
    requires
        is_path(lib@, inst@.path),
        inst@.path.len() <= 64,
        draws(lib@, inst@),
    ensures
        flats(final(out)@) == flats(old(out)@) + flattened(lib@, inst@),
{
    let ghost before = flats(out@);
    let ghost list = out@;
    let elem = &lib.structs[inst.structure].elems[inst.element];
    assert(elem@ == elem_at(lib@, inst@.structure, inst@.element));
    let entry = match elem {
        Element::Drawn { layer, datatype, points } => {
            flatten_ring(lib, inst, *layer, *datatype, points)
        },
        Element::Path { layer, datatype, width, path_type, points } => {
            flatten_path(lib, inst, *layer, *datatype, *width, *path_type, points)
        },
        _ => None,
    };
    if let Some(flat) = entry {
        out.push(flat);
        assert(flats(out@) =~= flats(list).push(flat@));
    }
    assert(flats(out@) =~= before + flattened(lib@, inst@));
}

/// A path that leads somewhere is made of steps of the library.
proof fn lemma_reaching_path(lib: Seq<StructureModel>, s: usize, path: Seq<Step>)
    requires
        reaches(lib, s, path) is Some,
    ensures
        is_path(lib, path),
    decreases path.len(),
{
    if path.len() > 0 {
        let tail = path.subrange(1, path.len() as int);
        lemma_reaching_path(
            lib,
            child_of(lib, elem_at(lib, s, path[0].element))->0,
            tail,
        );
        assert forall|k: int| 0 <= k < path.len() implies is_step(lib, #[trigger] path[k]) by {
            if k > 0 {
                assert(tail[k - 1] == path[k]);
            }
        }
    }
}

/// Flattens the hierarchy below the top structure of a library. Fails only
/// for a library without structures.
pub fn flatten_library(lib: &Library) -> (r: Result<Vec<Flat>, GdsError>)
    ensures
        r is Err <==> lib@.len() == 0,
        match r {
            Ok(list) => flats(list@) == flattened_upto(
                lib@,
                drawn(lib@),
                drawn(lib@).len() as int,
            ),
            Err(e) => e is Empty,
        },
{
    let list = match instances(lib) {
        Ok(list) => list,
        Err(e) => return Err(e),
    };
    let ghost all = drawn(lib@);
    let mut out: Vec<Flat> = Vec::new();
    let mut k: usize = 0;
    assert(flats(out@) =~= flattened_upto(lib@, all, 0));
    while k < list.len()
        invariant
            k <= list@.len(),
            lib@.len() > 0,
            all == drawn(lib@),
            occurrences(list@) == all,
            flats(out@) == flattened_upto(lib@, all, k as int),
        decreases list@.len() - k,
    {
        proof {
            let o = list@[k as int]@;
            assert(o == occurrences(list@)[k as int]);
            assert(all.contains(o));
            lemma_numbered(*lib);
            law_drawn_elements(lib@, o);
            lemma_reaching_path(lib@, top_of(lib@) as usize, o.path);
        }
        flatten_instance(lib, &list[k], &mut out);
        k = k + 1;
    }
    Ok(out)
}

/// Names the loaded layout after its library: the top structure and all the
/// structures in order.
pub fn load_info(lib: &Library, polygons: Vec<Polygon>) -> (r: Result<LoadInfo, GdsError>)
    ensures
        r is Err <==> lib@.len() == 0,
        match r {
            Ok(info) => {
                &&& info.polygons == polygons
                &&& info.top_cell@ == lib@[top_of(lib@)].name
                &&& info.cell_names@.len() == lib@.len()
                &&& forall|i: int|
                    0 <= i < lib@.len() ==> (#[trigger] info.cell_names@[i])@
                        == lib@[i].name
            },
            Err(e) => e is Empty,
        },
{
    if lib.structs.len() == 0 {
        return Err(GdsError::Empty);
    }
    let mut cell_names: Vec<String> = Vec::new();
    let mut i: usize = 0;
    while i < lib.structs.len()
        invariant
            i <= lib@.len(),
            cell_names@.len() == i,
            forall|k: int|
                0 <= k < i ==> (#[trigger] cell_names@[k])@ == lib@[k].name,
        decreases lib@.len() - i,
    {
        cell_names.push(lib.structs[i].name.clone());
        i = i + 1;
    }
    let top: usize = top_struct(lib);
    Ok(LoadInfo { polygons, top_cell: lib.structs[top].name.clone(), cell_names })
}

} // verus!
