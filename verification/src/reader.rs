//! Reading a GDS-II file, given its bytes.

use vstd::prelude::*;

use crate::gds::{GdsError, Point};
use crate::hierarchy::{drawn, flats, flatten_library, flattened_upto};
use crate::hierarchy::{Element, Flat, Library, Strans, Structure, StructureModel};
use crate::stream::{dates_exist, has_texts, law_repaired_dates_exist, repair_dates, repaired};
use crate::stream::{law_repair_changes_nothing_else, texts_exist};

verus! {

/// A parsed library of `gds21`.
#[verifier::external_type_specification]
#[verifier::external_body]
pub struct ExGdsLibrary(gds21::GdsLibrary);

/// The structures that `gds21` parses out of a stream, or the debug text of
/// the error that it reports.
pub uninterp spec fn parsed(bytes: Seq<u8>) -> Result<Seq<StructureModel>, Seq<char>>;

/// The structures that a parsed library holds.
pub uninterp spec fn contents(lib: gds21::GdsLibrary) -> Seq<StructureModel>;

/// Calls `gds21::GdsLibrary::from_bytes`. What it returns, the debug text of
/// an error included, depends on the bytes alone. It panics on a text without
/// a character and on a date that does not exist; streams with either are
/// left out.
#[verifier::external_body]
fn parse(bytes: Vec<u8>) -> (r: Result<gds21::GdsLibrary, String>)
    requires
        dates_exist(bytes@, 0),
        texts_exist(bytes@, 0),
    ensures
        match r {
            Ok(lib) => parsed(bytes@) == Ok::<Seq<StructureModel>, Seq<char>>(contents(lib)),
            Err(text) => parsed(bytes@) == Err::<Seq<StructureModel>, Seq<char>>(text@),
        },
{
    gds21::GdsLibrary::from_bytes(bytes).map_err(|e| format!("{:?}", e))
}

/// The length of `gds21::GdsLibrary::structs`.
#[verifier::external_body]
fn struct_count(lib: &gds21::GdsLibrary) -> (n: usize)
    ensures
        n == contents(*lib).len(),
{
    lib.structs.len()
}

/// The name of a structure of a `gds21::GdsLibrary`.
#[verifier::external_body]
fn struct_name(lib: &gds21::GdsLibrary, s: usize) -> (name: String)
    requires
        s < contents(*lib).len(),
    ensures
        name@ == contents(*lib)[s as int].name,
{
    lib.structs[s].name.clone()
}

/// The number of elements of a structure of a `gds21::GdsLibrary`.
#[verifier::external_body]
fn elem_count(lib: &gds21::GdsLibrary, s: usize) -> (n: usize)
    requires
        s < contents(*lib).len(),
    ensures
        n == contents(*lib)[s as int].elems.len(),
{
    lib.structs[s].elems.len()
}

/// An element of a `gds21::GdsLibrary`, where it is a boundary or a box:
/// layer, data type and points as they are.
#[verifier::external_body]
fn drawn_at(lib: &gds21::GdsLibrary, s: usize, e: usize) -> (r: Option<Element>)
    requires
        s < contents(*lib).len(),
        e < contents(*lib)[s as int].elems.len(),
    ensures
        r is Some <==> contents(*lib)[s as int].elems[e as int] is Drawn,
        r is Some ==> r->0@ == contents(*lib)[s as int].elems[e as int],
{
    match &lib.structs[s].elems[e] {
        gds21::GdsElement::GdsBoundary(b) => Some(Element::Drawn {
            layer: b.layer,
            datatype: b.datatype,
            points: b.xy.iter().map(|p| Point { x: p.x, y: p.y }).collect(),
        }),
        gds21::GdsElement::GdsBox(b) => Some(Element::Drawn {
            layer: b.layer,
            datatype: b.boxtype,
            points: b.xy.iter().map(|p| Point { x: p.x, y: p.y }).collect(),
        }),
        _ => None,
    }
}

/// An element of a `gds21::GdsLibrary`, where it is a path: layer, data type,
/// width, path type and points as they are. The extensions of a path with
/// ends of its own are left behind.
#[verifier::external_body]
fn path_at(lib: &gds21::GdsLibrary, s: usize, e: usize) -> (r: Option<Element>)
    requires
        s < contents(*lib).len(),
        e < contents(*lib)[s as int].elems.len(),
    ensures
        r is Some <==> contents(*lib)[s as int].elems[e as int] is Path,
        r is Some ==> r->0@ == contents(*lib)[s as int].elems[e as int],
{
    match &lib.structs[s].elems[e] {
        gds21::GdsElement::GdsPath(p) => Some(Element::Path {
            layer: p.layer,
            datatype: p.datatype,
            width: p.width,
            path_type: p.path_type,
            points: p.xy.iter().map(|p| Point { x: p.x, y: p.y }).collect(),
        }),
        _ => None,
    }
}

/// An element of a `gds21::GdsLibrary`, where it is a structure reference:
/// name, origin and transform as they are.
#[verifier::external_body]
fn struct_ref_at(lib: &gds21::GdsLibrary, s: usize, e: usize) -> (r: Option<Element>)
    requires
        s < contents(*lib).len(),
        e < contents(*lib)[s as int].elems.len(),
    ensures
        r is Some <==> contents(*lib)[s as int].elems[e as int] is StructRef,
        r is Some ==> r->0@ == contents(*lib)[s as int].elems[e as int],
{
    match &lib.structs[s].elems[e] {
        gds21::GdsElement::GdsStructRef(r) => Some(Element::StructRef {
            name: r.name.clone(),
            origin: Point { x: r.xy.x, y: r.xy.y },
            strans: r.strans.as_ref().map(|t| Strans {
                reflected: t.reflected,
                mag: t.mag.map(|m| m.to_bits()),
                angle: t.angle.map(|a| a.to_bits()),
            }),
        }),
        _ => None,
    }
}

/// An element of a `gds21::GdsLibrary`, where it is an array reference: name,
/// points, size and transform as they are.
#[verifier::external_body]
fn array_ref_at(lib: &gds21::GdsLibrary, s: usize, e: usize) -> (r: Option<Element>)
    requires
        s < contents(*lib).len(),
        e < contents(*lib)[s as int].elems.len(),
    ensures
        r is Some <==> contents(*lib)[s as int].elems[e as int] is ArrayRef,
        r is Some ==> r->0@ == contents(*lib)[s as int].elems[e as int],
{
    match &lib.structs[s].elems[e] {
        gds21::GdsElement::GdsArrayRef(r) => {
            let strans = r.strans.as_ref().map(|t| Strans {
                reflected: t.reflected,
                mag: t.mag.map(|m| m.to_bits()),
                angle: t.angle.map(|a| a.to_bits()),
            });
            let [o, re, ce] = r.xy.clone().map(|p| Point { x: p.x, y: p.y });
            let (rows, cols, name) = (r.rows, r.cols, r.name.clone());
            Some(Element::ArrayRef { name, origin: o, strans, row_end: re, col_end: ce, rows, cols })
        },
        _ => None,
    }
}

/// Reads one element.
fn read_element(lib: &gds21::GdsLibrary, s: usize, e: usize) -> (r: Element)
    requires
        s < contents(*lib).len(),
        e < contents(*lib)[s as int].elems.len(),
    ensures
        r@ == contents(*lib)[s as int].elems[e as int],
{
    if let Some(drawn) = drawn_at(lib, s, e) {
        drawn
    } else if let Some(path) = path_at(lib, s, e) {
        path
    } else if let Some(sref) = struct_ref_at(lib, s, e) {
        sref
    } else if let Some(aref) = array_ref_at(lib, s, e) {
        aref
    } else {
        Element::Other
    }
}

/// Reads one structure.
fn read_structure(lib: &gds21::GdsLibrary, s: usize) -> (r: Structure)
    requires
        s < contents(*lib).len(),
    ensures
        r@ == contents(*lib)[s as int],
{
    let count: usize = elem_count(lib, s);
    let mut elems: Vec<Element> = Vec::new();
    let mut e: usize = 0;
    while e < count
        invariant
            e <= count,
            s < contents(*lib).len(),
            count == contents(*lib)[s as int].elems.len(),
            elems@.len() == e,
            forall|k: int|
                0 <= k < e ==> (#[trigger] elems@[k])@ == contents(*lib)[s as int].elems[k],
        decreases count - e,
    {
        elems.push(read_element(lib, s, e));
        e = e + 1;
    }
    let r = Structure { name: struct_name(lib, s), elems };
    assert(r@.elems =~= contents(*lib)[s as int].elems);
    r
}

/// What reading a stream gives: the structures, or the text of an error.
/// Dates that do not exist do no harm; a stream with an empty text, or one
/// that cannot be parsed, is an error.
pub open spec fn read(bytes: Seq<u8>) -> Result<Seq<StructureModel>, Seq<char>> {
    let b = repaired(bytes, 0);
    if texts_exist(b, 0) {
        parsed(b)
    } else {
        Err("text without a character"@)
    }
}

/// A stream whose dates and texts exist is read as it is, and one with an empty
/// text is an error; any other stream is read as the one with its dates
/// repaired, whose dates exist.
pub proof fn law_sound_streams_are_read_as_they_are(bytes: Seq<u8>)
    ensures
        dates_exist(bytes, 0) && texts_exist(bytes, 0) ==> read(bytes) == parsed(bytes),
        dates_exist(bytes, 0) && !texts_exist(bytes, 0) ==> read(bytes) is Err,
        read(bytes) == read(repaired(bytes, 0)),
        dates_exist(repaired(bytes, 0), 0),
{
    law_repaired_dates_exist(bytes, 0);
    law_repair_changes_nothing_else(repaired(bytes, 0), 0);
    if dates_exist(bytes, 0) {
        law_repair_changes_nothing_else(bytes, 0);
    }
}

/// Reads the library in a stream.
pub fn read_library(bytes: Vec<u8>) -> (r: Result<Library, GdsError>)
    ensures
        match read(bytes@) {
            Ok(structs) => r is Ok && r->Ok_0@ == structs,
            Err(text) => r is Err && r->Err_0 is Parse && r->Err_0->Parse_0@ == text,
        },
{
    let fixed = repair_dates(bytes);
    proof {
        law_repaired_dates_exist(bytes@, 0);
    }
    if !has_texts(&fixed) {
        return Err(GdsError::Parse("text without a character".to_owned()));
    }
    let lib = match parse(fixed) {
        Ok(lib) => lib,
        Err(text) => {
            return Err(GdsError::Parse(text));
        },
    };
    let count: usize = struct_count(&lib);
    let mut structs: Vec<Structure> = Vec::new();
    let mut s: usize = 0;
    while s < count
        invariant
            s <= count == contents(lib).len(),
            structs@.len() == s,
            forall|k: int| 0 <= k < s ==> (#[trigger] structs@[k])@ == contents(lib)[k],
        decreases count - s,
    {
        structs.push(read_structure(&lib, s));
        s = s + 1;
    }
    let r = Library { structs };
    assert(r@ =~= contents(lib));
    Ok(r)
}

/// A library with the flattened hierarchy below its top structure.
#[derive(Debug)]
pub struct Flattened {
    pub library: Library,
    pub list: Vec<Flat>,
}

/// Reads the library in a stream and flattens it.
pub fn load_and_flatten(bytes: Vec<u8>) -> (r: Result<Flattened, GdsError>)
    ensures
        match read(bytes@) {
            Ok(lib) => if lib.len() == 0 {
                r is Err && r->Err_0 is Empty
            } else {
                &&& r is Ok
                &&& r->Ok_0.library@ == lib
                &&& flats(r->Ok_0.list@) == flattened_upto(lib, drawn(lib), drawn(lib).len() as int)
            },
            Err(text) => r is Err && r->Err_0 is Parse && r->Err_0->Parse_0@ == text,
        },
{
    let library = match read_library(bytes) {
        Ok(library) => library,
        Err(e) => return Err(e),
    };
    match flatten_library(&library) {
        Ok(list) => Ok(Flattened { library, list }),
        Err(e) => Err(e),
    }
}

} // verus!
