use gds21::{GdsArrayRef, GdsBoundary, GdsBox, GdsElement, GdsLibrary, GdsPath, GdsPoint};
use gds21::{GdsStrans, GdsStruct, GdsStructRef, GdsUnits};

use gdssim::celllib::{build, nand2};
use gdssim::gds::{bbox, GdsError, Point, Polygon};
use gdssim::hierarchy::{flatten_library, instances, load_info, ring_polygon, top_struct};
use gdssim::hierarchy::{Element, Flat, Library, Step, Strans, Structure};
use gdssim::paths::{has_area, path_outline};
use gdssim::reader::{load_and_flatten, read_library};
use gdssim::stream::{has_texts, repair_dates};
use gdssim::tech::Tech;
use gdssim::transistors::{extract, TransistorKind};

fn p(x: i32, y: i32) -> Point {
    Point::new(x, y)
}

fn rect(layer: i16, x0: i32, y0: i32, x1: i32, y1: i32) -> GdsBoundary {
    GdsBoundary {
        layer,
        datatype: 0,
        xy: vec![
            GdsPoint::new(x0, y0),
            GdsPoint::new(x1, y0),
            GdsPoint::new(x1, y1),
            GdsPoint::new(x0, y1),
            GdsPoint::new(x0, y0),
        ],
        ..Default::default()
    }
}

fn bytes_of(name: &str, structs: Vec<GdsStruct>) -> Vec<u8> {
    let lib = GdsLibrary {
        name: name.into(),
        units: GdsUnits::new(0.001, 1e-9),
        structs,
        ..Default::default()
    };
    let mut bytes = Vec::new();
    lib.write(&mut bytes).expect("write");
    bytes
}

fn polygons(bytes: Vec<u8>) -> Vec<Polygon> {
    let flat = load_and_flatten(bytes).expect("load+flatten");
    flat.list
        .into_iter()
        .map(|f| match f {
            Flat::Placed(p) => p,
            Flat::OffGrid(i) => panic!("off the grid: {i:?}"),
        })
        .collect()
}

fn sample_library() -> Vec<u8> {
    // Child cell: one rectangle on layer 1.
    let child = GdsStruct {
        name: "CHILD".into(),
        elems: vec![GdsElement::GdsBoundary(rect(1, 0, 0, 1000, 500))],
        ..Default::default()
    };
    // Top cell: rectangle on layer 2 and one SREF to CHILD moved by (2000, 0).
    let top = GdsStruct {
        name: "TOP".into(),
        elems: vec![
            GdsElement::GdsBoundary(rect(2, 0, 1000, 500, 1500)),
            GdsElement::GdsStructRef(GdsStructRef {
                name: "CHILD".into(),
                xy: GdsPoint::new(2000, 0),
                strans: None,
                ..Default::default()
            }),
        ],
        ..Default::default()
    };
    bytes_of("SAMPLE", vec![child, top])
}

#[test]
fn round_trips_and_flattens() {
    let polys = polygons(sample_library());
    // TOP's layer-2 rect and the CHILD rect on layer 1.
    assert_eq!(polys.len(), 2, "polys: {:?}", polys);

    let on_layer = |l: i16| polys.iter().find(|p| p.layer == l).unwrap();
    let top_rect = on_layer(2);
    assert_eq!(top_rect.points.len(), 4);

    let child_rect = on_layer(1);
    // The child rect was (0,0)-(1000,500), moved by (2000, 0).
    let xs: Vec<f64> = child_rect.points.iter().map(|p| p.x as f64).collect();
    let ys: Vec<f64> = child_rect.points.iter().map(|p| p.y as f64).collect();
    assert!(xs.iter().all(|&x| x >= 2000.0 - 1e-6 && x <= 3000.0 + 1e-6), "child xs: {:?}", xs);
    assert!(ys.iter().all(|&y| y >= 0.0 - 1e-6 && y <= 500.0 + 1e-6), "child ys: {:?}", ys);

    let b = bbox(&polys);
    assert!((b.min.x as f64 - 0.0).abs() < 1e-6);
    assert!((b.max.x as f64 - 3000.0).abs() < 1e-6);
    assert!((b.min.y as f64 - 0.0).abs() < 1e-6);
    assert!((b.max.y as f64 - 1500.0).abs() < 1e-6);
}

#[test]
fn committed_nand2_gds_round_trips() {
    // The generated NAND2, written as GDS-II and read back, has the four
    // transistors of its netlist.
    let (polys, _) = build(&nand2());
    let elems = polys
        .iter()
        .map(|p| {
            let mut xy: Vec<GdsPoint> =
                p.points.iter().map(|q| GdsPoint::new(q.x, q.y)).collect();
            xy.push(xy[0].clone());
            GdsElement::GdsBoundary(GdsBoundary {
                layer: p.layer,
                datatype: p.datatype,
                xy,
                ..Default::default()
            })
        })
        .collect();
    let cell = GdsStruct { name: "NAND2".into(), elems, ..Default::default() };
    let read = polygons(bytes_of("NAND2", vec![cell]));
    assert_eq!(read.len(), polys.len());
    let ext = extract(&read, &Tech::default_tech());
    assert_eq!(ext.transistors.len(), 4);
    let count = |k: TransistorKind| ext.transistors.iter().filter(|t| t.kind == k).count();
    assert_eq!((count(TransistorKind::Pmos), count(TransistorKind::Nmos)), (2, 2));
}

#[test]
fn extracts_from_the_committed_inverter_gds() {
    let elems = vec![
        rect(8, 0, 1000, 3000, 2300),
        rect(2, 500, 1300, 2500, 1900),
        rect(2, 500, 100, 2500, 700),
        rect(1, 1300, 0, 1700, 2300),
        rect(3, 700, 1500, 900, 1700),
        rect(3, 2100, 1500, 2300, 1700),
        rect(3, 2100, 300, 2300, 500),
        rect(3, 700, 300, 900, 500),
        rect(3, 1400, 2050, 1600, 2250),
        rect(4, 600, 1450, 1000, 1750),
        rect(4, 600, 250, 1000, 550),
        rect(4, 1350, 2000, 1650, 2300),
        rect(4, 2050, 300, 2350, 1700),
    ];
    let cell = GdsStruct {
        name: "INVERTER".into(),
        elems: elems.into_iter().map(GdsElement::GdsBoundary).collect(),
        ..Default::default()
    };
    let polys = polygons(bytes_of("CMOS_INVERTER", vec![cell]));
    let ext = extract(&polys, &Tech::default_tech());
    assert_eq!(ext.transistors.len(), 2);
    assert_eq!(ext.transistors.iter().filter(|t| t.kind == TransistorKind::Nmos).count(), 1);
    assert_eq!(ext.transistors.iter().filter(|t| t.kind == TransistorKind::Pmos).count(), 1);
}

#[test]
fn reads_every_kind_of_element() {
    let cell = GdsStruct {
        name: "ALL".into(),
        elems: vec![
            GdsElement::GdsBox(GdsBox {
                layer: 3,
                boxtype: 9,
                xy: [
                    GdsPoint::new(0, 0),
                    GdsPoint::new(4, 0),
                    GdsPoint::new(4, 2),
                    GdsPoint::new(0, 2),
                    GdsPoint::new(0, 0),
                ],
                ..Default::default()
            }),
            GdsElement::GdsStructRef(GdsStructRef {
                name: "NONE".into(),
                xy: GdsPoint::new(-7, 5),
                strans: Some(GdsStrans {
                    reflected: true,
                    mag: Some(2.0),
                    angle: Some(90.0),
                    ..Default::default()
                }),
                ..Default::default()
            }),
            GdsElement::GdsArrayRef(GdsArrayRef {
                name: "GRID".into(),
                xy: [GdsPoint::new(1, 2), GdsPoint::new(31, 2), GdsPoint::new(1, 42)],
                cols: 3,
                rows: 4,
                strans: None,
                ..Default::default()
            }),
        ],
        ..Default::default()
    };
    let lib = read_library(bytes_of("L", vec![cell])).expect("read");
    assert_eq!(lib.structs.len(), 1);
    assert_eq!(lib.structs[0].name, "ALL");
    let elems = &lib.structs[0].elems;
    assert_eq!(elems.len(), 3);
    match &elems[0] {
        Element::Drawn { layer, datatype, points } => {
            assert_eq!((*layer, *datatype), (3, 9));
            assert_eq!(*points, vec![p(0, 0), p(4, 0), p(4, 2), p(0, 2), p(0, 0)]);
        }
        e => panic!("{e:?}"),
    }
    match &elems[1] {
        Element::StructRef { name, origin, strans } => {
            assert_eq!((name.as_str(), *origin), ("NONE", p(-7, 5)));
            let s = strans.expect("transform");
            assert!(s.reflected);
            assert_eq!(s.mag, Some(2.0f64.to_bits()));
            assert_eq!(s.angle, Some(90.0f64.to_bits()));
        }
        e => panic!("{e:?}"),
    }
    match &elems[2] {
        Element::ArrayRef { name, origin, strans, row_end, col_end, rows, cols } => {
            assert_eq!(name, "GRID");
            assert_eq!((*origin, *row_end, *col_end), (p(1, 2), p(31, 2), p(1, 42)));
            assert_eq!((*rows, *cols, *strans), (4, 3, None));
        }
        e => panic!("{e:?}"),
    }
    // A box is drawn as a ring that does not repeat its first point, and a
    // reference to a structure that the library lacks is passed over.
    let flat = flatten_library(&lib).expect("flatten");
    assert_eq!(flat.len(), 1);
    match &flat[0] {
        Flat::Placed(q) => assert_eq!(q.points.len(), 4),
        f => panic!("{f:?}"),
    }
}

#[test]
fn a_stream_without_structures_is_empty() {
    let err = load_and_flatten(bytes_of("EMPTY", vec![])).unwrap_err();
    assert!(matches!(err, GdsError::Empty));
    assert_eq!(err.message(), "library has no structures");
}

#[test]
fn a_stream_that_does_not_parse_is_an_error() {
    let err = load_and_flatten(vec![1, 2, 3]).unwrap_err();
    assert!(matches!(&err, GdsError::Parse(_)));
    assert!(err.message().starts_with("gds21 parse error: "));
    assert!(load_and_flatten(vec![]).is_err());
    // Cut short in the middle.
    let mut cut = sample_library();
    cut.truncate(cut.len() / 2);
    assert!(read_library(cut).is_err());
}

#[test]
fn a_text_without_a_character_is_an_error() {
    // A header, and a library name of no character.
    let bytes = vec![0, 6, 0, 2, 0, 3, 0, 4, 2, 6];
    assert!(!has_texts(&bytes));
    match read_library(bytes) {
        Err(GdsError::Parse(text)) => assert_eq!(text, "text without a character"),
        r => panic!("{r:?}"),
    }
    assert!(has_texts(&sample_library()));
}

#[test]
fn dates_that_do_not_exist_do_no_harm() {
    let good = sample_library();
    assert_eq!(repair_dates(good.clone()), good);
    // The first record takes six bytes; then comes the begin of the library,
    // with the month of its first date at byte 12.
    assert_eq!(&good[6..10], &[0, 28, 1, 2]);
    let mut bad = good.clone();
    bad[12] = 0;
    bad[13] = 13;
    let fixed = repair_dates(bad.clone());
    assert_eq!(fixed.len(), bad.len());
    assert_eq!(&fixed[10..22], &[0x07, 0xb2, 0, 1, 0, 1, 0, 0, 0, 0, 0, 0]);
    assert_eq!(&fixed[22..], &bad[22..]);
    assert_eq!(polygons(bad).len(), 2);
}

fn boundary(layer: i16) -> Element {
    Element::Drawn { layer, datatype: 0, points: vec![p(0, 0), p(10, 0), p(10, 4), p(0, 4), p(0, 0)] }
}

fn sref(name: &str, x: i32, y: i32, strans: Option<Strans>) -> Element {
    Element::StructRef { name: name.to_string(), origin: p(x, y), strans }
}

fn cell(name: &str, elems: Vec<Element>) -> Structure {
    Structure { name: name.to_string(), elems }
}

fn turned(reflected: bool, angle: f64) -> Option<Strans> {
    Some(Strans { reflected, mag: None, angle: Some(angle.to_bits()) })
}

fn placed(lib: &Library) -> Vec<Polygon> {
    flatten_library(lib)
        .expect("flatten")
        .into_iter()
        .map(|f| match f {
            Flat::Placed(q) => q,
            f => panic!("{f:?}"),
        })
        .collect()
}

#[test]
fn quarter_turns_and_reflections() {
    let cases = [
        (false, 0.0, vec![p(100, 50), p(110, 50), p(110, 54), p(100, 54)]),
        (false, 90.0, vec![p(100, 50), p(100, 60), p(96, 60), p(96, 50)]),
        (false, 180.0, vec![p(100, 50), p(90, 50), p(90, 46), p(100, 46)]),
        (false, 270.0, vec![p(100, 50), p(100, 40), p(104, 40), p(104, 50)]),
        (true, 0.0, vec![p(100, 50), p(110, 50), p(110, 46), p(100, 46)]),
        (true, 90.0, vec![p(100, 50), p(100, 60), p(104, 60), p(104, 50)]),
        (false, -0.0, vec![p(100, 50), p(110, 50), p(110, 54), p(100, 54)]),
    ];
    for (reflected, angle, want) in cases {
        let lib = Library {
            structs: vec![
                cell("C", vec![boundary(1)]),
                cell("T", vec![sref("C", 100, 50, turned(reflected, angle))]),
            ],
        };
        let polys = placed(&lib);
        assert_eq!(polys.len(), 1);
        assert_eq!(polys[0].points, want, "{reflected} {angle}");
    }
}

#[test]
fn placements_compose() {
    // T turns M by a quarter, M moves C by (100, 0).
    let lib = Library {
        structs: vec![
            cell("C", vec![boundary(1)]),
            cell("M", vec![sref("C", 100, 0, None)]),
            cell("T", vec![sref("M", 0, 1000, turned(false, 90.0))]),
        ],
    };
    assert_eq!(placed(&lib)[0].points, vec![p(0, 1100), p(0, 1110), p(-4, 1110), p(-4, 1100)]);
}

#[test]
fn other_angles_and_magnifications_are_off_the_grid() {
    for s in [
        turned(false, 45.0),
        Some(Strans { reflected: false, mag: Some(2.0f64.to_bits()), angle: None }),
    ] {
        let lib = Library {
            structs: vec![
                cell("C", vec![boundary(1), Element::Other]),
                cell("T", vec![boundary(2), sref("C", 3, 4, s)]),
            ],
        };
        let flat = flatten_library(&lib).expect("flatten");
        assert_eq!(flat.len(), 2);
        assert!(matches!(&flat[0], Flat::Placed(q) if q.layer == 2));
        match &flat[1] {
            Flat::OffGrid(i) => {
                assert_eq!((i.structure, i.element), (0, 0));
                assert_eq!(i.path, vec![Step { structure: 1, element: 1, row: 0, col: 0 }]);
            }
            f => panic!("{f:?}"),
        }
    }
    // A magnification of one is none.
    let one = Some(Strans { reflected: false, mag: Some(1.0f64.to_bits()), angle: None });
    let lib = Library {
        structs: vec![cell("C", vec![boundary(1)]), cell("T", vec![sref("C", 3, 4, one)])],
    };
    assert_eq!(placed(&lib)[0].points[0], p(3, 4));
}

fn aref(cols: i16, rows: i16, row_end: Point, col_end: Point) -> Element {
    Element::ArrayRef {
        name: "C".to_string(),
        origin: p(100, 200),
        strans: None,
        row_end,
        col_end,
        rows,
        cols,
    }
}

#[test]
fn arrays_are_placed_row_by_row() {
    let lib = Library {
        structs: vec![
            cell("C", vec![boundary(1)]),
            cell("T", vec![aref(3, 2, p(160, 200), p(100, 280))]),
        ],
    };
    let at: Vec<Point> = placed(&lib).iter().map(|q| q.points[0]).collect();
    let want = [(100, 200), (120, 200), (140, 200), (100, 240), (120, 240), (140, 240)];
    assert_eq!(at, want.map(|(x, y)| p(x, y)));
    // Steps to the left and down.
    let lib = Library {
        structs: vec![
            cell("C", vec![boundary(1)]),
            cell("T", vec![aref(2, 1, p(60, 200), p(100, 190))]),
        ],
    };
    let at: Vec<Point> = placed(&lib).iter().map(|q| q.points[0]).collect();
    assert_eq!(at, [p(100, 200), p(80, 200)]);
    // No columns, no copies.
    let lib = Library {
        structs: vec![
            cell("C", vec![boundary(1)]),
            cell("T", vec![aref(0, 2, p(160, 200), p(100, 280))]),
        ],
    };
    assert!(placed(&lib).is_empty());
}

#[test]
fn arrays_with_broken_steps_are_off_the_grid() {
    let lib = Library {
        structs: vec![
            cell("C", vec![boundary(1)]),
            cell("T", vec![aref(3, 1, p(110, 200), p(100, 280))]),
        ],
    };
    let flat = flatten_library(&lib).expect("flatten");
    assert_eq!(flat.len(), 3);
    assert!(flat.iter().all(|f| matches!(f, Flat::OffGrid(_))));
}

#[test]
fn places_out_of_range_are_off_the_grid() {
    let lib = Library {
        structs: vec![
            cell("C", vec![boundary(1)]),
            cell("T", vec![sref("C", i32::MAX - 5, 0, None)]),
        ],
    };
    let flat = flatten_library(&lib).expect("flatten");
    assert!(matches!(&flat[0], Flat::OffGrid(_)));
}

#[test]
fn top_structure_is_the_first_that_no_other_refers_to() {
    let lib = Library {
        structs: vec![
            cell("A", vec![]),
            cell("B", vec![sref("A", 0, 0, None)]),
            cell("C", vec![]),
        ],
    };
    assert_eq!(top_struct(&lib), 1);
    // Everything is referred to: the last one.
    let ring = Library {
        structs: vec![
            cell("A", vec![sref("B", 0, 0, None)]),
            cell("B", vec![sref("A", 0, 0, None)]),
        ],
    };
    assert_eq!(top_struct(&ring), 1);
    // A structure's references to itself do not count.
    let own = Library {
        structs: vec![
            cell("A", vec![boundary(1)]),
            cell("T", vec![sref("A", 0, 0, None), sref("T", 0, 0, None)]),
            cell("C", vec![]),
        ],
    };
    assert_eq!(top_struct(&own), 1);
    // It is placed in itself down to the depth limit.
    assert_eq!(placed(&own).len(), 64);
}

#[test]
fn of_two_structures_of_one_name_the_last_counts() {
    let lib = Library {
        structs: vec![
            cell("C", vec![boundary(1)]),
            cell("C", vec![boundary(2)]),
            cell("T", vec![sref("C", 0, 0, None)]),
        ],
    };
    let layers: Vec<i16> = placed(&lib).iter().map(|q| q.layer).collect();
    assert_eq!(layers, [2]);
}

#[test]
fn a_cycle_ends_at_the_depth_limit() {
    // A refers to itself: its boundary is drawn at each of the 65 depths.
    let lib = Library { structs: vec![cell("A", vec![boundary(1), sref("A", 1, 0, None)])] };
    let polys = placed(&lib);
    assert_eq!(polys.len(), 65);
    assert_eq!(polys[64].points[0], p(64, 0));
    let list = instances(&lib).expect("instances");
    assert!(list.iter().all(|i| i.path.len() <= 64));
}

#[test]
fn small_rings_are_no_polygons() {
    assert!(ring_polygon(1, 0, vec![p(0, 0), p(1, 0), p(0, 0)]).is_none());
    assert!(ring_polygon(1, 0, vec![]).is_none());
    let tri = ring_polygon(1, 2, vec![p(0, 0), p(1, 0), p(0, 1)]).expect("triangle");
    assert_eq!((tri.layer, tri.datatype, tri.points.len()), (1, 2, 3));
    let closed = ring_polygon(1, 2, vec![p(0, 0), p(1, 0), p(0, 1), p(0, 0)]).expect("triangle");
    assert_eq!(closed.points, tri.points);
}

#[test]
fn a_library_names_its_cells() {
    let lib = Library {
        structs: vec![cell("C", vec![boundary(1)]), cell("T", vec![sref("C", 0, 0, None)])],
    };
    let info = load_info(&lib, placed(&lib)).expect("info");
    assert_eq!(info.top_cell, "T");
    assert_eq!(info.cell_names, ["C", "T"]);
    assert_eq!(info.polygons.len(), 1);
    let none = Library { structs: vec![] };
    assert!(matches!(load_info(&none, vec![]), Err(GdsError::Empty)));
    assert!(matches!(flatten_library(&none), Err(GdsError::Empty)));
    assert!(matches!(instances(&none), Err(GdsError::Empty)));
}

#[test]
fn dates_go_by_the_calendar() {
    // Year, month and day of the first date of a stream, and whether they
    // stay.
    let cases: [(i16, u8, u8, bool); 14] = [
        (2023, 1, 31, true),
        (2023, 1, 32, false),
        (2023, 4, 30, true),
        (2023, 4, 31, false),
        (2023, 2, 28, true),
        (2023, 2, 29, false),
        (2024, 2, 29, true),
        (1900, 2, 29, false),
        (2000, 2, 29, true),
        (124, 2, 29, true),
        (-4, 2, 29, true),
        (-1, 2, 29, false),
        (2024, 12, 0, false),
        (2024, 0, 1, false),
    ];
    for (year, month, day, stays) in cases {
        let mut bytes = sample_library();
        bytes[10..12].copy_from_slice(&year.to_be_bytes());
        bytes[12..14].copy_from_slice(&[0, month]);
        bytes[14..16].copy_from_slice(&[0, day]);
        let fixed = repair_dates(bytes.clone());
        assert_eq!(fixed == bytes, stays, "{year}-{month}-{day}");
        // Either way, the stream is read.
        assert_eq!(polygons(bytes).len(), 2);
    }
}

fn path(width: Option<i32>, path_type: Option<i16>, points: Vec<Point>) -> Element {
    Element::Path { layer: 5, datatype: 1, width, path_type, points }
}

#[test]
fn a_straight_path_is_a_rectangle() {
    let line = [p(0, 0), p(100, 0)];
    let flush = vec![p(0, 10), p(100, 10), p(100, -10), p(0, -10)];
    assert_eq!(path_outline(&line, 20, 0), Some(flush));
    let longer = vec![p(-10, 10), p(110, 10), p(110, -10), p(-10, -10)];
    assert_eq!(path_outline(&line, 20, 2), Some(longer));
    // Upwards, and with points that repeat the one before.
    let up = [p(5, 5), p(5, 5), p(5, 25), p(5, 25)];
    assert_eq!(path_outline(&up, 4, 0), Some(vec![p(3, 5), p(3, 25), p(7, 25), p(7, 5)]));
}

#[test]
fn a_path_turns_with_mitred_corners() {
    let bend = [p(0, 0), p(100, 0), p(100, 50)];
    let want = vec![p(0, 10), p(90, 10), p(90, 50), p(110, 50), p(110, -10), p(0, -10)];
    assert_eq!(path_outline(&bend, 20, 0), Some(want));
    // A point on a straight stretch gives a corner on either side.
    let straight = [p(0, 0), p(30, 0), p(100, 0)];
    let want = vec![p(0, 2), p(30, 2), p(100, 2), p(100, -2), p(30, -2), p(0, -2)];
    assert_eq!(path_outline(&straight, 4, 0), Some(want));
}

#[test]
fn some_outlines_are_off_the_grid() {
    let line = [p(0, 0), p(100, 0)];
    assert_eq!(path_outline(&line, 3, 0), None);
    assert_eq!(path_outline(&line, 4, 1), None);
    assert_eq!(path_outline(&line, 4, 4), None);
    assert_eq!(path_outline(&[p(0, 0), p(100, 100)], 4, 0), None);
    // There and back again.
    assert_eq!(path_outline(&[p(0, 0), p(100, 0), p(50, 0)], 4, 0), None);
    // Beyond the range of the database.
    assert_eq!(path_outline(&[p(0, 0), p(i32::MAX, 0)], 4, 2), None);
    assert_eq!(path_outline(&[p(0, i32::MIN), p(100, i32::MIN)], 4, 0), None);
    assert!(path_outline(&[p(0, 0), p(i32::MAX, 0)], 4, 0).is_some());
}

#[test]
fn a_path_without_width_or_length_has_no_area() {
    assert!(has_area(&[p(0, 0), p(0, 0), p(1, 0)], 1));
    assert!(!has_area(&[p(0, 0), p(1, 0)], 0));
    assert!(!has_area(&[p(3, 3), p(3, 3)], 10));
    assert!(!has_area(&[], 10));
    let lib = Library {
        structs: vec![cell(
            "T",
            vec![
                path(None, None, vec![p(0, 0), p(100, 0)]),
                path(Some(0), None, vec![p(0, 0), p(100, 0)]),
                path(Some(10), None, vec![p(7, 7), p(7, 7)]),
            ],
        )],
    };
    assert_eq!(flatten_library(&lib).expect("flatten").len(), 0);
}

#[test]
fn paths_are_placed_with_their_references() {
    let lib = Library {
        structs: vec![
            cell("C", vec![path(Some(-20), Some(0), vec![p(0, 0), p(100, 0)])]),
            cell("T", vec![sref("C", 1000, 500, turned(false, 90.0))]),
        ],
    };
    let q = placed(&lib);
    assert_eq!(q.len(), 1);
    assert_eq!((q[0].layer, q[0].datatype), (5, 1));
    assert_eq!(q[0].points, vec![p(990, 500), p(990, 600), p(1010, 600), p(1010, 500)]);
    // Turned by another angle, or slanted: listed by their place.
    let lib = Library {
        structs: vec![
            cell("C", vec![path(Some(20), Some(0), vec![p(0, 0), p(100, 0)])]),
            cell(
                "T",
                vec![
                    sref("C", 1000, 500, turned(false, 45.0)),
                    path(Some(20), None, vec![p(0, 0), p(30, 40)]),
                ],
            ),
        ],
    };
    let flat = flatten_library(&lib).expect("flatten");
    assert_eq!(flat.len(), 2);
    assert!(flat.iter().all(|f| matches!(f, Flat::OffGrid(_))));
}

#[test]
fn paths_are_read_from_a_stream() {
    let wire = GdsPath {
        layer: 7,
        datatype: 2,
        xy: vec![GdsPoint::new(0, 0), GdsPoint::new(0, 300), GdsPoint::new(-200, 300)],
        width: Some(40),
        path_type: Some(2),
        ..Default::default()
    };
    let hair = GdsPath {
        layer: 7,
        datatype: 2,
        xy: vec![GdsPoint::new(0, 0), GdsPoint::new(10, 10)],
        ..Default::default()
    };
    let top = GdsStruct {
        name: "TOP".into(),
        elems: vec![GdsElement::GdsPath(wire), GdsElement::GdsPath(hair)],
        ..Default::default()
    };
    let bytes = bytes_of("PATHS", vec![top]);
    match &read_library(bytes.clone()).expect("read").structs[0].elems[0] {
        Element::Path { layer, datatype, width, path_type, points } => {
            assert_eq!((*layer, *datatype), (7, 2));
            assert_eq!((*width, *path_type), (Some(40), Some(2)));
            assert_eq!(*points, vec![p(0, 0), p(0, 300), p(-200, 300)]);
        }
        e => panic!("{e:?}"),
    }
    let polys = polygons(bytes);
    assert_eq!(polys.len(), 1);
    assert_eq!((polys[0].layer, polys[0].datatype), (7, 2));
    assert_eq!(
        polys[0].points,
        vec![p(-20, -20), p(-20, 280), p(-220, 280), p(-220, 320), p(20, 320), p(20, -20)],
    );
}
