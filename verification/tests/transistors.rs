use gdssim::gds::{Bbox, Point, Polygon, Spot};
use gdssim::tech::Tech;
use gdssim::transistors::{axis_rect, device_net_at, extract, gate_region, long_axis, rect_center};
use gdssim::transistors::{rect_intersect, rect_polygon, split_diffusion, try_extract, Gate};
use gdssim::transistors::TransistorKind;

fn p(x: i32, y: i32) -> Point {
    Point::new(x, y)
}

fn rect(layer: i16, x0: i32, y0: i32, x1: i32, y1: i32) -> Polygon {
    Polygon { layer, datatype: 0, points: vec![p(x0, y0), p(x1, y0), p(x1, y1), p(x0, y1)] }
}

fn bb(x0: i32, y0: i32, x1: i32, y1: i32) -> Bbox {
    Bbox { min: p(x0, y0), max: p(x1, y1) }
}

/// A CMOS inverter: one vertical poly gate across a PMOS active (inside the
/// n-well) and an NMOS active, contacts up to metal1, and the two drains tied
/// by one output strip.
fn inverter() -> Vec<Polygon> {
    vec![
        rect(8, 0, 1000, 3000, 2300),
        rect(2, 500, 1300, 2500, 1900),
        rect(2, 500, 100, 2500, 700),
        rect(1, 1300, 0, 1700, 2300),
        rect(3, 700, 1500, 900, 1700),
        rect(3, 2100, 1500, 2300, 1700),
        rect(3, 2100, 300, 2300, 500),
        rect(3, 700, 300, 900, 500),
        rect(3, 1400, 2050, 1600, 2250),
        rect(4, 600, 1450, 1000, 1750),
        rect(4, 600, 250, 1000, 550),
        rect(4, 1350, 2000, 1650, 2300),
        rect(4, 2050, 300, 2350, 1700),
    ]
}

#[test]
fn extracts_cmos_inverter() {
    let polys = inverter();
    let ext = extract(&polys, &Tech::default_tech());
    assert_eq!(ext.transistors.len(), 2, "an inverter has two transistors");

    let pmos = ext.transistors.iter().find(|t| t.kind == TransistorKind::Pmos).unwrap();
    let nmos = ext.transistors.iter().find(|t| t.kind == TransistorKind::Nmos).unwrap();

    // Both gates are the same poly: one shared input net.
    assert_eq!(pmos.gate_net, nmos.gate_net, "gates share the input net");
    assert_eq!(pmos.poly_index, nmos.poly_index);

    // Every terminal resolved.
    for t in [pmos, nmos] {
        assert!(t.source_net.is_some(), "source resolved");
        assert!(t.drain_net.is_some(), "drain resolved");
        assert_ne!(t.source_net, t.drain_net, "source and drain are distinct nets");
        assert_ne!(Some(t.gate_net), t.source_net, "gate isolated from source");
        assert_ne!(Some(t.gate_net), t.drain_net, "gate isolated from drain");
    }

    // The drains are tied together by the output metal strip.
    let pmos_terms = [pmos.source_net.unwrap(), pmos.drain_net.unwrap()];
    let nmos_terms = [nmos.source_net.unwrap(), nmos.drain_net.unwrap()];
    let shared: Vec<u32> = pmos_terms.iter().copied().filter(|n| nmos_terms.contains(n)).collect();
    assert_eq!(shared.len(), 1, "exactly the output node is shared, got {shared:?}");

    // VDD and GND are different nets.
    let pmos_supply = *pmos_terms.iter().find(|n| !shared.contains(n)).unwrap();
    let nmos_supply = *nmos_terms.iter().find(|n| !shared.contains(n)).unwrap();
    assert_ne!(pmos_supply, nmos_supply, "VDD and GND are separate");
}

#[test]
fn series_stack_shares_an_internal_node() {
    // One NMOS diffusion crossed by two poly gates: two transistors in series.
    let polys = vec![
        rect(2, 0, 0, 3000, 600),
        rect(1, 800, -100, 1000, 700),
        rect(1, 2000, -100, 2200, 700),
        rect(3, 300, 200, 500, 400),
        rect(3, 1400, 200, 1600, 400),
        rect(3, 2500, 200, 2700, 400),
        rect(4, 250, 150, 550, 450),
        rect(4, 1350, 150, 1650, 450),
        rect(4, 2450, 150, 2750, 450),
    ];
    let ext = extract(&polys, &Tech::default_tech());
    assert_eq!(ext.transistors.len(), 2);
    assert!(ext.transistors.iter().all(|t| t.kind == TransistorKind::Nmos));

    let a = &ext.transistors[0];
    let b = &ext.transistors[1];
    assert!(a.gate_min.x < b.gate_min.x);
    assert_eq!(a.drain_net, b.source_net, "series pair shares the middle node");
    assert_ne!(a.source_net, a.drain_net);
    assert_ne!(b.source_net, b.drain_net);
    assert_ne!(a.source_net, b.drain_net, "the two outer ends are distinct");
}

#[test]
fn no_transistors_without_poly_over_diffusion() {
    // Diffusion and a metal wire across it, but no poly: no devices.
    let polys = vec![rect(2, 0, 0, 1000, 200), rect(4, 400, -100, 600, 300)];
    let ext = extract(&polys, &Tech::default_tech());
    assert!(ext.transistors.is_empty());
}

#[test]
fn a_gate_flush_with_the_end_has_one_terminal() {
    let polys = vec![rect(2, 0, 0, 1000, 200), rect(1, -50, -50, 300, 250)];
    let ext = extract(&polys, &Tech::default_tech());
    assert_eq!(ext.transistors.len(), 1);
    let t = &ext.transistors[0];
    assert_eq!((t.gate_min, t.gate_max), (p(0, 0), p(300, 200)));
    assert_eq!(t.source_net, None);
    assert!(t.drain_net.is_some());
    // The device layout holds the poly and the rest of the diffusion.
    assert_eq!(ext.device_polys.len(), 2);
    assert_eq!(ext.device_polys[0].points, vec![p(300, 0), p(1000, 0), p(1000, 200), p(300, 200)]);
}

#[test]
fn a_vertical_diffusion_is_cut_along_y() {
    let polys = vec![rect(2, 0, 0, 200, 1000), rect(1, -50, 400, 250, 500)];
    let ext = extract(&polys, &Tech::default_tech());
    let t = &ext.transistors[0];
    assert_eq!((t.gate_min, t.gate_max), (p(0, 400), p(200, 500)));
    assert_ne!(t.source_net, t.drain_net);
    assert_eq!(ext.device_polys[0].points[2], p(200, 400));
    assert_eq!(ext.device_polys[1].points[0], p(0, 500));
}

#[test]
fn transistors_are_listed_by_diffusion_and_position() {
    let polys = vec![
        rect(1, 700, -10, 800, 110),
        rect(2, 0, 0, 1000, 100),
        rect(1, 200, -10, 300, 110),
        rect(2, 0, 500, 1000, 600),
        rect(1, 400, 490, 500, 610),
    ];
    let ext = extract(&polys, &Tech::default_tech());
    let order: Vec<(usize, usize)> =
        ext.transistors.iter().map(|t| (t.diff_index, t.poly_index)).collect();
    assert_eq!(order, vec![(1, 2), (1, 0), (3, 4)]);
}

#[test]
fn extraction_within_the_limit_is_given() {
    let ext = try_extract(&inverter(), &Tech::default_tech()).expect("small enough");
    assert_eq!(ext.transistors.len(), 2);
    assert_eq!(ext.device_nets.net_of.len(), ext.device_polys.len());
}

#[test]
fn device_net_at_takes_the_first_polygon() {
    let ext = extract(&inverter(), &Tech::default_tech());
    let at = |x: i64, y: i64| device_net_at(&ext, Spot { x, y, unit: 1 });
    // GND metal and the source side of the NMOS diffusion.
    assert_eq!(at(650, 300), at(520, 150));
    assert_ne!(at(650, 300), at(2200, 1000));
    assert_eq!(at(-1, -1), None);
}

#[test]
fn crossing_boxes_of_shapes_that_do_not_cross_are_no_gate() {
    // An L around the diffusion: the boxes cross, the shapes do not.
    let diff = rect(2, 40, 40, 60, 60);
    let l = Polygon {
        layer: 1,
        datatype: 0,
        points: vec![p(0, 0), p(100, 0), p(100, 10), p(10, 10), p(10, 100), p(0, 100)],
    };
    assert_eq!(gate_region(&l, &diff), None);
    assert_eq!(gate_region(&rect(1, 45, 0, 50, 100), &diff), Some(bb(45, 40, 50, 60)));
}

#[test]
fn rectangle_helpers() {
    assert_eq!(long_axis(&bb(0, 0, 11, 10)), 0);
    assert_eq!(long_axis(&bb(0, 0, 10, 10)), 1);
    assert_eq!(long_axis(&bb(0, 0, 10, 11)), 1);
    assert_eq!(rect_center(&bb(0, 0, 3, 8)), Spot { x: 3, y: 8, unit: 2 });
    assert_eq!(rect_intersect(&bb(0, 0, 10, 10), &bb(10, 0, 20, 10)), None);
    assert_eq!(rect_intersect(&bb(0, 0, 10, 10), &bb(4, -5, 20, 7)), Some(bb(4, 0, 10, 7)));
    assert_eq!(axis_rect(&bb(0, 0, 10, 20), 0, 3, 5), bb(3, 0, 5, 20));
    assert_eq!(axis_rect(&bb(0, 0, 10, 20), 1, 3, 5), bb(0, 3, 10, 5));
    let r = rect_polygon(7, 1, &bb(1, 2, 3, 4));
    assert_eq!((r.layer, r.datatype), (7, 1));
    assert_eq!(r.points, vec![p(1, 2), p(3, 2), p(3, 4), p(1, 4)]);
}

#[test]
fn overlapping_gates_leave_one_gap() {
    let gate = |x0: i32, x1: i32| Gate { poly_index: 0, region: bb(x0, 0, x1, 10) };
    let d = rect(2, 0, 0, 100, 10);
    let r = split_diffusion(&d, &[gate(50, 70), gate(10, 30), gate(20, 40)]);
    assert_eq!(r, vec![bb(0, 0, 10, 10), bb(40, 0, 50, 10), bb(70, 0, 100, 10)]);
    // Without a gate the diffusion is one region; one without points is none.
    assert_eq!(split_diffusion(&d, &[]), vec![bb(0, 0, 100, 10)]);
    let none = Polygon { layer: 2, datatype: 0, points: vec![] };
    assert_eq!(split_diffusion(&none, &[]), vec![]);
    // Gates that abut leave no region between them.
    assert_eq!(split_diffusion(&d, &[gate(0, 50), gate(50, 100)]), vec![]);
}

#[test]
fn a_square_diffusion_is_cut_along_y() {
    // A poly stripe across a square diffusion, level: two terminals.
    let level = extract(&[rect(2, 0, 0, 100, 100), rect(1, -50, 40, 150, 60)], &Tech::default_tech());
    assert_eq!(level.transistors.len(), 1);
    assert!(level.transistors[0].source_net.is_some());
    assert!(level.transistors[0].drain_net.is_some());
    // Upright, the stripe covers the whole of y, and leaves no terminal.
    let upright =
        extract(&[rect(2, 0, 0, 100, 100), rect(1, 40, -50, 60, 150)], &Tech::default_tech());
    assert_eq!(upright.transistors.len(), 1);
    assert_eq!(upright.transistors[0].source_net, None);
    assert_eq!(upright.transistors[0].drain_net, None);
}
