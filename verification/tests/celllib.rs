use std::collections::HashMap;

use gdssim::celllib::{build, nand2, nor2, sr_latch, zoo, Cell, Mos};
use gdssim::gds::{Point, Spot};
use gdssim::sim::{simulate, Logic};
use gdssim::tech::Tech;
use gdssim::transistors::{device_net_at, extract, Extraction, TransistorKind};

fn extract_cell(cell: &Cell) -> (Extraction, HashMap<&'static str, u32>) {
    let (polys, probes) = build(cell);
    let ext = extract(&polys, &Tech::default_tech());
    let mut name2net = HashMap::new();
    for (n, p) in &probes {
        let spot = Spot { x: p.x as i64, y: p.y as i64, unit: 1 };
        name2net.insert(*n, device_net_at(&ext, spot).expect("net at probe point"));
    }
    (ext, name2net)
}

fn run(cell: &Cell, fixed_names: &[(&str, Logic)]) -> (Vec<Logic>, HashMap<&'static str, u32>) {
    let (ext, name2net) = extract_cell(cell);
    let mut fixed = HashMap::new();
    for (n, v) in fixed_names {
        fixed.insert(name2net[n], *v);
    }
    let vals = simulate(&ext.transistors, ext.device_nets.count(), &fixed);
    (vals, name2net)
}

fn count_kinds(ext: &Extraction) -> (usize, usize) {
    let p = ext.transistors.iter().filter(|t| t.kind == TransistorKind::Pmos).count();
    let n = ext.transistors.iter().filter(|t| t.kind == TransistorKind::Nmos).count();
    (p, n)
}

#[test]
fn nand2_extracts_and_computes() {
    let (ext, _) = extract_cell(&nand2());
    assert_eq!(ext.transistors.len(), 4);
    assert_eq!(count_kinds(&ext), (2, 2));

    let (zero, one) = (Logic::Zero, Logic::One);
    let table = [(zero, zero, one), (zero, one, one), (one, zero, one), (one, one, zero)];
    for (a, b, out) in table {
        let (v, n) = run(&nand2(), &[("VDD", one), ("GND", zero), ("A", a), ("B", b)]);
        assert_eq!(v[n["OUT"] as usize], out, "NAND({a:?},{b:?})");
    }
}

#[test]
fn nor2_extracts_and_computes() {
    let (ext, _) = extract_cell(&nor2());
    assert_eq!(ext.transistors.len(), 4);
    assert_eq!(count_kinds(&ext), (2, 2));

    let (zero, one) = (Logic::Zero, Logic::One);
    let table = [(zero, zero, one), (zero, one, zero), (one, zero, zero), (one, one, zero)];
    for (a, b, out) in table {
        let (v, n) = run(&nor2(), &[("VDD", one), ("GND", zero), ("A", a), ("B", b)]);
        assert_eq!(v[n["OUT"] as usize], out, "NOR({a:?},{b:?})");
    }
}

#[test]
fn sr_latch_set_and_reset() {
    let (ext, _) = extract_cell(&sr_latch());
    assert_eq!(ext.transistors.len(), 8);
    assert_eq!(count_kinds(&ext), (4, 4));

    let (zero, one) = (Logic::Zero, Logic::One);
    // Set: S=1, R=0: Q=1, QBAR=0.
    let (v, n) = run(&sr_latch(), &[("VDD", one), ("GND", zero), ("S", one), ("R", zero)]);
    assert_eq!(v[n["Q"] as usize], one);
    assert_eq!(v[n["QBAR"] as usize], zero);
    // Reset: S=0, R=1: Q=0, QBAR=1.
    let (v, n) = run(&sr_latch(), &[("VDD", one), ("GND", zero), ("S", zero), ("R", one)]);
    assert_eq!(v[n["Q"] as usize], zero);
    assert_eq!(v[n["QBAR"] as usize], one);
}

#[test]
fn cells_extract_to_their_netlists() {
    for cell in zoo() {
        let (ext, nets) = extract_cell(&cell);
        assert_eq!(ext.transistors.len(), cell.mos.len());
        for (t, m) in ext.transistors.iter().zip(&cell.mos) {
            assert_eq!(t.kind == TransistorKind::Pmos, m.p);
            assert_eq!(t.gate_net, nets[m.gate]);
            assert_eq!(t.source_net, Some(nets[m.a]));
            assert_eq!(t.drain_net, Some(nets[m.b]));
        }
    }
}

#[test]
fn a_transistor_of_one_net() {
    // All three terminals on one net: one track, one net.
    let cell = Cell { name: "LOOP", mos: vec![Mos { p: false, gate: "N", a: "N", b: "N" }] };
    let (polys, probes) = build(&cell);
    assert_eq!(probes, vec![("N", Point::new(0, 1300))]);
    assert_eq!(polys.len(), 12);
    let (ext, nets) = extract_cell(&cell);
    let t = &ext.transistors[0];
    assert_eq!(t.gate_net, nets["N"]);
    assert_eq!((t.source_net, t.drain_net), (Some(nets["N"]), Some(nets["N"])));
}

#[test]
fn layout_of_the_nand() {
    let (polys, probes) = build(&nand2());
    let names: Vec<&str> = probes.iter().map(|p| p.0).collect();
    assert_eq!(names, ["A", "VDD", "OUT", "B", "GND", "NINT"]);
    assert_eq!(probes[5].1, Point::new(0, 3300));
    // Six tracks, two columns with a well and two without.
    assert_eq!(polys.len(), 6 + 2 * 12 + 2 * 11);
    assert_eq!(polys[0].layer, 5);
    assert_eq!(polys[0].points[0], Point::new(-200, 1200));
    assert_eq!(polys[0].points[2], Point::new(9800, 1400));
    // The first column: diffusion and well.
    assert_eq!((polys[6].layer, polys[6].points[2]), (2, Point::new(1600, 600)));
    assert_eq!((polys[7].layer, polys[7].points[0]), (8, Point::new(300, -300)));
}

#[test]
fn an_empty_cell_has_no_layout() {
    let (polys, probes) = build(&Cell { name: "NONE", mos: vec![] });
    assert!(polys.is_empty() && probes.is_empty());
}

#[test]
fn the_zoo_has_three_cells() {
    let names: Vec<&str> = zoo().iter().map(|c| c.name).collect();
    assert_eq!(names, ["NAND2", "NOR2", "SR_LATCH"]);
}
