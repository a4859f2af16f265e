use std::collections::HashMap;

use gdssim::gds::{Point, Polygon};
use gdssim::sim::{block_mask, conduction, flood, resolve, simulate, Conduction, Logic};
use gdssim::tech::Tech;
use gdssim::transistors::{extract, Transistor, TransistorKind};

fn fet(kind: TransistorKind, gate: u32, s: u32, d: u32) -> Transistor {
    Transistor {
        kind,
        poly_index: 0,
        diff_index: 0,
        gate_min: Point::new(0, 0),
        gate_max: Point::new(0, 0),
        gate_net: gate,
        source_net: Some(s),
        drain_net: Some(d),
    }
}

// Net ids: 0 GND, 1 VDD, 2 IN, 3 OUT.
fn inverter_netlist() -> Vec<Transistor> {
    vec![
        fet(TransistorKind::Pmos, 2, 1, 3), // VDD-OUT, gate IN
        fet(TransistorKind::Nmos, 2, 0, 3), // GND-OUT, gate IN
    ]
}

fn run(ts: &[Transistor], nets: usize, fixed: &[(u32, Logic)]) -> Vec<Logic> {
    let map: HashMap<u32, Logic> = fixed.iter().copied().collect();
    simulate(ts, nets, &map)
}

#[test]
fn inverter_truth_table() {
    let ts = inverter_netlist();
    // IN = 0: OUT = 1.
    let v = run(&ts, 4, &[(0, Logic::Zero), (1, Logic::One), (2, Logic::Zero)]);
    assert_eq!(v[3], Logic::One);
    // IN = 1: OUT = 0.
    let v = run(&ts, 4, &[(0, Logic::Zero), (1, Logic::One), (2, Logic::One)]);
    assert_eq!(v[3], Logic::Zero);
    // IN = X: OUT = X (both switches uncertain).
    let v = run(&ts, 4, &[(0, Logic::Zero), (1, Logic::One), (2, Logic::X)]);
    assert_eq!(v[3], Logic::X);
}

#[test]
fn nand2_truth_table() {
    // Nets: 0 GND, 1 VDD, 2 A, 3 B, 4 OUT, 5 internal (series NMOS mid).
    let ts = vec![
        fet(TransistorKind::Nmos, 2, 0, 5), // A: GND-mid
        fet(TransistorKind::Nmos, 3, 5, 4), // B: mid-OUT
        fet(TransistorKind::Pmos, 2, 1, 4), // A: VDD-OUT
        fet(TransistorKind::Pmos, 3, 1, 4), // B: VDD-OUT
    ];
    let base = [(0, Logic::Zero), (1, Logic::One)];
    let cases = [
        (Logic::Zero, Logic::Zero, Logic::One),
        (Logic::Zero, Logic::One, Logic::One),
        (Logic::One, Logic::Zero, Logic::One),
        (Logic::One, Logic::One, Logic::Zero),
    ];
    for (a, b, out) in cases {
        let mut fixed = base.to_vec();
        fixed.push((2, a));
        fixed.push((3, b));
        let v = run(&ts, 6, &fixed);
        assert_eq!(v[4], out, "NAND({a:?},{b:?})");
    }
}

#[test]
fn nor2_truth_table() {
    // Nets: 0 GND, 1 VDD, 2 A, 3 B, 4 OUT, 5 internal (series PMOS mid).
    let ts = vec![
        fet(TransistorKind::Pmos, 2, 1, 5), // A: VDD-mid
        fet(TransistorKind::Pmos, 3, 5, 4), // B: mid-OUT
        fet(TransistorKind::Nmos, 2, 0, 4), // A: GND-OUT
        fet(TransistorKind::Nmos, 3, 0, 4), // B: GND-OUT
    ];
    let base = [(0, Logic::Zero), (1, Logic::One)];
    let cases = [
        (Logic::Zero, Logic::Zero, Logic::One),
        (Logic::Zero, Logic::One, Logic::Zero),
        (Logic::One, Logic::Zero, Logic::Zero),
        (Logic::One, Logic::One, Logic::Zero),
    ];
    for (a, b, out) in cases {
        let mut fixed = base.to_vec();
        fixed.push((2, a));
        fixed.push((3, b));
        let v = run(&ts, 6, &fixed);
        assert_eq!(v[4], out, "NOR({a:?},{b:?})");
    }
}

fn rect(layer: i16, x0: i32, y0: i32, x1: i32, y1: i32) -> Polygon {
    Polygon {
        layer,
        datatype: 0,
        points: vec![Point::new(x0, y0), Point::new(x1, y0), Point::new(x1, y1), Point::new(x0, y1)],
    }
}

fn inverter() -> Vec<Polygon> {
    vec![
        rect(8, 0, 1000, 3000, 2300),
        rect(2, 500, 1300, 2500, 1900),
        rect(2, 500, 100, 2500, 700),
        rect(1, 1300, 0, 1700, 2300),
        rect(3, 700, 1500, 900, 1700),
        rect(3, 2100, 1500, 2300, 1700),
        rect(3, 2100, 300, 2300, 500),
        rect(3, 700, 300, 900, 500),
        rect(3, 1400, 2050, 1600, 2250),
        rect(4, 600, 1450, 1000, 1750),
        rect(4, 600, 250, 1000, 550),
        rect(4, 1350, 2000, 1650, 2300),
        rect(4, 2050, 300, 2350, 1700),
    ]
}

#[test]
fn end_to_end_from_extracted_inverter() {
    // Extract the inverter geometry, then simulate it.
    let polys = inverter();
    let ext = extract(&polys, &Tech::default_tech());
    assert_eq!(ext.transistors.len(), 2);

    let pmos = ext.transistors.iter().find(|t| t.kind == TransistorKind::Pmos).unwrap();
    let nmos = ext.transistors.iter().find(|t| t.kind == TransistorKind::Nmos).unwrap();

    // Output = the net shared between a PMOS terminal and an NMOS one.
    let pmos_terms = [pmos.source_net.unwrap(), pmos.drain_net.unwrap()];
    let nmos_terms = [nmos.source_net.unwrap(), nmos.drain_net.unwrap()];
    let out = *pmos_terms.iter().find(|n| nmos_terms.contains(n)).unwrap();
    let vdd = *pmos_terms.iter().find(|n| **n != out).unwrap();
    let gnd = *nmos_terms.iter().find(|n| **n != out).unwrap();
    let input = pmos.gate_net;
    let nets = ext.device_nets.count();

    // IN = 1: OUT = 0.
    let v = run(
        &ext.transistors,
        nets,
        &[(gnd, Logic::Zero), (vdd, Logic::One), (input, Logic::One)],
    );
    assert_eq!(v[out as usize], Logic::Zero);
    // IN = 0: OUT = 1.
    let v = run(
        &ext.transistors,
        nets,
        &[(gnd, Logic::Zero), (vdd, Logic::One), (input, Logic::Zero)],
    );
    assert_eq!(v[out as usize], Logic::One);
}

#[test]
fn switches_conduct_by_polarity() {
    assert_eq!(conduction(TransistorKind::Nmos, Logic::One), Conduction::On);
    assert_eq!(conduction(TransistorKind::Nmos, Logic::Zero), Conduction::Off);
    assert_eq!(conduction(TransistorKind::Pmos, Logic::Zero), Conduction::On);
    assert_eq!(conduction(TransistorKind::Pmos, Logic::One), Conduction::Off);
    assert_eq!(conduction(TransistorKind::Nmos, Logic::X), Conduction::Unknown);
    assert_eq!(conduction(TransistorKind::Pmos, Logic::X), Conduction::Unknown);
}

#[test]
fn resolve_covers_every_case() {
    let (zero, one, x) = (Logic::Zero, Logic::One, Logic::X);
    assert_eq!(resolve(true, true, true, true, one), x);
    assert_eq!(resolve(true, false, true, false, zero), one);
    assert_eq!(resolve(true, false, true, true, zero), one);
    assert_eq!(resolve(false, true, false, true, one), zero);
    assert_eq!(resolve(false, true, true, true, one), zero);
    assert_eq!(resolve(false, false, true, false, one), x);
    assert_eq!(resolve(false, false, false, true, zero), x);
    assert_eq!(resolve(false, false, false, false, zero), zero);
    assert_eq!(resolve(false, false, false, false, x), x);
}

#[test]
fn floods_stop_at_barriers() {
    // 0 - 1 - 2 - 3, with 1 a barrier: reached, but not passed.
    let adj = vec![vec![1], vec![0, 2], vec![1, 3], vec![2]];
    assert_eq!(flood(&adj, &[0], 4, &[false, true, false, false]), vec![true, true, false, false]);
    assert_eq!(flood(&adj, &[0], 4, &[false; 4]), vec![true; 4]);
    assert_eq!(flood(&adj, &[], 4, &[false; 4]), vec![false; 4]);
}

#[test]
fn block_mask_clears_the_sources() {
    assert_eq!(block_mask(&[true, false, true, true], &[2, 9]), vec![true, false, false, true]);
}

#[test]
fn drivers_keep_their_level() {
    // VDD and GND shorted through an open switch keep their levels; the net
    // between them is in contention.
    let ts = vec![fet(TransistorKind::Nmos, 2, 0, 3), fet(TransistorKind::Nmos, 2, 3, 1)];
    let v = run(&ts, 4, &[(0, Logic::Zero), (1, Logic::One), (2, Logic::One)]);
    assert_eq!(v, vec![Logic::Zero, Logic::One, Logic::One, Logic::X]);
}

#[test]
fn a_signal_does_not_pass_through_a_driver() {
    // VDD - GND - 3: net 3 hangs on GND and must be 0.
    let ts = vec![fet(TransistorKind::Nmos, 2, 1, 0), fet(TransistorKind::Nmos, 2, 0, 3)];
    let v = run(&ts, 4, &[(0, Logic::Zero), (1, Logic::One), (2, Logic::One)]);
    assert_eq!(v[3], Logic::Zero);
}

#[test]
fn undriven_nets_stay_unknown() {
    let v = run(&inverter_netlist(), 4, &[]);
    assert_eq!(v, vec![Logic::X; 4]);
    assert!(run(&[], 0, &[(7, Logic::One)]).is_empty());
}

#[test]
fn switches_without_a_terminal_do_nothing() {
    let mut ts = inverter_netlist();
    ts[1].source_net = None;
    let v = run(&ts, 4, &[(0, Logic::Zero), (1, Logic::One), (2, Logic::One)]);
    assert_eq!(v[3], Logic::X);
    // A terminal on a net that does not exist is none either.
    ts[1].source_net = Some(99);
    let v = run(&ts, 4, &[(0, Logic::Zero), (1, Logic::One), (2, Logic::One)]);
    assert_eq!(v[3], Logic::X);
}

#[test]
fn exchanging_source_and_drain_changes_nothing() {
    let ts = inverter_netlist();
    let swapped = vec![fet(TransistorKind::Pmos, 2, 3, 1), fet(TransistorKind::Nmos, 2, 3, 0)];
    for level in [Logic::Zero, Logic::One, Logic::X] {
        let fixed = [(0, Logic::Zero), (1, Logic::One), (2, level)];
        assert_eq!(run(&ts, 4, &fixed), run(&swapped, 4, &fixed));
    }
}

#[test]
fn an_inverter_that_drives_itself_is_unknown() {
    // Both switches maybe conduct: the level settles at X at once.
    let ts = vec![fet(TransistorKind::Pmos, 2, 1, 2), fet(TransistorKind::Nmos, 2, 0, 2)];
    let v = run(&ts, 3, &[(0, Logic::Zero), (1, Logic::One)]);
    assert_eq!(v[2], Logic::X);
}

#[test]
fn a_strong_driver_beats_an_unknown_one() {
    // 4 is tied to VDD through a closed switch, and to GND through one whose
    // gate (3) is unknown.
    let ts = vec![fet(TransistorKind::Nmos, 2, 1, 4), fet(TransistorKind::Nmos, 3, 0, 4)];
    let base = [(0, Logic::Zero), (1, Logic::One), (2, Logic::One)];
    assert_eq!(run(&ts, 5, &base)[4], Logic::One);
    // And the other way round.
    let ts = vec![fet(TransistorKind::Nmos, 2, 0, 4), fet(TransistorKind::Nmos, 3, 1, 4)];
    assert_eq!(run(&ts, 5, &base)[4], Logic::Zero);
    // Without the strong driver, the unknown one gives an unknown level.
    let ts = vec![fet(TransistorKind::Nmos, 3, 1, 4)];
    assert_eq!(run(&ts, 5, &base)[4], Logic::X);
}

#[test]
fn a_known_input_can_start_a_fight() {
    // The one case in which a level that was known is lost: the strong driver
    // had beaten a path that now is closed.
    let ts = vec![fet(TransistorKind::Nmos, 2, 1, 4), fet(TransistorKind::Nmos, 3, 0, 4)];
    let with = |g: Logic| {
        run(&ts, 5, &[(0, Logic::Zero), (1, Logic::One), (2, Logic::One), (3, g)])[4]
    };
    assert_eq!(with(Logic::X), Logic::One);
    assert_eq!(with(Logic::Zero), Logic::One);
    assert_eq!(with(Logic::One), Logic::X);
}

#[test]
fn a_known_input_keeps_known_levels() {
    // A NAND with one input at 0 is at 1, whatever the other input.
    let ts = vec![
        fet(TransistorKind::Pmos, 2, 1, 4),
        fet(TransistorKind::Pmos, 3, 1, 4),
        fet(TransistorKind::Nmos, 2, 4, 5),
        fet(TransistorKind::Nmos, 3, 5, 0),
    ];
    for g in [Logic::X, Logic::Zero, Logic::One] {
        let v = run(&ts, 6, &[(0, Logic::Zero), (1, Logic::One), (2, Logic::Zero), (3, g)]);
        assert_eq!(v[4], Logic::One);
    }
}

#[test]
fn the_order_of_transistors_does_not_matter() {
    let ts = vec![
        fet(TransistorKind::Pmos, 2, 1, 4),
        fet(TransistorKind::Pmos, 3, 1, 4),
        fet(TransistorKind::Nmos, 2, 4, 5),
        fet(TransistorKind::Nmos, 3, 5, 0),
    ];
    let mut us: Vec<Transistor> = ts.iter().rev().cloned().collect();
    let mut open = fet(TransistorKind::Nmos, 1, 1, 4);
    open.drain_net = None;
    us.insert(2, open);
    us.push(fet(TransistorKind::Nmos, 1, 1, 9));
    for (a, b) in [(Logic::Zero, Logic::X), (Logic::One, Logic::One), (Logic::X, Logic::One)] {
        let fixed = [(0, Logic::Zero), (1, Logic::One), (2, a), (3, b)];
        assert_eq!(run(&ts, 6, &fixed), run(&us, 6, &fixed));
    }
}

#[test]
fn the_dual_circuit_has_opposite_levels() {
    // A NAND, and what becomes of it when the polarities are exchanged.
    let shape = [(2, 1, 4), (3, 1, 4), (2, 4, 5), (3, 5, 0)];
    let circuit = |first: TransistorKind, second: TransistorKind| -> Vec<Transistor> {
        shape
            .iter()
            .enumerate()
            .map(|(k, &(g, s, d))| fet(if k < 2 { first } else { second }, g, s, d))
            .collect()
    };
    let flip = |l: Logic| match l {
        Logic::Zero => Logic::One,
        Logic::One => Logic::Zero,
        Logic::X => Logic::X,
    };
    let ts = circuit(TransistorKind::Pmos, TransistorKind::Nmos);
    let us = circuit(TransistorKind::Nmos, TransistorKind::Pmos);
    let levels = [Logic::Zero, Logic::One, Logic::X];
    for a in levels {
        for b in levels {
            let fixed = [(0, Logic::Zero), (1, Logic::One), (2, a), (3, b)];
            let mirrored = fixed.map(|(n, l)| (n, flip(l)));
            let want: Vec<Logic> = run(&ts, 6, &fixed).into_iter().map(flip).collect();
            assert_eq!(run(&us, 6, &mirrored), want);
        }
    }
}

#[test]
fn an_oscillator_ends() {
    // Net 2 has a pull-up that is always closed, and a pull-down that it
    // controls itself: it alternates between 1 and X. The inverter behind it
    // follows one pass later, and shows a 0 while its gate is at X.
    let ts = vec![
        fet(TransistorKind::Nmos, 1, 1, 2),
        fet(TransistorKind::Nmos, 2, 0, 2),
        fet(TransistorKind::Pmos, 2, 1, 3),
        fet(TransistorKind::Nmos, 2, 0, 3),
    ];
    let v = run(&ts, 4, &[(0, Logic::Zero), (1, Logic::One)]);
    assert_eq!(v, vec![Logic::Zero, Logic::One, Logic::X, Logic::Zero]);
}

#[test]
fn a_chain_of_inverters_settles() {
    // Net 2 is the input, net k + 3 the output of inverter k.
    let mut ts = Vec::new();
    for k in 0..50 {
        ts.push(fet(TransistorKind::Pmos, k + 2, 1, k + 3));
        ts.push(fet(TransistorKind::Nmos, k + 2, 0, k + 3));
    }
    ts.reverse();
    for input in [Logic::Zero, Logic::One] {
        let v = run(&ts, 53, &[(0, Logic::Zero), (1, Logic::One), (2, input)]);
        for k in 2..52 {
            assert_ne!(v[k], Logic::X);
            assert_ne!(v[k + 1], Logic::X);
            assert_ne!(v[k], v[k + 1]);
        }
    }
}
