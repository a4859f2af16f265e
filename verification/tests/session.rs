use gdssim::celllib::{build, nor2};
use gdssim::gds::{Point, Polygon, Spot};
use gdssim::session::Loaded;
use gdssim::sim::Logic;
use gdssim::tech::Tech;

fn p(x: i32, y: i32) -> Point {
    Point::new(x, y)
}

fn rect(layer: i16, x0: i32, y0: i32, x1: i32, y1: i32) -> Polygon {
    Polygon { layer, datatype: 0, points: vec![p(x0, y0), p(x1, y0), p(x1, y1), p(x0, y1)] }
}

#[test]
fn nets_of_a_session() {
    let polys = vec![rect(4, 0, 0, 10, 10), rect(4, 50, 0, 60, 10), rect(4, 5, 5, 20, 20)];
    let loaded = Loaded::load(polys, &Tech::default_tech()).expect("small enough");
    let rings = loaded.net_rings(0);
    assert_eq!(rings.len(), 2);
    assert_eq!(rings[0][0], p(0, 0));
    assert_eq!(rings[1][0], p(5, 5));
    assert_eq!(loaded.net_rings(1).len(), 1);
    assert!(loaded.net_rings(2).is_empty());
    assert!(loaded.net_rings(u32::MAX).is_empty());

    let hit = loaded.hit_test(Spot { x: 7, y: 7, unit: 1 }).expect("hit");
    assert_eq!((hit.hit.index, hit.net), (0, 0));
    let hit = loaded.hit_test(Spot { x: 55, y: 5, unit: 1 }).expect("hit");
    assert_eq!((hit.hit.index, hit.net), (1, 1));
    assert!(loaded.hit_test(Spot { x: 100, y: 100, unit: 1 }).is_none());
}

#[test]
fn device_nets_are_apart_where_nets_are_not() {
    // A gated diffusion is one net, but two device nets.
    let polys = vec![rect(2, 0, 0, 100, 10), rect(1, 40, -5, 60, 15)];
    let loaded = Loaded::load(polys, &Tech::default_tech()).expect("small enough");
    assert_eq!(loaded.nets.count(), 2);
    assert_eq!(loaded.extraction.device_nets.count(), 3);
    let ts = loaded.transistors();
    assert_eq!(ts.len(), 1);
    let source = loaded.device_net_rings(ts[0].source_net.unwrap());
    assert_eq!(source, vec![vec![p(0, 0), p(40, 0), p(40, 10), p(0, 10)]]);
    let drain = loaded.device_net_rings(ts[0].drain_net.unwrap());
    assert_eq!(drain, vec![vec![p(60, 0), p(100, 0), p(100, 10), p(60, 10)]]);
    assert!(loaded.device_net_rings(3).is_empty());
}

#[test]
fn a_session_simulates_its_transistors() {
    let (polys, _) = build(&nor2());
    let loaded = Loaded::load(polys, &Tech::default_tech()).expect("small enough");
    let ts = loaded.transistors();
    let (a, b) = (ts[0].gate_net, ts[1].gate_net);
    let (vdd, gnd) = (ts[0].source_net.unwrap(), ts[2].source_net.unwrap());
    let out = ts[3].drain_net.unwrap();
    let run = |va: Logic, vb: Logic| {
        let fixed = vec![(vdd, Logic::One), (gnd, Logic::Zero), (a, va), (b, vb)];
        loaded.simulate_nets(fixed)[out as usize]
    };
    assert_eq!(run(Logic::Zero, Logic::Zero), Logic::One);
    assert_eq!(run(Logic::One, Logic::Zero), Logic::Zero);
    assert_eq!(run(Logic::Zero, Logic::X), Logic::X);
    // The last pair for a net counts.
    let fixed = vec![(a, Logic::Zero), (a, Logic::One)];
    assert_eq!(loaded.simulate_nets(fixed)[a as usize], Logic::One);
    assert_eq!(loaded.simulate_nets(vec![]).len(), loaded.extraction.device_nets.count());
}

#[test]
fn an_empty_session() {
    let none = Loaded::load(vec![], &Tech::default_tech()).expect("small enough");
    for loaded in [none, Loaded::default()] {
        assert!(loaded.transistors().is_empty());
        assert!(loaded.net_rings(0).is_empty());
        assert!(loaded.device_net_rings(0).is_empty());
        assert!(loaded.hit_test(Spot { x: 0, y: 0, unit: 1 }).is_none());
        assert!(loaded.simulate_nets(vec![(0, Logic::One)]).is_empty());
    }
}
