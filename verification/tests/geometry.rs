use gdssim::gds::{Point, Polygon};
use gdssim::geometry::{bbox_overlap, build_nets, connectable, on_segment, orient};
use gdssim::geometry::{polygons_touch, segments_intersect};
use gdssim::gds::{bbox, point_in_polygon, polygon_area2, polygon_bbox, Bbox, Spot};
use gdssim::tech::Tech;

fn p(x: i32, y: i32) -> Point {
    Point::new(x, y)
}

fn poly(layer: i16, datatype: i16, x0: i32, y0: i32, x1: i32, y1: i32) -> Polygon {
    Polygon { layer, datatype, points: vec![p(x0, y0), p(x1, y0), p(x1, y1), p(x0, y1)] }
}

#[test]
fn segments_intersect_cases() {
    // Proper crossing.
    assert!(segments_intersect(p(0, 0), p(2, 2), p(0, 2), p(2, 0)));
    // Shared endpoint.
    assert!(segments_intersect(p(0, 0), p(1, 0), p(1, 0), p(1, 1)));
    // Collinear overlap.
    assert!(segments_intersect(p(0, 0), p(2, 0), p(1, 0), p(3, 0)));
    // Disjoint.
    assert!(!segments_intersect(p(0, 0), p(1, 0), p(2, 0), p(3, 0)));
}

#[test]
fn segments_at_the_ends_of_the_range() {
    let (lo, hi) = (i32::MIN, i32::MAX);
    assert!(segments_intersect(p(lo, lo), p(hi, hi), p(lo, hi), p(hi, lo)));
    assert!(!segments_intersect(p(lo, lo), p(hi, lo), p(lo, hi), p(hi, hi)));
    assert_eq!(orient(p(lo, lo), p(hi, lo), p(hi, hi)), 0xffff_ffff_i128 * 0xffff_ffff_i128);
}

#[test]
fn on_segment_includes_the_ends() {
    assert!(on_segment(p(0, 0), p(0, 0), p(4, 4)));
    assert!(on_segment(p(4, 4), p(2, 2), p(0, 0)));
    assert!(!on_segment(p(0, 0), p(5, 5), p(4, 4)));
}

#[test]
fn same_layer_touching_merges_into_one_net() {
    // Two abutting metal1 rectangles share an edge: one net.
    let polys = vec![poly(4, 0, 0, 0, 10, 10), poly(4, 0, 10, 0, 20, 10)];
    let nets = build_nets(&polys, &Tech::default_tech());
    assert_eq!(nets.count(), 1);
    assert_eq!(nets.net_of[0], nets.net_of[1]);
}

#[test]
fn disjoint_same_layer_stays_separate() {
    let polys = vec![poly(4, 0, 0, 0, 10, 10), poly(4, 0, 100, 100, 110, 110)];
    let nets = build_nets(&polys, &Tech::default_tech());
    assert_eq!(nets.count(), 2);
    assert_ne!(nets.net_of[0], nets.net_of[1]);
}

#[test]
fn different_layers_need_a_via_to_connect() {
    // metal1 (layer 4) overlapping metal2 (layer 5) but no via: 2 nets.
    let no_via = vec![poly(4, 0, 0, 0, 10, 10), poly(5, 0, 5, 5, 15, 15)];
    let nets = build_nets(&no_via, &Tech::default_tech());
    assert_eq!(nets.count(), 2);

    // A via (layer 7) overlapping both: all three merge.
    let with_via =
        vec![poly(4, 0, 0, 0, 10, 10), poly(5, 0, 5, 5, 15, 15), poly(7, 0, 4, 4, 11, 11)];
    let nets = build_nets(&with_via, &Tech::default_tech());
    assert_eq!(nets.count(), 1);
    assert_eq!(nets.net_of[0], nets.net_of[2]);
    assert_eq!(nets.net_of[1], nets.net_of[2]);
}

#[test]
fn poly_over_diffusion_is_not_a_connection() {
    // poly (layer 1) crossing active (layer 2): a transistor, not a wire.
    let polys = vec![poly(1, 0, 5, 0, 7, 10), poly(2, 0, 0, 3, 12, 6)];
    let nets = build_nets(&polys, &Tech::default_tech());
    assert_eq!(nets.count(), 2);
}

#[test]
fn contained_polygon_connects_same_layer() {
    // Small rect fully inside a big one, same layer, no edge crossing.
    let polys = vec![poly(4, 0, 0, 0, 100, 100), poly(4, 0, 40, 40, 60, 60)];
    let nets = build_nets(&polys, &Tech::default_tech());
    assert_eq!(nets.count(), 1);
}

#[test]
fn wells_carry_no_net() {
    // Two contacts in one n-well stay apart, and the well is a net of its own.
    let tech = Tech::default_tech();
    let polys = vec![poly(8, 0, 0, 0, 100, 100), poly(3, 0, 10, 10, 20, 20), poly(3, 0, 50, 50, 60, 60)];
    let nets = build_nets(&polys, &tech);
    assert_eq!(nets.net_of, vec![0, 1, 2]);
    assert!(!connectable(&polys[0], &polys[1], &tech));
}

#[test]
fn nets_are_numbered_by_their_first_polygon() {
    let polys = vec![
        poly(4, 0, 0, 0, 10, 10),
        poly(4, 0, 100, 0, 110, 10),
        poly(4, 0, 5, 5, 20, 20),
        poly(4, 0, 105, 5, 120, 20),
    ];
    let nets = build_nets(&polys, &Tech::default_tech());
    assert_eq!(nets.net_of, vec![0, 1, 0, 1]);
    assert_eq!(nets.members, vec![vec![0, 2], vec![1, 3]]);
}

#[test]
fn a_chain_of_touching_polygons_is_one_net() {
    let polys: Vec<Polygon> = (0..200).map(|i| poly(4, 0, i * 10, 0, i * 10 + 10, 5)).collect();
    let nets = build_nets(&polys, &Tech::default_tech());
    assert_eq!(nets.count(), 1);
    assert_eq!(nets.members[0].len(), 200);
}

#[test]
fn no_polygons_have_no_nets() {
    let nets = build_nets(&[], &Tech::default_tech());
    assert_eq!(nets.count(), 0);
    assert!(nets.net_of.is_empty());
}

#[test]
fn rings_of_two_points_touch_nothing() {
    let line = vec![p(0, 0), p(10, 10)];
    let square = vec![p(0, 0), p(10, 0), p(10, 10), p(0, 10)];
    assert!(!polygons_touch(&line, &square));
    assert!(polygons_touch(&square, &square));
}

#[test]
fn touching_is_symmetric() {
    let a = vec![p(0, 0), p(10, 0), p(10, 10), p(0, 10)];
    let b = vec![p(10, 10), p(20, 10), p(20, 20), p(10, 20)];
    let c = vec![p(11, 0), p(20, 0), p(20, 9), p(11, 9)];
    assert!(polygons_touch(&a, &b) && polygons_touch(&b, &a));
    assert!(!polygons_touch(&a, &c) && !polygons_touch(&c, &a));
}

#[test]
fn boxes_that_share_an_edge_overlap() {
    let a = Bbox { min: p(0, 0), max: p(10, 10) };
    let b = Bbox { min: p(10, 3), max: p(20, 5) };
    let c = Bbox { min: p(11, 3), max: p(20, 5) };
    assert!(bbox_overlap(&a, &b));
    assert!(!bbox_overlap(&a, &c));
    assert!(!bbox_overlap(&a, &Bbox::empty()));
}

#[test]
fn bounding_boxes() {
    let tri = vec![p(3, -4), p(-1, 7), p(5, 2)];
    let b = polygon_bbox(&tri);
    assert_eq!((b.min, b.max), (p(-1, -4), p(5, 7)));
    let all = bbox(&[poly(1, 0, 0, 0, 10, 10), poly(2, 0, -5, 3, 4, 20)]);
    assert_eq!((all.min, all.max), (p(-5, 0), p(10, 20)));
    let mut e = Bbox::empty();
    e.expand(p(2, 3));
    assert_eq!((e.min, e.max), (p(2, 3), p(2, 3)));
}

#[test]
fn areas_are_doubled() {
    assert_eq!(polygon_area2(&[p(0, 0), p(20, 0), p(20, 20), p(0, 20)]), 800);
    assert_eq!(polygon_area2(&[p(0, 20), p(20, 20), p(20, 0), p(0, 0)]), 800);
    assert_eq!(polygon_area2(&[p(0, 0), p(1, 0), p(0, 1)]), 1);
    assert_eq!(polygon_area2(&[]), 0);
}

#[test]
fn inside_goes_by_the_even_odd_rule() {
    let l = vec![p(0, 0), p(30, 0), p(30, 10), p(10, 10), p(10, 30), p(0, 30)];
    let at = |x: i64, y: i64, unit: u32| Spot { x, y, unit };
    assert!(point_in_polygon(&l, at(5, 20, 1)));
    assert!(point_in_polygon(&l, at(20, 5, 1)));
    assert!(!point_in_polygon(&l, at(20, 20, 1)));
    // The same places on a finer grid.
    assert!(point_in_polygon(&l, at(19_999, 9_999, 1000)));
    assert!(!point_in_polygon(&l, at(20_000, 10_001, 1000)));
    // Low edges belong to a ring, high edges do not.
    assert!(point_in_polygon(&l, at(0, 0, 1)));
    assert!(!point_in_polygon(&l, at(30, 0, 1)));
}

#[test]
fn rectangles_touch_whatever_the_order_of_their_corners() {
    let a = [p(0, 0), p(10, 0), p(10, 10), p(0, 10)];
    let cases = [
        ([p(10, 10), p(20, 10), p(20, 20), p(10, 20)], true),
        ([p(2, 2), p(8, 2), p(8, 8), p(2, 8)], true),
        ([p(4, -5), p(6, -5), p(6, 15), p(4, 15)], true),
        ([p(11, 0), p(20, 0), p(20, 9), p(11, 9)], false),
    ];
    for (b, touch) in cases {
        for start in 0..4 {
            let mut ring: Vec<Point> = (0..4).map(|k| b[(start + k) % 4]).collect();
            for _ in 0..2 {
                assert_eq!(polygons_touch(&a, &ring), touch);
                assert_eq!(polygons_touch(&ring, &a), touch);
                ring.reverse();
            }
        }
    }
}
