use gdssim::gds::{LoadInfo, Point, Polygon, Spot};
use gdssim::tech::{fallback_color, Color};
use gdssim::viewport::{build_scene, hit_test, layer_color};

fn p(x: i32, y: i32) -> Point {
    Point::new(x, y)
}

fn rect(layer: i16, datatype: i16, x0: i32, y0: i32, x1: i32, y1: i32) -> Polygon {
    Polygon { layer, datatype, points: vec![p(x0, y0), p(x1, y0), p(x1, y1), p(x0, y1)] }
}

fn at(x: i64, y: i64) -> Spot {
    Spot { x, y, unit: 1 }
}

#[test]
fn hit_test_picks_smallest_containing_polygon() {
    // A big metal pad (layer 4) with a small contact (layer 3) inside it.
    let polys = vec![rect(4, 0, 0, 0, 100, 100), rect(3, 7, 40, 40, 60, 60)];

    // Click inside the contact: smallest area wins.
    let hit = hit_test(&polys, at(50, 50)).expect("hit");
    assert_eq!(hit.index, 1);
    assert_eq!(hit.layer, 3);
    assert_eq!(hit.datatype, 7);
    assert_eq!(hit.point_count, 4);
    assert!((hit.area2 as f64 / 2.0 - 400.0).abs() < 1e-9);
    assert_eq!(hit.bbox_min, p(40, 40));
    assert_eq!(hit.bbox_max, p(60, 60));

    // Click in the pad but outside the contact: the pad.
    let hit = hit_test(&polys, at(10, 10)).expect("hit");
    assert_eq!(hit.index, 0);
    assert_eq!(hit.layer, 4);

    // Click outside everything: miss.
    assert!(hit_test(&polys, at(200, 200)).is_none());
}

#[test]
fn hit_test_takes_the_first_of_equals() {
    let polys = vec![rect(1, 0, 0, 0, 10, 10), rect(2, 0, 0, 0, 10, 10)];
    assert_eq!(hit_test(&polys, at(5, 5)).expect("hit").index, 0);
    let hit = hit_test(&polys, Spot { x: 9_999, y: 1, unit: 1000 }).expect("hit");
    assert_eq!(hit.points, polys[0].points);
    assert!(hit_test(&polys, Spot { x: 10_000, y: 1, unit: 1000 }).is_none());
}

#[test]
fn layer_colours() {
    let poly = Color::Listed {
        r: 0.45f32.to_bits(),
        g: 0.85f32.to_bits(),
        b: 0.40f32.to_bits(),
    };
    assert_eq!(layer_color(1), poly);
    let rgb = |r: f32, g: f32, b: f32| Color::Listed {
        r: r.to_bits(),
        g: g.to_bits(),
        b: b.to_bits(),
    };
    assert_eq!(layer_color(0), rgb(0.55, 0.55, 0.55));
    assert_eq!(layer_color(2), rgb(0.30, 0.55, 0.95));
    assert_eq!(layer_color(3), rgb(0.95, 0.85, 0.30));
    assert_eq!(layer_color(4), rgb(0.90, 0.40, 0.40));
    assert_eq!(layer_color(5), rgb(0.40, 0.85, 0.85));
    assert_eq!(layer_color(6), rgb(0.85, 0.50, 0.85));
    assert_eq!(layer_color(7), rgb(0.95, 0.65, 0.30));
    assert_eq!(layer_color(8), fallback_color(8));
    assert_eq!(layer_color(-1), fallback_color(-1));
}

#[test]
fn scene_is_grouped_by_layer() {
    let info = LoadInfo {
        polygons: vec![
            rect(4, 0, 0, 0, 10, 10),
            rect(1, 0, 5, 5, 8, 8),
            Polygon { layer: 4, datatype: 0, points: vec![p(20, 0), p(30, 0), p(25, 9)] },
            Polygon { layer: 9, datatype: 0, points: vec![p(0, 0), p(1, 1)] },
            rect(2, 0, -7, 0, 1, 1),
        ],
        top_cell: "TOP".to_string(),
        cell_names: vec!["CHILD".to_string(), "TOP".to_string()],
    };
    let quad = vec![3, 0, 1, 1, 2, 3];
    let tris = vec![Some(quad.clone()), Some(quad), Some(vec![2, 0, 1]), Some(vec![]), None];
    let scene = build_scene(&info, &tris);

    // The two-point ring and the polygon without triangles are left out.
    assert_eq!(scene.polygon_count, 3);
    let layers: Vec<i16> = scene.layers.iter().map(|l| l.layer).collect();
    assert_eq!(layers, [1, 4]);
    let metal = &scene.layers[1];
    assert_eq!(metal.polygon_count, 2);
    assert_eq!(metal.color, layer_color(4));
    assert_eq!(metal.vertices.len(), 7);
    assert_eq!(metal.vertices[4], p(20, 0));
    assert_eq!(metal.triangle_indices, [3, 0, 1, 1, 2, 3, 6, 4, 5]);
    assert_eq!(metal.edge_indices, [0, 1, 1, 2, 2, 3, 3, 0, 4, 5, 5, 6, 6, 4]);
    // The box is that of all polygons.
    assert_eq!((scene.bbox_min, scene.bbox_max), (p(-7, 0), p(30, 10)));
    assert_eq!(scene.top_cell, "TOP");
    assert_eq!(scene.cell_names, ["CHILD", "TOP"]);
    // The layers share the polygons out among them.
    assert_eq!(scene.layers.iter().map(|l| l.polygon_count).sum::<usize>(), scene.polygon_count);
    for l in &scene.layers {
        assert_eq!(l.edge_indices.len(), 2 * l.vertices.len());
        assert!(l.triangle_indices.iter().all(|&i| (i as usize) < l.vertices.len()));
    }
}

#[test]
fn an_empty_layout_has_an_empty_scene() {
    let info = LoadInfo { polygons: vec![], top_cell: String::new(), cell_names: vec![] };
    let scene = build_scene(&info, &[]);
    assert_eq!(scene.polygon_count, 0);
    assert!(scene.layers.is_empty());
}
