use gdssim::tech::{fallback_color, fallback_name, Color, LayerRole, LayerStyle, Tech};

fn rgb(c: Color) -> [f32; 3] {
    match c {
        Color::Listed { r, g, b } => [f32::from_bits(r), f32::from_bits(g), f32::from_bits(b)],
        Color::Hashed { red, green, blue } => {
            [red, green, blue].map(|v| 0.4 + 0.5 * (v as f32 / 255.0))
        }
    }
}

#[test]
fn default_tech_names_known_layers() {
    let t = Tech::default_tech();
    let poly = t.resolve(1, 0);
    assert_eq!(poly.name, "poly");
    assert_eq!(rgb(poly.color), [0.45, 0.85, 0.40]);
    // color() agrees with resolve() for a known pair.
    assert_eq!(t.color(1, 0), poly.color);
    assert_eq!(t.role(1, 0), LayerRole::Poly);
    assert_eq!(t.role(2, 0), LayerRole::Diffusion);
    assert!(t.is_via(3, 0)); // contact
    assert!(t.is_via(7, 0)); // via
    assert!(!t.is_via(4, 0)); // metal1 is a conductor
}

#[test]
fn unknown_pairs_fall_back() {
    let t = Tech::default_tech();
    // Unknown datatype on a known layer: fallback, not the poly style.
    let s = t.resolve(1, 5);
    assert_eq!(s.name, "layer 1/5");
    assert_eq!(s.color, fallback_color(1));
    // Unknown layer, datatype 0: "layer N".
    assert_eq!(t.resolve(42, 0).name, "layer 42");
    // Fallback is deterministic.
    assert_eq!(t.color(42, 0), fallback_color(42));
    // Unknown pairs are role Other.
    assert_eq!(t.role(42, 0), LayerRole::Other);
    assert!(!t.is_via(42, 0));
}

#[test]
fn default_roles_and_names() {
    let t = Tech::default_tech();
    let names: Vec<String> = (1..9).map(|l| t.resolve(l, 0).name).collect();
    assert_eq!(
        names,
        ["poly", "active", "contact", "metal1", "metal2", "metal3", "via", "nwell"]
    );
    assert_eq!(t.role(5, 0), LayerRole::Conductor);
    assert_eq!(t.role(8, 0), LayerRole::NWell);
    assert_eq!(LayerRole::default(), LayerRole::Other);
}

#[test]
fn fallback_names_of_negative_numbers() {
    assert_eq!(fallback_name(-3, 0), "layer -3");
    assert_eq!(fallback_name(-32768, -1), "layer -32768/-1");
    assert_eq!(fallback_name(0, 0), "layer 0");
    assert_eq!(fallback_name(32767, 10), "layer 32767/10");
}

#[test]
fn fallback_colours_are_hashed() {
    for layer in [42i16, -1, 9, 1000, i16::MIN] {
        let h = (layer as i32 as u32).wrapping_mul(2654435761);
        let want = Color::Hashed {
            red: ((h >> 16) & 0xff) as u8,
            green: ((h >> 8) & 0xff) as u8,
            blue: (h & 0xff) as u8,
        };
        assert_eq!(fallback_color(layer), want);
    }
}

#[test]
fn later_rows_replace_earlier_ones() {
    let row = |name: &str, role: LayerRole| LayerStyle {
        layer: 10,
        datatype: 2,
        name: name.to_string(),
        color: Color::Listed { r: 0, g: 0x3f800000, b: 0 },
        role,
    };
    let t = Tech::from_layers(vec![row("first", LayerRole::Poly), row("second", LayerRole::Via)]);
    assert_eq!(t.resolve(10, 2).name, "second");
    assert!(t.is_via(10, 2));
    assert_eq!(rgb(t.color(10, 2)), [0.0, 1.0, 0.0]);
    assert_eq!(t.role(10, 0), LayerRole::Other);
}

#[test]
fn fallback_names_differ() {
    let pairs = [(1, 0), (1, 1), (11, 0), (1, 11), (11, 1), (-1, 0), (1, -1), (0, 0), (0, 10)];
    for (i, a) in pairs.iter().enumerate() {
        for (j, b) in pairs.iter().enumerate() {
            assert_eq!(fallback_name(a.0, a.1) == fallback_name(b.0, b.1), i == j);
        }
    }
}
