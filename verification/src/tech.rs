//! Technology: maps a (layer, datatype) pair to a display name, a colour and
//! an electrical role.
//!
//! Pairs that a technology does not list fall back to a generated name, a
//! deterministic hash colour and the role [`LayerRole::Other`], so that any
//! layout still renders sensibly.

use std::collections::HashMap;

use vstd::arithmetic::div_mod::lemma_mod_multiples_vanish;
use vstd::prelude::*;

use crate::text::{decimal, law_decimal_texts_differ, lemma_no_slash, push_decimal};

verus! {

broadcast use vstd::std_specs::hash::group_hash_axioms;

/// Electrical role of a layer.
///
/// `Via` layers bridge other layers they overlap; `Poly` over `Diffusion` is
/// a transistor, not a connection. `NWell` carries no signal net: it only
/// tells a PMOS (a gate inside it) from an NMOS.
#[derive(Debug, Clone, Copy, PartialEq, Eq, Structural)]
pub enum LayerRole {
    Conductor,
    Via,
    Poly,
    Diffusion,
    NWell,
    Other,
}

impl Default for LayerRole {
    fn default() -> (r: LayerRole)
        ensures
            r == LayerRole::Other,
    {
        LayerRole::Other
    }
}

/// A display colour.
#[derive(Debug, Clone, Copy, PartialEq, Eq, Structural)]
pub enum Color {
    /// Listed in a technology: red, green and blue in 0..1, each as the bits
    /// of its single-precision number.
    Listed { r: u32, g: u32, b: u32 },
    /// Derived from a hash: each byte `v` stands for `0.4 + 0.5 * v / 255`.
    Hashed { red: u8, green: u8, blue: u8 },
}

/// One style row: a (layer, datatype) pair with a name, colour and role.
#[derive(Debug, Clone)]
pub struct LayerStyle {
    pub layer: i16,
    pub datatype: i16,
    pub name: String,
    pub color: Color,
    pub role: LayerRole,
}

/// Resolved style of a (layer, datatype) pair.
#[derive(Debug)]
pub struct ResolvedStyle {
    pub name: String,
    pub color: Color,
}

/// What a technology says of one pair.
#[verifier::ext_equal]
pub struct Style {
    pub name: Seq<char>,
    pub color: Color,
    pub role: LayerRole,
}

impl View for LayerStyle {
    type V = Style;

    open spec fn view(&self) -> Style {
        Style { name: self.name@, color: self.color, role: self.role }
    }
}

/// A loaded technology.
#[derive(Debug)]
pub struct Tech {
    map: HashMap<i64, LayerStyle>,
}

/// The style that the first `k` rows give to a pair: that of the last row
/// that lists it.
pub open spec fn row_style(
    rows: Seq<LayerStyle>,
    k: int,
    layer: i16,
    datatype: i16,
) -> Option<Style>
    decreases k,
{
    if k <= 0 {
        None
    } else if rows[k - 1].layer == layer && rows[k - 1].datatype == datatype {
        Some(rows[k - 1]@)
    } else {
        row_style(rows, k - 1, layer, datatype)
    }
}

spec fn pair_key(layer: i16, datatype: i16) -> int {
    layer * 0x1_0000 + datatype
}

/// The map key of a pair.
fn key_of(layer: i16, datatype: i16) -> (k: i64)
    ensures
        k == pair_key(layer, datatype),
{
    layer as i64 * 0x1_0000 + datatype as i64
}

/// The hash from which the fallback colour of `layer` is taken.
pub open spec fn layer_hash(layer: i16) -> int {
    let low: int = if layer < 0 {
        layer + 0x1_0000_0000
    } else {
        layer as int
    };
    (low * 2654435761) % 0x1_0000_0000
}

/// The colour of a layer that no technology names.
pub open spec fn hash_color(layer: i16) -> Color {
    let h = layer_hash(layer);
    Color::Hashed {
        red: ((h / 0x1_0000) % 0x100) as u8,
        green: ((h / 0x100) % 0x100) as u8,
        blue: (h % 0x100) as u8,
    }
}

/// The name of a pair that no technology names.
pub open spec fn generated_name(layer: i16, datatype: i16) -> Seq<char> {
    if datatype == 0 {
        "layer "@ + decimal(layer as int)
    } else {
        "layer "@ + decimal(layer as int) + "/"@ + decimal(datatype as int)
    }
}

impl Tech {
    /// What the technology lists for a pair, if it lists it.
    pub closed spec fn style(&self, layer: i16, datatype: i16) -> Option<Style> {
        let k = pair_key(layer, datatype) as i64;
        if self.map@.contains_key(k) {
            Some(self.map@[k]@)
        } else {
            None
        }
    }

    /// The electrical role of a pair.
    pub open spec fn role_of(&self, layer: i16, datatype: i16) -> LayerRole {
        match self.style(layer, datatype) {
            Some(s) => s.role,
            None => LayerRole::Other,
        }
    }

    /// The colour of a pair.
    pub open spec fn color_of(&self, layer: i16, datatype: i16) -> Color {
        match self.style(layer, datatype) {
            Some(s) => s.color,
            None => hash_color(layer),
        }
    }

    /// The name of a pair.
    pub open spec fn name_of(&self, layer: i16, datatype: i16) -> Seq<char> {
        match self.style(layer, datatype) {
            Some(s) => s.name,
            None => generated_name(layer, datatype),
        }
    }

    /// The technology that lists `layers`. Where two rows list the same pair,
    /// the later one counts.
    pub fn from_layers(layers: Vec<LayerStyle>) -> (t: Tech)
        ensures
            forall|l: i16, d: i16| #[trigger] t.style(l, d) == row_style(
                layers@,
                layers@.len() as int,
                l,
                d,
            ),
    {
        let ghost rows = layers@;
        let mut rest = layers;
        let mut map: HashMap<i64, LayerStyle> = HashMap::new();
        while rest.len() > 0
            invariant
                rest@.len() <= rows.len(),
                rest@ == rows.take(rest@.len() as int),
                forall|l: i16, d: i16|
                    #![trigger row_style(rows, rows.len() as int, l, d)]
                    if map@.contains_key(pair_key(l, d) as i64) {
                        row_style(rows, rows.len() as int, l, d) == Some(
                            map@[pair_key(l, d) as i64]@,
                        )
                    } else {
                        row_style(rows, rows.len() as int, l, d) == row_style(
                            rows,
                            rest@.len() as int,
                            l,
                            d,
                        )
                    },
            decreases rest@.len(),
        {
            let row = rest.pop().unwrap();
            let k = key_of(row.layer, row.datatype);
            assert(rest@ =~= rows.take(rest@.len() as int));
            assert(row == rows[rest@.len() as int]);
            if !map.contains_key(&k) {
                map.insert(k, row);
            }
        }
        let t = Tech { map };
        assert forall|l: i16, d: i16| #[trigger] t.style(l, d) == row_style(
            rows,
            rows.len() as int,
            l,
            d,
        ) by {}
        t
    }

    /// Display colour of a pair.
    pub fn color(&self, layer: i16, datatype: i16) -> (c: Color)
        ensures
            c == self.color_of(layer, datatype),
    {
        let k = key_of(layer, datatype);
        match self.map.get(&k) {
            Some(s) => s.color,
            None => fallback_color(layer),
        }
    }

    /// Name and colour of a pair.
    pub fn resolve(&self, layer: i16, datatype: i16) -> (r: ResolvedStyle)
        ensures
            r.name@ == self.name_of(layer, datatype),
            r.color == self.color_of(layer, datatype),
    {
        let k = key_of(layer, datatype);
        match self.map.get(&k) {
            Some(s) => ResolvedStyle { name: s.name.clone(), color: s.color },
            None => ResolvedStyle {
                name: fallback_name(layer, datatype),
                color: fallback_color(layer),
            },
        }
    }

    /// Electrical role of a pair; `Other` when unlisted.
    pub fn role(&self, layer: i16, datatype: i16) -> (r: LayerRole)
        ensures
            r == self.role_of(layer, datatype),
    {
        let k = key_of(layer, datatype);
        match self.map.get(&k) {
            Some(s) => s.role,
            None => LayerRole::default(),
        }
    }

    /// Whether this pair bridges the layers it overlaps (a contact or via).
    pub fn is_via(&self, layer: i16, datatype: i16) -> (v: bool)
        ensures
            v == (self.role_of(layer, datatype) == LayerRole::Via),
    {
        self.role(layer, datatype) == LayerRole::Via
    }
}

/// Generated name of a pair that the technology does not list.
pub fn fallback_name(layer: i16, datatype: i16) -> (name: String)
    ensures
        name@ == generated_name(layer, datatype),
{
    let mut name = "layer ".to_owned();
    push_decimal(&mut name, layer);
    if datatype != 0 {
        name.append("/");
        push_decimal(&mut name, datatype);
    }
    name
}

/// Deterministic hash colour of a layer that the technology does not list.
pub fn fallback_color(layer: i16) -> (c: Color)
    ensures
        c == hash_color(layer),
{
    let low: u64 = if layer < 0 {
        (layer as i64 + 0x1_0000_0000) as u64
    } else {
        layer as u64
    };
    let h: u64 = (low * 2654435761) % 0x1_0000_0000;
    Color::Hashed {
        red: ((h / 0x1_0000) % 0x100) as u8,
        green: ((h / 0x100) % 0x100) as u8,
        blue: (h % 0x100) as u8,
    }
}

// ---- the built-in technology ----

/// What the built-in technology lists for a pair.
pub open spec fn default_style(layer: i16, datatype: i16) -> Option<Style> {
    if datatype != 0 {
        None
    } else if layer == 1 {
        Some(
            Style {
                name: "poly"@,
                color: Color::Listed { r: 0x3ee66666, g: 0x3f59999a, b: 0x3ecccccd },
                role: LayerRole::Poly,
            },
        )
    } else if layer == 2 {
        Some(
            Style {
                name: "active"@,
                color: Color::Listed { r: 0x3e99999a, g: 0x3f0ccccd, b: 0x3f733333 },
                role: LayerRole::Diffusion,
            },
        )
    } else if layer == 3 {
        Some(
            Style {
                name: "contact"@,
                color: Color::Listed { r: 0x3f733333, g: 0x3f59999a, b: 0x3e99999a },
                role: LayerRole::Via,
            },
        )
    } else if layer == 4 {
        Some(
            Style {
                name: "metal1"@,
                color: Color::Listed { r: 0x3f666666, g: 0x3ecccccd, b: 0x3ecccccd },
                role: LayerRole::Conductor,
            },
        )
    } else if layer == 5 {
        Some(
            Style {
                name: "metal2"@,
                color: Color::Listed { r: 0x3ecccccd, g: 0x3f59999a, b: 0x3f59999a },
                role: LayerRole::Conductor,
            },
        )
    } else if layer == 6 {
        Some(
            Style {
                name: "metal3"@,
                color: Color::Listed { r: 0x3f59999a, g: 0x3f000000, b: 0x3f59999a },
                role: LayerRole::Conductor,
            },
        )
    } else if layer == 7 {
        Some(
            Style {
                name: "via"@,
                color: Color::Listed { r: 0x3f733333, g: 0x3f266666, b: 0x3e99999a },
                role: LayerRole::Via,
            },
        )
    } else if layer == 8 {
        Some(Style { name: "nwell"@, color: hash_color(8), role: LayerRole::NWell })
    } else {
        None
    }
}

/// One row of the built-in technology.
fn row(layer: i16, name: &str, color: Color, role: LayerRole) -> (s: LayerStyle)
    ensures
        s.layer == layer,
        s.datatype == 0,
        s@ == (Style { name: name@, color, role }),
{
    LayerStyle { layer, datatype: 0, name: name.to_owned(), color, role }
}

impl Tech {
    /// The built-in technology, a generic CMOS process.
    pub fn default_tech() -> (t: Tech)
        ensures
            forall|l: i16, d: i16| #[trigger] t.style(l, d) == default_style(l, d),
    {
        let rows = vec![
            row(1, "poly", Color::Listed { r: 0x3ee66666, g: 0x3f59999a, b: 0x3ecccccd }, LayerRole::Poly),
            row(2, "active", Color::Listed { r: 0x3e99999a, g: 0x3f0ccccd, b: 0x3f733333 }, LayerRole::Diffusion),
            row(3, "contact", Color::Listed { r: 0x3f733333, g: 0x3f59999a, b: 0x3e99999a }, LayerRole::Via),
            row(4, "metal1", Color::Listed { r: 0x3f666666, g: 0x3ecccccd, b: 0x3ecccccd }, LayerRole::Conductor),
            row(5, "metal2", Color::Listed { r: 0x3ecccccd, g: 0x3f59999a, b: 0x3f59999a }, LayerRole::Conductor),
            row(6, "metal3", Color::Listed { r: 0x3f59999a, g: 0x3f000000, b: 0x3f59999a }, LayerRole::Conductor),
            row(7, "via", Color::Listed { r: 0x3f733333, g: 0x3f266666, b: 0x3e99999a }, LayerRole::Via),
            row(8, "nwell", fallback_color(8), LayerRole::NWell),
        ];
        proof {
            reveal_with_fuel(row_style, 9);
        }
        Tech::from_layers(rows)
    }
}

/// Pairs that no technology names have names that differ.
pub proof fn law_generated_names_differ(l1: i16, d1: i16, l2: i16, d2: i16)
    ensures
        generated_name(l1, d1) == generated_name(l2, d2) <==> l1 == l2 && d1 == d2,
{
    if generated_name(l1, d1) == generated_name(l2, d2) {
        let (a1, a2) = (decimal(l1 as int), decimal(l2 as int));
        let name = generated_name(l1, d1);
        let n = "layer "@.len() as int;
        reveal_strlit("/");
        lemma_no_slash(l1 as int);
        lemma_no_slash(l2 as int);
        lemma_name_splits(l1, d1);
        lemma_name_splits(l2, d2);
        if a1.len() < a2.len() {
            assert(d1 != 0);
            assert(name[n + a1.len()] == a2[a1.len() as int]);
        } else if a2.len() < a1.len() {
            assert(d2 != 0);
            assert(name[n + a2.len()] == a1[a2.len() as int]);
        }
        assert(a1 =~= a2);
        law_decimal_texts_differ(l1 as int, l2 as int);
        if d1 != 0 {
            let (b1, b2) = (decimal(d1 as int), decimal(d2 as int));
            assert(d2 != 0);
            assert(b1 =~= name.skip(n + a1.len() + 1));
            assert(b2 =~= name.skip(n + a1.len() + 1));
            law_decimal_texts_differ(d1 as int, d2 as int);
        }
    }
}

/// The parts of a generated name.
proof fn lemma_name_splits(layer: i16, datatype: i16)
    ensures
        ({
            let name = generated_name(layer, datatype);
            let a = decimal(layer as int);
            let n = "layer "@.len() as int;
            &&& name.len() >= n + a.len()
            &&& name.subrange(n, n + a.len()) == a
            &&& forall|i: int| 0 <= i < a.len() ==> #[trigger] name[n + i] == a[i]
            &&& datatype == 0 <==> name.len() == n + a.len()
            &&& datatype != 0 ==> name[n + a.len()] == '/' && name.skip(n + a.len() + 1)
                == decimal(datatype as int)
        }),
{
    reveal_strlit("/");
    let name = generated_name(layer, datatype);
    let a = decimal(layer as int);
    let n = "layer "@.len() as int;
    assert(name.subrange(n, n + a.len()) =~= a);
    if datatype != 0 {
        assert(name.skip(n + a.len() + 1) =~= decimal(datatype as int));
    }
}

/// A generated name is the word `layer`, a space and the number of the layer,
/// and after a slash the datatype unless that is 0.
pub proof fn law_generated_names_spell_the_pair(layer: i16, datatype: i16)
    ensures
        ({
            let name = generated_name(layer, datatype);
            let n = 6 + decimal(layer as int).len() as int;
            &&& name.len() >= n
            &&& name.take(6) == seq!['l', 'a', 'y', 'e', 'r', ' ']
            &&& name.subrange(6, n) == decimal(layer as int)
            &&& datatype == 0 ==> name.len() == n
            &&& datatype != 0 ==> name.len() > n && name[n] == '/' && name.skip(n + 1) == decimal(
                datatype as int,
            )
        }),
{
    reveal_strlit("layer ");
    lemma_name_splits(layer, datatype);
    assert(generated_name(layer, datatype).take(6) =~= seq!['l', 'a', 'y', 'e', 'r', ' ']);
}

/// Of the rows that list a pair, the last one gives its style; a pair that no
/// row lists has none.
pub proof fn law_last_row_gives_the_style(rows: Seq<LayerStyle>, layer: i16, datatype: i16, j: int)
    ensures
        match row_style(rows, rows.len() as int, layer, datatype) {
            Some(s) => exists|i: int|
                0 <= i < rows.len() && (#[trigger] rows[i]).layer == layer && rows[i].datatype
                    == datatype && s.name == rows[i].name@ && s.color == rows[i].color && s.role
                    == rows[i].role && (i < j < rows.len() ==> rows[j].layer != layer
                    || rows[j].datatype != datatype),
            None => 0 <= j < rows.len() ==> rows[j].layer != layer || rows[j].datatype != datatype,
        },
{
    lemma_last_row(rows, rows.len() as int, layer, datatype, j);
}

proof fn lemma_last_row(rows: Seq<LayerStyle>, k: int, layer: i16, datatype: i16, j: int)
    requires
        0 <= k <= rows.len(),
    ensures
        match row_style(rows, k, layer, datatype) {
            Some(s) => exists|i: int|
                0 <= i < k && (#[trigger] rows[i]).layer == layer && rows[i].datatype == datatype
                    && s.name == rows[i].name@ && s.color == rows[i].color && s.role
                    == rows[i].role && (i < j < k ==> rows[j].layer != layer || rows[j].datatype
                    != datatype),
            None => 0 <= j < k ==> rows[j].layer != layer || rows[j].datatype != datatype,
        },
    decreases k,
{
    if k > 0 {
        if rows[k - 1].layer == layer && rows[k - 1].datatype == datatype {
            assert(rows[k - 1]@.name == rows[k - 1].name@);
        } else {
            lemma_last_row(rows, k - 1, layer, datatype, j);
        }
    }
}

/// What a technology says of a pair is what it lists for it; an unlisted pair
/// has no role, a generated name and a hash colour.
pub proof fn law_unlisted_pairs_fall_back(tech: &Tech, layer: i16, datatype: i16)
    ensures
        match tech.style(layer, datatype) {
            Some(s) => tech.role_of(layer, datatype) == s.role && tech.color_of(layer, datatype)
                == s.color && tech.name_of(layer, datatype) == s.name,
            None => tech.role_of(layer, datatype) == LayerRole::Other && tech.color_of(
                layer,
                datatype,
            ) == hash_color(layer) && tech.name_of(layer, datatype) == generated_name(
                layer,
                datatype,
            ),
        },
{
}

/// The hash colours of neighbouring layers differ by one step of the hash, and
/// layer 0 is black; the three parts of a colour are the three low bytes.
pub proof fn law_hash_colours_step_evenly(layer: i16)
    ensures
        layer_hash(0) == 0,
        layer < i16::MAX ==> layer_hash((layer + 1) as i16) == (layer_hash(layer) + 2654435761)
            % 0x1_0000_0000,
        0 <= layer_hash(layer) < 0x1_0000_0000,
        hash_color(layer) is Hashed,
        ({
            let c = hash_color(layer);
            c->red * 0x1_0000 + c->green * 0x100 + c->blue == layer_hash(layer) % 0x100_0000
        }),
{
    let low: int = if layer < 0 {
        layer + 0x1_0000_0000
    } else {
        layer as int
    };
    lemma_low_bytes(layer_hash(layer));
    lemma_next_multiple(low);
    lemma_whole_turn();
}

/// The three low bytes of a hash.
proof fn lemma_low_bytes(h: int)
    requires
        0 <= h < 0x1_0000_0000,
    ensures
        ((h / 0x1_0000) % 0x100) * 0x1_0000 + ((h / 0x100) % 0x100) * 0x100 + h % 0x100 == h
            % 0x100_0000,
        0 <= (h / 0x1_0000) % 0x100 < 0x100,
        0 <= (h / 0x100) % 0x100 < 0x100,
        0 <= h % 0x100 < 0x100,
{
    let (a, b) = (h / 0x100, h % 0x100);
    let (c, d) = (a / 0x100, a % 0x100);
    let (e, f) = (c / 0x100, c % 0x100);
    assert(h == 0x100_0000 * e + (0x1_0000 * f + 0x100 * d + b));
    assert(h / 0x1_0000 == c);
    assert(h % 0x100_0000 == 0x1_0000 * f + 0x100 * d + b);
}

/// The hash of the next number is one step further.
proof fn lemma_next_multiple(low: int)
    ensures
        ((low + 1) * 2654435761) % 0x1_0000_0000 == ((low * 2654435761) % 0x1_0000_0000
            + 2654435761) % 0x1_0000_0000,
{
    let x = low * 2654435761;
    let (q, h) = (x / 0x1_0000_0000, x % 0x1_0000_0000);
    assert(x + 2654435761 == 0x1_0000_0000 * q + (h + 2654435761));
    lemma_mod_multiples_vanish(q, h + 2654435761, 0x1_0000_0000);
}

proof fn lemma_whole_turn()
    ensures
        (0x1_0000_0000int * 2654435761) % 0x1_0000_0000 == 0,
        (0int * 2654435761) % 0x1_0000_0000 == 0,
{
}

} // verus!
