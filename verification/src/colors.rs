use vstd::prelude::*;

verus! {

/// An RGB color with 8 bits per channel.
#[derive(Clone, Copy, Debug, PartialEq, Eq, Structural)]
pub struct Color {
    pub r: u8,
    pub g: u8,
    pub b: u8,
}

/// Lookup for a class index to a color.
pub type Palette = Vec<Color>;

impl Color {
    pub fn new(r: u8, g: u8, b: u8) -> (c: Color)
        ensures
            c == (Color { r, g, b }),
    {
        Color { r, g, b }
    }

    pub open spec fn gray_spec(v: u8) -> Color {
        Color { r: v, g: v, b: v }
    }

    /// The gray whose three channels are `v`.
    pub fn gray(v: u8) -> (c: Color)
        ensures
            c == Color::gray_spec(v),
    {
        Color { r: v, g: v, b: v }
    }

    pub open spec fn black_spec() -> Color {
        Color { r: 0, g: 0, b: 0 }
    }

    pub fn black() -> (c: Color)
        ensures
            c == Color::black_spec(),
    {
        Color { r: 0, g: 0, b: 0 }
    }
}

/// The twelve colors of the qualitative class palette, in order.
pub open spec fn class_colors() -> Seq<Color> {
    seq![
        Color { r: 166, g: 206, b: 227 },
        Color { r: 31, g: 120, b: 180 },
        Color { r: 178, g: 223, b: 138 },
        Color { r: 51, g: 160, b: 44 },
        Color { r: 251, g: 154, b: 153 },
        Color { r: 227, g: 26, b: 28 },
        Color { r: 253, g: 191, b: 111 },
        Color { r: 255, g: 127, b: 0 },
        Color { r: 202, g: 178, b: 214 },
        Color { r: 106, g: 61, b: 154 },
        Color { r: 255, g: 255, b: 153 },
        Color { r: 177, g: 89, b: 40 },
    ]
}

/// Generate an appropriate palette given the number of classes: the first
/// `nb_classes` of the twelve class colors (there are no more than twelve).
pub fn generate_palette(nb_classes: usize) -> (p: Palette)
    requires
        nb_classes <= 12,
    ensures
        p@ == class_colors().take(nb_classes as int),
{
    let mut all: Vec<Color> = vec![
        Color { r: 166, g: 206, b: 227 },
        Color { r: 31, g: 120, b: 180 },
        Color { r: 178, g: 223, b: 138 },
        Color { r: 51, g: 160, b: 44 },
        Color { r: 251, g: 154, b: 153 },
        Color { r: 227, g: 26, b: 28 },
        Color { r: 253, g: 191, b: 111 },
        Color { r: 255, g: 127, b: 0 },
        Color { r: 202, g: 178, b: 214 },
        Color { r: 106, g: 61, b: 154 },
        Color { r: 255, g: 255, b: 153 },
        Color { r: 177, g: 89, b: 40 },
    ];
    assert(all@ == class_colors());
    all.truncate(nb_classes);
    all
}

/// The gray level given to class `idx` out of `nb_classes`: `idx * 256 / nb_classes`.
pub open spec fn relative_shade(idx: int, nb_classes: int) -> int {
    idx * 256 / nb_classes
}

/// A palette of `nb_classes` grays going from black up, evenly spaced.
pub fn generate_relative_palette(nb_classes: usize) -> (p: Palette)
    ensures
        p.len() == nb_classes,
        forall|i: int| 0 <= i < nb_classes ==> (#[trigger] p[i]) == Color::gray_spec(
            relative_shade(i, nb_classes as int) as u8),
        forall|i: int| 0 <= i < nb_classes ==> 0 <= #[trigger] relative_shade(i, nb_classes as int) < 256,
{
    let mut p: Vec<Color> = Vec::new();
    for idx in 0..nb_classes
        invariant
            p.len() == idx,
            forall|i: int| 0 <= i < idx ==> (#[trigger] p[i]) == Color::gray_spec(
                relative_shade(i, nb_classes as int) as u8),
    {
        let scaled: u128 = (idx as u128) * 256;
        let amount128: u128 = scaled / (nb_classes as u128);
        proof {
            lemma_shade_bounds(idx as int, nb_classes as int);
        }
        let amount = amount128 as u8;
        p.push(Color::gray(amount));
    }
    proof {
        assert forall|i: int| 0 <= i < nb_classes implies 0 <= #[trigger] relative_shade(i, nb_classes as int) < 256 by {
            lemma_shade_bounds(i, nb_classes as int);
        }
    }
    p
}

proof fn lemma_shade_bounds(idx: int, n: int)
    requires
        0 <= idx < n,
    ensures
        0 <= relative_shade(idx, n) < 256,
{
    assert(0 <= idx * 256 / n < 256) by (nonlinear_arith)
        requires 0 <= idx < n;
}

/// Palette for highlighting one class: every color black but the one of `class`.
pub fn highlight_palette(palette: &Vec<Color>, class: usize) -> (p: Palette)
    requires
        class < palette.len(),
    ensures
        p.len() == palette.len(),
        p[class as int] == palette[class as int],
        forall|j: int| 0 <= j < p.len() && j != class ==> #[trigger] p[j] == Color::black_spec(),
{
    let mut p: Vec<Color> = Vec::new();
    p.resize(palette.len(), Color::black());
    p.set(class, palette[class]);
    p
}


/// With at most 256 classes, the relative palette gives every class its own
/// gray, darker for smaller class indices.
pub proof fn lemma_relative_shades_increase(nb_classes: int, i: int, j: int)
    requires
        0 < nb_classes <= 256,
        0 <= i < j < nb_classes,
    ensures
        relative_shade(i, nb_classes) < relative_shade(j, nb_classes),
{
    assert(i * 256 + nb_classes <= j * 256) by (nonlinear_arith)
        requires i < j, nb_classes <= 256;
    vstd::arithmetic::div_mod::lemma_div_plus_one(i * 256, nb_classes);
    vstd::arithmetic::div_mod::lemma_div_is_ordered(nb_classes + i * 256, j * 256, nb_classes);
}

} // verus!
