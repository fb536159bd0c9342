use vstd::prelude::*;
use crate::colors::Color;

verus! {

/// The mathematical content of an image: its size and its pixels, row by row.
pub struct ImageView {
    pub width: nat,
    pub height: nat,
    pub pixels: Seq<Color>,
}

impl ImageView {
    /// Position of pixel (x, y) among the pixels.
    pub open spec fn index(self, x: int, y: int) -> int {
        y * self.width + x
    }

    pub open spec fn in_bounds(self, x: int, y: int) -> bool {
        0 <= x < self.width && 0 <= y < self.height
    }

    pub open spec fn pixel(self, x: int, y: int) -> Color {
        self.pixels[self.index(x, y)]
    }

    /// There is exactly one pixel per coordinate of the image.
    pub open spec fn wf(self) -> bool {
        self.pixels.len() == self.width * self.height
    }
}

/// Pixel (x, y) of a `width` x `height` image is stored at `y * width + x`.
pub proof fn lemma_index(width: nat, height: nat, x: int, y: int)
    requires
        0 <= x < width,
        0 <= y < height,
    ensures
        0 <= y * width + x < width * height,
        (y * width + x) % (width as int) == x,
        (y * width + x) / (width as int) == y,
{
    assert(0 <= y * width + x < width * height) by (nonlinear_arith)
        requires 0 <= x < width, 0 <= y < height;
    vstd::arithmetic::div_mod::lemma_fundamental_div_mod_converse(y * width + x, width as int, y, x);
}

/// An RGB image of `width` x `height` pixels.
pub struct Image {
    width: u32,
    height: u32,
    pixels: Vec<Color>,
}

impl View for Image {
    type V = ImageView;

    closed spec fn view(&self) -> ImageView {
        ImageView { width: self.width as nat, height: self.height as nat, pixels: self.pixels@ }
    }
}

impl Image {
    #[verifier::type_invariant]
    spec fn inv(&self) -> bool {
        self.pixels@.len() == self.width as nat * self.height as nat
    }

    /// An image whose every pixel is `fill`.
    pub fn new(width: u32, height: u32, fill: Color) -> (img: Image)
        requires
            width as nat * height as nat <= usize::MAX,
        ensures
            img@.wf(),
            img@.width == width,
            img@.height == height,
            forall|i: int| 0 <= i < img@.pixels.len() ==> #[trigger] img@.pixels[i] == fill,
    {
        let n = width as usize * height as usize;
        let pixels = vec![fill; n];
        Image { width, height, pixels }
    }

    /// An image from its pixels row by row; `None` when there is not one pixel per coordinate.
    pub fn from_pixels(width: u32, height: u32, pixels: Vec<Color>) -> (img: Option<Image>)
        ensures
            img is Some <==> pixels.len() == width as nat * height as nat,
            img matches Some(i) ==> i@ == (ImageView { width: width as nat, height: height as nat, pixels: pixels@ }),
    {
        assert(width as nat * height as nat <= 0xffff_ffff_0000_0001) by (nonlinear_arith)
            requires width <= 0xffff_ffff, height <= 0xffff_ffff;
        if (pixels.len() as u128) == (width as u128) * (height as u128) {
            Some(Image { width, height, pixels })
        } else {
            None
        }
    }

    pub fn width(&self) -> (w: u32)
        ensures
            w == self@.width,
    {
        self.width
    }

    pub fn height(&self) -> (h: u32)
        ensures
            h == self@.height,
    {
        self.height
    }

    /// All pixels, row by row.
    pub fn pixels(&self) -> (p: &Vec<Color>)
        ensures
            p@ == self@.pixels,
            self@.wf(),
    {
        proof { use_type_invariant(self); }
        &self.pixels
    }

    pub fn get_pixel(&self, x: u32, y: u32) -> (c: Color)
        requires
            x < self@.width,
            y < self@.height,
        ensures
            c == self@.pixel(x as int, y as int),
            self@.wf(),
            self@.width <= u32::MAX,
            self@.height <= u32::MAX,
    {
        proof {
            use_type_invariant(self);
            lemma_index(self.width as nat, self.height as nat, x as int, y as int);
            assert((y as int) * (self.width as int) + (x as int) < self.pixels.len());
            assert((y as int) * (self.width as int) <= (y as int) * (self.width as int) + (x as int));
        }
        let i = y as usize * self.width as usize + x as usize;
        self.pixels[i]
    }
}

/// One sample to draw: its pixel coordinates and its color.
pub type Placement = (u32, u32, Color);

/// The pixels obtained by filling a `width` x `height` image with `background`
/// and then putting each placement's color at its coordinates, in order.
pub open spec fn painted(width: nat, height: nat, background: Color, ps: Seq<Placement>) -> Seq<Color>
    decreases ps.len(),
{
    if ps.len() == 0 {
        Seq::new(width * height, |i: int| background)
    } else {
        let prev = painted(width, height, background, ps.drop_last());
        let p = ps.last();
        if p.0 < width && p.1 < height {
            prev.update(p.1 * width + p.0, p.2)
        } else {
            prev
        }
    }
}

/// Every placement lies inside the image and, when it is drawn, finds its
/// pixel still showing the background.
pub open spec fn paint_allowed(width: nat, height: nat, background: Color, ps: Seq<Placement>) -> bool
    decreases ps.len(),
{
    if ps.len() == 0 {
        true
    } else {
        let p = ps.last();
        &&& paint_allowed(width, height, background, ps.drop_last())
        &&& p.0 < width
        &&& p.1 < height
        &&& painted(width, height, background, ps.drop_last())[p.1 * width + p.0] == background
    }
}

proof fn lemma_painted_len(width: nat, height: nat, background: Color, ps: Seq<Placement>)
    ensures
        painted(width, height, background, ps).len() == width * height,
    decreases ps.len(),
{
    if ps.len() > 0 {
        lemma_painted_len(width, height, background, ps.drop_last());
        let p = ps.last();
        if p.0 < width && p.1 < height {
            lemma_index(width, height, p.0 as int, p.1 as int);
        }
    }
}

/// Whether the placements can be drawn on a `width` x `height` image filled
/// with `background`: each one inside the image and, when drawn, on a pixel
/// still showing the background.
pub fn can_paint(width: u32, height: u32, background: Color, placements: &Vec<Placement>) -> (r: bool)
    requires
        width as nat * height as nat <= usize::MAX,
    ensures
        r == paint_allowed(width as nat, height as nat, background, placements@),
{
    let n = width as usize * height as usize;
    let mut pixels = vec![background; n];
    assert(pixels@ == painted(width as nat, height as nat, background, placements@.take(0)));
    let count = placements.len();
    for k in 0..count
        invariant
            count == placements.len(),
            n == width as nat * height as nat,
            pixels@ == painted(width as nat, height as nat, background, placements@.take(k as int)),
            paint_allowed(width as nat, height as nat, background, placements@.take(k as int)),
    {
        let ghost prefix = placements@.take(k as int);
        let ghost next = placements@.take(k + 1);
        assert(next.drop_last() == prefix);
        proof { lemma_painted_len(width as nat, height as nat, background, prefix); }
        let (x, y, c) = placements[k];
        if x >= width || y >= height {
            assert(!paint_allowed(width as nat, height as nat, background, next));
            proof { lemma_prefix_not_allowed(width as nat, height as nat, background, placements@, k as int + 1); }
            return false;
        }
        proof { lemma_index(width as nat, height as nat, x as int, y as int); }
        let idx = y as usize * width as usize + x as usize;
        if pixels[idx] != background {
            assert(!paint_allowed(width as nat, height as nat, background, next));
            proof { lemma_prefix_not_allowed(width as nat, height as nat, background, placements@, k as int + 1); }
            return false;
        }
        pixels.set(idx, c);
    }
    assert(placements@.take(count as int) == placements@);
    true
}

/// Draws the placements, in order, on a `width` x `height` image filled with
/// `background`. Each placement must lie inside the image and find its pixel
/// still showing the background.
pub fn paint(width: u32, height: u32, background: Color, placements: &Vec<Placement>) -> (img: Image)
    requires
        width as nat * height as nat <= usize::MAX,
        paint_allowed(width as nat, height as nat, background, placements@),
    ensures
        img@ == (ImageView {
            width: width as nat,
            height: height as nat,
            pixels: painted(width as nat, height as nat, background, placements@),
        }),
{
    proof { lemma_allowed_in_bounds(width as nat, height as nat, background, placements@); }
    let n = width as usize * height as usize;
    let mut pixels = vec![background; n];
    assert(pixels@ == painted(width as nat, height as nat, background, placements@.take(0)));
    let count = placements.len();
    for k in 0..count
        invariant
            count == placements.len(),
            n == width as nat * height as nat,
            pixels@ == painted(width as nat, height as nat, background, placements@.take(k as int)),
            forall|j: int| 0 <= j < count ==> (#[trigger] placements@[j]).0 < width && placements@[j].1 < height,
    {
        let ghost prefix = placements@.take(k as int);
        let ghost next = placements@.take(k + 1);
        assert(next.drop_last() == prefix);
        proof { lemma_painted_len(width as nat, height as nat, background, prefix); }
        let (x, y, c) = placements[k];
        assert(placements@[k as int].0 < width && placements@[k as int].1 < height);
        proof { lemma_index(width as nat, height as nat, x as int, y as int); }
        let idx = y as usize * width as usize + x as usize;
        pixels.set(idx, c);
    }
    assert(placements@.take(count as int) == placements@);
    proof { lemma_painted_len(width as nat, height as nat, background, placements@); }
    Image { width, height, pixels }
}

/// Once a prefix of the placements is not allowed, neither is the whole sequence.
proof fn lemma_prefix_not_allowed(width: nat, height: nat, background: Color, ps: Seq<Placement>, k: int)
    requires
        0 <= k <= ps.len(),
        !paint_allowed(width, height, background, ps.take(k)),
    ensures
        !paint_allowed(width, height, background, ps),
    decreases ps.len() - k,
{
    if k < ps.len() {
        assert(ps.take(k + 1).drop_last() == ps.take(k));
        lemma_prefix_not_allowed(width, height, background, ps, k + 1);
    } else {
        assert(ps.take(k) == ps);
    }
}


/// Whether the neighbour of (x, y) at offset (dx, dy) lies in the image and
/// differs from pixel (x, y); a neighbour outside the image counts as alike.
pub open spec fn neighbour_differs(img: ImageView, x: int, y: int, dx: int, dy: int) -> bool {
    let rx = x + dx;
    let ry = y + dy;
    img.in_bounds(rx, ry) && img.pixel(rx, ry) != img.pixel(x, y)
}

pub open spec fn one_if(b: bool) -> int {
    if b { 1 } else { 0 }
}

/// Four minus the number of left, right, upper and lower neighbours that differ.
pub open spec fn similar_neighbours(img: ImageView, x: int, y: int) -> int {
    4 - one_if(neighbour_differs(img, x, y, -1, 0)) - one_if(neighbour_differs(img, x, y, 1, 0))
      - one_if(neighbour_differs(img, x, y, 0, -1)) - one_if(neighbour_differs(img, x, y, 0, 1))
}

/// The gray level for a count of similar neighbours: a quarter of 256 per
/// neighbour, capped at 255.
pub open spec fn relative_level(count: int) -> u8 {
    if count >= 4 { 255 } else { (count * 64) as u8 }
}

/// The gray that `image_to_relative` gives to pixel (x, y).
pub open spec fn relative_pixel(img: ImageView, x: int, y: int) -> Color {
    Color::gray_spec(relative_level(similar_neighbours(img, x, y)))
}

/// Grays each pixel by how many of its four neighbours (left, right, up,
/// down) look alike, a neighbour outside the image counting as alike.
pub fn image_to_relative(img: &Image) -> (r: Image)
    ensures
        r@.wf(),
        r@.width == img@.width,
        r@.height == img@.height,
        forall|x: int, y: int| img@.in_bounds(x, y) ==> #[trigger] r@.pixel(x, y) == relative_pixel(img@, x, y),
{
    proof { use_type_invariant(img); }
    let w = img.width;
    let h = img.height;
    let n = img.pixels.len();
    let ghost v = img@;
    let mut out: Vec<Color> = Vec::new();
    for i in 0..n
        invariant
            v == img@,
            w == v.width,
            h == v.height,
            n == v.pixels.len(),
            n == (w as nat) * (h as nat),
            out.len() == i,
            forall|j: int| 0 <= j < i ==> #[trigger] out[j] == relative_pixel(v, j % (w as int), j / (w as int)),
    {
        assert(w > 0) by (nonlinear_arith) requires i < n, n == (w as nat) * (h as nat);
        let x = (i % (w as usize)) as u32;
        let y = (i / (w as usize)) as u32;
        proof {
            vstd::arithmetic::div_mod::lemma_fundamental_div_mod(i as int, w as int);
            assert((i as int) / (w as int) < h) by (nonlinear_arith)
                requires i < (w as nat) * (h as nat), i == (w as int) * ((i as int) / (w as int)) + (i as int) % (w as int),
                    0 <= (i as int) % (w as int), w > 0;
        }
        let center = img.get_pixel(x, y);
        let mut count: u8 = 4;
        // left
        if x >= 1 {
            if img.get_pixel(x - 1, y) != center {
                count = count - 1;
            }
        }
        // right
        if x as u64 + 1 < w as u64 {
            if img.get_pixel(x + 1, y) != center {
                count = count - 1;
            }
        }
        // up
        if y >= 1 {
            if img.get_pixel(x, y - 1) != center {
                count = count - 1;
            }
        }
        // down
        if y as u64 + 1 < h as u64 {
            if img.get_pixel(x, y + 1) != center {
                count = count - 1;
            }
        }
        let value: u8 = if count >= 4 { 255 } else { count * 64 };
        assert(count as int == similar_neighbours(v, x as int, y as int));
        out.push(Color::gray(value));
    }
    proof {
        assert forall|x: int, y: int| v.in_bounds(x, y) implies #[trigger] out@[v.index(x, y)] == relative_pixel(v, x, y) by {
            lemma_index(v.width, v.height, x, y);
        }
    }
    Image { width: w, height: h, pixels: out }
}

/// Every placement of an allowed painting lies inside the image.
pub proof fn lemma_allowed_in_bounds(width: nat, height: nat, background: Color, ps: Seq<Placement>)
    requires
        paint_allowed(width, height, background, ps),
    ensures
        forall|k: int| 0 <= k < ps.len() ==> (#[trigger] ps[k]).0 < width && ps[k].1 < height,
    decreases ps.len(),
{
    if ps.len() > 0 {
        let prev = ps.drop_last();
        lemma_allowed_in_bounds(width, height, background, prev);
        assert forall|k: int| 0 <= k < ps.len() implies (#[trigger] ps[k]).0 < width && ps[k].1 < height by {
            if k < ps.len() - 1 {
                assert(ps[k] == prev[k]);
            }
        }
    }
}

/// Drawing never hides a sample: after an allowed painting, the pixel of
/// every placement shows its color, unless that color is the background.
pub proof fn lemma_painted_shows_placements(width: nat, height: nat, background: Color, ps: Seq<Placement>)
    requires
        paint_allowed(width, height, background, ps),
    ensures
        forall|k: int| 0 <= k < ps.len() ==> #[trigger] ps[k].2 == background
            || painted(width, height, background, ps)[ps[k].1 * width + ps[k].0] == ps[k].2,
    decreases ps.len(),
{
    if ps.len() > 0 {
        let prev = ps.drop_last();
        lemma_painted_shows_placements(width, height, background, prev);
        lemma_painted_len(width, height, background, prev);
        lemma_allowed_in_bounds(width, height, background, ps);
        let p = ps.last();
        lemma_index(width, height, p.0 as int, p.1 as int);
        assert forall|k: int| 0 <= k < ps.len() implies #[trigger] ps[k].2 == background
            || painted(width, height, background, ps)[ps[k].1 * width + ps[k].0] == ps[k].2 by {
            if k < ps.len() - 1 {
                assert(ps[k] == prev[k]);
                let q = prev[k];
                lemma_index(width, height, q.0 as int, q.1 as int);
            }
        }
    }
}

/// Drawing leaves the background wherever no placement falls.
pub proof fn lemma_painted_background_elsewhere(width: nat, height: nat, background: Color, ps: Seq<Placement>, i: int)
    requires
        0 <= i < width * height,
        forall|k: int| 0 <= k < ps.len() ==> (#[trigger] ps[k]).1 * width + ps[k].0 != i,
    ensures
        painted(width, height, background, ps)[i] == background,
    decreases ps.len(),
{
    if ps.len() > 0 {
        let prev = ps.drop_last();
        assert forall|k: int| 0 <= k < prev.len() implies (#[trigger] prev[k]).1 * width + prev[k].0 != i by {
            assert(prev[k] == ps[k]);
        }
        lemma_painted_background_elsewhere(width, height, background, prev, i);
        lemma_painted_len(width, height, background, prev);
        assert(ps[ps.len() - 1] == ps.last());
        let p = ps.last();
        if p.0 < width && p.1 < height {
            lemma_index(width, height, p.0 as int, p.1 as int);
        }
    }
}


/// The relative image only holds five grays: 0, 64, 128, 192 and 255
/// (0 to 4 similar neighbours).
pub proof fn lemma_relative_levels(img: ImageView, x: int, y: int)
    ensures
        0 <= similar_neighbours(img, x, y) <= 4,
        relative_pixel(img, x, y).r == 0 || relative_pixel(img, x, y).r == 64 || relative_pixel(img, x, y).r == 128
            || relative_pixel(img, x, y).r == 192 || relative_pixel(img, x, y).r == 255,
{
}


/// Each gray counts the in-image left, right, upper and lower neighbours with
/// the very color of the pixel: four, less one for each in-image neighbour of
/// another color, whatever the colors (black included).
pub proof fn lemma_relative_counts_equal_neighbours(img: ImageView, x: int, y: int)
    requires
        img.in_bounds(x, y),
    ensures
        similar_neighbours(img, x, y) == 4
            - (if x >= 1 && img.pixel(x - 1, y) != img.pixel(x, y) { 1int } else { 0int })
            - (if x + 1 < img.width && img.pixel(x + 1, y) != img.pixel(x, y) { 1int } else { 0int })
            - (if y >= 1 && img.pixel(x, y - 1) != img.pixel(x, y) { 1int } else { 0int })
            - (if y + 1 < img.height && img.pixel(x, y + 1) != img.pixel(x, y) { 1int } else { 0int }),
        similar_neighbours(img, x, y) == 4 ==> relative_pixel(img, x, y) == Color::gray_spec(255),
        0 <= similar_neighbours(img, x, y) < 4 ==> relative_pixel(img, x, y) == Color::gray_spec((64 * similar_neighbours(img, x, y)) as u8),
{
}

/// The image with each color replaced by `f` of it.
pub open spec fn recolored(img: ImageView, f: spec_fn(Color) -> Color) -> ImageView {
    ImageView { width: img.width, height: img.height, pixels: img.pixels.map_values(f) }
}

/// The relative image only sees which neighbouring colors are equal:
/// recoloring the image one-to-one gives the same relative image.
pub proof fn lemma_relative_ignores_color_names(img: ImageView, f: spec_fn(Color) -> Color, x: int, y: int)
    requires
        img.wf(),
        img.in_bounds(x, y),
        forall|a: Color, b: Color| a != b ==> #[trigger] f(a) != #[trigger] f(b),
    ensures
        relative_pixel(recolored(img, f), x, y) == relative_pixel(img, x, y),
{
    let r = recolored(img, f);
    let w = img.width;
    let h = img.height;
    lemma_index(w, h, x, y);
    assert(r.pixel(x, y) == f(img.pixel(x, y)));
    if x >= 1 {
        lemma_index(w, h, x - 1, y);
        assert(r.pixel(x - 1, y) == f(img.pixel(x - 1, y)));
    }
    if x + 1 < w {
        lemma_index(w, h, x + 1, y);
        assert(r.pixel(x + 1, y) == f(img.pixel(x + 1, y)));
    }
    if y >= 1 {
        lemma_index(w, h, x, y - 1);
        assert(r.pixel(x, y - 1) == f(img.pixel(x, y - 1)));
    }
    if y + 1 < h {
        lemma_index(w, h, x, y + 1);
        assert(r.pixel(x, y + 1) == f(img.pixel(x, y + 1)));
    }
}

} // verus!
