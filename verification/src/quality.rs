use vstd::prelude::*;
use crate::colors::Color;
use crate::raster::{Image, ImageView};
use crate::sort::lex_lt;

verus! {

/// Count the number of pixels of the same color in the neighborhood of a pixel.
pub struct PixelNeighboorhoodQuality {
    /// Size of lookup (should be odd).
    pub kernel_size: usize,
}

/// A coordinate is worth comparing when it lies in the image and its pixel is
/// not black (black means that no sample was drawn there).
pub open spec fn coord_valid(img: ImageView, x: int, y: int) -> bool {
    img.in_bounds(x, y) && img.pixel(x, y) != Color::black_spec()
}

/// Reach of the lookup on each side of the centre: a window of `kernel_size`
/// pixels (an odd size) reaches `(kernel_size - 1) / 2` pixels on each side.
pub open spec fn half_kernel(kernel_size: nat) -> int {
    if kernel_size == 0 { 0 } else { (kernel_size - 1) / 2 }
}

/// First coordinate of the window around `c` that lies in the image.
pub open spec fn window_lo(c: int, half: int) -> int {
    if c - half < 0 { 0 } else { c - half }
}

/// One past the last coordinate of the window around `c` that lies in an
/// image of `size` pixels along that axis.
pub open spec fn window_hi(c: int, half: int, size: nat) -> int {
    if c + half + 1 > size { size as int } else { c + half + 1 }
}

/// The valid coordinates of row `ly` with columns in [lo, hi), except the
/// centre (x, y), from left to right.
pub open spec fn row_coords(img: ImageView, x: int, y: int, ly: int, lo: int, hi: int) -> Seq<(u32, u32)>
    decreases hi - lo,
{
    if hi <= lo {
        seq![]
    } else {
        let prev = row_coords(img, x, y, ly, lo, hi - 1);
        let lx = hi - 1;
        if (lx, ly) != (x, y) && coord_valid(img, lx, ly) {
            prev.push((lx as u32, ly as u32))
        } else {
            prev
        }
    }
}

/// The valid coordinates of the window of reach `half` around (x, y), except
/// the centre, for the rows in [ly_lo, ly_hi), row by row.
pub open spec fn window_coords(img: ImageView, x: int, y: int, half: int, ly_lo: int, ly_hi: int) -> Seq<(u32, u32)>
    decreases ly_hi - ly_lo,
{
    if ly_hi <= ly_lo {
        seq![]
    } else {
        window_coords(img, x, y, half, ly_lo, ly_hi - 1)
            + row_coords(img, x, y, ly_hi - 1, window_lo(x, half), window_hi(x, half, img.width))
    }
}

/// The coordinates browsed around (x, y): the square window of `kernel_size`
/// pixels centred on (x, y), without the centre, keeping those inside the
/// image and not black, row by row.
pub open spec fn neighbourhood(img: ImageView, kernel_size: nat, x: int, y: int) -> Seq<(u32, u32)> {
    let h = half_kernel(kernel_size);
    window_coords(img, x, y, h, window_lo(y, h), window_hi(y, h, img.height))
}

/// Number of coordinates of `s` whose pixel has color `c`.
pub open spec fn count_color(img: ImageView, s: Seq<(u32, u32)>, c: Color) -> nat
    decreases s.len(),
{
    if s.len() == 0 {
        0
    } else {
        count_color(img, s.drop_last(), c) + if img.pixel(s.last().0 as int, s.last().1 as int) == c { 1nat } else { 0nat }
    }
}

/// Number of neighbours of (x, y) with the color of (x, y).
pub open spec fn similar_count(img: ImageView, kernel_size: nat, x: int, y: int) -> nat {
    count_color(img, neighbourhood(img, kernel_size, x, y), img.pixel(x, y))
}

/// Side of the square on whose diagonal the quality is sampled.
pub open spec fn diagonal_extent(img: ImageView) -> int {
    if img.width <= img.height { img.width as int } else { img.height as int }
}

/// Sum of `similar_count` over the diagonal points (p, p), (p + k, p + k), ...
/// inside the image.
pub open spec fn local_sum(img: ImageView, kernel_size: nat, p: int) -> nat
    decreases if p < diagonal_extent(img) { diagonal_extent(img) - p } else { 0 },
{
    if p >= diagonal_extent(img) || p < 0 || kernel_size == 0 {
        0
    } else {
        similar_count(img, kernel_size, p, p) + local_sum(img, kernel_size, p + kernel_size)
    }
}

/// Sum of the neighbourhood sizes over the diagonal points (p, p), (p + k, p + k), ...
/// inside the image.
pub open spec fn max_sum(img: ImageView, kernel_size: nat, p: int) -> nat
    decreases if p < diagonal_extent(img) { diagonal_extent(img) - p } else { 0 },
{
    if p >= diagonal_extent(img) || p < 0 || kernel_size == 0 {
        0
    } else {
        neighbourhood(img, kernel_size, p, p).len() + max_sum(img, kernel_size, p + kernel_size)
    }
}

/// The coordinates of a row: all in that row, in [lo, hi), valid and not the
/// centre, from left to right, and every such coordinate is there.
proof fn lemma_row_coords(img: ImageView, x: int, y: int, ly: int, lo: int, hi: int)
    requires
        0 <= lo,
        hi <= img.width,
        0 <= ly < img.height,
        img.width <= u32::MAX,
        img.height <= u32::MAX,
    ensures
        forall|i: int| 0 <= i < row_coords(img, x, y, ly, lo, hi).len() ==> {
            let c = #[trigger] row_coords(img, x, y, ly, lo, hi)[i];
            &&& c.1 as int == ly
            &&& lo <= c.0 < hi
            &&& coord_valid(img, c.0 as int, c.1 as int)
            &&& (c.0 as int, c.1 as int) != (x, y)
        },
        forall|i: int, j: int| 0 <= i < j < row_coords(img, x, y, ly, lo, hi).len() ==>
            (#[trigger] row_coords(img, x, y, ly, lo, hi)[i]).0 < (#[trigger] row_coords(img, x, y, ly, lo, hi)[j]).0,
        forall|lx: int| lo <= lx < hi && (lx, ly) != (x, y) && coord_valid(img, lx, ly) ==>
            #[trigger] row_coords(img, x, y, ly, lo, hi).contains((lx as u32, ly as u32)),
    decreases hi - lo,
{
    if hi > lo {
        lemma_row_coords(img, x, y, ly, lo, hi - 1);
        let prev = row_coords(img, x, y, ly, lo, hi - 1);
        let lx = hi - 1;
        if (lx, ly) != (x, y) && coord_valid(img, lx, ly) {
            let q = (lx as u32, ly as u32);
            let cur = prev.push(q);
            assert forall|i: int| 0 <= i < prev.len() implies #[trigger] cur[i] == prev[i] by {}
            assert(cur[prev.len() as int] == q);
            assert forall|l: int| lo <= l < hi && (l, ly) != (x, y) && coord_valid(img, l, ly) implies
                #[trigger] cur.contains((l as u32, ly as u32)) by {
                if l < hi - 1 {
                    assert(prev.contains((l as u32, ly as u32)));
                    let i = choose|i: int| 0 <= i < prev.len() && prev[i] == (l as u32, ly as u32);
                    assert(cur[i] == (l as u32, ly as u32));
                } else {
                    assert(cur[prev.len() as int] == (l as u32, ly as u32));
                }
            }
        } else {
            assert forall|l: int| lo <= l < hi && (l, ly) != (x, y) && coord_valid(img, l, ly) implies
                #[trigger] prev.contains((l as u32, ly as u32)) by {
                assert(l < hi - 1);
            }
        }
    }
}

/// The coordinates of the window rows [ly_lo, ly_hi): each in those rows and
/// in the window's columns, valid and not the centre, in row-major order, and
/// every such coordinate is there.
proof fn lemma_window_coords(img: ImageView, x: int, y: int, half: int, ly_lo: int, ly_hi: int)
    requires
        0 <= ly_lo,
        ly_hi <= img.height,
        img.width <= u32::MAX,
        img.height <= u32::MAX,
    ensures
        forall|i: int| 0 <= i < window_coords(img, x, y, half, ly_lo, ly_hi).len() ==> {
            let c = #[trigger] window_coords(img, x, y, half, ly_lo, ly_hi)[i];
            &&& ly_lo <= c.1 < ly_hi
            &&& window_lo(x, half) <= c.0 < window_hi(x, half, img.width)
            &&& coord_valid(img, c.0 as int, c.1 as int)
            &&& (c.0 as int, c.1 as int) != (x, y)
        },
        forall|i: int, j: int| 0 <= i < j < window_coords(img, x, y, half, ly_lo, ly_hi).len() ==> lex_lt(
            (#[trigger] window_coords(img, x, y, half, ly_lo, ly_hi)[i]).1 as int,
            window_coords(img, x, y, half, ly_lo, ly_hi)[i].0 as int,
            (#[trigger] window_coords(img, x, y, half, ly_lo, ly_hi)[j]).1 as int,
            window_coords(img, x, y, half, ly_lo, ly_hi)[j].0 as int,
        ),
        forall|lx: int, ly: int| ly_lo <= ly < ly_hi && window_lo(x, half) <= lx < window_hi(x, half, img.width)
            && (lx, ly) != (x, y) && coord_valid(img, lx, ly) ==>
            #[trigger] window_coords(img, x, y, half, ly_lo, ly_hi).contains((lx as u32, ly as u32)),
    decreases ly_hi - ly_lo,
{
    if ly_hi > ly_lo {
        let lo = window_lo(x, half);
        let hi = window_hi(x, half, img.width);
        lemma_window_coords(img, x, y, half, ly_lo, ly_hi - 1);
        lemma_row_coords(img, x, y, ly_hi - 1, lo, hi);
        let a = window_coords(img, x, y, half, ly_lo, ly_hi - 1);
        let b = row_coords(img, x, y, ly_hi - 1, lo, hi);
        let cur = a + b;
        assert(cur == window_coords(img, x, y, half, ly_lo, ly_hi));
        assert forall|i: int| 0 <= i < cur.len() implies {
            let c = #[trigger] cur[i];
            &&& ly_lo <= c.1 < ly_hi
            &&& lo <= c.0 < hi
            &&& coord_valid(img, c.0 as int, c.1 as int)
            &&& (c.0 as int, c.1 as int) != (x, y)
        } by {
            if i < a.len() {
                assert(cur[i] == a[i]);
            } else {
                assert(cur[i] == b[i - a.len()]);
            }
        }
        assert forall|i: int, j: int| 0 <= i < j < cur.len() implies lex_lt(
            (#[trigger] cur[i]).1 as int, cur[i].0 as int, (#[trigger] cur[j]).1 as int, cur[j].0 as int) by {
            if j < a.len() {
                assert(cur[i] == a[i] && cur[j] == a[j]);
            } else if i < a.len() {
                assert(cur[i] == a[i] && cur[j] == b[j - a.len()]);
            } else {
                assert(cur[i] == b[i - a.len()] && cur[j] == b[j - a.len()]);
            }
        }
        assert forall|lx: int, ly: int| ly_lo <= ly < ly_hi && lo <= lx < hi
            && (lx, ly) != (x, y) && coord_valid(img, lx, ly) implies #[trigger] cur.contains((lx as u32, ly as u32)) by {
            if ly < ly_hi - 1 {
                assert(a.contains((lx as u32, ly as u32)));
                let i = choose|i: int| 0 <= i < a.len() && a[i] == (lx as u32, ly as u32);
                assert(cur[i] == a[i]);
            } else {
                assert(b.contains((lx as u32, ly as u32)));
                let i = choose|i: int| 0 <= i < b.len() && b[i] == (lx as u32, ly as u32);
                assert(cur[a.len() + i] == b[i]);
            }
        }
    }
}

/// The browsed coordinates are exactly the pixels of the square window of
/// `kernel_size` pixels around (x, y), other than (x, y), that lie in the
/// image and are not black; each appears once.
pub proof fn lemma_neighbourhood(img: ImageView, kernel_size: nat, x: int, y: int)
    requires
        img.width <= u32::MAX,
        img.height <= u32::MAX,
    ensures
        forall|i: int| 0 <= i < neighbourhood(img, kernel_size, x, y).len() ==> {
            let c = #[trigger] neighbourhood(img, kernel_size, x, y)[i];
            &&& coord_valid(img, c.0 as int, c.1 as int)
            &&& (c.0 as int, c.1 as int) != (x, y)
            &&& x - half_kernel(kernel_size) <= c.0 <= x + half_kernel(kernel_size)
            &&& y - half_kernel(kernel_size) <= c.1 <= y + half_kernel(kernel_size)
        },
        forall|i: int, j: int| 0 <= i < j < neighbourhood(img, kernel_size, x, y).len() ==>
            #[trigger] neighbourhood(img, kernel_size, x, y)[i] != #[trigger] neighbourhood(img, kernel_size, x, y)[j],
        forall|lx: int, ly: int| x - half_kernel(kernel_size) <= lx <= x + half_kernel(kernel_size)
            && y - half_kernel(kernel_size) <= ly <= y + half_kernel(kernel_size)
            && (lx, ly) != (x, y) && coord_valid(img, lx, ly) ==>
            #[trigger] neighbourhood(img, kernel_size, x, y).contains((lx as u32, ly as u32)),
{
    let h = half_kernel(kernel_size);
    lemma_window_coords(img, x, y, h, window_lo(y, h), window_hi(y, h, img.height));
    let s = neighbourhood(img, kernel_size, x, y);
    assert forall|i: int, j: int| 0 <= i < j < s.len() implies #[trigger] s[i] != #[trigger] s[j] by {
        assert(lex_lt(s[i].1 as int, s[i].0 as int, s[j].1 as int, s[j].0 as int));
    }
}

proof fn lemma_count_color_le(img: ImageView, s: Seq<(u32, u32)>, c: Color)
    ensures
        count_color(img, s, c) <= s.len(),
    decreases s.len(),
{
    if s.len() > 0 {
        lemma_count_color_le(img, s.drop_last(), c);
    }
}

impl PixelNeighboorhoodQuality {
    /// Check if the coord is within the image and is not black (means no pixel written).
    pub fn coord_valid_for(img: &Image, x: i64, y: i64) -> (r: bool)
        ensures
            r == coord_valid(img@, x as int, y as int),
    {
        if x >= 0 && x < img.width() as i64 && y >= 0 && y < img.height() as i64 {
            let color = img.get_pixel(x as u32, y as u32);
            color != Color::black()
        } else {
            false
        }
    }

    /// For a given coordinates, provides the other coordinates to browse in order to find a matching color:
    /// within the image, not black, and not the centre.
    pub fn coords_for(&self, img: &Image, x: u32, y: u32) -> (r: Vec<(u32, u32)>)
        ensures
            r@ == neighbourhood(img@, self.kernel_size as nat, x as int, y as int),
    {
        let half: u64 = if self.kernel_size == 0 { 0 } else { ((self.kernel_size - 1) / 2) as u64 };
        let w = img.width();
        let h = img.height();
        let lo_x: u32 = if (x as u64) > half { (x as u64 - half) as u32 } else { 0 };
        let hi_x: u32 = if half >= w as u64 || x as u64 + half + 1 > w as u64 { w } else { (x as u64 + half + 1) as u32 };
        let lo_y: u32 = if (y as u64) > half { (y as u64 - half) as u32 } else { 0 };
        let hi_y: u32 = if half >= h as u64 || y as u64 + half + 1 > h as u64 { h } else { (y as u64 + half + 1) as u32 };
        let ghost v = img@;
        let ghost hk = half_kernel(self.kernel_size as nat);
        assert(lo_x == window_lo(x as int, hk) && hi_x == window_hi(x as int, hk, v.width));
        assert(lo_y == window_lo(y as int, hk) && hi_y == window_hi(y as int, hk, v.height));
        let mut out: Vec<(u32, u32)> = Vec::new();
        let mut ly: u32 = lo_y;
        if lo_y < hi_y {
            while ly < hi_y
                invariant
                    v == img@,
                    lo_y <= ly <= hi_y,
                    lo_x == window_lo(x as int, hk),
                    hi_x == window_hi(x as int, hk, v.width),
                    out@ == window_coords(v, x as int, y as int, hk, lo_y as int, ly as int),
                decreases hi_y - ly,
            {
                let ghost before = out@;
                let mut lx: u32 = lo_x;
                if lo_x < hi_x {
                    while lx < hi_x
                        invariant
                            v == img@,
                            lo_x <= lx <= hi_x,
                            out@ == before + row_coords(v, x as int, y as int, ly as int, lo_x as int, lx as int),
                        decreases hi_x - lx,
                    {
                        if (lx != x || ly != y) && Self::coord_valid_for(img, lx as i64, ly as i64) {
                            out.push((lx, ly));
                            assert(out@ == before + row_coords(v, x as int, y as int, ly as int, lo_x as int, lx + 1));
                        }
                        lx = lx + 1;
                    }
                }
                assert(row_coords(v, x as int, y as int, ly as int, lo_x as int, hi_x as int) == row_coords(v, x as int, y as int, ly as int, lo_x as int, lx as int));
                ly = ly + 1;
            }
        }
        out
    }

    /// Number of browsed neighbours of (x, y) sharing its color.
    pub fn nb_similar_colors(&self, img: &Image, x: u32, y: u32) -> (r: usize)
        requires
            x < img@.width,
            y < img@.height,
        ensures
            r == similar_count(img@, self.kernel_size as nat, x as int, y as int),
            r <= neighbourhood(img@, self.kernel_size as nat, x as int, y as int).len(),
    {
        let color = img.get_pixel(x, y);
        let coords = self.coords_for(img, x, y);
        proof {
            lemma_neighbourhood(img@, self.kernel_size as nat, x as int, y as int);
        }
        let n = coords.len();
        let mut count: usize = 0;
        for i in 0..n
            invariant
                n == coords.len(),
                coords@ == neighbourhood(img@, self.kernel_size as nat, x as int, y as int),
                color == img@.pixel(x as int, y as int),
                forall|j: int| 0 <= j < n ==> coord_valid(img@, (#[trigger] coords@[j]).0 as int, coords@[j].1 as int),
                count == count_color(img@, coords@.take(i as int), color),
                count <= i,
        {
            assert(coords@.take(i + 1).drop_last() == coords@.take(i as int));
            let (cx, cy) = coords[i];
            assert(coord_valid(img@, coords@[i as int].0 as int, coords@[i as int].1 as int));
            if img.get_pixel(cx, cy) == color {
                count = count + 1;
            }
        }
        assert(coords@.take(n as int) == coords@);
        count
    }

    /// Sum of the numbers of similar neighbours over the diagonal points
    /// (0, 0), (k, k), (2k, 2k), ... of the image, k being the kernel size.
    pub fn local_quality(&self, img: &Image) -> (r: u128)
        requires
            1 <= self.kernel_size,
        ensures
            r == local_sum(img@, self.kernel_size as nat, 0),
    {
        let w = img.width();
        let h = img.height();
        let m: u32 = if w <= h { w } else { h };
        let k = self.kernel_size;
        let mut p: u32 = 0;
        let mut sum: u128 = 0;
        let mut count: u64 = 0;
        while p < m
            invariant
                1 <= k,
                k == self.kernel_size,
                m == diagonal_extent(img@),
                w == img@.width,
                h == img@.height,
                p <= m,
                count <= p,
                sum <= count * 0x1_0000_0000_0000_0000,
                sum + local_sum(img@, k as nat, p as int) == local_sum(img@, k as nat, 0),
            decreases m - p,
        {
            let s = self.nb_similar_colors(img, p, p);
            sum = sum + s as u128;
            count = count + 1;
            if ((m - p) as usize) <= k {
                assert(local_sum(img@, k as nat, p + k) == 0);
                p = m;
            } else {
                p = p + k as u32;
            }
        }
        sum
    }

    /// Sum of the numbers of browsed neighbours over the same diagonal points:
    /// the best `local_quality` that an image of this content could reach.
    pub fn max_quality(&self, img: &Image) -> (r: u128)
        requires
            1 <= self.kernel_size,
        ensures
            r == max_sum(img@, self.kernel_size as nat, 0),
    {
        let w = img.width();
        let h = img.height();
        let m: u32 = if w <= h { w } else { h };
        let k = self.kernel_size;
        let mut p: u32 = 0;
        let mut sum: u128 = 0;
        let mut count: u64 = 0;
        while p < m
            invariant
                1 <= k,
                k == self.kernel_size,
                m == diagonal_extent(img@),
                w == img@.width,
                h == img@.height,
                p <= m,
                count <= p,
                sum <= count * 0x1_0000_0000_0000_0000,
                sum + max_sum(img@, k as nat, p as int) == max_sum(img@, k as nat, 0),
            decreases m - p,
        {
            let s = self.coords_for(img, p, p).len();
            sum = sum + s as u128;
            count = count + 1;
            if ((m - p) as usize) <= k {
                assert(max_sum(img@, k as nat, p + k) == 0);
                p = m;
            } else {
                p = p + k as u32;
            }
        }
        sum
    }
}

/// The local quality never exceeds the maximal quality, so their ratio lies in [0, 1].
pub proof fn lemma_local_at_most_max(img: ImageView, kernel_size: nat, p: int)
    ensures
        local_sum(img, kernel_size, p) <= max_sum(img, kernel_size, p),
    decreases if p < diagonal_extent(img) { diagonal_extent(img) - p } else { 0 },
{
    if !(p >= diagonal_extent(img) || p < 0 || kernel_size == 0) {
        lemma_local_at_most_max(img, kernel_size, p + kernel_size);
        lemma_count_color_le(img, neighbourhood(img, kernel_size, p, p), img.pixel(p, p));
    }
}


/// The similar count is the number of browsed neighbours whose color is the
/// color of the centre; a neighbour of another color adds nothing.
pub proof fn lemma_similar_count_is_same_color_count(img: ImageView, kernel_size: nat, x: int, y: int)
    ensures
        similar_count(img, kernel_size, x, y) == neighbourhood(img, kernel_size, x, y).filter(
            |c: (u32, u32)| img.pixel(c.0 as int, c.1 as int) == img.pixel(x, y),
        ).len(),
{
    lemma_count_color_filter(img, neighbourhood(img, kernel_size, x, y), img.pixel(x, y));
}

proof fn lemma_count_color_filter(img: ImageView, s: Seq<(u32, u32)>, c: Color)
    ensures
        count_color(img, s, c) == s.filter(|p: (u32, u32)| img.pixel(p.0 as int, p.1 as int) == c).len(),
    decreases s.len(),
{
    reveal(Seq::filter);
    if s.len() > 0 {
        lemma_count_color_filter(img, s.drop_last(), c);
    }
}


proof fn lemma_count_color_all(img: ImageView, s: Seq<(u32, u32)>, c: Color)
    requires
        forall|i: int| 0 <= i < s.len() ==> img.pixel((#[trigger] s[i]).0 as int, s[i].1 as int) == c,
    ensures
        count_color(img, s, c) == s.len(),
    decreases s.len(),
{
    if s.len() > 0 {
        let prev = s.drop_last();
        assert forall|i: int| 0 <= i < prev.len() implies img.pixel((#[trigger] prev[i]).0 as int, prev[i].1 as int) == c by {
            assert(prev[i] == s[i]);
        }
        lemma_count_color_all(img, prev, c);
        assert(s[s.len() - 1] == s.last());
    }
}

/// On an image drawn in one single color, every browsed neighbour is
/// similar: the local quality reaches the maximal quality.
pub proof fn lemma_uniform_image_has_full_quality(img: ImageView, kernel_size: nat, p: int, c: Color)
    requires
        img.wf(),
        img.width <= u32::MAX,
        img.height <= u32::MAX,
        forall|i: int| 0 <= i < img.pixels.len() ==> #[trigger] img.pixels[i] == c,
    ensures
        local_sum(img, kernel_size, p) == max_sum(img, kernel_size, p),
    decreases if p < diagonal_extent(img) { diagonal_extent(img) - p } else { 0 },
{
    if !(p >= diagonal_extent(img) || p < 0 || kernel_size == 0) {
        lemma_uniform_image_has_full_quality(img, kernel_size, p + kernel_size, c);
        let s = neighbourhood(img, kernel_size, p, p);
        lemma_neighbourhood(img, kernel_size, p, p);
        crate::raster::lemma_index(img.width, img.height, p, p);
        assert forall|i: int| 0 <= i < s.len() implies img.pixel((#[trigger] s[i]).0 as int, s[i].1 as int) == img.pixel(p, p) by {
            assert(coord_valid(img, s[i].0 as int, s[i].1 as int));
            crate::raster::lemma_index(img.width, img.height, s[i].0 as int, s[i].1 as int);
        }
        lemma_count_color_all(img, s, img.pixel(p, p));
    }
}

} // verus!
