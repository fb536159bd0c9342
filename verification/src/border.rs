use vstd::prelude::*;

verus! {

pub open spec fn min_int(a: int, b: int) -> int {
    if a <= b { a } else { b }
}

pub open spec fn max_int(a: int, b: int) -> int {
    if a >= b { a } else { b }
}

/// Smallest first (when `first` is true) or second coordinate of the points.
pub open spec fn lowest(points: Seq<(u32, u32)>, first: bool) -> int
    decreases points.len(),
{
    let c = |p: (u32, u32)| if first { p.0 as int } else { p.1 as int };
    if points.len() <= 1 {
        c(points[0])
    } else {
        min_int(lowest(points.drop_last(), first), c(points.last()))
    }
}

/// Largest first (when `first` is true) or second coordinate of the points.
pub open spec fn highest(points: Seq<(u32, u32)>, first: bool) -> int
    decreases points.len(),
{
    let c = |p: (u32, u32)| if first { p.0 as int } else { p.1 as int };
    if points.len() <= 1 {
        c(points[0])
    } else {
        max_int(highest(points.drop_last(), first), c(points.last()))
    }
}

/// Number of border points along a side from `lo` to `hi`: the distance,
/// capped at `u32::MAX`.
pub open spec fn side_steps(lo: int, hi: int) -> int {
    if hi - lo > u32::MAX { u32::MAX as int } else { hi - lo }
}

/// The border around the points: a box one pixel wider than their bounding
/// box on each side, described by its lower and upper corners.
pub open spec fn border_box(points: Seq<(u32, u32)>) -> (int, int, int, int) {
    (lowest(points, true) - 1, lowest(points, false) - 1, highest(points, true) + 1, highest(points, false) + 1)
}

/// The border points: first, for each column from the left side, its points on
/// the lower and upper sides; then, for each row from the lower side, its
/// points on the left and right sides.
pub open spec fn border_point(points: Seq<(u32, u32)>, k: int) -> (i64, i64) {
    let (lx, ly, hx, hy) = border_box(points);
    let w = side_steps(lx, hx);
    if k < 2 * w {
        let i = k / 2;
        if k % 2 == 0 { ((lx + i) as i64, ly as i64) } else { ((lx + i) as i64, hy as i64) }
    } else {
        let j = (k - 2 * w) / 2;
        if (k - 2 * w) % 2 == 0 { (lx as i64, (ly + j) as i64) } else { (hx as i64, (ly + j) as i64) }
    }
}

proof fn lemma_extremes(points: Seq<(u32, u32)>, first: bool)
    requires
        points.len() >= 1,
    ensures
        forall|k: int| 0 <= k < points.len() ==> lowest(points, first) <= (if first { (#[trigger] points[k]).0 as int } else { points[k].1 as int }) <= highest(points, first),
        0 <= lowest(points, first) <= highest(points, first) <= u32::MAX,
    decreases points.len(),
{
    if points.len() > 1 {
        let prev = points.drop_last();
        lemma_extremes(prev, first);
        assert forall|k: int| 0 <= k < points.len() implies lowest(points, first) <= (if first { (#[trigger] points[k]).0 as int } else { points[k].1 as int }) <= highest(points, first) by {
            if k < points.len() - 1 {
                assert(points[k] == prev[k]);
            }
        }
    }
}

/// For a given list of points in pixel space, the border around which the
/// drawing has to be computed.
pub fn compute_border(points: &[(u32, u32)]) -> (border: Vec<(i64, i64)>)
    requires
        points.len() >= 1,
    ensures
        border.len() == 2 * (side_steps(border_box(points@).0, border_box(points@).2) + side_steps(border_box(points@).1, border_box(points@).3)),
        forall|k: int| 0 <= k < border.len() ==> #[trigger] border[k] == border_point(points@, k),
        forall|k: int| 0 <= k < points.len() ==> border_box(points@).0 < (#[trigger] points[k]).0 < border_box(points@).2
            && border_box(points@).1 < points[k].1 < border_box(points@).3,
{
    let n = points.len();
    let mut min_x: u32 = points[0].0;
    let mut min_y: u32 = points[0].1;
    let mut max_x: u32 = points[0].0;
    let mut max_y: u32 = points[0].1;
    for i in 1..n
        invariant
            n == points.len(),
            min_x == lowest(points@.take(i as int), true),
            min_y == lowest(points@.take(i as int), false),
            max_x == highest(points@.take(i as int), true),
            max_y == highest(points@.take(i as int), false),
    {
        assert(points@.take(i + 1).drop_last() == points@.take(i as int));
        let (x, y) = points[i];
        if x < min_x { min_x = x; }
        if y < min_y { min_y = y; }
        if x > max_x { max_x = x; }
        if y > max_y { max_y = y; }
    }
    assert(points@.take(n as int) == points@);
    proof {
        lemma_extremes(points@, true);
        lemma_extremes(points@, false);
    }
    let lx: i64 = min_x as i64 - 1;
    let ly: i64 = min_y as i64 - 1;
    let hx: i64 = max_x as i64 + 1;
    let hy: i64 = max_y as i64 + 1;
    let width: u32 = if hx - lx > u32::MAX as i64 { u32::MAX } else { (hx - lx) as u32 };
    let height: u32 = if hy - ly > u32::MAX as i64 { u32::MAX } else { (hy - ly) as u32 };
    let ghost bx = border_box(points@);
    let mut border: Vec<(i64, i64)> = Vec::new();
    for i in 0..width
        invariant
            bx == border_box(points@),
            bx == (lx as int, ly as int, hx as int, hy as int),
            -1 <= lx < hx <= u32::MAX + 1,
            -1 <= ly < hy <= u32::MAX + 1,
            width == side_steps(lx as int, hx as int),
            border.len() == 2 * i,
            forall|k: int| 0 <= k < 2 * i ==> #[trigger] border[k] == border_point(points@, k),
    {
        let x = lx + i as i64;
        border.push((x, ly));
        border.push((x, hy));
        proof {
            assert((2 * i) / 2 == i && (2 * i) % 2 == 0);
            assert((2 * i + 1) / 2 == i && (2 * i + 1) % 2 == 1);
        }
    }
    for j in 0..height
        invariant
            bx == border_box(points@),
            bx == (lx as int, ly as int, hx as int, hy as int),
            -1 <= lx < hx <= u32::MAX + 1,
            -1 <= ly < hy <= u32::MAX + 1,
            width == side_steps(lx as int, hx as int),
            height == side_steps(ly as int, hy as int),
            border.len() == 2 * width + 2 * j,
            forall|k: int| 0 <= k < 2 * width + 2 * j ==> #[trigger] border[k] == border_point(points@, k),
    {
        let y = ly + j as i64;
        border.push((lx, y));
        border.push((hx, y));
        proof {
            assert((2 * j) / 2 == j && (2 * j) % 2 == 0);
            assert((2 * j + 1) / 2 == j && (2 * j + 1) % 2 == 1);
        }
    }
    border
}

} // verus!
