use vstd::prelude::*;

verus! {

/// Whether `id`, read as an `i64`, lies in the half-open range between `a` and
/// `b`, whichever of the two is the smaller bound.
pub open spec fn in_range(id: u64, a: int, b: int) -> bool {
    let v = (id as i64) as int;
    if a <= b { a <= v < b } else { b <= v < a }
}

/// Whether `id` lies in the half-open range between `a` and `b`, whichever of
/// the two is the smaller bound (`id` is read as an `i64`).
pub fn is_in(id: u64, a: i64, b: i64) -> (r: bool)
    ensures
        r == in_range(id, a as int, b as int),
{
    let id = id as i64;
    let mi = if a <= b { a } else { b };
    let ma = if a <= b { b } else { a };
    id >= mi && id < ma
}

pub open spec fn abs(x: int) -> int {
    if x < 0 { -x } else { x }
}

/// Length of each of the seven sub-ranges of the range between `min_i` and `max_i`.
pub open spec fn sub_size(min_i: int, max_i: int) -> int {
    abs(max_i - min_i) / 7
}

/// +1 when the range goes up from `min_i`, -1 when it goes down.
pub open spec fn direction(min_i: int, max_i: int) -> int {
    if min_i > max_i { -1 } else { 1 }
}

/// The k-th boundary between sub-ranges, counted from `min_i`.
pub open spec fn mark(min_i: int, max_i: int, k: int) -> int {
    min_i + direction(min_i, max_i) * sub_size(min_i, max_i) * k
}

/// The first sub-range, from `k` on, that contains `id`.
pub open spec fn first_child(min_i: int, max_i: int, id: u64, k: int) -> Option<int>
    decreases 7 - k,
{
    if k >= 7 || k < 0 {
        None
    } else if in_range(id, mark(min_i, max_i, k), mark(min_i, max_i, k + 1)) {
        Some(k)
    } else {
        first_child(min_i, max_i, id, k + 1)
    }
}

/// The range (from, to) of the k-th child of a Gosper segment, and whether the
/// child runs against the parent's orientation.
pub open spec fn child_range(min_i: int, max_i: int, k: int) -> (int, int, bool) {
    if k == 0 {
        (mark(min_i, max_i, 0), mark(min_i, max_i, 1), false)
    } else if k == 1 {
        (mark(min_i, max_i, 2), mark(min_i, max_i, 1), true)
    } else if k == 2 {
        (mark(min_i, max_i, 3), mark(min_i, max_i, 2), true)
    } else if k == 3 {
        (mark(min_i, max_i, 3), mark(min_i, max_i, 4), false)
    } else if k == 4 {
        (mark(min_i, max_i, 4), mark(min_i, max_i, 5), false)
    } else if k == 5 {
        (mark(min_i, max_i, 5), mark(min_i, max_i, 6), false)
    } else {
        (mark(min_i, max_i, 7), mark(min_i, max_i, 6), true)
    }
}

/// The child of the segment between `min_i` and `max_i` that holds `id`:
/// its number, its range and whether it flips the orientation.
pub open spec fn gosper_child_spec(min_i: int, max_i: int, id: u64) -> Option<(u8, int, int, bool)> {
    match first_child(min_i, max_i, id, 0) {
        None => None,
        Some(k) => {
            let c = child_range(min_i, max_i, k);
            Some((k as u8, c.0, c.1, c.2))
        },
    }
}

proof fn lemma_mark_bounds(min_i: int, max_i: int, k: int)
    requires
        0 <= k <= 7,
    ensures
        min_i <= max_i ==> min_i <= mark(min_i, max_i, k) <= max_i,
        min_i > max_i ==> max_i <= mark(min_i, max_i, k) <= min_i,
{
    let s = sub_size(min_i, max_i);
    assert(0 <= s * k <= 7 * s) by (nonlinear_arith) requires 0 <= k <= 7, s >= 0;
    assert(7 * s <= abs(max_i - min_i));
    if min_i > max_i {
        assert(direction(min_i, max_i) * s * k == -(s * k)) by (nonlinear_arith)
            requires direction(min_i, max_i) == -1;
    } else {
        assert(direction(min_i, max_i) * s * k == s * k) by (nonlinear_arith)
            requires direction(min_i, max_i) == 1;
    }
}

proof fn lemma_first_child_found(min_i: int, max_i: int, id: u64, k: int)
    ensures
        first_child(min_i, max_i, id, k) matches Some(j) ==> k <= j < 7
            && in_range(id, mark(min_i, max_i, j), mark(min_i, max_i, j + 1)),
    decreases 7 - k,
{
    if 0 <= k < 7 && !in_range(id, mark(min_i, max_i, k), mark(min_i, max_i, k + 1)) {
        lemma_first_child_found(min_i, max_i, id, k + 1);
    }
}

/// The child of a Gosper segment that contains `id`, found among its seven
/// sub-ranges: its number, its range and whether it flips the orientation.
/// One of the sub-ranges must hold `id`.
pub fn gosper_child(min_i: i64, max_i: i64, id: u64) -> (c: (u8, i64, i64, bool))
    requires
        -i64::MAX <= max_i - min_i <= i64::MAX,
        gosper_child_spec(min_i as int, max_i as int, id) is Some,
    ensures
        gosper_child_spec(min_i as int, max_i as int, id) == Some((c.0, c.1 as int, c.2 as int, c.3)),
        if min_i <= max_i { min_i <= c.1 <= max_i && min_i <= c.2 <= max_i } else { max_i <= c.1 <= min_i && max_i <= c.2 <= min_i },
{
    let diff = max_i - min_i;
    let dist: i64 = if diff < 0 { -diff } else { diff };
    let size = dist / 7;
    let rev: i64 = if min_i > max_i { -1 } else { 1 };
    assert(size == sub_size(min_i as int, max_i as int));
    assert(7 * size <= dist);
    assert(rev == direction(min_i as int, max_i as int));
    let mut marks: Vec<i64> = Vec::new();
    for k in 0..8i64
        invariant
            size == sub_size(min_i as int, max_i as int),
            7 * size <= dist,
            0 <= size,
            dist <= i64::MAX,
            rev == direction(min_i as int, max_i as int),
            marks.len() == k,
            forall|j: int| 0 <= j < k ==> #[trigger] marks[j] == mark(min_i as int, max_i as int, j),
    {
        proof {
            lemma_mark_bounds(min_i as int, max_i as int, k as int);
            assert(0 <= size * k <= 7 * size) by (nonlinear_arith) requires 0 <= k <= 7, size >= 0;
            assert(rev * size * k == if rev == 1 { size * k } else { -(size * k) }) by (nonlinear_arith)
                requires rev == 1 || rev == -1;
        }
        let step = size * k;
        let m = if rev == 1 { min_i + step } else { min_i - step };
        marks.push(m);
    }
    let ghost mi = min_i as int;
    let ghost ma = max_i as int;
    proof {
        lemma_first_child_found(mi, ma, id, 0);
        assert forall|j: int| 0 <= j <= 7 implies (if mi <= ma { mi <= #[trigger] mark(mi, ma, j) <= ma } else { ma <= mark(mi, ma, j) <= mi }) by {
            lemma_mark_bounds(mi, ma, j);
        }
    }
    let mut k: usize = 0;
    while k < 7
        invariant
            marks.len() == 8,
            forall|j: int| 0 <= j < 8 ==> #[trigger] marks[j] == mark(mi, ma, j),
            0 <= k <= 7,
            mi == min_i as int,
            ma == max_i as int,
            first_child(mi, ma, id, 0) == first_child(mi, ma, id, k as int),
            forall|j: int| 0 <= j <= 7 ==> (if mi <= ma { mi <= #[trigger] mark(mi, ma, j) <= ma } else { ma <= mark(mi, ma, j) <= mi }),
        decreases 7 - k,
    {
        if is_in(id, marks[k], marks[k + 1]) {
            assert(first_child(mi, ma, id, k as int) == Some(k as int));
            let c = if k == 0 {
                (0u8, marks[0], marks[1], false)
            } else if k == 1 {
                (1u8, marks[2], marks[1], true)
            } else if k == 2 {
                (2u8, marks[3], marks[2], true)
            } else if k == 3 {
                (3u8, marks[3], marks[4], false)
            } else if k == 4 {
                (4u8, marks[4], marks[5], false)
            } else if k == 5 {
                (5u8, marks[5], marks[6], false)
            } else {
                (6u8, marks[7], marks[6], true)
            };
            return c;
        }
        k = k + 1;
    }
    proof {
        assert(first_child(mi, ma, id, 7) is None);
        assert(false);
    }
    (0, min_i, min_i, false)
}

/// 7 to the power `n`.
pub open spec fn pow7(n: nat) -> nat
    decreases n,
{
    if n == 0 { 1 } else { 7 * pow7((n - 1) as nat) }
}

proof fn lemma_pow7_monotone(a: nat, b: nat)
    requires
        a <= b,
    ensures
        1 <= pow7(a) <= pow7(b),
    decreases b,
{
    if b > 0 {
        if a < b {
            lemma_pow7_monotone(a, (b - 1) as nat);
        }
        lemma_pow7_monotone(0, (b - 1) as nat);
    }
}

/// Where the descent towards `id` along the Gosper segment between `min_i` and
/// `max_i` goes during `levels` levels: the child taken at each level and the
/// orientation reached; `None` when some level has no child holding `id`.
pub open spec fn gosper_descent(min_i: int, max_i: int, id: u64, levels: nat, sens: bool) -> Option<(Seq<u8>, bool)>
    decreases levels,
{
    if levels == 0 {
        Some((seq![], sens))
    } else {
        match gosper_child_spec(min_i, max_i, id) {
            None => None,
            Some(c) => match gosper_descent(c.1, c.2, id, (levels - 1) as nat, sens != c.3) {
                None => None,
                Some(rest) => Some((seq![c.0] + rest.0, rest.1)),
            },
        }
    }
}

/// The path to element `id` of the Gosper curve of the given order: the child
/// taken at each of the `order` levels, starting from the whole range
/// [0, 7^order) oriented forward, and the orientation of the final segment.
/// The curve of order n >= 1 has the elements 0 .. 7^n - 1.
pub fn gosper_path(order: u32, id: u64) -> (r: (Vec<u8>, bool))
    requires
        order <= 22,
        order == 0 || id < pow7(order as nat),
    ensures
        gosper_descent(0, pow7(order as nat) as int, id, order as nat, true) == Some((r.0@, r.1)),
{
    let mut span: i64 = 1;
    let mut i: u32 = 0;
    proof {
        lemma_pow7_monotone(order as nat, 22);
        assert(pow7(22) == 3909821048582988049) by { reveal_with_fuel(pow7, 23); }
    }
    while i < order
        invariant
            i <= order <= 22,
            span == pow7(i as nat),
            pow7(order as nat) <= 3909821048582988049,
        decreases order - i,
    {
        proof { lemma_pow7_monotone((i + 1) as nat, order as nat); }
        span = span * 7;
        i = i + 1;
    }
    let ghost top = span as int;
    let mut min_i: i64 = 0;
    let mut max_i: i64 = span;
    let mut sens = true;
    let mut path: Vec<u8> = Vec::new();
    let mut level: u32 = 0;
    while level < order
        invariant
            level <= order,
            0 <= top <= 3909821048582988049,
            top == pow7(order as nat),
            0 <= min_i <= top,
            0 <= max_i <= top,
            abs(max_i - min_i) == pow7((order - level) as nat),
            level < order ==> in_range(id, min_i as int, max_i as int),
            gosper_descent(0, top, id, order as nat, true) == match gosper_descent(min_i as int, max_i as int, id, (order - level) as nat, sens) {
                None => None,
                Some(rest) => Some((path@ + rest.0, rest.1)),
            },
        decreases order - level,
    {
        let ghost s = pow7((order - level - 1) as nat) as int;
        proof {
            lemma_pow7_monotone(0, (order - level - 1) as nat);
            lemma_child_partition(min_i as int, max_i as int, id, s);
        }
        let c = gosper_child(min_i, max_i, id);
        let ghost rest = gosper_descent(c.1 as int, c.2 as int, id, (order - level - 1) as nat, sens != c.3);
        proof {
            if let Some(rr) = rest {
                assert(path@.push(c.0) + rr.0 == path@ + (seq![c.0] + rr.0));
            }
        }
        path.push(c.0);
        min_i = c.1;
        max_i = c.2;
        sens = sens != c.3;
        level = level + 1;
    }
    assert(path@ + seq![] == path@);
    (path, sens)
}

/// The seventh power of `o`.
pub open spec fn seventh_power(o: int) -> int {
    o * o * o * o * o * o * o
}

proof fn lemma_seventh_power_monotone(a: int, b: int)
    requires
        0 <= a <= b,
    ensures
        0 <= seventh_power(a) <= seventh_power(b),
{
    assert(0 <= seventh_power(a) <= seventh_power(b)) by (nonlinear_arith)
        requires 0 <= a <= b;
}

/// Order of the Gosper curve drawn for `nb` elements: the smallest order,
/// from 1 on, whose seventh power reaches `nb`.
pub fn curve_order(nb: u64) -> (r: u32)
    requires
        nb <= 18379730316001328125,
    ensures
        r >= 1,
        seventh_power(r as int) >= nb,
        r == 1 || seventh_power(r - 1) < nb,
{
    let mut order: u32 = 1;
    loop
        invariant
            1 <= order <= 565,
            nb <= 18379730316001328125,
            order == 1 || seventh_power(order - 1) < nb,
        decreases 565 - order,
    {
        let o = order as u128;
        proof {
            lemma_seventh_power_monotone(o as int, 565);
            assert(o * o <= 565 * 565 && o * o * o <= 565 * 565 * 565 && o * o * o * o <= 565 * 565 * 565 * 565
                && o * o * o * o * o <= 565 * 565 * 565 * 565 * 565
                && o * o * o * o * o * o <= 565 * 565 * 565 * 565 * 565 * 565) by (nonlinear_arith)
                requires o <= 565;
        }
        let p = o * o * o * o * o * o * o;
        if p >= nb as u128 {
            return order;
        }
        proof {
            if order >= 565 {
                lemma_seventh_power_monotone(565, order as int);
            }
        }
        order = order + 1;
    }
}


proof fn lemma_first_child_exists(min_i: int, max_i: int, id: u64, j0: int, k: int)
    requires
        0 <= j0 <= k < 7,
        in_range(id, mark(min_i, max_i, k), mark(min_i, max_i, k + 1)),
    ensures
        first_child(min_i, max_i, id, j0) is Some,
    decreases k - j0,
{
    if !in_range(id, mark(min_i, max_i, j0), mark(min_i, max_i, j0 + 1)) {
        lemma_first_child_exists(min_i, max_i, id, j0 + 1, k);
    }
}

/// When a segment splits exactly into seven sub-ranges of length `s`, the
/// element `id` of the segment falls in one child, whose range has length `s`
/// and holds `id`.
proof fn lemma_child_partition(min_i: int, max_i: int, id: u64, s: int)
    requires
        s >= 1,
        abs(max_i - min_i) == 7 * s,
        in_range(id, min_i, max_i),
    ensures
        gosper_child_spec(min_i, max_i, id) matches Some(c) && abs(c.2 - c.1) == s && in_range(id, c.1, c.2),
{
    let v = (id as i64) as int;
    assert(sub_size(min_i, max_i) == s);
    let k: int;
    if min_i <= max_i {
        assert(direction(min_i, max_i) == 1);
        k = (v - min_i) / s;
        vstd::arithmetic::div_mod::lemma_fundamental_div_mod(v - min_i, s);
        assert(0 <= k < 7 && s * k <= v - min_i < s * (k + 1)) by (nonlinear_arith)
            requires 0 <= v - min_i < 7 * s, s >= 1, k == (v - min_i) / s,
                v - min_i == s * ((v - min_i) / s) + (v - min_i) % s, 0 <= (v - min_i) % s < s;
        assert(mark(min_i, max_i, k) == min_i + s * k) by (nonlinear_arith)
            requires direction(min_i, max_i) == 1, sub_size(min_i, max_i) == s, mark(min_i, max_i, k) == min_i + direction(min_i, max_i) * sub_size(min_i, max_i) * k;
        assert(mark(min_i, max_i, k + 1) == min_i + s * (k + 1)) by (nonlinear_arith)
            requires direction(min_i, max_i) == 1, sub_size(min_i, max_i) == s, mark(min_i, max_i, k + 1) == min_i + direction(min_i, max_i) * sub_size(min_i, max_i) * (k + 1);
    } else {
        assert(direction(min_i, max_i) == -1);
        k = (min_i - 1 - v) / s;
        vstd::arithmetic::div_mod::lemma_fundamental_div_mod(min_i - 1 - v, s);
        assert(0 <= k < 7 && s * k <= min_i - 1 - v < s * (k + 1)) by (nonlinear_arith)
            requires 0 <= min_i - 1 - v < 7 * s, s >= 1, k == (min_i - 1 - v) / s,
                min_i - 1 - v == s * ((min_i - 1 - v) / s) + (min_i - 1 - v) % s, 0 <= (min_i - 1 - v) % s < s;
        assert(mark(min_i, max_i, k) == min_i - s * k) by (nonlinear_arith)
            requires direction(min_i, max_i) == -1, sub_size(min_i, max_i) == s, mark(min_i, max_i, k) == min_i + direction(min_i, max_i) * sub_size(min_i, max_i) * k;
        assert(mark(min_i, max_i, k + 1) == min_i - s * (k + 1)) by (nonlinear_arith)
            requires direction(min_i, max_i) == -1, sub_size(min_i, max_i) == s, mark(min_i, max_i, k + 1) == min_i + direction(min_i, max_i) * sub_size(min_i, max_i) * (k + 1);
        assert(s * (k + 1) == s * k + s) by (nonlinear_arith);
    }
    assert(in_range(id, mark(min_i, max_i, k), mark(min_i, max_i, k + 1)));
    lemma_first_child_exists(min_i, max_i, id, 0, k);
    lemma_first_child_found(min_i, max_i, id, 0);
    let j = first_child(min_i, max_i, id, 0)->0;
    lemma_mark_step(min_i, max_i, s, j);
}

/// Consecutive marks are `s` apart.
proof fn lemma_mark_step(min_i: int, max_i: int, s: int, j: int)
    requires
        sub_size(min_i, max_i) == s,
    ensures
        abs(mark(min_i, max_i, j + 1) - mark(min_i, max_i, j)) == s,
{
    assert(abs(mark(min_i, max_i, j + 1) - mark(min_i, max_i, j)) == s) by (nonlinear_arith)
        requires sub_size(min_i, max_i) == s, s >= 0,
            direction(min_i, max_i) == 1 || direction(min_i, max_i) == -1,
            mark(min_i, max_i, j) == min_i + direction(min_i, max_i) * sub_size(min_i, max_i) * j,
            mark(min_i, max_i, j + 1) == min_i + direction(min_i, max_i) * sub_size(min_i, max_i) * (j + 1);
}

/// A child only holds elements of its parent segment.
proof fn lemma_child_within(min_i: int, max_i: int, id: u64)
    requires
        gosper_child_spec(min_i, max_i, id) is Some,
    ensures
        in_range(id, min_i, max_i),
{
    lemma_first_child_found(min_i, max_i, id, 0);
    let k = first_child(min_i, max_i, id, 0)->0;
    lemma_mark_bounds(min_i, max_i, k);
    lemma_mark_bounds(min_i, max_i, k + 1);
    let s = sub_size(min_i, max_i);
    assert(s >= 0);
    if min_i <= max_i {
        assert(mark(min_i, max_i, k) <= mark(min_i, max_i, k + 1)) by (nonlinear_arith)
            requires direction(min_i, max_i) == 1, s >= 0,
                mark(min_i, max_i, k) == min_i + direction(min_i, max_i) * s * k,
                mark(min_i, max_i, k + 1) == min_i + direction(min_i, max_i) * s * (k + 1);
    } else {
        assert(mark(min_i, max_i, k) >= mark(min_i, max_i, k + 1)) by (nonlinear_arith)
            requires direction(min_i, max_i) == -1, s >= 0,
                mark(min_i, max_i, k) == min_i + direction(min_i, max_i) * s * k,
                mark(min_i, max_i, k + 1) == min_i + direction(min_i, max_i) * s * (k + 1);
    }
}

proof fn lemma_descent_succeeds(min_i: int, max_i: int, id: u64, levels: nat, sens: bool)
    requires
        abs(max_i - min_i) == pow7(levels),
        in_range(id, min_i, max_i),
    ensures
        gosper_descent(min_i, max_i, id, levels, sens) is Some,
    decreases levels,
{
    if levels > 0 {
        lemma_pow7_monotone(0, (levels - 1) as nat);
        lemma_child_partition(min_i, max_i, id, pow7((levels - 1) as nat) as int);
        let c = gosper_child_spec(min_i, max_i, id)->0;
        lemma_descent_succeeds(c.1, c.2, id, (levels - 1) as nat, sens != c.3);
    }
}

/// The Gosper curve of order n >= 1 has exactly the elements 0 .. 7^n - 1:
/// the path to `id` exists if and only if `id` (read as an `i64`) lies in [0, 7^n).
pub proof fn lemma_gosper_path_exists(order: nat, id: u64)
    requires
        order >= 1,
    ensures
        gosper_descent(0, pow7(order) as int, id, order, true) is Some <==> in_range(id, 0, pow7(order) as int),
        id <= i64::MAX ==> (in_range(id, 0, pow7(order) as int) <==> id < pow7(order)),
{
    if in_range(id, 0, pow7(order) as int) {
        lemma_descent_succeeds(0, pow7(order) as int, id, order, true);
    }
    if gosper_descent(0, pow7(order) as int, id, order, true) is Some {
        lemma_child_within(0, pow7(order) as int, id);
    }
    lemma_pow7_monotone(0, order);
}


proof fn lemma_first_child_is_first(min_i: int, max_i: int, id: u64, j0: int)
    ensures
        first_child(min_i, max_i, id, j0) matches Some(k) ==> forall|j: int| j0 <= j < k ==>
            !in_range(id, #[trigger] mark(min_i, max_i, j), mark(min_i, max_i, j + 1)),
    decreases 7 - j0,
{
    if 0 <= j0 < 7 && !in_range(id, mark(min_i, max_i, j0), mark(min_i, max_i, j0 + 1)) {
        lemma_first_child_is_first(min_i, max_i, id, j0 + 1);
    }
}

/// The Gosper descent table. A segment from `min_i` to `max_i` is cut into
/// seven equal sub-ranges between the marks `min_i + step * j` (j = 0..7,
/// `step` a seventh of the length, signed by the direction); the child holding
/// `id` is the first sub-range that contains it, and it runs
/// 0: mark 0 -> 1, 1: mark 2 -> 1, 2: mark 3 -> 2, 3: mark 3 -> 4,
/// 4: mark 4 -> 5, 5: mark 5 -> 6, 6: mark 7 -> 6,
/// the children 1, 2 and 6 flipping the orientation.
pub proof fn lemma_gosper_child_table(min_i: int, max_i: int, id: u64)
    requires
        gosper_child_spec(min_i, max_i, id) is Some,
    ensures
        ({
            let c = gosper_child_spec(min_i, max_i, id)->0;
            let len = if max_i >= min_i { max_i - min_i } else { min_i - max_i };
            let step = if min_i > max_i { -(len / 7) } else { len / 7 };
            let k = c.0 as int;
            &&& 0 <= k < 7
            &&& in_range(id, min_i + step * k, min_i + step * (k + 1))
            &&& forall|j: int| 0 <= j < k ==> !in_range(id, #[trigger] (min_i + step * j), min_i + step * (j + 1))
            &&& k == 0 ==> c.1 == min_i && c.2 == min_i + step && !c.3
            &&& k == 1 ==> c.1 == min_i + step * 2 && c.2 == min_i + step && c.3
            &&& k == 2 ==> c.1 == min_i + step * 3 && c.2 == min_i + step * 2 && c.3
            &&& k == 3 ==> c.1 == min_i + step * 3 && c.2 == min_i + step * 4 && !c.3
            &&& k == 4 ==> c.1 == min_i + step * 4 && c.2 == min_i + step * 5 && !c.3
            &&& k == 5 ==> c.1 == min_i + step * 5 && c.2 == min_i + step * 6 && !c.3
            &&& k == 6 ==> c.1 == min_i + step * 7 && c.2 == min_i + step * 6 && c.3
        }),
{
    let len = if max_i >= min_i { max_i - min_i } else { min_i - max_i };
    let step = if min_i > max_i { -(len / 7) } else { len / 7 };
    assert(direction(min_i, max_i) * sub_size(min_i, max_i) == step);
    assert forall|j: int| #[trigger] mark(min_i, max_i, j) == min_i + step * j by {
        assert(direction(min_i, max_i) * sub_size(min_i, max_i) * j == step * j) by (nonlinear_arith)
            requires direction(min_i, max_i) * sub_size(min_i, max_i) == step;
    }
    lemma_first_child_found(min_i, max_i, id, 0);
    lemma_first_child_is_first(min_i, max_i, id, 0);
    let k = first_child(min_i, max_i, id, 0)->0;
    assert(mark(min_i, max_i, k) == min_i + step * k);
    assert(mark(min_i, max_i, k + 1) == min_i + step * (k + 1));
    assert(mark(min_i, max_i, 0) == min_i + step * 0);
    assert(mark(min_i, max_i, 1) == min_i + step * 1);
    assert forall|j: int| 0 <= j < k implies !in_range(id, #[trigger] (min_i + step * j), min_i + step * (j + 1)) by {
        assert(mark(min_i, max_i, j) == min_i + step * j);
        assert(mark(min_i, max_i, j + 1) == min_i + step * (j + 1));
    }
}


/// Number of children in `path` that flip the orientation (children 1, 2 and 6).
pub open spec fn nb_flipping(path: Seq<u8>) -> nat
    decreases path.len(),
{
    if path.len() == 0 {
        0
    } else {
        (if path[0] == 1 || path[0] == 2 || path[0] == 6 { 1nat } else { 0nat }) + nb_flipping(path.skip(1))
    }
}

/// The orientation reached at the end of a descent is the starting one,
/// flipped once per child 1, 2 or 6 taken on the way.
pub proof fn lemma_descent_orientation(min_i: int, max_i: int, id: u64, levels: nat, sens: bool)
    ensures
        gosper_descent(min_i, max_i, id, levels, sens) matches Some(p) ==> p.1 == (sens != (nb_flipping(p.0) % 2 == 1)),
    decreases levels,
{
    if levels > 0 {
        if let Some(c) = gosper_child_spec(min_i, max_i, id) {
            lemma_descent_orientation(c.1, c.2, id, (levels - 1) as nat, sens != c.3);
            if let Some(rest) = gosper_descent(c.1, c.2, id, (levels - 1) as nat, sens != c.3) {
                lemma_gosper_child_table(min_i, max_i, id);
                let path = seq![c.0] + rest.0;
                assert(path.skip(1) == rest.0);
                assert(path[0] == c.0);
                assert(c.3 == (c.0 == 1 || c.0 == 2 || c.0 == 6));
            }
        }
    }
}

} // verus!
