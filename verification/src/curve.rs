use vstd::prelude::*;
use vstd::arithmetic::power2::{pow2, lemma_pow2_unfold, lemma_pow2_strictly_increases, lemma2_to64};

verus! {

/// Number of binary digits of `n` (0 for 0).
pub open spec fn bit_length(n: nat) -> nat
    decreases n,
{
    if n == 0 { 0 } else { 1 + bit_length(n / 2) }
}

/// The point of the Hilbert curve at `index`, for a curve of `bits` bits per
/// coordinate in `dimensions` dimensions, as the `hilbert` crate computes it.
pub uninterp spec fn hilbert_point(index: nat, bits: nat, dimensions: nat) -> Seq<u32>;

/// `hilbert::normalize::bits_required`: the smallest power `r` of two with
/// `2^r >= n + 1`, which is what its loop (`r` doubling from 1 while below
/// `n + 1`) returns.
#[verifier::external_body]
fn hilbert_bits_required(n: u32) -> (r: usize)
    ensures
        pow2(r as nat) > n,
        r == 0 || pow2((r - 1) as nat) <= n,
{
    hilbert::normalize::bits_required(n)
}

/// `hilbert::transform::fast_hilbert::hilbert_axes`: the coordinates of the
/// point at `index` of the Hilbert curve, one per dimension (the source builds
/// a vector of `dimensions` zeros and only changes its entries). It panics for
/// `bits == 0` (`bits - 1`) and for `bits > 32` (a shift of a `u32` by
/// `bits - 1`), so those inputs are excluded.
#[verifier::external_body]
fn hilbert_axes(index: u64, bits: usize, dimensions: usize) -> (r: Vec<u32>)
    requires
        1 <= bits <= 32,
        1 <= dimensions <= 16,
    ensures
        r@ == hilbert_point(index as nat, bits as nat, dimensions as nat),
        r@.len() == dimensions,
{
    hilbert::transform::fast_hilbert::hilbert_axes(&index.into(), bits, dimensions)
}

/// `bit_length(n)` is the power of two just above `n`.
pub proof fn lemma_bit_length(n: nat)
    ensures
        pow2(bit_length(n)) > n,
        bit_length(n) == 0 || pow2((bit_length(n) - 1) as nat) <= n,
    decreases n,
{
    lemma2_to64();
    if n > 0 {
        let h = n / 2;
        let b = bit_length(h);
        lemma_bit_length(h);
        assert(bit_length(n) == b + 1);
        lemma_pow2_unfold(b + 1);
        assert(pow2(b + 1) == 2 * pow2(b));
        assert(n <= 2 * h + 1);
        assert(pow2(b + 1) > n);
        if b == 0 {
            assert(h == 0) by {
                if h > 0 {
                    assert(bit_length(h) >= 1);
                }
            }
            assert(pow2(0) == 1);
        } else {
            lemma_pow2_unfold(b);
            assert(pow2(b) == 2 * pow2((b - 1) as nat));
            assert(pow2(b) <= n);
        }
    }
}

/// Only one power of two lies just above `n`.
proof fn lemma_power_above_unique(n: nat, a: nat, b: nat)
    requires
        pow2(a) > n,
        a == 0 || pow2((a - 1) as nat) <= n,
        pow2(b) > n,
        b == 0 || pow2((b - 1) as nat) <= n,
    ensures
        a == b,
{
    if a < b {
        if a < (b - 1) as nat {
            lemma_pow2_strictly_increases(a, (b - 1) as nat);
        }
    } else if b < a {
        if b < (a - 1) as nat {
            lemma_pow2_strictly_increases(b, (a - 1) as nat);
        }
    }
}

/// Bits per coordinate of a Hilbert curve holding indices up to `n`: the bit length of `n`.
pub fn bits_required(n: u32) -> (r: usize)
    ensures
        r == bit_length(n as nat),
        n >= 1 ==> 1 <= r <= 32,
{
    let r = hilbert_bits_required(n);
    proof {
        lemma_bit_length(n as nat);
        lemma_power_above_unique(n as nat, r as nat, bit_length(n as nat));
        lemma2_to64();
        if r > 32 {
            lemma_pow2_strictly_increases(32, (r - 1) as nat);
        }
    }
    r
}

/// The two coordinates of the point at `index` on the plane Hilbert curve of `bits` bits per axis.
pub fn plane_point(index: u64, bits: usize) -> (p: (u32, u32))
    requires
        1 <= bits <= 32,
    ensures
        p.0 == hilbert_point(index as nat, bits as nat, 2)[0],
        p.1 == hilbert_point(index as nat, bits as nat, 2)[1],
{
    let c = hilbert_axes(index, bits, 2);
    (c[0], c[1])
}

} // verus!
