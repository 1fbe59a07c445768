use vstd::prelude::*;

use super::bitvector::{count_ones128, popcount, popcount_upto};

verus! {

/// Correlations are expressed in units of one ten-thousandth.
pub const CORRELATION_SCALE: u64 = 10000;

/// Integer square root: the greatest `r` with `r * r <= n`.
pub open spec fn isqrt(n: nat) -> nat
    decreases n,
{
    if n == 0 {
        0
    } else {
        let r = isqrt((n - 1) as nat);
        if (r + 1) * (r + 1) <= n {
            r + 1
        } else {
            r
        }
    }
}

/// `⌊CORRELATION_SCALE · s / √(nx · ny)⌋`, with `nx`, `ny` the populations
/// of `x` and `y` and `s` that of `x ∧ y`; zero when either population is.
pub open spec fn scaled_correlation(x: u128, y: u128) -> nat {
    let product: int = popcount(x) as int * popcount(y) as int;
    let s: int = popcount(x & y) as int;
    if product == 0 {
        0
    } else {
        isqrt(((s * s * CORRELATION_SCALE * CORRELATION_SCALE) / product) as nat)
    }
}

pub proof fn lemma_isqrt_bounds(n: nat)
    ensures
        isqrt(n) * isqrt(n) <= n < (isqrt(n) + 1) * (isqrt(n) + 1),
    decreases n,
{
    if n == 0 {
        let q = isqrt(n);
        assert(q == 0);
        assert(q * q == 0 && (q + 1) * (q + 1) == 1) by (nonlinear_arith)
            requires
                q == 0,
        ;
    } else {
        lemma_isqrt_bounds((n - 1) as nat);
        let r = isqrt((n - 1) as nat);
        let a = (r + 1) * (r + 1);
        let b = (r + 2) * (r + 2);
        assert(a < b) by (nonlinear_arith)
            requires
                a == (r + 1) * (r + 1),
                b == (r + 2) * (r + 2),
                r >= 0,
        ;
        assert(r * r <= n - 1 < a);
        if a <= n {
            assert(isqrt(n) == r + 1);
            assert(n <= a < b);
            assert((r + 1) * (r + 1) <= n < (r + 2) * (r + 2));
        } else {
            assert(isqrt(n) == r);
            assert(r * r <= n < (r + 1) * (r + 1));
        }
    }
}

pub proof fn lemma_isqrt_unique(n: nat, r: nat)
    requires
        r * r <= n < (r + 1) * (r + 1),
    ensures
        isqrt(n) == r,
{
    lemma_isqrt_bounds(n);
    let q = isqrt(n);
    if q < r {
        assert((q + 1) * (q + 1) <= r * r) by (nonlinear_arith)
            requires
                q + 1 <= r,
        ;
    } else if r < q {
        assert((r + 1) * (r + 1) <= q * q) by (nonlinear_arith)
            requires
                r + 1 <= q,
        ;
    }
}

proof fn lemma_popcount_and_le(x: u128, y: u128, n: int)
    requires
        0 <= n <= 128,
    ensures
        popcount_upto(x & y, n) <= popcount_upto(x, n),
        popcount_upto(x & y, n) <= popcount_upto(y, n),
    decreases n,
{
    if n > 0 {
        lemma_popcount_and_le(x, y, n - 1);
        let k = (n - 1) as u128;
        assert(((x & y) >> k) & 1u128 == 1u128 ==> (x >> k) & 1u128 == 1u128 && (y >> k) & 1u128
            == 1u128) by (bit_vector);
    }
}

pub proof fn lemma_scaled_correlation_bound(x: u128, y: u128)
    ensures
        scaled_correlation(x, y) <= CORRELATION_SCALE,
{
    let nx = popcount(x);
    let ny = popcount(y);
    let s = popcount(x & y);
    let product = nx * ny;
    if product > 0 {
        lemma_popcount_and_le(x, y, 128);
        assert(s * s <= product) by (nonlinear_arith)
            requires
                s <= nx,
                s <= ny,
                product == nx * ny,
        ;
        let q = (s * s * CORRELATION_SCALE * CORRELATION_SCALE) / (product as int);
        assert(0 <= q <= CORRELATION_SCALE * CORRELATION_SCALE) by (nonlinear_arith)
            requires
                s * s <= product,
                product > 0,
                q == (s * s * CORRELATION_SCALE * CORRELATION_SCALE) / (product as int),
        ;
        lemma_isqrt_bounds(q as nat);
        let r = isqrt(q as nat);
        if r > CORRELATION_SCALE {
            assert(r * r > CORRELATION_SCALE * CORRELATION_SCALE) by (nonlinear_arith)
                requires
                    r > CORRELATION_SCALE,
            ;
        }
    }
}

/// Greatest `r` with `r * r <= n`, for `n` up to `CORRELATION_SCALE²`.
fn isqrt_small(n: u64) -> (r: u64)
    requires
        n <= CORRELATION_SCALE * CORRELATION_SCALE,
    ensures
        r == isqrt(n as nat),
        r <= CORRELATION_SCALE,
{
    let mut lo: u64 = 0;
    let mut hi: u64 = CORRELATION_SCALE + 1;
    while hi - lo > 1
        invariant
            lo < hi <= CORRELATION_SCALE + 1,
            lo * lo <= n,
            n < hi * hi,
        decreases hi - lo,
    {
        let mid = lo + (hi - lo) / 2;
        assert(mid * mid <= 100020001) by (nonlinear_arith)
            requires
                mid <= 10001,
        ;
        if mid * mid <= n {
            lo = mid;
        } else {
            hi = mid;
        }
    }
    proof {
        lemma_isqrt_unique(n as nat, lo as nat);
    }
    lo
}

/// Affinity of two codes, `s / √(nx · ny)` in units of `CORRELATION_SCALE`,
/// rounded down; zero when either code is empty.
pub fn correlation(x: u128, y: u128) -> (r: u64)
    ensures
        r == scaled_correlation(x, y),
        r <= CORRELATION_SCALE,
{
    let nx = count_ones128(x) as u64;
    let ny = count_ones128(y) as u64;
    let s = count_ones128(x & y) as u64;
    proof {
        lemma_popcount_and_le(x, y, 128);
        super::bitvector::lemma_popcount_upto_bound(x, 128);
        super::bitvector::lemma_popcount_upto_bound(y, 128);
    }
    assert(nx * ny <= 128 * 128) by (nonlinear_arith)
        requires
            nx <= 128,
            ny <= 128,
    ;
    let product = nx * ny;
    if product == 0 {
        return 0;
    }
    assert(s * s <= product) by (nonlinear_arith)
        requires
            s <= nx,
            s <= ny,
            product == nx * ny,
    ;
    let numerator = s * s * CORRELATION_SCALE * CORRELATION_SCALE;
    let q = numerator / product;
    assert(q <= CORRELATION_SCALE * CORRELATION_SCALE) by (nonlinear_arith)
        requires
            s * s <= product,
            product > 0,
            numerator == s * s * CORRELATION_SCALE * CORRELATION_SCALE,
            q == numerator / product,
    ;
    isqrt_small(q)
}

} // verus!
