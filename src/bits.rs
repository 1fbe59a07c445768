use vstd::prelude::*;

verus! {

/// Bit `i` of a row word.
pub open spec fn bit64(v: u64, i: int) -> bool {
    (v >> (i as u64)) & 1u64 == 1u64
}

/// Number of set bits of `v` among positions `0 .. n`.
pub open spec fn popcount64_upto(v: u64, n: int) -> nat
    decreases n,
{
    if n <= 0 {
        0
    } else {
        popcount64_upto(v, n - 1) + if bit64(v, n - 1) { 1nat } else { 0nat }
    }
}

pub open spec fn popcount64(v: u64) -> nat {
    popcount64_upto(v, 64)
}

pub proof fn lemma_popcount64_upto_bound(v: u64, n: int)
    requires
        0 <= n,
    ensures
        popcount64_upto(v, n) <= n,
    decreases n,
{
    if n > 0 {
        lemma_popcount64_upto_bound(v, n - 1);
    }
}

pub proof fn lemma_bit64_and(a: u64, b: u64, i: int)
    requires
        0 <= i < 64,
    ensures
        bit64(a & b, i) == (bit64(a, i) && bit64(b, i)),
{
    let k = i as u64;
    assert(((a & b) >> k) & 1u64 == 1u64 <==> ((a >> k) & 1u64 == 1u64 && (b >> k) & 1u64 == 1u64))
        by (bit_vector)
        requires
            k < 64,
    ;
}

pub proof fn lemma_bit64_or(a: u64, b: u64, i: int)
    requires
        0 <= i < 64,
    ensures
        bit64(a | b, i) == (bit64(a, i) || bit64(b, i)),
{
    let k = i as u64;
    assert(((a | b) >> k) & 1u64 == 1u64 <==> ((a >> k) & 1u64 == 1u64 || (b >> k) & 1u64 == 1u64))
        by (bit_vector)
        requires
            k < 64,
    ;
}

pub proof fn lemma_bit64_single(c: int, i: int)
    requires
        0 <= c < 64,
        0 <= i < 64,
    ensures
        bit64(1u64 << (c as u64), i) == (i == c),
{
    let cc = c as u64;
    let k = i as u64;
    assert(((1u64 << cc) >> k) & 1u64 == 1u64 <==> k == cc) by (bit_vector)
        requires
            cc < 64,
            k < 64,
    ;
}

pub proof fn lemma_bit64_zero(i: int)
    requires
        0 <= i < 64,
    ensures
        !bit64(0u64, i),
{
    let k = i as u64;
    assert((0u64 >> k) & 1u64 == 0u64) by (bit_vector);
}

pub proof fn lemma_mask_test(v: u64, c: int)
    requires
        0 <= c < 64,
    ensures
        (v & (1u64 << (c as u64)) != 0) == bit64(v, c),
{
    let cc = c as u64;
    assert((v & (1u64 << cc) != 0u64) == ((v >> cc) & 1u64 == 1u64)) by (bit_vector)
        requires
            cc < 64,
    ;
}

/// Two words with the same bits are equal.
pub proof fn lemma_bits_determine(a: u64, b: u64)
    requires
        forall|i: int| 0 <= i < 64 ==> bit64(a, i) == bit64(b, i),
    ensures
        a == b,
{
    lemma_high_bits_agree(a, b, 0);
    assert(a >> 0u64 == a && b >> 0u64 == b) by (bit_vector);
}

proof fn lemma_high_bits_agree(a: u64, b: u64, k: int)
    requires
        0 <= k <= 64,
        forall|i: int| 0 <= i < 64 ==> bit64(a, i) == bit64(b, i),
    ensures
        a >> (k as u64) == b >> (k as u64),
    decreases 64 - k,
{
    if k == 64 {
        assert(a >> 64u64 == 0u64 && b >> 64u64 == 0u64) by (bit_vector);
    } else {
        lemma_high_bits_agree(a, b, k + 1);
        let kk = k as u64;
        assert(bit64(a, k) == bit64(b, k));
        assert(a >> kk == ((a >> (kk + 1)) << 1u64) | ((a >> kk) & 1u64)) by (bit_vector)
            requires
                kk < 64,
        ;
        assert(b >> kk == ((b >> (kk + 1)) << 1u64) | ((b >> kk) & 1u64)) by (bit_vector)
            requires
                kk < 64,
        ;
        assert((a >> kk) & 1u64 == 1u64 || (a >> kk) & 1u64 == 0u64) by (bit_vector);
        assert((b >> kk) & 1u64 == 1u64 || (b >> kk) & 1u64 == 0u64) by (bit_vector);
    }
}

/// Counts the set bits of `v`.
pub fn count_ones64(v: u64) -> (r: u32)
    ensures
        r == popcount64(v),
        r <= 64,
{
    let mut count: u32 = 0;
    let mut i: u32 = 0;
    while i < 64
        invariant
            i <= 64,
            count == popcount64_upto(v, i as int),
            count <= i,
        decreases 64 - i,
    {
        proof {
            lemma_popcount64_upto_bound(v, i as int);
        }
        if (v >> i) & 1 == 1 {
            count = count + 1;
        }
        i = i + 1;
    }
    count
}

} // verus!
