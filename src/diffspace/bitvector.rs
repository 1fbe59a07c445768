use vstd::prelude::*;

use crate::draw::draw_below;

verus! {

/// Number of bits in a code.
pub const CODE_WIDTH: u32 = 128;

/// Bit `i` of `v`.
pub open spec fn bit128(v: u128, i: int) -> bool {
    (v >> (i as u128)) & 1u128 == 1u128
}

/// Number of set bits of `v` among positions `0 .. n`.
pub open spec fn popcount_upto(v: u128, n: int) -> nat
    decreases n,
{
    if n <= 0 {
        0
    } else {
        popcount_upto(v, n - 1) + if bit128(v, n - 1) { 1nat } else { 0nat }
    }
}

/// Population count of a code.
pub open spec fn popcount(v: u128) -> nat {
    popcount_upto(v, 128)
}

pub proof fn lemma_popcount_upto_bound(v: u128, n: int)
    requires
        0 <= n,
    ensures
        popcount_upto(v, n) <= n,
    decreases n,
{
    if n > 0 {
        lemma_popcount_upto_bound(v, n - 1);
    }
}

proof fn lemma_bit_of_set(v: u128, p: int, i: int)
    requires
        0 <= p < 128,
        0 <= i < 128,
    ensures
        bit128(v | (1u128 << (p as u128)), i) == (bit128(v, i) || i == p),
{
    let pp = p as u128;
    let ii = i as u128;
    assert(((v | (1u128 << pp)) >> ii) & 1u128 == 1u128 <==> ((v >> ii) & 1u128 == 1u128 || ii
        == pp)) by (bit_vector)
        requires
            pp < 128,
            ii < 128,
    ;
}

proof fn lemma_bit_of_clear(v: u128, p: int, i: int)
    requires
        0 <= p < 128,
        0 <= i < 128,
    ensures
        bit128(v & !(1u128 << (p as u128)), i) == (bit128(v, i) && i != p),
{
    let pp = p as u128;
    let ii = i as u128;
    assert(((v & !(1u128 << pp)) >> ii) & 1u128 == 1u128 <==> ((v >> ii) & 1u128 == 1u128 && ii
        != pp)) by (bit_vector)
        requires
            pp < 128,
            ii < 128,
    ;
}

/// The population of a disjunction is at most the sum of the populations.
pub proof fn lemma_popcount_or(a: u128, b: u128, n: int)
    requires
        0 <= n <= 128,
    ensures
        popcount_upto(a | b, n) <= popcount_upto(a, n) + popcount_upto(b, n),
    decreases n,
{
    if n > 0 {
        lemma_popcount_or(a, b, n - 1);
        let k = (n - 1) as u128;
        assert(((a | b) >> k) & 1u128 == 1u128 ==> (a >> k) & 1u128 == 1u128 || (b >> k) & 1u128
            == 1u128) by (bit_vector);
    }
}

/// A disjunction has at least the population of its right operand.
pub proof fn lemma_popcount_or_ge(a: u128, b: u128, n: int)
    requires
        0 <= n <= 128,
    ensures
        popcount_upto(a | b, n) >= popcount_upto(b, n),
    decreases n,
{
    if n > 0 {
        lemma_popcount_or_ge(a, b, n - 1);
        let k = (n - 1) as u128;
        assert((b >> k) & 1u128 == 1u128 ==> ((a | b) >> k) & 1u128 == 1u128) by (bit_vector);
    }
}

/// Setting a clear bit raises the population by one.
proof fn lemma_popcount_set(v: u128, p: int, n: int)
    requires
        0 <= p < 128,
        !bit128(v, p),
        0 <= n <= 128,
    ensures
        popcount_upto(v | (1u128 << (p as u128)), n) == popcount_upto(v, n) + if p < n {
            1nat
        } else {
            0nat
        },
    decreases n,
{
    if n > 0 {
        lemma_popcount_set(v, p, n - 1);
        lemma_bit_of_set(v, p, n - 1);
    }
}

/// Counts the set bits of `v`.
pub fn count_ones128(v: u128) -> (r: u32)
    ensures
        r == popcount(v),
{
    let mut count: u32 = 0;
    let mut i: u32 = 0;
    while i < 128
        invariant
            i <= 128,
            count == popcount_upto(v, i as int),
            count <= i,
        decreases 128 - i,
    {
        proof {
            lemma_popcount_upto_bound(v, i as int);
        }
        if (v >> i) & 1 == 1 {
            count = count + 1;
        }
        i = i + 1;
    }
    count
}

/// A 128-bit binary word.
#[derive(Clone, Copy, Debug, PartialEq, Eq, Structural, Hash)]
pub struct BitVector(pub u128);

impl BitVector {
    pub fn value(&self) -> (r: u128)
        ensures
            r == self.0,
    {
        self.0
    }

    /// Sets bit `index` to `value`, leaving the other bits as they were.
    pub fn set(&mut self, index: usize, value: bool)
        requires
            index < 128,
        ensures
            final(self).0 == if value {
                old(self).0 | (1u128 << (index as u128))
            } else {
                old(self).0 & !(1u128 << (index as u128))
            },
            forall|i: int|
                0 <= i < 128 ==> bit128(final(self).0, i) == if i == index {
                    value
                } else {
                    bit128(old(self).0, i)
                },
    {
        let ghost before = self.0;
        if value {
            self.0 = self.0 | (1u128 << index as u128);
        } else {
            self.0 = self.0 & !(1u128 << index as u128);
        }
        proof {
            assert forall|i: int| 0 <= i < 128 implies bit128(self.0, i) == if i == index {
                value
            } else {
                bit128(before, i)
            } by {
                if value {
                    lemma_bit_of_set(before, index as int, i);
                } else {
                    lemma_bit_of_clear(before, index as int, i);
                }
            }
        }
    }

    /// Bit `index` of the word.
    pub fn get(&self, index: usize) -> (r: bool)
        requires
            index < 128,
        ensures
            r == bit128(self.0, index as int),
    {
        (self.0 >> index as u128) & 1 == 1
    }

    pub fn count_ones(&self) -> (r: u32)
        ensures
            r == popcount(self.0),
    {
        count_ones128(self.0)
    }

    pub fn and(&self, other: &BitVector) -> (r: BitVector)
        ensures
            r.0 == self.0 & other.0,
    {
        BitVector(self.0 & other.0)
    }

    pub fn or(&self, other: &BitVector) -> (r: BitVector)
        ensures
            r.0 == self.0 | other.0,
    {
        BitVector(self.0 | other.0)
    }

    pub fn xor(&self, other: &BitVector) -> (r: BitVector)
        ensures
            r.0 == self.0 ^ other.0,
    {
        BitVector(self.0 ^ other.0)
    }

    pub fn not(&self) -> (r: BitVector)
        ensures
            r.0 == !self.0,
    {
        BitVector(!self.0)
    }

    /// A word with exactly `saturation` set bits whose positions are drawn
    /// uniformly among all such words: each step sets one of the bits that
    /// are still clear, chosen uniformly.
    pub fn random(saturation: u8) -> (r: BitVector)
        requires
            saturation <= 128,
        ensures
            popcount(r.0) == saturation,
    {
        let mut result: u128 = 0;
        let mut count: u32 = 0;
        proof {
            assert forall|n: int| 0 <= n <= 128 implies popcount_upto(0u128, n) == 0 by {
                lemma_popcount_zero(n);
            }
        }
        while count < saturation as u32
            invariant
                count <= saturation <= 128,
                popcount(result) == count,
            decreases saturation - count,
        {
            let free = 128 - count;
            let pick = draw_below(free as u128) as u32;
            let position = nth_clear_bit(result, pick, Ghost(count));
            proof {
                lemma_popcount_set(result, position as int, 128);
            }
            result = result | (1u128 << position as u128);
            count = count + 1;
        }
        BitVector(result)
    }
}

/// The empty word has no set bit.
pub proof fn lemma_popcount_zero(n: int)
    requires
        0 <= n <= 128,
    ensures
        popcount_upto(0u128, n) == 0,
    decreases n,
{
    if n > 0 {
        lemma_popcount_zero(n - 1);
        let k = (n - 1) as u128;
        assert((0u128 >> k) & 1u128 == 0u128) by (bit_vector);
    }
}

/// Position of the clear bit of `v` that has `pick` clear bits below it.
fn nth_clear_bit(v: u128, pick: u32, Ghost(ones): Ghost<u32>) -> (r: u32)
    requires
        ones == popcount(v),
        pick < 128 - ones,
    ensures
        r < 128,
        !bit128(v, r as int),
        r - popcount_upto(v, r as int) == pick,
{
    let mut clear_seen: u32 = 0;
    let mut i: u32 = 0;
    while i < 128
        invariant
            i <= 128,
            clear_seen + popcount_upto(v, i as int) == i,
            clear_seen <= pick,
            ones == popcount(v),
            pick < 128 - ones,
        decreases 128 - i,
    {
        if (v >> i) & 1 != 1 {
            if clear_seen == pick {
                return i;
            }
            clear_seen = clear_seen + 1;
        }
        i = i + 1;
    }
    i
}

} // verus!
