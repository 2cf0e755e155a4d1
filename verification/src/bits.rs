//! Bit counting and Hamming distance over 32-bit words.

use vstd::prelude::*;

verus! {

/// The number of set bits in `v`.
pub open spec fn sp_count_ones(v: nat) -> nat
    decreases v,
{
    if v == 0 {
        0
    } else {
        v % 2 + sp_count_ones(v / 2)
    }
}

/// Clearing the least significant set bit of a positive word lowers
/// its set-bit count by exactly one, and strictly lowers the word.
pub proof fn lemma_clear_lowest_bit(v: u32)
    requires
        v > 0,
    ensures
        sp_count_ones((v & ((v - 1) as u32)) as nat) + 1 == sp_count_ones(v as nat),
        (v & ((v - 1) as u32)) < v,
    decreases v,
{
    let vm1: u32 = (v - 1) as u32;
    assert((v & vm1) < v) by (bit_vector)
        requires
            v > 0 && vm1 == vstd::prelude::sub(v, 1),
    ;
    if v % 2 == 1 {
        assert((v & vm1) == vm1) by (bit_vector)
            requires
                v % 2 == 1 && vm1 == vstd::prelude::sub(v, 1),
        ;
        assert(vm1 as nat % 2 == 0);
        assert(vm1 as nat / 2 == v as nat / 2);
    } else {
        let u: u32 = v / 2;
        assert(u == v >> 1u32) by {
            vstd::bits::lemma_u32_shr_is_div(v, 1);
            vstd::arithmetic::power2::lemma2_to64();
        }
        assert((v & vm1) == vstd::prelude::mul(
            2,
            ((v >> 1u32) & vstd::prelude::sub(v >> 1u32, 1)),
        ) && (v >> 1u32) > 0) by (bit_vector)
            requires
                v % 2 == 0 && v > 0 && vm1 == vstd::prelude::sub(v, 1),
        ;
        lemma_clear_lowest_bit(u);
        let w: u32 = u & ((u - 1) as u32);
        assert(u & vstd::prelude::sub(u, 1) == u & ((u - 1) as u32));
        assert((v & vm1) as nat == 2 * w as nat);
        assert(sp_count_ones(2 * w as nat) == sp_count_ones(w as nat));
        assert(sp_count_ones(v as nat) == sp_count_ones(u as nat));
    }
}

pub struct Bits;

impl Bits {
    /// Counts the set bits of a word by repeatedly clearing the least
    /// significant one.
    #[inline]
    pub fn count(number: &u32) -> (c: u32)
        ensures
            c == sp_count_ones(*number as nat),
    {
        let mut v = *number;
        let mut c: u32 = 0;
        proof {
            lemma_count_ones_le_32(*number);
        }
        while v > 0
            invariant
                c + sp_count_ones(v as nat) == sp_count_ones(*number as nat),
                sp_count_ones(*number as nat) <= 32,
            decreases v,
        {
            proof {
                lemma_clear_lowest_bit(v);
            }
            v = v & (v - 1);
            c = c + 1;
        }
        c
    }

    /// The Hamming distance: the number of bit positions where the two
    /// words differ.
    #[inline]
    pub fn hamming_distance(a: &u32, b: &u32) -> (d: u32)
        ensures
            d == sp_count_ones((*a ^ *b) as nat),
    {
        Bits::count(&(*a ^ *b))
    }
}

/// A 32-bit word holds at most 32 set bits.
pub proof fn lemma_count_ones_le_32(v: u32)
    ensures
        sp_count_ones(v as nat) <= 32,
{
    vstd::arithmetic::power2::lemma2_to64();
    lemma_count_ones_le_bits(v as nat, 32);
}

proof fn lemma_count_ones_le_bits(v: nat, bits: nat)
    requires
        v < vstd::arithmetic::power2::pow2(bits),
    ensures
        sp_count_ones(v) <= bits,
    decreases bits,
{
    if bits == 0 {
        vstd::arithmetic::power2::lemma2_to64();
        assert(v == 0);
    } else if v == 0 {
    } else {
        assert(vstd::arithmetic::power2::pow2(bits) == 2 * vstd::arithmetic::power2::pow2(
            (bits - 1) as nat,
        )) by {
            vstd::arithmetic::power2::lemma_pow2_unfold(bits);
        }
        lemma_count_ones_le_bits(v / 2, (bits - 1) as nat);
    }
}

} // verus!
