//! Gosper's hack: stepping through the fixed-size subsets of a bit
//! set in increasing numeric order, and walking the bit indices of one
//! subset word.

use vstd::prelude::*;
use crate::bits::{lemma_clear_lowest_bit, lemma_count_ones_le_32, sp_count_ones};

verus! {

/// The word with the `k` lowest bits set (of the 32 available).
pub open spec fn sp_initial_mask(k: nat) -> u32
    decreases k,
{
    if k == 0 {
        0
    } else {
        ((sp_initial_mask((k - 1) as nat) << 1u32) + 1) as u32
    }
}

/// One step of Gosper's hack: the next word with the same number of
/// set bits, in increasing numeric order.
pub open spec fn sp_next_gosper(x: u32) -> u32 {
    let y = x & ((!x + 1) as u32);
    let c = x.wrapping_add(y);
    (((x ^ c) >> 2u32) / y) | c
}

/// The recursion the exercise uses for the number of `k`-element
/// choices out of `n`: zero- and over-sized choices count one.
pub open spec fn sp_binom(n: nat, k: nat) -> nat
    decreases n,
{
    if k >= n {
        1
    } else if k == 1 {
        n
    } else if k == 0 {
        1
    } else {
        sp_binom((n - 1) as nat, (k - 1) as nat) + sp_binom((n - 1) as nat, k)
    }
}

/// The choice count out of a non-empty set is bounded by the power of
/// two one below the set size.
pub proof fn lemma_binom_le_pow2(n: nat, k: nat)
    requires
        n >= 1,
    ensures
        sp_binom(n, k) <= vstd::arithmetic::power2::pow2((n - 1) as nat),
    decreases n,
{
    vstd::arithmetic::power2::lemma_pow2_pos((n - 1) as nat);
    if k >= n || k == 1 || k == 0 {
        if k == 1 {
            lemma_n_le_pow2(n);
        }
    } else {
        lemma_binom_le_pow2((n - 1) as nat, (k - 1) as nat);
        lemma_binom_le_pow2((n - 1) as nat, k);
        vstd::arithmetic::power2::lemma_pow2_unfold((n - 1) as nat);
    }
}

proof fn lemma_n_le_pow2(n: nat)
    requires
        n >= 1,
    ensures
        n <= vstd::arithmetic::power2::pow2((n - 1) as nat),
    decreases n,
{
    if n == 1 {
        vstd::arithmetic::power2::lemma2_to64();
    } else {
        lemma_n_le_pow2((n - 1) as nat);
        vstd::arithmetic::power2::lemma_pow2_unfold((n - 1) as nat);
        vstd::arithmetic::power2::lemma_pow2_pos((n - 2) as nat);
    }
}

pub struct Gosper {
    pub max_set_value: u32,
    pub subset_size: usize,
    pub curr: u32,
    pub next: u32,
}

impl Gosper {
    /// An iterator over the `subset_size`-element subsets of a
    /// `set_size`-bit set. Set sizes beyond the word width, or subset
    /// sizes beyond the set size, are contract violations.
    pub fn new(subset_size: usize, set_size: usize) -> (r: Gosper)
        requires
            set_size <= 32,
            subset_size <= set_size,
        ensures
            r.subset_size == subset_size,
            r.curr == 0,
            r.next == sp_initial_mask(subset_size as nat),
            r.max_set_value == sp_initial_mask(subset_size as nat) << ((if set_size - subset_size
                < 31 {
                set_size - subset_size
            } else {
                31
            }) as u32),
    {
        let max_set_size = Gosper::max_set_size();
        if set_size > max_set_size {
            return vstd::pervasive::unreached();
        }
        if subset_size > set_size {
            return vstd::pervasive::unreached();
        }
        let initial_value = Gosper::initial_value(subset_size);
        let shift: usize = if set_size - subset_size < max_set_size - 1 {
            set_size - subset_size
        } else {
            max_set_size - 1
        };
        let max_value = initial_value << (shift as u32);
        Gosper { max_set_value: max_value, subset_size, curr: 0, next: initial_value }
    }

    /// The widest set an iterator can range over: the word width.
    pub fn max_set_size() -> (r: usize)
        ensures
            r == 32,
    {
        32
    }

    /// The number of subsets the whole iteration visits.
    pub fn total_choices(&self) -> (r: usize)
        ensures
            r == sp_binom(sp_count_ones(self.max_set_value as nat), self.subset_size as nat),
    {
        Gosper::binomial_coefficient(self.set_size(), self.subset_size)
    }

    /// The choice count, by the addition recurrence.
    fn binomial_coefficient(set_size: usize, choices: usize) -> (r: usize)
        requires
            set_size <= 32,
        ensures
            r == sp_binom(set_size as nat, choices as nat),
        decreases set_size,
    {
        proof {
            vstd::arithmetic::power2::lemma2_to64();
        }
        if choices >= set_size {
            return 1;
        } else if choices == 1 {
            return set_size;
        }
        if choices == 0 {
            return 1;
        }
        proof {
            lemma_binom_le_pow2((set_size - 1) as nat, (choices - 1) as nat);
            lemma_binom_le_pow2((set_size - 1) as nat, choices as nat);
            vstd::arithmetic::power2::lemma_pow2_unfold((set_size - 1) as nat);
            if set_size - 1 < 31 {
                vstd::arithmetic::power2::lemma_pow2_strictly_increases(
                    (set_size - 1) as nat,
                    31,
                );
            }
        }
        Gosper::binomial_coefficient(set_size - 1, choices - 1) + Gosper::binomial_coefficient(
            set_size - 1,
            choices,
        )
    }

    /// The number of members of the set being ranged over: the set
    /// bits of the largest subset word.
    pub fn set_size(&self) -> (r: usize)
        ensures
            r == sp_count_ones(self.max_set_value as nat),
            r <= 32,
    {
        let mut v = self.max_set_value;
        let mut c: usize = 0;
        proof {
            lemma_count_ones_le_32(self.max_set_value);
        }
        while v > 0
            invariant
                c + sp_count_ones(v as nat) == sp_count_ones(self.max_set_value as nat),
                sp_count_ones(self.max_set_value as nat) <= 32,
            decreases v,
        {
            proof {
                lemma_clear_lowest_bit(v);
            }
            v = v & (v - 1);
            c = c + 1;
        }
        c
    }

    pub fn subset_size(&self) -> (r: usize)
        ensures
            r == self.subset_size,
    {
        self.subset_size
    }

    /// Yields the next subset word, or nothing once the last yielded
    /// word has reached the largest subset.
    pub fn next(&mut self) -> (r: Option<u32>)
        requires
            old(self).curr >= old(self).max_set_value || old(self).next != 0,
        ensures
            old(self).curr >= old(self).max_set_value ==> r == None::<u32> && *final(self)
                == *old(self),
            old(self).curr < old(self).max_set_value ==> r == Some(old(self).next)
                && final(self).curr == old(self).next && final(self).next == sp_next_gosper(
                old(self).next,
            ) && final(self).max_set_value == old(self).max_set_value && final(self).subset_size
                == old(self).subset_size,
    {
        if self.curr >= self.max_set_value {
            return None;
        }
        self.curr = self.next;
        let stepped = self.next_gosper(self.next);
        self.next = stepped;
        Some(self.curr)
    }

    fn next_gosper(&self, x: u32) -> (r: u32)
        requires
            x != 0,
        ensures
            r == sp_next_gosper(x),
    {
        proof {
            assert(!x <= 0xFFFF_FFFEu32 && (x & vstd::prelude::add(!x, 1)) != 0) by (bit_vector)
                requires
                    x != 0,
            ;
        }
        let y = x & (!x + 1);
        let c = x.wrapping_add(y);
        (((x ^ c) >> 2u32) / y) | c
    }

    fn initial_value(set_size: usize) -> (r: u32)
        ensures
            r == sp_initial_mask(set_size as nat),
    {
        let mut init_value: u32 = 0;
        let mut i: usize = 0;
        while i < set_size
            invariant
                i <= set_size,
                init_value == sp_initial_mask(i as nat),
            decreases set_size - i,
        {
            proof {
                assert((init_value << 1u32) <= 0xFFFF_FFFEu32) by (bit_vector);
            }
            init_value = (init_value << 1u32) + 1;
            i = i + 1;
        }
        init_value
    }
}

/// The number of trailing zero bits of a word (zero for zero).
pub open spec fn sp_tz(v: nat) -> nat
    decreases v,
{
    if v == 0 || v % 2 == 1 {
        0
    } else {
        1 + sp_tz(v / 2)
    }
}

/// The ascending bit positions of `v`, offset by `base`.
pub open spec fn sp_bit_indices(v: nat, base: int) -> Seq<int>
    decreases v,
{
    if v == 0 {
        Seq::empty()
    } else if v % 2 == 1 {
        seq![base] + sp_bit_indices(v / 2, base + 1)
    } else {
        sp_bit_indices(v / 2, base + 1)
    }
}

/// A walker over the set bit positions of one subset word.
pub struct BitSubset {
    pub curr_subset: u32,
    pub shifts: usize,
}

impl BitSubset {
    /// The walker's word has at most `32 - shifts` significant bits.
    pub open spec fn wf(self) -> bool {
        self.shifts <= 32 && (self.curr_subset as nat) < vstd::arithmetic::power2::pow2(
            (32 - self.shifts) as nat,
        )
    }

    pub fn new(subset: u32) -> (r: BitSubset)
        ensures
            r.curr_subset == subset,
            r.shifts == 0,
            r.wf(),
    {
        proof {
            vstd::arithmetic::power2::lemma2_to64();
        }
        BitSubset { curr_subset: subset, shifts: 0 }
    }

    /// Yields the position of the lowest remaining set bit, or nothing
    /// once the word is exhausted.
    pub fn next(&mut self) -> (r: Option<usize>)
        requires
            old(self).wf(),
        ensures
            final(self).wf(),
            old(self).curr_subset == 0 ==> r == None::<usize> && *final(self) == *old(self),
            old(self).curr_subset != 0 ==> ({
                let tz = sp_tz(old(self).curr_subset as nat);
                r == Some((old(self).shifts + tz) as usize) && final(self).shifts == old(
                    self,
                ).shifts + tz + 1 && final(self).curr_subset as nat == old(
                    self,
                ).curr_subset as nat / vstd::arithmetic::power2::pow2((tz + 1) as nat)
            }),
    {
        if self.curr_subset == 0 {
            return None;
        }
        let ghost start_curr = self.curr_subset as nat;
        let ghost start_shifts = self.shifts as int;
        proof {
            vstd::arithmetic::power2::lemma2_to64();
            vstd::arithmetic::div_mod::lemma_div_basics(start_curr as int);
        }
        while (self.curr_subset & 1) == 0
            invariant
                self.curr_subset != 0,
                self.shifts <= 32,
                (self.curr_subset as nat) < vstd::arithmetic::power2::pow2(
                    (32 - self.shifts) as nat,
                ),
                self.shifts - start_shifts == sp_tz(start_curr) - sp_tz(self.curr_subset as nat),
                sp_tz(self.curr_subset as nat) <= sp_tz(start_curr),
                self.curr_subset as nat == start_curr / vstd::arithmetic::power2::pow2(
                    (self.shifts - start_shifts) as nat,
                ),
            decreases self.curr_subset,
        {
            proof {
                lemma_bitsubset_shift_step(self.curr_subset, self.shifts, start_curr, start_shifts);
            }
            self.curr_subset = self.curr_subset >> 1u32;
            self.shifts = self.shifts + 1;
        }
        proof {
            let cs = self.curr_subset;
            assert(cs & 1 == 0 || cs & 1 == 1) by (bit_vector);
            lemma_bitsubset_final_step(self.curr_subset, self.shifts, start_curr, start_shifts);
        }
        self.curr_subset = self.curr_subset >> 1u32;
        self.shifts = self.shifts + 1;
        Some(self.shifts - 1)
    }

    /// Collects the positions of all set bits, in ascending order.
    pub fn to_indices(self) -> (r: Vec<usize>)
        requires
            self.wf(),
        ensures
            r@.map_values(|u: usize| u as int) == sp_bit_indices(
                self.curr_subset as nat,
                self.shifts as int,
            ),
    {
        let mut walker = self;
        let mut out: Vec<usize> = Vec::new();
        let ghost target = sp_bit_indices(self.curr_subset as nat, self.shifts as int);
        while walker.curr_subset != 0
            invariant
                walker.wf(),
                out@.map_values(|u: usize| u as int) + sp_bit_indices(
                    walker.curr_subset as nat,
                    walker.shifts as int,
                ) == target,
            decreases walker.curr_subset,
        {
            let ghost pre = *&walker;
            let ghost out_pre = out@;
            proof {
                lemma_indices_pop(walker.curr_subset as nat, walker.shifts as int);
                lemma_shr_decreases(walker.curr_subset);
            }
            let idx = match walker.next() {
                Some(i) => i,
                None => vstd::pervasive::unreached(),
            };
            out.push(idx);
            proof {
                assert(out@.map_values(|u: usize| u as int) =~= out_pre.map_values(
                    |u: usize| u as int,
                ).push(idx as int));
                assert(out@.map_values(|u: usize| u as int) + sp_bit_indices(
                    walker.curr_subset as nat,
                    walker.shifts as int,
                ) =~= target);
            }
        }
        proof {
            assert(out@.map_values(|u: usize| u as int) =~= target);
        }
        out
    }
}

/// Popping the lowest set bit from the index walk: the head of the
/// index list is the trailing-zero count, and the tail walks the
/// remaining word.
proof fn lemma_indices_pop(v: nat, b: int)
    requires
        v != 0,
    ensures
        sp_bit_indices(v, b) == seq![b + sp_tz(v)] + sp_bit_indices(
            v / vstd::arithmetic::power2::pow2(sp_tz(v) + 1),
            b + sp_tz(v) + 1,
        ),
    decreases v,
{
    if v % 2 == 1 {
        vstd::arithmetic::power2::lemma2_to64();
        assert(vstd::arithmetic::power2::pow2(1) == 2);
        assert(sp_bit_indices(v, b) == seq![b] + sp_bit_indices(v / 2, b + 1));
    } else {
        lemma_indices_pop(v / 2, b + 1);
        let tz = sp_tz(v);
        assert(tz == 1 + sp_tz(v / 2));
        vstd::arithmetic::power2::lemma_pow2_unfold(tz + 1);
        vstd::arithmetic::power2::lemma_pow2_pos(sp_tz(v / 2) + 1);
        vstd::arithmetic::div_mod::lemma_div_denominator(
            v as int,
            2,
            vstd::arithmetic::power2::pow2(sp_tz(v / 2) + 1) as int,
        );
        assert(v / 2 / vstd::arithmetic::power2::pow2(sp_tz(v / 2) + 1) == v
            / vstd::arithmetic::power2::pow2(tz + 1));
    }
}

/// One skipped even step inside the walker's loop.
proof fn lemma_bitsubset_shift_step(curr: u32, shifts: usize, start_curr: nat, start_shifts: int)
    requires
        curr != 0,
        curr & 1 == 0,
        shifts <= 32,
        (curr as nat) < vstd::arithmetic::power2::pow2((32 - shifts) as nat),
        shifts - start_shifts == sp_tz(start_curr) - sp_tz(curr as nat),
        sp_tz(curr as nat) <= sp_tz(start_curr),
        curr as nat == start_curr / vstd::arithmetic::power2::pow2((shifts - start_shifts) as nat),
    ensures
        (curr >> 1u32) as nat == curr as nat / 2,
        curr as nat / 2 != 0,
        shifts + 1 <= 32,
        (curr as nat / 2) < vstd::arithmetic::power2::pow2((32 - (shifts + 1)) as nat),
        sp_tz(curr as nat / 2) == sp_tz(curr as nat) - 1,
        curr as nat / 2 == start_curr / vstd::arithmetic::power2::pow2(
            (shifts + 1 - start_shifts) as nat,
        ),
{
    assert(curr % 2 == 0 && curr >= 2 && (curr >> 1u32) == curr / 2) by (bit_vector)
        requires
            curr != 0 && curr & 1 == 0,
    ;
    vstd::arithmetic::power2::lemma2_to64();
    assert(shifts < 32) by {
        if shifts == 32 {
            assert(vstd::arithmetic::power2::pow2(0) == 1);
        }
    }
    vstd::arithmetic::power2::lemma_pow2_unfold((32 - shifts) as nat);
    let k = (shifts - start_shifts) as nat;
    vstd::arithmetic::power2::lemma_pow2_unfold(k + 1);
    vstd::arithmetic::power2::lemma_pow2_pos(k);
    vstd::arithmetic::div_mod::lemma_div_denominator(
        start_curr as int,
        vstd::arithmetic::power2::pow2(k) as int,
        2,
    );
}

/// The final step of the walker's loop: the lowest bit is set.
proof fn lemma_bitsubset_final_step(curr: u32, shifts: usize, start_curr: nat, start_shifts: int)
    requires
        curr != 0,
        curr & 1 == 1,
        shifts <= 32,
        (curr as nat) < vstd::arithmetic::power2::pow2((32 - shifts) as nat),
        shifts - start_shifts == sp_tz(start_curr) - sp_tz(curr as nat),
        sp_tz(curr as nat) <= sp_tz(start_curr),
        curr as nat == start_curr / vstd::arithmetic::power2::pow2((shifts - start_shifts) as nat),
    ensures
        (curr >> 1u32) as nat == curr as nat / 2,
        sp_tz(curr as nat) == 0,
        shifts - start_shifts == sp_tz(start_curr),
        shifts + 1 <= 32,
        (curr as nat / 2) < vstd::arithmetic::power2::pow2((32 - (shifts + 1)) as nat),
        curr as nat / 2 == start_curr / vstd::arithmetic::power2::pow2(
            (sp_tz(start_curr) + 1) as nat,
        ),
{
    assert(curr % 2 == 1 && (curr >> 1u32) == curr / 2) by (bit_vector)
        requires
            curr & 1 == 1,
    ;
    vstd::arithmetic::power2::lemma2_to64();
    assert(shifts < 32) by {
        if shifts == 32 {
            assert(vstd::arithmetic::power2::pow2(0) == 1);
        }
    }
    vstd::arithmetic::power2::lemma_pow2_unfold((32 - shifts) as nat);
    let k = (shifts - start_shifts) as nat;
    vstd::arithmetic::power2::lemma_pow2_unfold(k + 1);
    vstd::arithmetic::power2::lemma_pow2_pos(k);
    vstd::arithmetic::div_mod::lemma_div_denominator(
        start_curr as int,
        vstd::arithmetic::power2::pow2(k) as int,
        2,
    );
}

/// Halving a positive word strictly shrinks it.
proof fn lemma_shr_decreases(curr: u32)
    requires
        curr != 0,
    ensures
        curr as nat / vstd::arithmetic::power2::pow2(sp_tz(curr as nat) + 1) < curr as nat,
{
    let tz = sp_tz(curr as nat);
    vstd::arithmetic::power2::lemma_pow2_unfold(tz + 1);
    vstd::arithmetic::power2::lemma_pow2_pos(tz + 1);
    vstd::arithmetic::power2::lemma_pow2_pos(tz);
    assert(vstd::arithmetic::power2::pow2(tz + 1) >= 2);
    vstd::arithmetic::div_mod::lemma_div_decreases(
        curr as int,
        vstd::arithmetic::power2::pow2(tz + 1) as int,
    );
}

} // verus!
