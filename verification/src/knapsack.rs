//! The knapsack solver: a space-saving dynamic program whose memo rows
//! hold only the weight/value pairs that improve on every lighter
//! entry, merged row by row as each item is considered.

use vstd::prelude::*;

verus! {

#[derive(Debug)]
pub struct Item {
    pub value: u32,
    pub weight: u32,
}

impl Item {
    pub fn new(weight: u32, value: u32) -> (r: Item)
        ensures
            r.weight == weight && r.value == value,
    {
        Item { weight, value }
    }
}

/// One row entry: the best value seen at this used weight.
#[derive(Clone, Copy, Debug)]
pub struct Memo {
    pub optimal_value: u32,
    pub used_weight: u32,
}

/// A memo extended by one item (exact when the sums fit).
pub open spec fn sp_memo_add(m: Memo, item: Item) -> Memo {
    Memo {
        optimal_value: (m.optimal_value + item.value) as u32,
        used_weight: (m.used_weight + item.weight) as u32,
    }
}

impl Memo {
    pub fn add(&self, item: &Item) -> (r: Memo)
        requires
            self.optimal_value + item.value <= u32::MAX,
            self.used_weight + item.weight <= u32::MAX,
        ensures
            r == sp_memo_add(*self, *item),
    {
        Memo {
            optimal_value: self.optimal_value + item.value,
            used_weight: self.used_weight + item.weight,
        }
    }

    pub fn makes_weight(&self, allowed_weight: u32) -> (r: bool)
        ensures
            r == (self.used_weight <= allowed_weight),
    {
        self.used_weight <= allowed_weight
    }

    pub fn better_than(&self, other: &Memo) -> (r: bool)
        ensures
            r == (self.optimal_value > other.optimal_value),
    {
        self.optimal_value > other.optimal_value
    }

    pub fn better_value<'a>(first: &'a Memo, second: &'a Memo) -> (r: &'a Memo)
        ensures
            *r == (if first.optimal_value > second.optimal_value {
                *first
            } else {
                *second
            }),
    {
        if first.optimal_value > second.optimal_value {
            first
        } else {
            second
        }
    }
}

/// A candidate entering a row: appended only when it fits the capacity
/// and improves on the last appended value.
pub open spec fn sp_updated(target: Seq<Memo>, last: Memo, cand: Memo, cap: u32) -> (Seq<Memo>, Memo) {
    if cand.used_weight <= cap && cand.optimal_value > last.optimal_value {
        (target.push(cand), cand)
    } else {
        (target, last)
    }
}

/// The merge of the previous row with the previous row shifted by the
/// current item, in weight order, keeping only improving entries.
pub open spec fn sp_merge(
    source: Seq<Memo>,
    item: Item,
    cap: u32,
    i: int,
    j: int,
    target: Seq<Memo>,
    last: Memo,
) -> Seq<Memo>
    decreases source.len() - i, source.len() - j,
{
    if !(0 <= i < source.len() && 0 <= j < source.len()) {
        sp_tail(source, item, cap, j, target, last)
    } else {
        let s = source[i];
        let shifted = sp_memo_add(source[j], item);
        if s.used_weight < shifted.used_weight {
            let (t2, l2) = sp_updated(target, last, s, cap);
            sp_merge(source, item, cap, i + 1, j, t2, l2)
        } else if s.used_weight > shifted.used_weight {
            let (t2, l2) = sp_updated(target, last, shifted, cap);
            sp_merge(source, item, cap, i, j + 1, t2, l2)
        } else {
            let better = if s.optimal_value > shifted.optimal_value {
                s
            } else {
                shifted
            };
            let (t2, l2) = sp_updated(target, last, better, cap);
            sp_merge(source, item, cap, i + 1, j + 1, t2, l2)
        }
    }
}

/// The leftover shifted entries once the unshifted row is exhausted.
pub open spec fn sp_tail(
    source: Seq<Memo>,
    item: Item,
    cap: u32,
    k: int,
    target: Seq<Memo>,
    last: Memo,
) -> Seq<Memo>
    decreases source.len() - k,
{
    if !(0 <= k < source.len()) {
        target
    } else {
        let (t2, l2) = sp_updated(target, last, sp_memo_add(source[k], item), cap);
        sp_tail(source, item, cap, k + 1, t2, l2)
    }
}

/// One full row step: the zero memo opens the row, then the merge
/// runs.
pub open spec fn sp_step_solution(source: Seq<Memo>, item: Item, cap: u32) -> Seq<Memo> {
    sp_merge(
        source,
        item,
        cap,
        0,
        0,
        Seq::empty().push(Memo { optimal_value: 0, used_weight: 0 }),
        source[0],
    )
}

/// The row after the first `k` items.
pub open spec fn sp_rows(items: Seq<Item>, cap: u32, k: int) -> Seq<Memo>
    decreases k,
{
    if k <= 0 {
        Seq::empty().push(Memo { optimal_value: 0, used_weight: 0 })
    } else {
        sp_step_solution(sp_rows(items, cap, k - 1), items[k - 1], cap)
    }
}

/// The solved value: the best value of the final row, which its
/// construction keeps in the last entry.
pub open spec fn sp_solve(items: Seq<Item>, cap: u32) -> u32 {
    sp_rows(items, cap, items.len() as int).last().optimal_value
}

/// The total value of a list of items.
pub open spec fn sp_values_total(items: Seq<Item>) -> int
    decreases items.len(),
{
    if items.len() == 0 {
        0
    } else {
        sp_values_total(items.drop_last()) + items.last().value
    }
}

/// The total weight of a list of items.
pub open spec fn sp_weights_total(items: Seq<Item>) -> int
    decreases items.len(),
{
    if items.len() == 0 {
        0
    } else {
        sp_weights_total(items.drop_last()) + items.last().weight
    }
}

/// All entries of a row are bounded by the given value and weight.
pub open spec fn sp_row_bounded(row: Seq<Memo>, bv: int, bw: int) -> bool {
    forall|k: int|
        0 <= k < row.len() ==> (#[trigger] row[k]).optimal_value <= bv && row[k].used_weight <= bw
}

pub struct Solver {
    pub items: Vec<Item>,
    pub knapsack_size: u32,
    pub first_memo: Vec<Memo>,
    pub second_memo: Vec<Memo>,
}

impl Solver {
    pub fn new(items: Vec<Item>, knapsack_size: u32) -> (r: Solver)
        requires
            items@.len() < usize::MAX,
        ensures
            r.items == items,
            r.knapsack_size == knapsack_size,
    {
        let memo_size = items.len() + 1;
        let first_memo = Solver::create_memo(memo_size);
        let second_memo = Solver::create_memo(memo_size);
        Solver { items, knapsack_size, first_memo, second_memo }
    }

    /// Runs the dynamic program over every item and returns the best
    /// value that fits the knapsack.
    pub fn solve(&mut self) -> (r: u32)
        requires
            old(self).items@.len() < usize::MAX,
            sp_values_total(old(self).items@) <= u32::MAX,
            sp_weights_total(old(self).items@) <= u32::MAX,
        ensures
            final(self).items == old(self).items,
            final(self).knapsack_size == old(self).knapsack_size,
            r == sp_solve(old(self).items@, old(self).knapsack_size),
    {
        let ghost gitems = self.items@;
        let cap = self.knapsack_size;
        self.first_memo.clear();
        self.second_memo.clear();
        self.first_memo.push(Memo { optimal_value: 0, used_weight: 0 });
        let mut cur: Vec<Memo> = Vec::new();
        let mut nxt: Vec<Memo> = Vec::new();
        core::mem::swap(&mut cur, &mut self.first_memo);
        core::mem::swap(&mut nxt, &mut self.second_memo);
        let count = self.items.len();
        let mut i: usize = 0;
        proof {
            assert(gitems.take(0) =~= Seq::<Item>::empty());
            assert(cur@ =~= sp_rows(gitems, cap, 0));
        }
        while i < count
            invariant
                gitems == self.items@,
                cap == self.knapsack_size,
                count == gitems.len(),
                count < usize::MAX,
                sp_values_total(gitems) <= u32::MAX,
                sp_weights_total(gitems) <= u32::MAX,
                i <= count,
                cur@ == sp_rows(gitems, cap, i as int),
                cur@.len() >= 1,
                sp_row_bounded(
                    cur@,
                    sp_values_total(gitems.take(i as int)),
                    sp_weights_total(gitems.take(i as int)),
                ),
            decreases count - i,
        {
            let ghost bv = sp_values_total(gitems.take(i as int));
            let ghost bw = sp_weights_total(gitems.take(i as int));
            proof {
                assert(gitems.take(i as int + 1).drop_last() =~= gitems.take(i as int));
                assert(gitems.take(i as int + 1).last() == gitems[i as int]);
                lemma_totals_monotone(gitems, i as int + 1);
            }
            nxt.clear();
            let item = &self.items[i];
            Solver::step_solution(item, &cur, &mut nxt, cap, Ghost(bv), Ghost(bw));
            core::mem::swap(&mut cur, &mut nxt);
            i = i + 1;
        }
        proof {
            assert(gitems.take(count as int) =~= gitems);
        }
        if count % 2 == 0 {
            self.first_memo = cur;
            self.second_memo = nxt;
        } else {
            self.second_memo = cur;
            self.first_memo = nxt;
        }
        self.solution_memo().optimal_value
    }

    fn solution_memo(&self) -> (r: Memo)
        requires
            self.items@.len() % 2 == 0 ==> self.first_memo@.len() >= 1,
            self.items@.len() % 2 != 0 ==> self.second_memo@.len() >= 1,
        ensures
            self.items@.len() % 2 == 0 ==> r == self.first_memo@.last(),
            self.items@.len() % 2 != 0 ==> r == self.second_memo@.last(),
    {
        if self.items.len() % 2 == 0 {
            self.first_memo[self.first_memo.len() - 1]
        } else {
            self.second_memo[self.second_memo.len() - 1]
        }
    }

    fn update_target(
        target_memo: &mut Vec<Memo>,
        last_added: &Memo,
        to_add: &Memo,
        knapsack_size: u32,
    ) -> (r: Memo)
        ensures
            (final(target_memo)@, r) == sp_updated(
                old(target_memo)@,
                *last_added,
                *to_add,
                knapsack_size,
            ),
    {
        if to_add.makes_weight(knapsack_size) && to_add.better_than(last_added) {
            target_memo.push(*to_add);
            return *to_add;
        }
        *last_added
    }

    /// One row of the dynamic program, merged from the previous row
    /// and its shift by the current item.
    fn step_solution(
        cur_item: &Item,
        source_memo: &Vec<Memo>,
        target_memo: &mut Vec<Memo>,
        knapsack_size: u32,
        Ghost(bv): Ghost<int>,
        Ghost(bw): Ghost<int>,
    )
        requires
            source_memo@.len() >= 1,
            old(target_memo)@.len() == 0,
            sp_row_bounded(source_memo@, bv, bw),
            bv + cur_item.value <= u32::MAX,
            bw + cur_item.weight <= u32::MAX,
        ensures
            final(target_memo)@ == sp_step_solution(source_memo@, *cur_item, knapsack_size),
            final(target_memo)@.len() >= 1,
            sp_row_bounded(final(target_memo)@, bv + cur_item.value, bw + cur_item.weight),
    {
        let ghost src = source_memo@;
        let ghost goal = sp_step_solution(src, *cur_item, knapsack_size);
        let mut i: usize = 0;
        let mut j: usize = 0;

        let mut last_added = source_memo[0];
        target_memo.push(Memo { optimal_value: 0, used_weight: 0 });
        proof {
            assert(target_memo@ =~= Seq::<Memo>::empty().push(
                Memo { optimal_value: 0, used_weight: 0 },
            ));
        }
        let len = source_memo.len();
        while i < len && j < len
            invariant
                src == source_memo@,
                len == src.len(),
                len >= 1,
                sp_row_bounded(src, bv, bw),
                bv + cur_item.value <= u32::MAX,
                bw + cur_item.weight <= u32::MAX,
                i <= len,
                j <= len,
                sp_merge(
                    src,
                    *cur_item,
                    knapsack_size,
                    i as int,
                    j as int,
                    target_memo@,
                    last_added,
                ) == goal,
                sp_row_bounded(target_memo@, bv + cur_item.value, bw + cur_item.weight),
                target_memo@.len() >= 1,
            decreases len - i, len - j,
        {
            let ghost t_pre = target_memo@;
            let source = source_memo[i];
            let source_prime = source_memo[j].add(cur_item);
            if source.used_weight < source_prime.used_weight {
                last_added = Solver::update_target(
                    target_memo,
                    &last_added,
                    &source,
                    knapsack_size,
                );
                i = i + 1;
            } else if source.used_weight > source_prime.used_weight {
                last_added = Solver::update_target(
                    target_memo,
                    &last_added,
                    &source_prime,
                    knapsack_size,
                );
                j = j + 1;
            } else {
                last_added = Solver::update_target(
                    target_memo,
                    &last_added,
                    Memo::better_value(&source, &source_prime),
                    knapsack_size,
                );
                i = i + 1;
                j = j + 1;
            }
            proof {
                assert forall|k: int|
                    0 <= k < target_memo@.len() implies (#[trigger] target_memo@[k]).optimal_value
                    <= bv + cur_item.value && target_memo@[k].used_weight <= bw
                    + cur_item.weight by {
                    if k < t_pre.len() {
                        assert(target_memo@[k] == t_pre[k]);
                    }
                }
            }
        }
        let mut k: usize = j;
        proof {
            assert(sp_merge(src, *cur_item, knapsack_size, i as int, j as int, target_memo@, last_added)
                == sp_tail(src, *cur_item, knapsack_size, j as int, target_memo@, last_added));
        }
        while k < len
            invariant
                src == source_memo@,
                len == src.len(),
                sp_row_bounded(src, bv, bw),
                bv + cur_item.value <= u32::MAX,
                bw + cur_item.weight <= u32::MAX,
                k <= len,
                sp_tail(src, *cur_item, knapsack_size, k as int, target_memo@, last_added) == goal,
                sp_row_bounded(target_memo@, bv + cur_item.value, bw + cur_item.weight),
                target_memo@.len() >= 1,
            decreases len - k,
        {
            let ghost t_pre = target_memo@;
            let source = source_memo[k];
            last_added = Solver::update_target(
                target_memo,
                &last_added,
                &source.add(cur_item),
                knapsack_size,
            );
            proof {
                assert forall|kk: int|
                    0 <= kk < target_memo@.len() implies (#[trigger] target_memo@[kk]).optimal_value
                    <= bv + cur_item.value && target_memo@[kk].used_weight <= bw
                    + cur_item.weight by {
                    if kk < t_pre.len() {
                        assert(target_memo@[kk] == t_pre[kk]);
                    }
                }
            }
            k = k + 1;
        }
    }

    fn create_memo(memo_size: usize) -> (r: Vec<Memo>)
        ensures
            r@.len() == 0,
    {
        Vec::<Memo>::with_capacity(memo_size)
    }
}

/// Prefix totals only grow as items are taken in.
proof fn lemma_totals_monotone(items: Seq<Item>, k: int)
    requires
        0 <= k <= items.len(),
    ensures
        sp_values_total(items.take(k)) <= sp_values_total(items),
        sp_weights_total(items.take(k)) <= sp_weights_total(items),
    decreases items.len() - k,
{
    if k == items.len() {
        assert(items.take(k) =~= items);
    } else {
        lemma_totals_monotone(items, k + 1);
        assert(items.take(k + 1).drop_last() =~= items.take(k));
        assert(items.take(k + 1).last() == items[k]);
    }
}

} // verus!
