//! Greedy job schedules: ordering by difference score or by
//! weight-to-duration ratio, and the weighted sum of completion times.

use vstd::prelude::*;
use crate::job::{Job, sp_diff};

verus! {

broadcast use vstd::seq_lib::group_to_multiset_ensures;

/// `a` may stand before `b` in the difference schedule: larger
/// difference first, ties broken by larger weight.
pub open spec fn sp_diff_le(a: Job, b: Job) -> bool {
    sp_diff(a) > sp_diff(b) || (sp_diff(a) == sp_diff(b) && a.weight >= b.weight)
}

/// `a` strictly precedes `b` under the difference comparator.
pub open spec fn sp_diff_before(a: Job, b: Job) -> bool {
    sp_diff(a) > sp_diff(b) || (sp_diff(a) == sp_diff(b) && a.weight > b.weight)
}

/// `a` may stand before `b` in the ratio schedule: its
/// weight-to-duration ratio is at least `b`'s, compared exactly by
/// cross multiplication (durations are positive).
pub open spec fn sp_ratio_le(a: Job, b: Job) -> bool {
    a.weight * b.duration >= b.weight * a.duration
}

/// `a`'s ratio is strictly larger than `b`'s.
pub open spec fn sp_ratio_before(a: Job, b: Job) -> bool {
    a.weight * b.duration > b.weight * a.duration
}

/// The completion time of the last job of the sequence.
pub open spec fn sp_completion_time(s: Seq<Job>) -> int
    decreases s.len(),
{
    if s.len() == 0 {
        0
    } else {
        sp_completion_time(s.drop_last()) + s.last().duration
    }
}

/// The sum, over the jobs in schedule order, of each job's completion
/// time weighted by its weight.
pub open spec fn sp_weighted_completion(s: Seq<Job>) -> int
    decreases s.len(),
{
    if s.len() == 0 {
        0
    } else {
        sp_weighted_completion(s.drop_last()) + sp_completion_time(s) * s.last().weight
    }
}

/// Every partial sum of the weighted-completion fold stays within
/// `i64`.
pub open spec fn sp_schedule_fits(s: Seq<Job>) -> bool {
    forall|k: int|
        1 <= k <= s.len() ==> i64::MIN <= sp_completion_time(#[trigger] s.take(k)) <= i64::MAX
            && i64::MIN <= sp_completion_time(s.take(k)) * s[k - 1].weight <= i64::MAX
            && i64::MIN <= sp_weighted_completion(s.take(k)) <= i64::MAX
}

pub struct Schedule {
    pub jobs: Box<Vec<Job>>,
}

impl Schedule {
    /// Reorders the jobs by decreasing difference score, ties broken
    /// by decreasing weight; the multiset of jobs is unchanged.
    pub fn sort_by_difference(&mut self)
        requires
            forall|k: int|
                0 <= k < (*old(self).jobs)@.len() ==> i32::MIN <= (#[trigger] (*old(
                    self,
                ).jobs)@[k]).weight - (*old(self).jobs)@[k].duration <= i32::MAX,
        ensures
            (*final(self).jobs)@.to_multiset() == (*old(self).jobs)@.to_multiset(),
            (*final(self).jobs)@.len() == (*old(self).jobs)@.len(),
            forall|i: int, j: int|
                0 <= i < j < (*final(self).jobs)@.len() ==> sp_diff_le(
                    (*final(self).jobs)@[i],
                    (*final(self).jobs)@[j],
                ),
    {
        let ghost orig = (*self.jobs)@;
        let mut rest: Vec<Job> = Vec::new();
        core::mem::swap(&mut rest, &mut *self.jobs);
        let mut out: Vec<Job> = Vec::with_capacity(rest.len());
        while rest.len() > 0
            invariant
                forall|k: int|
                    0 <= k < rest@.len() ==> i32::MIN <= (#[trigger] rest@[k]).weight
                        - rest@[k].duration <= i32::MAX,
                forall|k: int|
                    0 <= k < out@.len() ==> i32::MIN <= (#[trigger] out@[k]).weight
                        - out@[k].duration <= i32::MAX,
                out@.to_multiset().add(rest@.to_multiset()) == orig.to_multiset(),
                out@.len() + rest@.len() == orig.len(),
                forall|i: int, j: int| 0 <= i < j < out@.len() ==> sp_diff_le(out@[i], out@[j]),
                forall|i: int, k: int|
                    0 <= i < out@.len() && 0 <= k < rest@.len() ==> sp_diff_le(
                        #[trigger] out@[i],
                        #[trigger] rest@[k],
                    ),
            decreases rest@.len(),
        {
            let mut m: usize = 0;
            let mut j: usize = 1;
            while j < rest.len()
                invariant
                    forall|k: int|
                        0 <= k < rest@.len() ==> i32::MIN <= (#[trigger] rest@[k]).weight
                            - rest@[k].duration <= i32::MAX,
                    rest@.len() > 0,
                    1 <= j <= rest@.len(),
                    m < j,
                    forall|k: int|
                        0 <= k < j ==> !sp_diff_before(#[trigger] rest@[k], rest@[m as int]),
                decreases rest@.len() - j,
            {
                let c = compare_jobs_by_difference(&rest[j], &rest[m]);
                match c {
                    core::cmp::Ordering::Less => {
                        m = j;
                    },
                    _ => {},
                }
                j = j + 1;
            }
            let ghost rest_pre = rest@;
            let ghost out_pre = out@;
            let picked = rest.remove(m);
            out.push(picked);
            proof {
                assert(rest_pre.to_multiset().count(picked) > 0) by {
                    assert(rest_pre.contains(picked));
                }
                assert(out@.to_multiset() =~= out_pre.to_multiset().insert(picked));
                assert(rest@.to_multiset() =~= rest_pre.to_multiset().remove(picked));
                assert(out@.to_multiset().add(rest@.to_multiset()) =~= out_pre.to_multiset().add(
                    rest_pre.to_multiset(),
                ));
                assert forall|i: int, k: int|
                    0 <= i < out@.len() && 0 <= k < rest@.len() implies sp_diff_le(
                    #[trigger] out@[i],
                    #[trigger] rest@[k],
                ) by {
                    let prev_k = if k < m as int {
                        k
                    } else {
                        k + 1
                    };
                    assert(rest@[k] == rest_pre[prev_k]);
                    assert(!sp_diff_before(rest_pre[prev_k], picked));
                    if i < out_pre.len() {
                        assert(out@[i] == out_pre[i]);
                        assert(sp_diff_le(out@[i], rest_pre[prev_k]));
                    } else {
                        assert(out@[i] == picked);
                    }
                }
                assert forall|i: int, j2: int|
                    0 <= i < j2 < out@.len() implies sp_diff_le(out@[i], out@[j2]) by {
                    if j2 < out_pre.len() {
                        assert(out@[i] == out_pre[i] && out@[j2] == out_pre[j2]);
                    } else {
                        assert(out@[j2] == picked);
                        if i < out_pre.len() {
                            assert(out@[i] == out_pre[i]);
                            assert(sp_diff_le(out_pre[i], rest_pre[m as int]));
                        }
                    }
                }
            }
        }
        *self.jobs = out;
        proof {
            assert(rest@.to_multiset() =~= Seq::<Job>::empty().to_multiset());
            assert((*self.jobs)@.to_multiset() =~= orig.to_multiset());
        }
    }

    /// Reorders the jobs by decreasing weight-to-duration ratio; the
    /// multiset of jobs is unchanged. Durations must be positive.
    pub fn sort_by_ratio(&mut self)
        requires
            forall|k: int| 0 <= k < (*old(self).jobs)@.len() ==> (#[trigger] (*old(
                self,
            ).jobs)@[k]).duration > 0,
        ensures
            (*final(self).jobs)@.to_multiset() == (*old(self).jobs)@.to_multiset(),
            (*final(self).jobs)@.len() == (*old(self).jobs)@.len(),
            forall|i: int, j: int|
                0 <= i < j < (*final(self).jobs)@.len() ==> sp_ratio_le(
                    (*final(self).jobs)@[i],
                    (*final(self).jobs)@[j],
                ),
    {
        let ghost orig = (*self.jobs)@;
        let mut rest: Vec<Job> = Vec::new();
        core::mem::swap(&mut rest, &mut *self.jobs);
        let mut out: Vec<Job> = Vec::with_capacity(rest.len());
        while rest.len() > 0
            invariant
                forall|k: int| 0 <= k < rest@.len() ==> (#[trigger] rest@[k]).duration > 0,
                forall|k: int| 0 <= k < out@.len() ==> (#[trigger] out@[k]).duration > 0,
                out@.to_multiset().add(rest@.to_multiset()) == orig.to_multiset(),
                out@.len() + rest@.len() == orig.len(),
                forall|i: int, j: int| 0 <= i < j < out@.len() ==> sp_ratio_le(out@[i], out@[j]),
                forall|i: int, k: int|
                    0 <= i < out@.len() && 0 <= k < rest@.len() ==> sp_ratio_le(
                        #[trigger] out@[i],
                        #[trigger] rest@[k],
                    ),
            decreases rest@.len(),
        {
            let mut m: usize = 0;
            let mut j: usize = 1;
            while j < rest.len()
                invariant
                    forall|k: int| 0 <= k < rest@.len() ==> (#[trigger] rest@[k]).duration > 0,
                    rest@.len() > 0,
                    1 <= j <= rest@.len(),
                    m < j,
                    forall|k: int|
                        0 <= k < j ==> !sp_ratio_before(#[trigger] rest@[k], rest@[m as int]),
                decreases rest@.len() - j,
            {
                if ratio_greater(&rest[j], &rest[m]) {
                    proof {
                        assert forall|k: int|
                            0 <= k < j as int + 1 implies !sp_ratio_before(
                            #[trigger] rest@[k],
                            rest@[j as int],
                        ) by {
                            if k < j as int {
                                lemma_ratio_scan_step(
                                    rest@[k],
                                    rest@[m as int],
                                    rest@[j as int],
                                );
                            }
                        }
                    }
                    m = j;
                }
                j = j + 1;
            }
            let ghost rest_pre = rest@;
            let ghost out_pre = out@;
            let picked = rest.remove(m);
            out.push(picked);
            proof {
                assert(rest_pre.to_multiset().count(picked) > 0) by {
                    assert(rest_pre.contains(picked));
                }
                assert(out@.to_multiset() =~= out_pre.to_multiset().insert(picked));
                assert(rest@.to_multiset() =~= rest_pre.to_multiset().remove(picked));
                assert(out@.to_multiset().add(rest@.to_multiset()) =~= out_pre.to_multiset().add(
                    rest_pre.to_multiset(),
                ));
                assert forall|i: int, k: int|
                    0 <= i < out@.len() && 0 <= k < rest@.len() implies sp_ratio_le(
                    #[trigger] out@[i],
                    #[trigger] rest@[k],
                ) by {
                    let prev_k = if k < m as int {
                        k
                    } else {
                        k + 1
                    };
                    assert(rest@[k] == rest_pre[prev_k]);
                    assert(!sp_ratio_before(rest_pre[prev_k], picked));
                    if i < out_pre.len() {
                        assert(out@[i] == out_pre[i]);
                        assert(sp_ratio_le(out@[i], rest_pre[prev_k]));
                    } else {
                        assert(out@[i] == picked);
                    }
                }
                assert forall|i: int, j2: int|
                    0 <= i < j2 < out@.len() implies sp_ratio_le(out@[i], out@[j2]) by {
                    if j2 < out_pre.len() {
                        assert(out@[i] == out_pre[i] && out@[j2] == out_pre[j2]);
                    } else {
                        assert(out@[j2] == picked);
                        if i < out_pre.len() {
                            assert(out@[i] == out_pre[i]);
                            assert(sp_ratio_le(out_pre[i], rest_pre[m as int]));
                        }
                    }
                }
            }
        }
        *self.jobs = out;
        proof {
            assert(rest@.to_multiset() =~= Seq::<Job>::empty().to_multiset());
            assert((*self.jobs)@.to_multiset() =~= orig.to_multiset());
        }
    }

    /// Folds over the schedule, accumulating each job's completion
    /// time and the weighted sum of completion times.
    pub fn total_weighted_completion_time(&self) -> (r: i64)
        requires
            sp_schedule_fits((*self.jobs)@),
        ensures
            r == sp_weighted_completion((*self.jobs)@),
    {
        let ghost s = (*self.jobs)@;
        let mut weighted_sum: i64 = 0;
        let mut running_completion_time: i64 = 0;
        let count = self.jobs.len();
        let mut i: usize = 0;
        proof {
            assert(s.take(0) =~= Seq::<Job>::empty());
        }
        while i < count
            invariant
                s == (*self.jobs)@,
                count == s.len(),
                sp_schedule_fits(s),
                i <= count,
                running_completion_time == sp_completion_time(s.take(i as int)),
                weighted_sum == sp_weighted_completion(s.take(i as int)),
            decreases count - i,
        {
            let job = &self.jobs[i];
            proof {
                assert(s.take(i as int + 1).drop_last() =~= s.take(i as int));
                assert(s.take(i as int + 1).last() == s[i as int]);
                assert(1 <= i + 1 <= s.len());
                assert(i64::MIN <= sp_completion_time(s.take(i as int + 1)) <= i64::MAX);
                assert(i64::MIN <= sp_completion_time(s.take(i as int + 1)) * s[i as int].weight
                    <= i64::MAX);
                assert(i64::MIN <= sp_weighted_completion(s.take(i as int + 1)) <= i64::MAX);
            }
            let next_time = running_completion_time + job.duration as i64;
            weighted_sum = weighted_sum + next_time * (job.weight as i64);
            running_completion_time = next_time;
            i = i + 1;
        }
        proof {
            assert(s.take(count as int) =~= s);
        }
        weighted_sum
    }
}

/// The difference comparator: sorts larger differences first, ties
/// broken by larger weight.
fn compare_jobs_by_difference(job_a: &Job, job_b: &Job) -> (r: core::cmp::Ordering)
    requires
        i32::MIN <= job_a.weight - job_a.duration <= i32::MAX,
        i32::MIN <= job_b.weight - job_b.duration <= i32::MAX,
    ensures
        r == core::cmp::Ordering::Less <==> sp_diff_before(*job_a, *job_b),
        r == core::cmp::Ordering::Equal <==> (sp_diff(*job_a) == sp_diff(*job_b) && job_a.weight
            == job_b.weight),
{
    let da = job_a.difference();
    let db = job_b.difference();
    if db < da {
        core::cmp::Ordering::Less
    } else if da < db {
        core::cmp::Ordering::Greater
    } else if job_b.weight < job_a.weight {
        core::cmp::Ordering::Less
    } else if job_a.weight < job_b.weight {
        core::cmp::Ordering::Greater
    } else {
        core::cmp::Ordering::Equal
    }
}

/// Exact ratio comparison by cross multiplication in 64 bits.
fn ratio_greater(job_a: &Job, job_b: &Job) -> (r: bool)
    ensures
        r == sp_ratio_before(*job_a, *job_b),
{
    proof {
        assert(i64::MIN <= (job_a.weight as int) * (job_b.duration as int) <= i64::MAX
            && i64::MIN <= (job_b.weight as int) * (job_a.duration as int) <= i64::MAX)
            by (nonlinear_arith)
            requires
                -0x8000_0000 <= job_a.weight as int <= 0x7fff_ffff,
                -0x8000_0000 <= job_a.duration as int <= 0x7fff_ffff,
                -0x8000_0000 <= job_b.weight as int <= 0x7fff_ffff,
                -0x8000_0000 <= job_b.duration as int <= 0x7fff_ffff,
        ;
    }
    (job_a.weight as i64) * (job_b.duration as i64) > (job_b.weight as i64) * (job_a.duration
        as i64)
}

/// During the scan, an element no larger than the old minimum is also
/// no larger than a strictly smaller new minimum.
proof fn lemma_ratio_scan_step(k: Job, m: Job, j: Job)
    requires
        k.duration > 0,
        m.duration > 0,
        j.duration > 0,
        !sp_ratio_before(k, m),
        sp_ratio_before(j, m),
    ensures
        !sp_ratio_before(k, j),
{
    assert(k.weight * j.duration <= j.weight * k.duration) by (nonlinear_arith)
        requires
            k.duration > 0,
            m.duration > 0,
            j.duration > 0,
            k.weight * m.duration <= m.weight * k.duration,
            j.weight * m.duration > m.weight * j.duration,
    ;
}

} // verus!
