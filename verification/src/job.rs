//! A job with a weight (its importance) and a duration.

use vstd::prelude::*;

verus! {

pub struct Job {
    pub weight: i32,
    pub duration: i32,
}

/// The difference score of a job: weight minus duration.
pub open spec fn sp_diff(j: Job) -> int {
    j.weight - j.duration
}

impl Job {
    /// The difference score used by the greedy difference schedule.
    pub fn difference(&self) -> (r: i32)
        requires
            i32::MIN <= self.weight - self.duration <= i32::MAX,
        ensures
            r == sp_diff(*self),
    {
        self.weight - self.duration
    }
}

} // verus!
