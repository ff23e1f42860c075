//! The queue of the pool for background jobs.

use std::collections::VecDeque;
use vstd::prelude::*;

verus! {

/// Background jobs that wait for a sibling thread. A disabled pool takes
/// none.
pub struct IoPool<F> {
    enabled: bool,
    jobs: VecDeque<F>,
}

impl<F> IoPool<F> {
    /// Whether the pool takes jobs.
    pub closed spec fn takes_jobs(&self) -> bool {
        self.enabled
    }

    /// The waiting jobs, oldest first.
    pub closed spec fn waiting(&self) -> Seq<F> {
        self.jobs@
    }

    /// A pool without jobs.
    pub fn new(enabled: bool) -> (res: IoPool<F>)
        ensures
            res.takes_jobs() == enabled,
            res.waiting() == Seq::<F>::empty(),
    {
        IoPool { enabled, jobs: VecDeque::new() }
    }

    /// Whether the pool takes jobs.
    pub fn is_enabled(&self) -> (res: bool)
        ensures
            res == self.takes_jobs(),
    {
        self.enabled
    }

    /// Queues a job, if the pool takes any.
    pub fn submit(&mut self, job: F)
        ensures
            final(self).takes_jobs() == old(self).takes_jobs(),
            final(self).waiting() == if old(self).takes_jobs() {
                old(self).waiting().push(job)
            } else {
                old(self).waiting()
            },
    {
        if self.enabled {
            self.jobs.push_back(job);
        }
    }

    /// Takes the oldest job.
    pub fn take(&mut self) -> (res: Option<F>)
        ensures
            final(self).takes_jobs() == old(self).takes_jobs(),
            old(self).waiting().len() == 0 ==> res is None && final(self).waiting() == old(
                self,
            ).waiting(),
            old(self).waiting().len() > 0 ==> res == Some(old(self).waiting().first()) && final(
                self).waiting() == old(self).waiting().drop_first(),
    {
        self.jobs.pop_front()
    }

    /// Number of waiting jobs.
    pub fn len(&self) -> (res: usize)
        ensures
            res == self.waiting().len(),
    {
        self.jobs.len()
    }
}

} // verus!
