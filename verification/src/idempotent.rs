//! Jobs that may run more than once.

use vstd::prelude::*;

verus! {

/// A job whose result is a function of its range: running it again gives the
/// same result.
pub trait IdempotentJob: Send + Sync {
    /// What the job gives.
    type Output: Send;

    /// The result for a range. A verified job says what it is.
    open spec fn result(&self, start: usize, end: usize) -> Self::Output {
        arbitrary()
    }

    /// Ranges that the job can run over. A verified job may name fewer than
    /// all.
    open spec fn covers(&self, start: usize, end: usize) -> bool {
        true
    }

    /// Runs the job over a range.
    fn run(&self, start: usize, end: usize) -> (res: Self::Output)
        requires
            self.covers(start, end),
        ensures
            res == self.result(start, end),
    ;
}

/// Runs a job over a range.
pub fn run_idempotent<J: IdempotentJob>(job: &J, start: usize, end: usize) -> (res: J::Output)
    requires
        job.covers(start, end),
    ensures
        res == job.result(start, end),
{
    job.run(start, end)
}

} // verus!
