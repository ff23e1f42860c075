//! Work-stealing helpers over a plain deque of jobs.

use crate::chase_lev_local::{new_chase_lev, Steal, Stealer, Worker};
use crate::job::JobRef;
use vstd::prelude::*;

verus! {

/// Slots of an [`ArenaDeque`].
pub const ARENA_DEQUE_SLOTS: usize = 64;

/// A deque of jobs with its owner and thief handles.
pub struct ArenaDeque {
    worker: Worker<JobRef>,
    stealer: Stealer,
}

impl View for ArenaDeque {
    type V = Seq<JobRef>;

    /// The jobs, oldest first.
    closed spec fn view(&self) -> Seq<JobRef> {
        self.worker@
    }
}

impl ArenaDeque {
    /// Representation invariant.
    pub closed spec fn wf(&self) -> bool {
        self.worker.wf() && self.worker.slots() == ARENA_DEQUE_SLOTS
    }

    /// An empty deque.
    pub fn new_lifo() -> (res: ArenaDeque)
        ensures
            res.wf(),
            res@ == Seq::<JobRef>::empty(),
    {
        let (worker, stealer) = new_chase_lev::<JobRef>(64);
        proof {
            crate::math::lemma_common_slot_counts();
            crate::math::rounded_slot_count_unique(64, worker.slots(), 64);
        }
        ArenaDeque { worker, stealer }
    }

    /// Appends a job. The deque must have room.
    pub fn push(&mut self, job: JobRef)
        requires
            old(self).wf(),
            old(self)@.len() < ARENA_DEQUE_SLOTS,
        ensures
            final(self).wf(),
            final(self)@ == old(self)@.push(job),
    {
        let _pushed = self.worker.push(job);
    }

    /// Takes the newest job.
    pub fn pop(&mut self) -> (res: Option<JobRef>)
        requires
            old(self).wf(),
        ensures
            final(self).wf(),
            old(self)@.len() == 0 ==> res is None && final(self)@ == old(self)@,
            old(self)@.len() > 0 ==> {
                &&& res == Some(old(self)@.last())
                &&& final(self)@ == old(self)@.drop_last()
            },
    {
        match self.worker.pop() {
            Steal::Success(j) => Some(j),
            _ => None,
        }
    }

    /// A thief handle.
    pub fn stealer(&self) -> Stealer {
        self.stealer
    }

    /// The deque that a thief handle takes from.
    pub fn worker_mut(&mut self) -> (res: &mut Worker<JobRef>)
        requires
            old(self).wf(),
        ensures
            (*res).wf(),
            (*res)@ == old(self)@,
            (*res).slots() == ARENA_DEQUE_SLOTS,
            (*final(res)).wf() && (*final(res)).slots() == ARENA_DEQUE_SLOTS ==> final(self).wf(),
            final(self)@ == (*final(res))@,
    {
        &mut self.worker
    }

    /// Whether no job is left.
    pub fn is_empty(&self) -> (res: bool)
        requires
            self.wf(),
        ensures
            res == (self@.len() == 0),
    {
        self.worker.is_empty()
    }
}

/// Steals with a definite answer: a job, or the deque is empty. An
/// uninterrupted steal loses no race, so the first attempt decides.
pub fn steal_retry(stealer: &Stealer, victim: &mut Worker<JobRef>) -> (res: Option<JobRef>)
    requires
        old(victim).wf(),
    ensures
        final(victim).wf(),
        final(victim).slots() == old(victim).slots(),
        old(victim)@.len() == 0 ==> res is None && final(victim)@ == old(victim)@,
        old(victim)@.len() > 0 ==> {
            &&& res == Some(old(victim)@.first())
            &&& final(victim)@ == old(victim)@.drop_first()
        },
{
    match stealer.steal(victim) {
        Steal::Success(job) => Some(job),
        Steal::Empty | Steal::Retry => None,
    }
}

/// Steals one job, for a caller that has a deque of its own to fall back to.
pub fn steal_retry_batch(stealer: &Stealer, victim: &mut Worker<JobRef>, _dest: &Worker<JobRef>) -> (res:
    Option<JobRef>)
    requires
        old(victim).wf(),
    ensures
        final(victim).wf(),
        final(victim).slots() == old(victim).slots(),
        old(victim)@.len() == 0 ==> res is None && final(victim)@ == old(victim)@,
        old(victim)@.len() > 0 ==> {
            &&& res == Some(old(victim)@.first())
            &&& final(victim)@ == old(victim)@.drop_first()
        },
{
    steal_retry(stealer, victim)
}

} // verus!
