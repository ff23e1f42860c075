//! Fat Chase-Lev deque: each slot carries up to three jobs.
//!
//! The owner collects pushes in an accumulator that thieves cannot see. The
//! third push, or a flush, publishes the accumulator as one slot of the
//! underlying [`crate::chase_lev_local`] deque. The jobs of one slot share
//! the dispatch hints of the first job that entered it.

use crate::chase_lev_local::{new_chase_lev, Steal, Stealer, Worker};
use crate::job::{compact_of, CompactJobRef, JobRef};
use crate::math::{is_slot_count, rounded_slot_count};
use vstd::prelude::*;

verus! {

/// Jobs per slot.
pub const FCL_LINE_ITEMS: usize = 3;

/// What a slot holds: its jobs in push order and the hints they share.
#[verifier::ext_equal]
pub struct Slot {
    /// The jobs, in the order they entered.
    pub jobs: Seq<CompactJobRef>,
    /// Shared operand-size hint.
    pub k_outer: u8,
    /// Shared NUMA hint.
    pub numa_hint: u8,
    /// Shared variant tag.
    pub variant: u8,
}

impl Slot {
    /// The slot after `job` enters it; the first job stamps the hints.
    pub open spec fn with_job(self, job: JobRef) -> Slot {
        if self.jobs.len() == 0 {
            Slot {
                jobs: seq![compact_of(job)],
                k_outer: job.k_outer,
                numa_hint: job.numa_hint,
                variant: job.variant,
            }
        } else {
            Slot { jobs: self.jobs.push(compact_of(job)), ..self }
        }
    }

    /// A slot with no job and zero hints.
    pub open spec fn vacant() -> Slot {
        Slot { jobs: Seq::empty(), k_outer: 0, numa_hint: 0, variant: 0 }
    }
}

/// Every slot holds one to three jobs.
pub open spec fn slots_filled(s: Seq<Slot>) -> bool {
    forall|i: int| 0 <= i < s.len() ==> 1 <= (#[trigger] s[i]).jobs.len() <= FCL_LINE_ITEMS
}

/// One slot: shared hints and up to three job names.
pub struct FatSlot {
    n_items: u8,
    k_outer: u8,
    numa_hint: u8,
    variant: u8,
    items: [CompactJobRef; 3],
}

impl View for FatSlot {
    type V = Slot;

    closed spec fn view(&self) -> Slot {
        Slot {
            jobs: self.items@.take(self.n_items as int),
            k_outer: self.k_outer,
            numa_hint: self.numa_hint,
            variant: self.variant,
        }
    }
}

impl FatSlot {
    closed spec fn wf(&self) -> bool {
        self.n_items <= FCL_LINE_ITEMS
    }

    /// A slot with no job and the given hints.
    fn empty(k_outer: u8, numa_hint: u8, variant: u8) -> (res: FatSlot)
        ensures
            res.wf(),
            res@ == (Slot { jobs: Seq::empty(), k_outer, numa_hint, variant }),
            res.n_items == 0,
    {
        let null = CompactJobRef::null();
        let res = FatSlot { n_items: 0, k_outer, numa_hint, variant, items: [null, null, null] };
        proof {
            assert(res@.jobs =~= Seq::<CompactJobRef>::empty());
        }
        res
    }
}

/// A slot that left the deque.
#[derive(Debug)]
pub struct PoppedSlot {
    /// Number of jobs in the slot.
    pub n_items: u8,
    /// Shared operand-size hint.
    pub k_outer: u8,
    /// Shared NUMA hint.
    pub numa_hint: u8,
    /// Shared variant tag.
    pub variant: u8,
    /// Job names; those from `n_items` on are filler.
    pub items: [CompactJobRef; 3],
}

impl View for PoppedSlot {
    type V = Slot;

    open spec fn view(&self) -> Slot {
        Slot {
            jobs: self.items@.take(self.n_items as int),
            k_outer: self.k_outer,
            numa_hint: self.numa_hint,
            variant: self.variant,
        }
    }
}

impl PoppedSlot {
    /// At most three jobs.
    pub open spec fn wf(&self) -> bool {
        self.n_items <= FCL_LINE_ITEMS
    }

    fn from_slot(s: FatSlot) -> (res: PoppedSlot)
        requires
            s.wf(),
        ensures
            res.wf(),
            res@ == s@,
    {
        PoppedSlot {
            n_items: s.n_items,
            k_outer: s.k_outer,
            numa_hint: s.numa_hint,
            variant: s.variant,
            items: s.items,
        }
    }

    /// The `i`-th job that entered the slot.
    pub fn job_at(&self, i: usize) -> (res: CompactJobRef)
        requires
            self.wf(),
            i < self@.jobs.len(),
        ensures
            res == self@.jobs[i as int],
    {
        self.items[i]
    }

    /// The jobs in the order they are to be executed: newest first.
    pub fn execute_all_lifo(self) -> (res: Vec<CompactJobRef>)
        requires
            self.wf(),
        ensures
            res@ == self@.jobs.reverse(),
    {
        let mut out: Vec<CompactJobRef> = Vec::new();
        let mut i: usize = self.n_items as usize;
        while i > 0
            invariant
                self.wf(),
                i <= self.n_items,
                out@.len() == self.n_items - i,
                forall|j: int| 0 <= j < out@.len() ==> out@[j] == self.items@[self.n_items - 1 - j],
            decreases i,
        {
            i -= 1;
            out.push(self.items[i]);
        }
        proof {
            assert(out@ =~= self@.jobs.reverse());
        }
        out
    }
}

/// Owner side: the accumulator and the deque of published slots.
pub struct SchedFclDeque {
    inner: Worker<FatSlot>,
    accumulator: FatSlot,
}

/// Thief side. Copies are interchangeable.
#[derive(Debug, Clone, Copy)]
pub struct FclStealer {
    inner: Stealer,
}

impl SchedFclDeque {
    /// The published slots, oldest first.
    pub closed spec fn published(&self) -> Seq<Slot> {
        self.inner@.map_values(|s: FatSlot| s@)
    }

    /// The accumulator.
    pub closed spec fn buffered(&self) -> Slot {
        self.accumulator@
    }

    /// How many slots can be published at a time.
    pub closed spec fn slot_limit(&self) -> int {
        self.inner.slots()
    }

    /// The part of the invariant that concerns private storage.
    pub closed spec fn rep_ok(&self) -> bool {
        &&& self.inner.wf()
        &&& self.accumulator.n_items < FCL_LINE_ITEMS
        &&& forall|i: int| 0 <= i < self.inner@.len() ==> (#[trigger] self.inner@[i]).wf()
    }

    /// Representation invariant: a full accumulator never rests, and every
    /// published slot holds at least one job.
    pub open spec fn wf(&self) -> bool {
        &&& self.rep_ok()
        &&& self.buffered().jobs.len() < FCL_LINE_ITEMS
        &&& slots_filled(self.published())
        &&& self.published().len() <= self.slot_limit()
        &&& is_slot_count(self.slot_limit())
    }

    /// A free slot is left.
    pub open spec fn has_free_slot(&self) -> bool {
        self.published().len() < self.slot_limit()
    }

    /// Adds a job to the accumulator and publishes it when it is full. The
    /// owner waits for a thief when the third job meets a full deque, so the
    /// call needs a free slot then.
    pub fn push(&mut self, job: JobRef)
        requires
            old(self).wf(),
            old(self).buffered().jobs.len() == 2 ==> old(self).has_free_slot(),
        ensures
            final(self).wf(),
            final(self).slot_limit() == old(self).slot_limit(),
            old(self).buffered().jobs.len() < 2 ==> {
                &&& final(self).published() == old(self).published()
                &&& final(self).buffered() == old(self).buffered().with_job(job)
            },
            old(self).buffered().jobs.len() == 2 ==> {
                &&& final(self).published() == old(self).published().push(old(self).buffered().with_job(job))
                &&& final(self).buffered() == Slot::vacant()
            },
    {
        let ghost before = self.accumulator@;
        if self.accumulator.n_items == 0 {
            self.accumulator.k_outer = job.k_outer;
            self.accumulator.numa_hint = job.numa_hint;
            self.accumulator.variant = job.variant;
        }
        let idx: usize = self.accumulator.n_items as usize;
        self.accumulator.items[idx] = job.compact();
        self.accumulator.n_items = self.accumulator.n_items + 1;
        proof {
            assert(self.accumulator@.jobs =~= before.with_job(job).jobs);
            assert(self.published() =~= old(self).published());
        }
        if self.accumulator.n_items == 3 {
            let mut slot = FatSlot::empty(0, 0, 0);
            core::mem::swap(&mut slot, &mut self.accumulator);
            self.flush_slot(slot);
        }
    }

    fn flush_slot(&mut self, slot: FatSlot)
        requires
            old(self).wf(),
            old(self).has_free_slot(),
            slot.wf(),
            slot@.jobs.len() >= 1,
        ensures
            final(self).wf(),
            final(self).slot_limit() == old(self).slot_limit(),
            final(self).accumulator == old(self).accumulator,
            final(self).published() == old(self).published().push(slot@),
    {
        let _pushed = self.inner.push(slot);
        proof {
            assert(self.inner@ == old(self).inner@.push(slot));
            assert(self.published() =~= old(self).published().push(slot@));
            assert forall|i: int| 0 <= i < self.inner@.len() implies (#[trigger] self.inner@[i]).wf() by {
                if i < old(self).inner@.len() {
                    assert(self.inner@[i] == old(self).inner@[i]);
                }
            }
        }
    }

    /// Publishes the accumulator if it holds anything. Needs a free slot then.
    pub fn flush(&mut self)
        requires
            old(self).wf(),
            old(self).buffered().jobs.len() > 0 ==> old(self).has_free_slot(),
        ensures
            final(self).wf(),
            final(self).slot_limit() == old(self).slot_limit(),
            old(self).buffered().jobs.len() == 0 ==> {
                &&& final(self).published() == old(self).published()
                &&& final(self).buffered() == old(self).buffered()
            },
            old(self).buffered().jobs.len() > 0 ==> {
                &&& final(self).published() == old(self).published().push(old(self).buffered())
                &&& final(self).buffered() == Slot::vacant()
            },
    {
        if self.accumulator.n_items == 0 {
            return;
        }
        let mut slot = FatSlot::empty(0, 0, 0);
        core::mem::swap(&mut slot, &mut self.accumulator);
        self.flush_slot(slot);
    }

    /// Adds a job and publishes it at once, or gives it back when no slot is
    /// free.
    pub fn try_push_one(&mut self, job: JobRef) -> (res: Result<(), JobRef>)
        requires
            old(self).wf(),
        ensures
            final(self).wf(),
            final(self).slot_limit() == old(self).slot_limit(),
            old(self).has_free_slot() ==> {
                &&& res is Ok
                &&& final(self).published() == old(self).published().push(old(self).buffered().with_job(job))
                &&& final(self).buffered() == Slot::vacant()
            },
            !old(self).has_free_slot() ==> {
                &&& res == Err::<(), JobRef>(job)
                &&& final(self).published() == old(self).published()
                &&& final(self).buffered() == old(self).buffered()
            },
    {
        if self.inner.len() >= self.inner.capacity() {
            return Err(job);
        }
        self.push(job);
        self.flush();
        Ok(())
    }

    /// Takes the newest slot: the accumulator if it holds anything, else the
    /// last published slot.
    pub fn pop(&mut self) -> (res: Option<PoppedSlot>)
        requires
            old(self).wf(),
        ensures
            final(self).wf(),
            final(self).slot_limit() == old(self).slot_limit(),
            old(self).buffered().jobs.len() > 0 ==> {
                &&& res matches Some(p) && p.wf() && p@ == old(self).buffered()
                &&& final(self).buffered() == Slot::vacant()
                &&& final(self).published() == old(self).published()
            },
            old(self).buffered().jobs.len() == 0 && old(self).published().len() > 0 ==> {
                &&& res matches Some(p) && p.wf() && p@ == old(self).published().last()
                &&& final(self).buffered() == old(self).buffered()
                &&& final(self).published() == old(self).published().drop_last()
            },
            old(self).buffered().jobs.len() == 0 && old(self).published().len() == 0 ==> {
                &&& res is None
                &&& final(self).buffered() == old(self).buffered()
                &&& final(self).published() == old(self).published()
            },
    {
        if self.accumulator.n_items > 0 {
            let mut slot = FatSlot::empty(0, 0, 0);
            core::mem::swap(&mut slot, &mut self.accumulator);
            proof {
                assert(self.published() =~= old(self).published());
            }
            return Some(PoppedSlot::from_slot(slot));
        }
        match self.inner.pop() {
            Steal::Success(s) => {
                proof {
                    let n = old(self).inner@.len() as int;
                    assert(s == old(self).inner@[n - 1]);
                    assert(self.published() =~= old(self).published().drop_last());
                    assert(slots_filled(self.published()));
                }
                Some(PoppedSlot::from_slot(s))
            },
            _ => {
                proof {
                    assert(self.published() =~= old(self).published());
                }
                None
            },
        }
    }

    /// A thief handle.
    pub fn stealer(&self) -> FclStealer {
        FclStealer { inner: self.inner.stealer() }
    }

    /// Number of published slots.
    pub fn published_len(&self) -> (res: usize)
        requires
            self.wf(),
        ensures
            res == self.published().len(),
    {
        self.inner.len()
    }

    /// Number of jobs in the accumulator.
    pub fn buffered_len(&self) -> (res: u8)
        requires
            self.wf(),
        ensures
            res == self.buffered().jobs.len(),
            res < FCL_LINE_ITEMS,
    {
        self.accumulator.n_items
    }

    /// Whether a slot is free.
    pub fn slot_free(&self) -> (res: bool)
        requires
            self.wf(),
        ensures
            res == self.has_free_slot(),
    {
        self.inner.len() < self.inner.capacity()
    }
}

impl FclStealer {
    /// Takes the oldest published slot.
    pub fn steal(&self, deque: &mut SchedFclDeque) -> (res: Steal<PoppedSlot>)
        requires
            old(deque).wf(),
        ensures
            final(deque).wf(),
            final(deque).slot_limit() == old(deque).slot_limit(),
            final(deque).buffered() == old(deque).buffered(),
            old(deque).published().len() == 0 ==> {
                &&& res is Empty
                &&& final(deque).published() == old(deque).published()
            },
            old(deque).published().len() > 0 ==> {
                &&& res matches Steal::Success(p) && p.wf() && p@ == old(deque).published().first()
                &&& final(deque).published() == old(deque).published().drop_first()
            },
    {
        match self.inner.steal(&mut deque.inner) {
            Steal::Success(s) => {
                proof {
                    assert(s == old(deque).inner@[0]);
                    assert(deque.published() =~= old(deque).published().drop_first());
                    assert(slots_filled(deque.published()));
                }
                Steal::Success(PoppedSlot::from_slot(s))
            },
            Steal::Empty => {
                proof {
                    assert(deque.published() =~= old(deque).published());
                }
                Steal::Empty
            },
            Steal::Retry => Steal::Retry,
        }
    }

    /// Warms the next steal target. The deque is unchanged.
    pub fn prefetch_for_steal(&self, deque: &SchedFclDeque)
        requires
            deque.wf(),
    {
        self.inner.prefetch_for_steal(&deque.inner)
    }

    /// Whether nothing is published.
    pub fn is_empty(&self, deque: &SchedFclDeque) -> (res: bool)
        requires
            deque.wf(),
        ensures
            res == (deque.published().len() == 0),
    {
        self.inner.is_empty(&deque.inner)
    }
}

/// A deque of at least `capacity` slots and a thief handle for it.
pub fn new_fcl(capacity: usize) -> (res: (SchedFclDeque, FclStealer))
    requires
        capacity <= usize::MAX / 2 + 1,
    ensures
        res.0.wf(),
        res.0.published() == Seq::<Slot>::empty(),
        res.0.buffered() == Slot::vacant(),
        rounded_slot_count(capacity as int, res.0.slot_limit()),
{
    let (w, s) = new_chase_lev::<FatSlot>(capacity);
    let deque = SchedFclDeque { inner: w, accumulator: FatSlot::empty(0, 0, 0) };
    proof {
        assert(deque.published() =~= Seq::<Slot>::empty());
    }
    (deque, FclStealer { inner: s })
}

} // verus!
