//! One-job-at-a-time adapter over the fat Chase-Lev deque.
//!
//! A slot that leaves the deque carries up to three jobs. The first one is
//! handed out; the rest wait in a stash and leave newest first. The owner
//! keeps such a stash for its pops, and each thief keeps one for its steals.

use crate::chase_lev_local::Steal;
use crate::fcl_local::{new_fcl, FclStealer, PoppedSlot, SchedFclDeque, Slot, FCL_LINE_ITEMS};
use crate::job::{compact_of, jobref_of, CompactJobRef, JobRef};
use crate::job_bag::{
    lemma_seq_bag_empty, lemma_slot_rest, lemma_slots_bag_drop_first, lemma_slots_bag_drop_last,
    lemma_slots_bag_nonempty, lemma_slots_bag_push, lemma_stash_rest, lemma_with_job, seq_bag,
    slots_bag, JobBag,
};
use crate::math::rounded_slot_count;
use vstd::prelude::*;

verus! {

/// The handle of the `i`-th job of a slot.
pub open spec fn slot_job(s: Slot, i: int) -> JobRef {
    jobref_of(s.jobs[i], s.k_outer, s.numa_hint, s.variant)
}

/// What is left of a slot once its first job has been handed out.
pub open spec fn slot_rest(s: Slot) -> Slot {
    Slot { jobs: s.jobs.drop_first(), ..s }
}

/// What is left of a stash once its newest job has been handed out.
pub open spec fn stash_rest(s: Slot) -> Slot {
    Slot { jobs: s.jobs.drop_last(), ..s }
}

/// Jobs of one slot that are still to be handed out.
#[derive(Debug, Clone, Copy)]
pub struct FclStash {
    n: u8,
    k_outer: u8,
    numa_hint: u8,
    variant: u8,
    items: [CompactJobRef; 2],
}

impl View for FclStash {
    type V = Slot;

    closed spec fn view(&self) -> Slot {
        Slot {
            jobs: self.items@.take(self.n as int),
            k_outer: self.k_outer,
            numa_hint: self.numa_hint,
            variant: self.variant,
        }
    }
}

impl FclStash {
    /// Representation invariant: at most two jobs.
    pub closed spec fn wf(&self) -> bool {
        self.n <= 2
    }

    /// A stash without jobs.
    pub fn empty() -> (res: FclStash)
        ensures
            res.wf(),
            res@ == Slot::vacant(),
    {
        let null = CompactJobRef::null();
        let res = FclStash { n: 0, k_outer: 0, numa_hint: 0, variant: 0, items: [null, null] };
        proof {
            assert(res@.jobs =~= Seq::<CompactJobRef>::empty());
        }
        res
    }

    /// Hands out the newest job.
    pub fn drain_one(&mut self) -> (res: Option<JobRef>)
        requires
            old(self).wf(),
        ensures
            final(self).wf(),
            old(self)@.jobs.len() == 0 ==> {
                &&& res is None
                &&& final(self)@ == old(self)@
            },
            old(self)@.jobs.len() > 0 ==> {
                &&& res == Some(slot_job(old(self)@, old(self)@.jobs.len() - 1))
                &&& final(self)@ == stash_rest(old(self)@)
            },
    {
        if self.n == 0 {
            return None;
        }
        self.n = self.n - 1;
        let compact = self.items[self.n as usize];
        proof {
            assert(self@.jobs =~= old(self)@.jobs.drop_last());
        }
        Some(compact.to_jobref(self.k_outer, self.numa_hint, self.variant))
    }

    /// Takes over a slot: hands out its first job and keeps the rest, in
    /// place of whatever the stash held.
    pub fn stash_extras(&mut self, slot: PoppedSlot) -> (res: Option<JobRef>)
        requires
            old(self).wf(),
            slot.wf(),
        ensures
            final(self).wf(),
            slot@.jobs.len() == 0 ==> {
                &&& res is None
                &&& final(self)@ == old(self)@
            },
            slot@.jobs.len() > 0 ==> {
                &&& res == Some(slot_job(slot@, 0))
                &&& final(self)@ == slot_rest(slot@)
            },
    {
        let n: usize = slot.n_items as usize;
        if n == 0 {
            return None;
        }
        self.k_outer = slot.k_outer;
        self.numa_hint = slot.numa_hint;
        self.variant = slot.variant;
        if n > 1 {
            self.items[0] = slot.job_at(1);
        }
        if n > 2 {
            self.items[1] = slot.job_at(2);
        }
        self.n = (n - 1) as u8;
        proof {
            assert(self@.jobs =~= slot@.jobs.drop_first());
        }
        let first = slot.job_at(0);
        Some(first.to_jobref(slot.k_outer, slot.numa_hint, slot.variant))
    }

    /// Whether no job is left.
    pub fn is_empty(&self) -> (res: bool)
        requires
            self.wf(),
        ensures
            res == (self@.jobs.len() == 0),
    {
        self.n == 0
    }
}

/// What an adapter holds.
#[verifier::ext_equal]
pub struct Backing {
    /// The published slots, oldest first.
    pub published: Seq<Slot>,
    /// The accumulator.
    pub buffered: Slot,
    /// The owner's stash.
    pub stash: Slot,
}

impl Backing {
    /// A backing that was never used.
    pub open spec fn fresh() -> Backing {
        Backing { published: Seq::empty(), buffered: Slot::vacant(), stash: Slot::vacant() }
    }

    /// Nothing is left anywhere.
    pub open spec fn drained(self) -> bool {
        &&& self.published.len() == 0
        &&& self.buffered.jobs.len() == 0
        &&& self.stash.jobs.len() == 0
    }

    /// After a job enters the accumulator and the accumulator is published.
    pub open spec fn pushed(self, job: JobRef) -> Backing {
        Backing {
            published: self.published.push(self.buffered.with_job(job)),
            buffered: Slot::vacant(),
            stash: self.stash,
        }
    }

    /// After a job enters the accumulator, which is published when full.
    pub open spec fn burst(self, job: JobRef) -> Backing {
        if self.buffered.jobs.len() < 2 {
            Backing { buffered: self.buffered.with_job(job), ..self }
        } else {
            self.pushed(job)
        }
    }

    /// After a partly filled accumulator is published.
    pub open spec fn flushed(self) -> Backing {
        if self.buffered.jobs.len() == 0 {
            self
        } else {
            Backing {
                published: self.published.push(self.buffered),
                buffered: Slot::vacant(),
                stash: self.stash,
            }
        }
    }

    /// The job an owner pop hands out.
    pub open spec fn next_pop(self) -> Option<JobRef> {
        if self.stash.jobs.len() > 0 {
            Some(slot_job(self.stash, self.stash.jobs.len() - 1))
        } else if self.buffered.jobs.len() > 0 {
            Some(slot_job(self.buffered, 0))
        } else if self.published.len() > 0 {
            Some(slot_job(self.published.last(), 0))
        } else {
            None
        }
    }

    /// After an owner pop.
    pub open spec fn popped(self) -> Backing {
        if self.stash.jobs.len() > 0 {
            Backing { stash: stash_rest(self.stash), ..self }
        } else if self.buffered.jobs.len() > 0 {
            Backing { stash: slot_rest(self.buffered), buffered: Slot::vacant(), ..self }
        } else if self.published.len() > 0 {
            Backing {
                stash: slot_rest(self.published.last()),
                published: self.published.drop_last(),
                ..self
            }
        } else {
            self
        }
    }

    /// After a thief takes the oldest published slot.
    pub open spec fn robbed(self) -> Backing {
        if self.published.len() > 0 {
            Backing { published: self.published.drop_first(), ..self }
        } else {
            self
        }
    }

    /// Every job held.
    pub open spec fn bag(self) -> JobBag {
        seq_bag(self.stash.jobs).add(seq_bag(self.buffered.jobs)).add(slots_bag(self.published))
    }
}

/// Owner-side adapter: a deque of slots and the owner's stash.
pub struct FclWorker {
    inner: SchedFclDeque,
    pop_stash: FclStash,
}

impl View for FclWorker {
    type V = Backing;

    open spec fn view(&self) -> Backing {
        Backing { published: self.published(), buffered: self.buffered(), stash: self.stash() }
    }
}

impl FclWorker {
    /// The published slots, oldest first.
    pub closed spec fn published(&self) -> Seq<Slot> {
        self.inner.published()
    }

    /// The accumulator.
    pub closed spec fn buffered(&self) -> Slot {
        self.inner.buffered()
    }

    /// The owner's stash.
    pub closed spec fn stash(&self) -> Slot {
        self.pop_stash@
    }

    /// How many slots can be published at a time.
    pub closed spec fn slot_limit(&self) -> int {
        self.inner.slot_limit()
    }

    /// Representation invariant.
    pub closed spec fn wf(&self) -> bool {
        self.inner.wf() && self.pop_stash.wf()
    }

    /// A free slot is left.
    pub open spec fn has_free_slot(&self) -> bool {
        self.published().len() < self.slot_limit()
    }

    /// Nothing is left anywhere: not published, not buffered, not stashed.
    pub open spec fn drained(&self) -> bool {
        self@.drained()
    }

    /// Every job held: published, buffered or stashed.
    pub open spec fn bag(&self) -> JobBag {
        self@.bag()
    }

    /// Exactly a drained adapter has an empty bag.
    pub proof fn lemma_drained_bag(&self)
        requires
            self.wf(),
        ensures
            self.drained() ==> self.bag() == JobBag::empty(),
            !self.drained() ==> self.bag().len() > 0,
    {
        lemma_seq_bag_empty(self.stash().jobs);
        lemma_seq_bag_empty(self.buffered().jobs);
        if self.published().len() > 0 {
            let n = self.published().len() as int;
            assert(self.published()[n - 1].jobs.len() >= 1);
            lemma_slots_bag_nonempty(self.published());
        }
        if self.drained() {
            assert(self.bag() =~= JobBag::empty());
        }
    }

    /// What the invariant says of the contents.
    pub proof fn lemma_bounds(&self)
        requires
            self.wf(),
        ensures
            crate::fcl_local::slots_filled(self.published()),
            self.published().len() <= self.slot_limit(),
            self.buffered().jobs.len() < FCL_LINE_ITEMS,
            self.stash().jobs.len() <= 2,
    {
    }

    /// An adapter over a deque of at least `slot_capacity` slots, and a thief
    /// handle for it.
    pub fn new(slot_capacity: usize) -> (res: (FclWorker, FclStealer))
        requires
            slot_capacity <= usize::MAX / 2 + 1,
        ensures
            res.0.wf(),
            res.0@ == Backing::fresh(),
            rounded_slot_count(slot_capacity as int, res.0.slot_limit()),
    {
        let (inner, stealer) = new_fcl(slot_capacity);
        (FclWorker { inner, pop_stash: FclStash::empty() }, stealer)
    }

    /// Adds a job and publishes it at once. The owner waits for a thief when
    /// the deque is full, so the call needs a free slot.
    pub fn push(&mut self, job: JobRef)
        requires
            old(self).wf(),
            old(self).has_free_slot(),
        ensures
            final(self).wf(),
            final(self).slot_limit() == old(self).slot_limit(),
            final(self)@ == old(self)@.pushed(job),
            final(self).bag() == old(self).bag().insert(compact_of(job)),
    {
        self.inner.push(job);
        self.inner.flush();
        proof {
            lemma_with_job(old(self).buffered(), job);
            lemma_slots_bag_push(old(self).published(), old(self).buffered().with_job(job));
            lemma_seq_bag_empty(self.buffered().jobs);
            assert(self.bag() =~= old(self).bag().insert(compact_of(job)));
        }
    }

    /// Adds a job and publishes it at once, or gives it back when no slot is
    /// free.
    pub fn try_push(&mut self, job: JobRef) -> (res: Result<(), JobRef>)
        requires
            old(self).wf(),
        ensures
            final(self).wf(),
            final(self).slot_limit() == old(self).slot_limit(),
            old(self).has_free_slot() ==> res is Ok && final(self)@ == old(self)@.pushed(job),
            !old(self).has_free_slot() ==> res == Err::<(), JobRef>(job) && final(self)@ == old(self)@,
            final(self).bag() == if old(self).has_free_slot() {
                old(self).bag().insert(compact_of(job))
            } else {
                old(self).bag()
            },
    {
        let res = self.inner.try_push_one(job);
        proof {
            if old(self).has_free_slot() {
                lemma_with_job(old(self).buffered(), job);
                lemma_slots_bag_push(old(self).published(), old(self).buffered().with_job(job));
                lemma_seq_bag_empty(self.buffered().jobs);
                assert(self.bag() =~= old(self).bag().insert(compact_of(job)));
            }
        }
        res
    }

    /// Adds a job to the accumulator; the third one publishes it, which needs
    /// a free slot.
    pub fn push_burst(&mut self, job: JobRef)
        requires
            old(self).wf(),
            old(self).buffered().jobs.len() == 2 ==> old(self).has_free_slot(),
        ensures
            final(self).wf(),
            final(self).slot_limit() == old(self).slot_limit(),
            final(self)@ == old(self)@.burst(job),
            final(self).bag() == old(self).bag().insert(compact_of(job)),
    {
        self.inner.push(job);
        proof {
            lemma_with_job(old(self).buffered(), job);
            lemma_slots_bag_push(old(self).published(), old(self).buffered().with_job(job));
            lemma_seq_bag_empty(Slot::vacant().jobs);
            assert(self.bag() =~= old(self).bag().insert(compact_of(job)));
        }
    }

    /// Publishes a partly filled accumulator, which needs a free slot.
    pub fn flush(&mut self)
        requires
            old(self).wf(),
            old(self).buffered().jobs.len() > 0 ==> old(self).has_free_slot(),
        ensures
            final(self).wf(),
            final(self).slot_limit() == old(self).slot_limit(),
            final(self)@ == old(self)@.flushed(),
            final(self).bag() == old(self).bag(),
    {
        self.inner.flush();
        proof {
            lemma_slots_bag_push(old(self).published(), old(self).buffered());
            lemma_seq_bag_empty(Slot::vacant().jobs);
            assert(self.bag() =~= old(self).bag());
        }
    }

    /// Hands out one job: from the stash, else the first job of the newest
    /// slot, whose other jobs enter the stash.
    pub fn pop(&mut self) -> (res: Option<JobRef>)
        requires
            old(self).wf(),
        ensures
            final(self).wf(),
            final(self).slot_limit() == old(self).slot_limit(),
            res == old(self)@.next_pop(),
            final(self)@ == old(self)@.popped(),
            res is None <==> old(self).drained(),
            res matches Some(j) ==> old(self).bag() == final(self).bag().insert(compact_of(j)),
            res is None ==> final(self).bag() == old(self).bag(),
    {
        if let Some(j) = self.pop_stash.drain_one() {
            proof {
                lemma_stash_rest(old(self).stash());
                assert(old(self).bag() =~= self.bag().insert(compact_of(j)));
            }
            return Some(j);
        }
        proof {
            lemma_seq_bag_empty(old(self).stash().jobs);
            lemma_seq_bag_empty(Slot::vacant().jobs);
            if old(self).buffered().jobs.len() == 0 && old(self).published().len() > 0 {
                let n = old(self).published().len() as int;
                assert(old(self).published()[n - 1].jobs.len() >= 1);
            }
        }
        match self.inner.pop() {
            Some(slot) => {
                let res = self.pop_stash.stash_extras(slot);
                proof {
                    if old(self).buffered().jobs.len() > 0 {
                        lemma_slot_rest(old(self).buffered());
                        assert(old(self).bag() =~= self.bag().insert(old(self).buffered().jobs[0]));
                    } else {
                        lemma_slots_bag_drop_last(old(self).published());
                        lemma_slot_rest(old(self).published().last());
                        lemma_seq_bag_empty(old(self).buffered().jobs);
                        assert(old(self).bag() =~= self.bag().insert(
                            old(self).published().last().jobs[0],
                        ));
                    }
                }
                res
            },
            None => None,
        }
    }

    /// Whether the owner's stash is empty; says nothing of published slots.
    pub fn is_empty(&self) -> (res: bool)
        requires
            self.wf(),
        ensures
            res == (self.stash().jobs.len() == 0),
    {
        self.pop_stash.is_empty()
    }

    /// Whether nothing is left anywhere.
    pub fn is_drained(&self) -> (res: bool)
        requires
            self.wf(),
        ensures
            res == self.drained(),
    {
        self.pop_stash.is_empty() && self.inner.buffered_len() == 0 && self.inner.published_len() == 0
    }

    /// Number of jobs waiting in the accumulator, short of a full slot.
    pub fn pending_items(&self) -> (res: u8)
        requires
            self.wf(),
        ensures
            res == self.buffered().jobs.len(),
            res < FCL_LINE_ITEMS,
    {
        self.inner.buffered_len()
    }

    /// Number of published slots.
    pub fn published_len(&self) -> (res: usize)
        requires
            self.wf(),
        ensures
            res == self.published().len(),
    {
        self.inner.published_len()
    }

    /// Whether a slot is free.
    pub fn slot_free(&self) -> (res: bool)
        requires
            self.wf(),
        ensures
            res == self.has_free_slot(),
    {
        self.inner.slot_free()
    }

    /// A thief handle.
    pub fn stealer(&self) -> FclStealer {
        self.inner.stealer()
    }
}

/// Outcome of a steal of one job.
#[derive(Debug, PartialEq, Eq)]
pub enum FclSteal2<T> {
    /// Got a job; the rest of its slot is in the stash.
    Success(T),
    /// Nothing is published.
    Empty,
    /// Lost a race; the caller should try again.
    Retry,
}

/// Steals the oldest slot: hands out its first job and keeps the rest in the
/// thief's stash, which must have been drained.
pub fn steal_via_stash(stealer: &FclStealer, victim: &mut FclWorker, stash: &mut FclStash) -> (res:
    FclSteal2<JobRef>)
    requires
        old(victim).wf(),
        old(stash).wf(),
        old(stash)@.jobs.len() == 0,
    ensures
        final(victim).wf(),
        final(stash).wf(),
        final(victim).slot_limit() == old(victim).slot_limit(),
        final(victim)@ == old(victim)@.robbed(),
        old(victim)@.published.len() == 0 ==> {
            &&& res is Empty
            &&& final(stash)@ == old(stash)@
        },
        old(victim)@.published.len() > 0 ==> {
            &&& res == FclSteal2::Success(slot_job(old(victim)@.published.first(), 0))
            &&& final(stash)@ == slot_rest(old(victim)@.published.first())
        },
        res matches FclSteal2::Success(j) ==> old(victim).bag() == final(victim).bag().add(
            seq_bag(final(stash)@.jobs),
        ).insert(compact_of(j)),
        !(res is Success) ==> final(victim).bag() == old(victim).bag(),
{
    proof {
        if old(victim).published().len() > 0 {
            assert(old(victim).published()[0].jobs.len() >= 1);
        }
    }
    match stealer.steal(&mut victim.inner) {
        Steal::Success(slot) => match stash.stash_extras(slot) {
            Some(j) => {
                proof {
                    let first = old(victim).published().first();
                    lemma_slots_bag_drop_first(old(victim).published());
                    lemma_slot_rest(first);
                    assert(old(victim).bag() =~= victim.bag().add(seq_bag(stash@.jobs)).insert(
                        compact_of(j),
                    ));
                }
                FclSteal2::Success(j)
            },
            None => FclSteal2::Empty,
        },
        Steal::Empty => FclSteal2::Empty,
        Steal::Retry => FclSteal2::Retry,
    }
}

/// Where a pop looks: at the leftovers of the slot popped before, else at the
/// oldest job of the accumulator, else at the first job of the newest slot;
/// the rest of a slot is left over and comes next, newest first.
pub proof fn law_pops_take_the_newest_slot(b: Backing)
    ensures
        b.stash.jobs.len() > 0 ==> b.next_pop() is Some && b.next_pop()->Some_0.data
            == b.stash.jobs.last().data && b.popped().stash.jobs == b.stash.jobs.drop_last()
            && b.popped().published == b.published && b.popped().buffered == b.buffered,
        b.stash.jobs.len() == 0 && b.buffered.jobs.len() > 0 ==> b.next_pop() is Some
            && b.next_pop()->Some_0.data == b.buffered.jobs[0].data && b.popped().stash.jobs
            == b.buffered.jobs.drop_first() && b.popped().buffered.jobs.len() == 0
            && b.popped().published == b.published,
        b.stash.jobs.len() == 0 && b.buffered.jobs.len() == 0 && b.published.len() > 0
            ==> b.next_pop() is Some && b.next_pop()->Some_0.data == b.published.last().jobs[0].data
            && b.popped().stash.jobs == b.published.last().jobs.drop_first()
            && b.popped().published == b.published.drop_last(),
        b.next_pop() is None <==> b.stash.jobs.len() == 0 && b.buffered.jobs.len() == 0
            && b.published.len() == 0,
{
}

/// Thieves take the oldest published slot and see nothing else.
pub proof fn law_thieves_take_the_oldest_slot(b: Backing)
    ensures
        b.published.len() > 0 ==> b.robbed().published == b.published.subrange(
            1,
            b.published.len() as int,
        ),
        b.robbed().buffered == b.buffered,
        b.robbed().stash == b.stash,
        b.published.len() == 0 ==> b.robbed() == b,
{
    if b.published.len() > 0 {
        assert(b.robbed().published =~= b.published.subrange(1, b.published.len() as int));
    }
}

/// A push with an empty accumulator and an owner's pop undo each other.
pub proof fn law_pop_undoes_push(b: Backing, job: JobRef)
    requires
        b.buffered == Slot::vacant(),
        b.stash.jobs.len() == 0,
    ensures
        b.pushed(job).next_pop() == Some(job),
        b.pushed(job).popped().published == b.published,
        b.pushed(job).popped().stash.jobs.len() == 0,
        b.pushed(job).popped().buffered == b.buffered,
{
    assert(b.pushed(job).popped().published =~= b.published);
}

/// The jobs of a slot share the hints of the first one that entered it, and
/// stand in the order in which they entered.
pub proof fn law_slot_keeps_order_and_first_hints(s: Slot, job: JobRef)
    ensures
        s.with_job(job).jobs.len() == s.jobs.len() + 1,
        s.with_job(job).jobs.drop_last() == s.jobs,
        s.with_job(job).jobs.last().data == job.data,
        s.with_job(job).jobs.last().entry == job.entry,
        s.jobs.len() > 0 ==> s.with_job(job).k_outer == s.k_outer && s.with_job(job).numa_hint
            == s.numa_hint && s.with_job(job).variant == s.variant,
        s.jobs.len() == 0 ==> s.with_job(job).k_outer == job.k_outer && s.with_job(job).numa_hint
            == job.numa_hint && s.with_job(job).variant == job.variant,
{
    assert(s.with_job(job).jobs.drop_last() =~= s.jobs);
}

/// Jobs of a burst collect, two at most, until the third publishes all three
/// as one slot. A flush publishes what has collected, in order, and nothing
/// where nothing has.
pub proof fn law_bursts_collect_threes(b: Backing, job: JobRef)
    ensures
        b.buffered.jobs.len() < 2 ==> b.burst(job).published == b.published
            && b.burst(job).buffered.jobs.drop_last() == b.buffered.jobs
            && b.burst(job).buffered.jobs.last().data == job.data,
        b.buffered.jobs.len() == 2 ==> b.burst(job).published.drop_last() == b.published
            && b.burst(job).published.last().jobs.len() == 3
            && b.burst(job).published.last().jobs.drop_last() == b.buffered.jobs
            && b.burst(job).published.last().jobs.last().data == job.data
            && b.burst(job).buffered.jobs.len() == 0,
        b.burst(job).stash == b.stash,
        b.buffered.jobs.len() == 0 ==> b.flushed() == b,
        b.buffered.jobs.len() > 0 ==> b.flushed().published == b.published.push(b.buffered)
            && b.flushed().buffered.jobs.len() == 0 && b.flushed().stash == b.stash,
{
    law_slot_keeps_order_and_first_hints(b.buffered, job);
    assert(b.pushed(job).published.drop_last() =~= b.published);
}

} // verus!
