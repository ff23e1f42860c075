//! Deque that can switch its publication discipline while it holds work.
//!
//! An adaptive worker carries two backings, one per discipline. A tag picks
//! the active one for pushes; pops and steals take from the active backing
//! first and then from the dormant one, so no job is stranded by a switch. A
//! flag records that the dormant backing may still hold jobs; while it is
//! down, the dormant backing is not consulted at all.

use crate::fcl_local::FclStealer;
use crate::fcl_worker::{
    slot_job, slot_rest, steal_via_stash as backing_steal_via_stash, Backing, FclStash, FclSteal2,
    FclWorker,
};
use crate::job::{compact_of, JobRef};
use crate::job_bag::{lemma_seq_bag_empty, seq_bag, JobBag};
use crate::k_gating::KGating;
use crate::math::rounded_slot_count;
use vstd::prelude::*;

verus! {

/// Tag of the per-slot backing.
pub const ACTIVE_KHL: u32 = 0;

/// Tag of the counter-only backing.
pub const ACTIVE_FCL: u32 = 1;

/// Tag of the backing that a discipline selects.
pub open spec fn tag_of(gating: KGating) -> u32 {
    match gating.resolved_spec() {
        KGating::CounterOnly => ACTIVE_FCL,
        _ => ACTIVE_KHL,
    }
}

/// What an adaptive worker holds.
#[verifier::ext_equal]
pub struct Adaptive {
    /// Tag of the active backing.
    pub active: u32,
    /// Whether the dormant backing may hold jobs.
    pub dirty: bool,
    /// The per-slot backing.
    pub khl: Backing,
    /// The counter-only backing.
    pub fcl: Backing,
}

impl Adaptive {
    /// A worker that was never used.
    pub open spec fn fresh(gating: KGating) -> Adaptive {
        Adaptive {
            active: tag_of(gating),
            dirty: false,
            khl: Backing::fresh(),
            fcl: Backing::fresh(),
        }
    }

    /// The active backing.
    pub open spec fn front(self) -> Backing {
        if self.active == ACTIVE_KHL { self.khl } else { self.fcl }
    }

    /// The dormant backing.
    pub open spec fn dormant(self) -> Backing {
        if self.active == ACTIVE_KHL { self.fcl } else { self.khl }
    }

    /// With another active backing.
    pub open spec fn with_front(self, b: Backing) -> Adaptive {
        if self.active == ACTIVE_KHL {
            Adaptive { khl: b, ..self }
        } else {
            Adaptive { fcl: b, ..self }
        }
    }

    /// With another dormant backing.
    pub open spec fn with_dormant(self, b: Backing) -> Adaptive {
        if self.active == ACTIVE_KHL {
            Adaptive { fcl: b, ..self }
        } else {
            Adaptive { khl: b, ..self }
        }
    }

    /// Every job held, in either backing.
    pub open spec fn bag(self) -> JobBag {
        self.khl.bag().add(self.fcl.bag())
    }

    /// The job an owner pop hands out.
    pub open spec fn next_pop(self) -> Option<JobRef> {
        if !self.front().drained() {
            self.front().next_pop()
        } else if self.dirty {
            self.dormant().next_pop()
        } else {
            None
        }
    }

    /// After an owner pop.
    pub open spec fn popped(self) -> Adaptive {
        if !self.front().drained() {
            self.with_front(self.front().popped())
        } else if self.dirty && !self.dormant().drained() {
            self.with_dormant(self.dormant().popped())
        } else {
            Adaptive { dirty: false, ..self }
        }
    }

    /// The slot a thief takes next, if any.
    pub open spec fn next_stolen(self) -> Option<crate::fcl_local::Slot> {
        if self.front().published.len() > 0 {
            Some(self.front().published.first())
        } else if self.dirty && self.dormant().published.len() > 0 {
            Some(self.dormant().published.first())
        } else {
            None
        }
    }

    /// After a thief's attempt.
    pub open spec fn robbed(self) -> Adaptive {
        if self.front().published.len() > 0 {
            self.with_front(self.front().robbed())
        } else if self.dirty && self.dormant().published.len() > 0 {
            self.with_dormant(self.dormant().robbed())
        } else if self.dirty && self.dormant().drained() {
            Adaptive { dirty: false, ..self }
        } else {
            self
        }
    }

    /// After the active tag is set.
    pub open spec fn retagged(self, tag: u32) -> Adaptive {
        Adaptive { active: tag, dirty: self.dirty || self.active != tag, ..self }
    }
}

/// Owner side.
pub struct AdaptiveWorker {
    active: u32,
    khl: FclWorker,
    fcl: FclWorker,
    inactive_dirty: bool,
}

/// Thief side. Copies are interchangeable.
#[derive(Debug, Clone, Copy)]
pub struct AdaptiveStealer {
    khl: FclStealer,
    fcl: FclStealer,
}

impl View for AdaptiveWorker {
    type V = Adaptive;

    closed spec fn view(&self) -> Adaptive {
        Adaptive {
            active: self.active,
            dirty: self.inactive_dirty,
            khl: self.khl@,
            fcl: self.fcl@,
        }
    }
}

impl AdaptiveWorker {
    /// How many slots each backing can publish at a time.
    pub closed spec fn slot_limit(&self) -> int {
        self.khl.slot_limit()
    }

    closed spec fn rep_ok(&self) -> bool {
        &&& self.khl.wf()
        &&& self.fcl.wf()
        &&& self.khl.slot_limit() == self.fcl.slot_limit()
    }

    /// Representation invariant: the tag names a backing, and the dormant
    /// backing holds jobs only while the flag says so.
    pub closed spec fn wf(&self) -> bool {
        &&& self.rep_ok()
        &&& self@.active == ACTIVE_KHL || self@.active == ACTIVE_FCL
        &&& !self@.dirty ==> self@.dormant().drained()
    }

    /// What the invariant says of the contents.
    pub proof fn lemma_bounds(&self)
        requires
            self.wf(),
        ensures
            self@.active == ACTIVE_KHL || self@.active == ACTIVE_FCL,
            !self@.dirty ==> self@.dormant().drained(),
            crate::fcl_local::slots_filled(self@.khl.published),
            crate::fcl_local::slots_filled(self@.fcl.published),
            self@.khl.published.len() <= self.slot_limit(),
            self@.fcl.published.len() <= self.slot_limit(),
            self@.khl.buffered.jobs.len() < 3,
            self@.fcl.buffered.jobs.len() < 3,
    {
        self.khl.lemma_bounds();
        self.fcl.lemma_bounds();
    }

    /// A free slot is left in the active backing.
    pub open spec fn has_free_slot(&self) -> bool {
        self@.front().published.len() < self.slot_limit()
    }

    /// Adds a job to the active backing and publishes it at once, which needs
    /// a free slot.
    pub fn push(&mut self, job: JobRef)
        requires
            old(self).wf(),
            old(self).has_free_slot(),
        ensures
            final(self).wf(),
            final(self).slot_limit() == old(self).slot_limit(),
            final(self)@ == old(self)@.with_front(old(self)@.front().pushed(job)),
            final(self)@.bag() == old(self)@.bag().insert(compact_of(job)),
    {
        if self.active == ACTIVE_KHL {
            self.khl.push(job);
        } else {
            self.fcl.push(job);
        }
        proof {
            assert(self@.bag() =~= old(self)@.bag().insert(compact_of(job)));
        }
    }

    /// Adds a job to the active backing and publishes it at once, or gives it
    /// back when no slot is free.
    pub fn try_push(&mut self, job: JobRef) -> (res: Result<(), JobRef>)
        requires
            old(self).wf(),
        ensures
            final(self).wf(),
            final(self).slot_limit() == old(self).slot_limit(),
            old(self).has_free_slot() ==> {
                &&& res is Ok
                &&& final(self)@ == old(self)@.with_front(old(self)@.front().pushed(job))
                &&& final(self)@.bag() == old(self)@.bag().insert(compact_of(job))
            },
            !old(self).has_free_slot() ==> {
                &&& res == Err::<(), JobRef>(job)
                &&& final(self)@ == old(self)@
            },
    {
        let res = if self.active == ACTIVE_KHL {
            self.khl.try_push(job)
        } else {
            self.fcl.try_push(job)
        };
        proof {
            if old(self).has_free_slot() {
                assert(self@.bag() =~= old(self)@.bag().insert(compact_of(job)));
            }
        }
        res
    }

    /// Adds a job to the active accumulator; the third one publishes it,
    /// which needs a free slot.
    pub fn push_burst(&mut self, job: JobRef)
        requires
            old(self).wf(),
            old(self)@.front().buffered.jobs.len() == 2 ==> old(self).has_free_slot(),
        ensures
            final(self).wf(),
            final(self).slot_limit() == old(self).slot_limit(),
            final(self)@ == old(self)@.with_front(old(self)@.front().burst(job)),
            final(self)@.bag() == old(self)@.bag().insert(compact_of(job)),
    {
        if self.active == ACTIVE_KHL {
            self.khl.push_burst(job);
        } else {
            self.fcl.push_burst(job);
        }
        proof {
            assert(self@.bag() =~= old(self)@.bag().insert(compact_of(job)));
        }
    }

    /// Whether a burst push would have to wait for a thief.
    pub fn burst_would_block(&self) -> (res: bool)
        requires
            self.wf(),
        ensures
            res == (self@.front().buffered.jobs.len() == 2 && !self.has_free_slot()),
    {
        if self.active == ACTIVE_KHL {
            self.khl.pending_items() == 2 && !self.khl.slot_free()
        } else {
            self.fcl.pending_items() == 2 && !self.fcl.slot_free()
        }
    }

    /// Whether a flush would have to wait for a thief.
    pub fn flush_would_block(&self) -> (res: bool)
        requires
            self.wf(),
        ensures
            res == (self@.front().buffered.jobs.len() > 0 && !self.has_free_slot()),
    {
        if self.active == ACTIVE_KHL {
            self.khl.pending_items() > 0 && !self.khl.slot_free()
        } else {
            self.fcl.pending_items() > 0 && !self.fcl.slot_free()
        }
    }

    /// Publishes the active accumulator, which needs a free slot if it holds
    /// anything.
    pub fn flush(&mut self)
        requires
            old(self).wf(),
            old(self)@.front().buffered.jobs.len() > 0 ==> old(self).has_free_slot(),
        ensures
            final(self).wf(),
            final(self).slot_limit() == old(self).slot_limit(),
            final(self)@ == old(self)@.with_front(old(self)@.front().flushed()),
            final(self)@.bag() == old(self)@.bag(),
    {
        if self.active == ACTIVE_KHL {
            self.khl.flush();
        } else {
            self.fcl.flush();
        }
    }

    /// Hands out one job: from the active backing, else from the dormant one
    /// while it may hold jobs. Clears the flag once the dormant backing is
    /// seen empty.
    pub fn pop(&mut self) -> (res: Option<JobRef>)
        requires
            old(self).wf(),
        ensures
            final(self).wf(),
            final(self).slot_limit() == old(self).slot_limit(),
            res == old(self)@.next_pop(),
            final(self)@ == old(self)@.popped(),
            res matches Some(j) ==> old(self)@.bag() == final(self)@.bag().insert(compact_of(j)),
            res is None ==> old(self)@.bag() == JobBag::empty() && final(self)@.bag() == old(self)@.bag(),
    {
        let active_khl: bool = self.active == ACTIVE_KHL;
        proof {
            self.khl.lemma_drained_bag();
            self.fcl.lemma_drained_bag();
        }
        let primary = if active_khl {
            self.khl.pop()
        } else {
            self.fcl.pop()
        };
        if primary.is_some() {
            proof {
                assert(old(self)@.bag() =~= self@.bag().insert(compact_of(primary.unwrap())));
            }
            return primary;
        }
        if !self.inactive_dirty {
            proof {
                assert(self@.bag() =~= JobBag::empty());
            }
            return None;
        }
        let fallback = if active_khl {
            self.fcl.pop()
        } else {
            self.khl.pop()
        };
        if fallback.is_none() {
            self.inactive_dirty = false;
            proof {
                assert(self@.bag() =~= JobBag::empty());
            }
        } else {
            proof {
                assert(old(self)@.bag() =~= self@.bag().insert(compact_of(fallback.unwrap())));
            }
        }
        fallback
    }

    /// Hint that the worker has nothing to pop: the per-slot backing is
    /// drained and the counter-only backing's stash is empty.
    pub fn is_empty(&self) -> (res: bool)
        requires
            self.wf(),
        ensures
            res == (self@.khl.drained() && self@.fcl.stash.jobs.len() == 0),
    {
        self.khl.is_drained() && self.fcl.is_empty()
    }

    /// Jobs waiting in the accumulator of the active discipline.
    pub fn pending_items(&self) -> (res: u8)
        requires
            self.wf(),
        ensures
            res == if self@.active == ACTIVE_KHL {
                self@.khl.buffered.jobs.len()
            } else {
                self@.fcl.buffered.jobs.len()
            },
    {
        if self.active == ACTIVE_KHL {
            self.khl.pending_items()
        } else {
            self.fcl.pending_items()
        }
    }

    /// Switches to the requested discipline. The active accumulator is
    /// published first, which needs a free slot if it holds anything. Jobs in
    /// the old backing keep leaving through pops and steals.
    pub fn migrate_to(&mut self, gating: KGating)
        requires
            old(self).wf(),
            old(self)@.front().buffered.jobs.len() > 0 ==> old(self).has_free_slot(),
        ensures
            final(self).wf(),
            final(self).slot_limit() == old(self).slot_limit(),
            final(self)@ == old(self)@.with_front(old(self)@.front().flushed()).retagged(
                tag_of(gating),
            ),
            final(self)@.bag() == old(self)@.bag(),
    {
        let target: u32 = match gating.resolved() {
            KGating::CounterOnly => ACTIVE_FCL,
            _ => ACTIVE_KHL,
        };
        self.flush();
        self.set_active(target);
    }

    /// Sets the active tag without publishing the accumulator. The old
    /// backing is marked as possibly holding jobs.
    pub fn set_active(&mut self, target: u32)
        requires
            old(self).wf(),
            target == ACTIVE_KHL || target == ACTIVE_FCL,
        ensures
            final(self).wf(),
            final(self).slot_limit() == old(self).slot_limit(),
            final(self)@ == old(self)@.retagged(target),
            final(self)@.bag() == old(self)@.bag(),
    {
        if self.active != target {
            self.inactive_dirty = true;
        }
        self.active = target;
    }

    /// The discipline in effect.
    pub fn active_gating(&self) -> (res: KGating)
        ensures
            res == if self@.active == ACTIVE_KHL {
                KGating::PerSlot
            } else {
                KGating::CounterOnly
            },
    {
        if self.active == ACTIVE_KHL {
            KGating::PerSlot
        } else {
            KGating::CounterOnly
        }
    }

    /// Tag of the active backing.
    pub fn active_tag(&self) -> (res: u32)
        ensures
            res == self@.active,
    {
        self.active
    }

    /// A thief handle.
    pub fn stealer(&self) -> AdaptiveStealer {
        AdaptiveStealer { khl: self.khl.stealer(), fcl: self.fcl.stealer() }
    }
}

impl AdaptiveStealer {
    /// Whether neither backing has anything published.
    pub fn is_empty(&self, victim: &AdaptiveWorker) -> (res: bool)
        requires
            victim.wf(),
        ensures
            res == (victim@.khl.published.len() == 0 && victim@.fcl.published.len() == 0),
    {
        victim.khl.published_len() == 0 && victim.fcl.published_len() == 0
    }

    /// Slots published by the per-slot backing.
    pub fn khl_len(&self, victim: &AdaptiveWorker) -> (res: usize)
        requires
            victim.wf(),
        ensures
            res == victim@.khl.published.len(),
    {
        victim.khl.published_len()
    }
}

/// A thief's leftovers, one stash per backing.
#[derive(Debug, Clone, Copy)]
pub struct AdaptiveStash {
    khl: FclStash,
    fcl: FclStash,
}

/// What a thief's leftovers are.
#[verifier::ext_equal]
pub struct Leftovers {
    /// Left over from a per-slot backing.
    pub khl: crate::fcl_local::Slot,
    /// Left over from a counter-only backing.
    pub fcl: crate::fcl_local::Slot,
}

impl Leftovers {
    /// Leftovers of no steal at all.
    pub open spec fn fresh() -> Leftovers {
        Leftovers { khl: crate::fcl_local::Slot::vacant(), fcl: crate::fcl_local::Slot::vacant() }
    }

    /// Nothing is left over.
    pub open spec fn drained(self) -> bool {
        self.khl.jobs.len() == 0 && self.fcl.jobs.len() == 0
    }

    /// The job a drain hands out.
    pub open spec fn next_drain(self) -> Option<JobRef> {
        if self.khl.jobs.len() > 0 {
            Some(slot_job(self.khl, self.khl.jobs.len() - 1))
        } else if self.fcl.jobs.len() > 0 {
            Some(slot_job(self.fcl, self.fcl.jobs.len() - 1))
        } else {
            None
        }
    }

    /// After a drain.
    pub open spec fn after_drain(self) -> Leftovers {
        if self.khl.jobs.len() > 0 {
            Leftovers { khl: crate::fcl_worker::stash_rest(self.khl), ..self }
        } else if self.fcl.jobs.len() > 0 {
            Leftovers { fcl: crate::fcl_worker::stash_rest(self.fcl), ..self }
        } else {
            self
        }
    }

    /// After taking over the rest of a slot that was stolen from `victim`.
    pub open spec fn after_steal(self, victim: Adaptive) -> Leftovers {
        match victim.next_stolen() {
            Some(slot) => {
                let from_front = victim.front().published.len() > 0;
                if from_front == (victim.active == ACTIVE_KHL) {
                    Leftovers { khl: slot_rest(slot), ..self }
                } else {
                    Leftovers { fcl: slot_rest(slot), ..self }
                }
            },
            None => self,
        }
    }

    /// Every job left over.
    pub open spec fn bag(self) -> JobBag {
        seq_bag(self.khl.jobs).add(seq_bag(self.fcl.jobs))
    }
}

impl View for AdaptiveStash {
    type V = Leftovers;

    closed spec fn view(&self) -> Leftovers {
        Leftovers { khl: self.khl@, fcl: self.fcl@ }
    }
}

impl AdaptiveStash {
    /// Representation invariant.
    pub closed spec fn wf(&self) -> bool {
        self.khl.wf() && self.fcl.wf()
    }

    /// Nothing left over.
    pub fn empty() -> (res: AdaptiveStash)
        ensures
            res.wf(),
            res@ == Leftovers::fresh(),
            res@.bag() == JobBag::empty(),
    {
        let res = AdaptiveStash { khl: FclStash::empty(), fcl: FclStash::empty() };
        proof {
            lemma_seq_bag_empty(res@.khl.jobs);
            lemma_seq_bag_empty(res@.fcl.jobs);
            assert(res@.bag() =~= JobBag::empty());
        }
        res
    }

    /// Hands out one job: of the per-slot leftovers first.
    pub fn drain_one(&mut self) -> (res: Option<JobRef>)
        requires
            old(self).wf(),
        ensures
            final(self).wf(),
            res == old(self)@.next_drain(),
            final(self)@ == old(self)@.after_drain(),
            res matches Some(j) ==> old(self)@.bag() == final(self)@.bag().insert(compact_of(j)),
            res is None ==> old(self)@.bag() == JobBag::empty(),
    {
        proof {
            lemma_seq_bag_empty(self@.khl.jobs);
            lemma_seq_bag_empty(self@.fcl.jobs);
        }
        if let Some(j) = self.khl.drain_one() {
            proof {
                crate::job_bag::lemma_stash_rest(old(self)@.khl);
                assert(old(self)@.bag() =~= self@.bag().insert(compact_of(j)));
            }
            return Some(j);
        }
        let res = self.fcl.drain_one();
        proof {
            if res is Some {
                crate::job_bag::lemma_stash_rest(old(self)@.fcl);
                assert(old(self)@.bag() =~= self@.bag().insert(compact_of(res.unwrap())));
            } else {
                assert(old(self)@.bag() =~= JobBag::empty());
            }
        }
        res
    }

    /// Whether nothing is left over.
    pub fn is_empty(&self) -> (res: bool)
        requires
            self.wf(),
        ensures
            res == self@.drained(),
    {
        self.khl.is_empty() && self.fcl.is_empty()
    }
}

/// Outcome of a steal of one job.
#[derive(Debug, PartialEq, Eq)]
pub enum AdaptiveSteal2<T> {
    /// Got a job; the rest of its slot is left over in the stash.
    Success(T),
    /// Neither backing has anything published.
    Empty,
    /// Lost a race; the caller should try again.
    Retry,
}

/// A worker with `slot_capacity` slots per backing that starts on the given
/// discipline, and a thief handle for it.
pub fn new_adaptive(slot_capacity: usize, initial_gating: KGating) -> (res: (
    AdaptiveWorker,
    AdaptiveStealer,
))
    requires
        slot_capacity <= usize::MAX / 2 + 1,
    ensures
        res.0.wf(),
        res.0@ == Adaptive::fresh(initial_gating),
        res.0@.bag() == JobBag::empty(),
        rounded_slot_count(slot_capacity as int, res.0.slot_limit()),
{
    let (khl_w, khl_s) = FclWorker::new(slot_capacity);
    let (fcl_w, fcl_s) = FclWorker::new(slot_capacity);
    let active: u32 = match initial_gating.resolved() {
        KGating::CounterOnly => ACTIVE_FCL,
        _ => ACTIVE_KHL,
    };
    proof {
        crate::math::rounded_slot_count_unique(
            slot_capacity as int,
            khl_w.slot_limit(),
            fcl_w.slot_limit(),
        );
        khl_w.lemma_drained_bag();
        fcl_w.lemma_drained_bag();
    }
    let w = AdaptiveWorker { active, khl: khl_w, fcl: fcl_w, inactive_dirty: false };
    proof {
        assert(w@.bag() =~= JobBag::empty());
    }
    (w, AdaptiveStealer { khl: khl_s, fcl: fcl_s })
}

/// Steals the oldest slot: of the active backing, else of the dormant one
/// while it may hold jobs. Hands out its first job and keeps the rest in the
/// thief's stash, which must have been drained. The flag is cleared when the
/// dormant backing is seen empty, its owner's stash included.
pub fn steal_via_stash(
    stealer: &AdaptiveStealer,
    victim: &mut AdaptiveWorker,
    stash: &mut AdaptiveStash,
) -> (res: AdaptiveSteal2<JobRef>)
    requires
        old(victim).wf(),
        old(stash).wf(),
        old(stash)@.drained(),
    ensures
        final(victim).wf(),
        final(stash).wf(),
        final(victim).slot_limit() == old(victim).slot_limit(),
        final(victim)@ == old(victim)@.robbed(),
        final(stash)@ == old(stash)@.after_steal(old(victim)@),
        old(victim)@.next_stolen() is None ==> res is Empty,
        old(victim)@.next_stolen() is Some ==> res == AdaptiveSteal2::Success(
            slot_job(old(victim)@.next_stolen()->Some_0, 0),
        ),
        res matches AdaptiveSteal2::Success(j) ==> old(victim)@.bag() == final(victim)@.bag().add(
            final(stash)@.bag(),
        ).insert(compact_of(j)),
        !(res is Success) ==> final(victim)@.bag() == old(victim)@.bag() && final(stash)@ == old(stash)@,
{
    let active_khl: bool = victim.active == ACTIVE_KHL;
    proof {
        lemma_seq_bag_empty(stash@.khl.jobs);
        lemma_seq_bag_empty(stash@.fcl.jobs);
    }
    let first = if active_khl {
        backing_steal_via_stash(&stealer.khl, &mut victim.khl, &mut stash.khl)
    } else {
        backing_steal_via_stash(&stealer.fcl, &mut victim.fcl, &mut stash.fcl)
    };
    match first {
        FclSteal2::Success(j) => {
            proof {
                assert(old(victim)@.bag() =~= victim@.bag().add(stash@.bag()).insert(compact_of(j)));
            }
            return AdaptiveSteal2::Success(j);
        },
        FclSteal2::Retry => {
            return AdaptiveSteal2::Retry;
        },
        FclSteal2::Empty => {},
    }
    if !victim.inactive_dirty {
        return AdaptiveSteal2::Empty;
    }
    let second = if active_khl {
        backing_steal_via_stash(&stealer.fcl, &mut victim.fcl, &mut stash.fcl)
    } else {
        backing_steal_via_stash(&stealer.khl, &mut victim.khl, &mut stash.khl)
    };
    match second {
        FclSteal2::Success(j) => {
            proof {
                assert(old(victim)@.bag() =~= victim@.bag().add(stash@.bag()).insert(compact_of(j)));
            }
            AdaptiveSteal2::Success(j)
        },
        FclSteal2::Retry => AdaptiveSteal2::Retry,
        FclSteal2::Empty => {
            let confirmed: bool = if active_khl {
                victim.fcl.is_drained()
            } else {
                victim.khl.is_drained()
            };
            if confirmed {
                victim.inactive_dirty = false;
            }
            AdaptiveSteal2::Empty
        },
    }
}

/// After a switch, what the other half holds still comes out: the owner gets it
/// once the active half is empty, thieves once nothing is published there.
pub proof fn law_nothing_is_stranded_by_a_switch(d: Adaptive, tag: u32)
    requires
        d.active == ACTIVE_KHL || d.active == ACTIVE_FCL,
        tag == ACTIVE_KHL || tag == ACTIVE_FCL,
        d.active != tag,
    ensures
        ({
            let e = d.retagged(tag);
            &&& e.active == tag
            &&& d.dormant().drained() && !d.front().drained() ==> e.next_pop()
                == d.front().next_pop()
            &&& d.dormant().published.len() == 0 && d.front().published.len() > 0
                ==> e.next_stolen() == Some(d.front().published[0])
            &&& e.khl == d.khl && e.fcl == d.fcl
        }),
{
}

/// The active half is served first, by owner and thieves alike; the other half
/// only while it may hold jobs.
pub proof fn law_active_half_first(d: Adaptive)
    ensures
        d.active == ACTIVE_KHL && !d.khl.drained() ==> d.next_pop() == d.khl.next_pop()
            && d.popped().fcl == d.fcl,
        d.active == ACTIVE_FCL && !d.fcl.drained() ==> d.next_pop() == d.fcl.next_pop()
            && d.popped().khl == d.khl,
        d.active == ACTIVE_KHL && d.khl.published.len() > 0 ==> d.next_stolen() == Some(
            d.khl.published[0],
        ) && d.robbed().khl.published == d.khl.published.drop_first() && d.robbed().fcl == d.fcl,
        d.active == ACTIVE_FCL && d.fcl.published.len() > 0 ==> d.next_stolen() == Some(
            d.fcl.published[0],
        ) && d.robbed().fcl.published == d.fcl.published.drop_first() && d.robbed().khl == d.khl,
        !d.dirty && d.front().drained() ==> d.next_pop() is None,
        !d.dirty && d.front().published.len() == 0 ==> d.next_stolen() is None,
        d.robbed().dirty ==> d.dirty,
        d.dirty && !d.dormant().drained() ==> d.robbed().dirty || d.front().published.len() == 0,
{
}

/// A thief's leftovers: what is left of a stolen slot after its first job comes
/// out newest first, every job once.
pub proof fn law_leftovers_come_out_newest_first(l: Leftovers)
    ensures
        l.khl.jobs.len() > 0 ==> l.next_drain() is Some && l.next_drain()->Some_0.data
            == l.khl.jobs.last().data && l.after_drain().khl.jobs == l.khl.jobs.drop_last()
            && l.after_drain().fcl == l.fcl,
        l.khl.jobs.len() == 0 && l.fcl.jobs.len() > 0 ==> l.next_drain() is Some
            && l.next_drain()->Some_0.data == l.fcl.jobs.last().data && l.after_drain().fcl.jobs
            == l.fcl.jobs.drop_last(),
        l.next_drain() is None <==> l.khl.jobs.len() == 0 && l.fcl.jobs.len() == 0,
{
}

/// A theft leaves the thief the rest of the slot, in order and without its
/// first job.
pub proof fn law_theft_leaves_the_rest(l: Leftovers, victim: Adaptive)
    requires
        victim.active == ACTIVE_KHL || victim.active == ACTIVE_FCL,
        victim.front().published.len() > 0,
    ensures
        victim.active == ACTIVE_KHL ==> l.after_steal(victim).khl.jobs
            == victim.khl.published[0].jobs.drop_first() && l.after_steal(victim).fcl == l.fcl,
        victim.active == ACTIVE_FCL ==> l.after_steal(victim).fcl.jobs
            == victim.fcl.published[0].jobs.drop_first() && l.after_steal(victim).khl == l.khl,
{
}

/// The half that is not active comes second, and only while it may hold jobs:
/// the owner takes from it where the active half is empty, thieves where the
/// active half has nothing published, and the active half stays as it is.
pub proof fn law_other_half_second(d: Adaptive)
    requires
        d.dirty,
    ensures
        d.active == ACTIVE_KHL && d.khl.drained() && !d.fcl.drained() ==> d.next_pop()
            == d.fcl.next_pop() && d.popped().fcl == d.fcl.popped() && d.popped().khl == d.khl,
        d.active == ACTIVE_FCL && d.fcl.drained() && !d.khl.drained() ==> d.next_pop()
            == d.khl.next_pop() && d.popped().khl == d.khl.popped() && d.popped().fcl == d.fcl,
        d.active == ACTIVE_KHL && d.khl.published.len() == 0 && d.fcl.published.len() > 0
            ==> d.next_stolen() == Some(d.fcl.published[0]) && d.robbed().fcl.published
            == d.fcl.published.drop_first() && d.robbed().khl == d.khl,
        d.active == ACTIVE_FCL && d.fcl.published.len() == 0 && d.khl.published.len() > 0
            ==> d.next_stolen() == Some(d.khl.published[0]) && d.robbed().khl.published
            == d.khl.published.drop_first() && d.robbed().fcl == d.fcl,
{
}

} // verus!
