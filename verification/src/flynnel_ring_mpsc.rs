//! Bounded ring for many producers and one consumer.
//!
//! Producers claim positions at the tail as in [`crate::flynnel_ring`]; the
//! only consumer owns the head, so it needs no claim. The consumer handle
//! holds the storage; producer handles append to the ring they are given.
//! Interleavings are those of [`crate::ring_protocol`] with one thread that
//! pops: nobody else reads the head, so it does not matter when it moves.

use crate::flynnel_ring::{FlynnelRing, PopResult, PushResult};
use crate::math::rounded_slot_count;
use vstd::prelude::*;

verus! {

/// Outcome of a push.
#[derive(Debug, PartialEq, Eq)]
pub enum MpscPushResult<T> {
    /// Item enqueued.
    Pushed,
    /// The ring is at capacity; the item comes back.
    Full(T),
}

/// Outcome of a pop.
#[derive(Debug, PartialEq, Eq)]
pub enum MpscPopResult<T> {
    /// Got an item.
    Popped(T),
    /// The ring is empty.
    Empty,
}

/// Producer handle. Copies are interchangeable.
#[derive(Debug, Clone, Copy)]
pub struct MpscProducer {
}

/// The only consumer, which holds the ring.
pub struct MpscConsumer<T> {
    ring: FlynnelRing<T>,
}

impl<T> View for MpscConsumer<T> {
    type V = Seq<T>;

    /// The items, oldest first.
    closed spec fn view(&self) -> Seq<T> {
        self.ring@
    }
}

impl<T> MpscConsumer<T> {
    /// Number of slots.
    pub closed spec fn slot_count(&self) -> int {
        self.ring.slot_count()
    }

    /// Representation invariant.
    pub closed spec fn wf(&self) -> bool {
        self.ring.wf()
    }

    /// Takes the oldest item.
    pub fn pop(&mut self) -> (res: MpscPopResult<T>)
        requires
            old(self).wf(),
        ensures
            final(self).wf(),
            final(self).slot_count() == old(self).slot_count(),
            old(self)@.len() == 0 ==> {
                &&& res is Empty
                &&& final(self)@ == old(self)@
            },
            old(self)@.len() > 0 ==> {
                &&& res == MpscPopResult::Popped(old(self)@.first())
                &&& final(self)@ == old(self)@.drop_first()
            },
    {
        match self.ring.pop() {
            PopResult::Popped(item) => MpscPopResult::Popped(item),
            PopResult::Empty => MpscPopResult::Empty,
        }
    }
}

impl MpscProducer {
    /// Appends an item; gives it back when the ring is full.
    pub fn push<T>(&self, ring: &mut MpscConsumer<T>, item: T) -> (res: MpscPushResult<T>)
        requires
            old(ring).wf(),
        ensures
            final(ring).wf(),
            final(ring).slot_count() == old(ring).slot_count(),
            old(ring)@.len() < old(ring).slot_count() ==> {
                &&& res is Pushed
                &&& final(ring)@ == old(ring)@.push(item)
            },
            old(ring)@.len() >= old(ring).slot_count() ==> {
                &&& res == MpscPushResult::Full(item)
                &&& final(ring)@ == old(ring)@
            },
    {
        match ring.ring.push(item) {
            PushResult::Pushed => MpscPushResult::Pushed,
            PushResult::Full(back) => MpscPushResult::Full(back),
        }
    }
}

/// A ring of at least `capacity` slots, rounded up to a power of two, at
/// least 2.
pub fn new_mpsc<T>(capacity: usize) -> (res: (MpscProducer, MpscConsumer<T>))
    requires
        capacity <= usize::MAX / 2 + 1,
    ensures
        res.1.wf(),
        res.1@ == Seq::<T>::empty(),
        rounded_slot_count(capacity as int, res.1.slot_count()),
{
    (MpscProducer {  }, MpscConsumer { ring: FlynnelRing::new(capacity) })
}

} // verus!
