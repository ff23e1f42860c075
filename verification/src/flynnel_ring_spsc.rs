//! Bounded ring for one producer and one consumer.
//!
//! Each side writes one counter of its own and reads the other's, so neither
//! needs a claim: the producer checks the head for room and then moves the
//! tail, the consumer checks the tail for items and then moves the head. The
//! consumer handle holds the storage; the producer handle appends to the ring
//! it is given.
//!
//! The interleavings of the two sides are the subject of
//! [`crate::spsc_protocol`].

use crate::chase_lev_local::counter_distance;
use crate::math::{
    counter_modulus, is_slot_count, lemma_slot_count_divides, lemma_slots_distinct,
    lemma_wrapped_slot, round_up_slot_count, rounded_slot_count,
};
use vstd::prelude::*;

verus! {

/// Outcome of a push.
#[derive(Debug, PartialEq, Eq)]
pub enum SpscPushResult<T> {
    /// Item enqueued.
    Pushed,
    /// The ring is at capacity; the item comes back.
    Full(T),
}

/// Outcome of a pop.
#[derive(Debug, PartialEq, Eq)]
pub enum SpscPopResult<T> {
    /// Got an item.
    Popped(T),
    /// The ring is empty.
    Empty,
}

/// Producer handle.
#[derive(Debug)]
pub struct Producer {
}

/// Consumer handle, which holds the ring.
pub struct Consumer<T> {
    buffer: Vec<Option<T>>,
    tail: u64,
    head: u64,
}

impl<T> View for Consumer<T> {
    type V = Seq<T>;

    /// The items, oldest first.
    closed spec fn view(&self) -> Seq<T> {
        Seq::new(
            counter_distance(self.head, self.tail) as nat,
            |i: int| self.buffer@[(self.head + i) % (self.buffer@.len() as int)]->Some_0,
        )
    }
}

impl<T> Consumer<T> {
    /// Number of slots.
    pub closed spec fn slot_count(&self) -> int {
        self.buffer@.len() as int
    }

    /// Representation invariant: no more items than slots, and every live
    /// position holds an item.
    pub closed spec fn wf(&self) -> bool {
        &&& is_slot_count(self.buffer@.len() as int)
        &&& counter_distance(self.head, self.tail) <= self.buffer@.len()
        &&& forall|i: int|
            0 <= i < counter_distance(self.head, self.tail) ==> (#[trigger] self.buffer@[(self.head
                + i) % (self.buffer@.len() as int)]) is Some
    }

    /// A well-formed ring holds at most its slot count.
    pub proof fn lemma_bounds(&self)
        requires
            self.wf(),
        ensures
            is_slot_count(self.slot_count()),
            2 <= self.slot_count() <= usize::MAX,
            self@.len() <= self.slot_count(),
    {
        lemma_slot_count_divides(self.buffer@.len() as int);
        assert(self.slot_count() == self.buffer.len());
    }

    /// Takes the oldest item.
    pub fn pop(&mut self) -> (res: SpscPopResult<T>)
        requires
            old(self).wf(),
        ensures
            final(self).wf(),
            final(self).slot_count() == old(self).slot_count(),
            old(self)@.len() == 0 ==> {
                &&& res is Empty
                &&& final(self)@ == old(self)@
            },
            old(self)@.len() > 0 ==> {
                &&& res == SpscPopResult::Popped(old(self)@.first())
                &&& final(self)@ == old(self)@.drop_first()
            },
    {
        proof {
            self.lemma_bounds();
        }
        if self.head == self.tail {
            return SpscPopResult::Empty;
        }
        let idx: usize = (self.head % (self.buffer.len() as u64)) as usize;
        let ghost n = counter_distance(self.head, self.tail);
        let ghost c = self.buffer@.len() as int;
        let ghost h = self.head as int;
        proof {
            assert(idx == (h + 0) % c);
            assert forall|i: int| 1 <= i < n implies #[trigger] ((h + i) % c) != idx by {
                if (h + i) % c == idx {
                    lemma_slots_distinct(h, h + i, c);
                }
            }
        }
        let taken: Option<T> = self.buffer[idx].take();
        self.head = self.head.wrapping_add(1);
        proof {
            let h2 = self.head as int;
            assert(counter_distance(self.head, self.tail) == n - 1);
            assert forall|i: int| 0 <= i < n - 1 implies #[trigger] ((h2 + i) % c) == (h + (i + 1))
                % c by {
                if h2 == 0 {
                    lemma_wrapped_slot(h + 1 + i, c);
                    assert(h + 1 + i == i + counter_modulus());
                    vstd::arithmetic::div_mod::lemma_mod_add_multiples_vanish(i, counter_modulus());
                    vstd::arithmetic::div_mod::lemma_small_mod(i as nat, counter_modulus() as nat);
                } else {
                    assert(h2 + i == h + (i + 1));
                }
            }
            assert forall|i: int| 0 <= i < n - 1 implies (#[trigger] self.buffer@[(h2 + i)
                % c]) is Some by {
                assert((h2 + i) % c == (h + (i + 1)) % c);
                assert(old(self).buffer@[(h + (i + 1)) % c] is Some);
            }
            assert(self@ =~= old(self)@.drop_first());
        }
        match taken {
            Some(item) => SpscPopResult::Popped(item),
            None => SpscPopResult::Empty,
        }
    }
}

impl Producer {
    /// Appends an item; gives it back when the ring is full.
    pub fn push<T>(&self, ring: &mut Consumer<T>, item: T) -> (res: SpscPushResult<T>)
        requires
            old(ring).wf(),
        ensures
            final(ring).wf(),
            final(ring).slot_count() == old(ring).slot_count(),
            old(ring)@.len() < old(ring).slot_count() ==> {
                &&& res is Pushed
                &&& final(ring)@ == old(ring)@.push(item)
            },
            old(ring)@.len() >= old(ring).slot_count() ==> {
                &&& res == SpscPushResult::Full(item)
                &&& final(ring)@ == old(ring)@
            },
    {
        proof {
            ring.lemma_bounds();
        }
        let cap: usize = ring.buffer.len();
        if ring.tail.wrapping_sub(ring.head) >= cap as u64 {
            return SpscPushResult::Full(item);
        }
        let idx: usize = (ring.tail % (cap as u64)) as usize;
        let ghost n = counter_distance(ring.head, ring.tail);
        let ghost c = cap as int;
        let ghost h = ring.head as int;
        proof {
            lemma_wrapped_slot(h + n, c);
            assert((h + n) % counter_modulus() == ring.tail) by {
                if ring.tail < ring.head {
                    assert(h + n == ring.tail + counter_modulus());
                    vstd::arithmetic::div_mod::lemma_mod_add_multiples_vanish(
                        ring.tail as int,
                        counter_modulus(),
                    );
                }
                vstd::arithmetic::div_mod::lemma_small_mod(
                    ring.tail as nat,
                    counter_modulus() as nat,
                );
            }
            assert forall|i: int| 0 <= i < n implies #[trigger] ((h + i) % c) != idx by {
                if (h + i) % c == idx {
                    lemma_slots_distinct(h + i, h + n, c);
                }
            }
        }
        ring.buffer.set(idx, Some(item));
        ring.tail = ring.tail.wrapping_add(1);
        proof {
            assert(counter_distance(ring.head, ring.tail) == n + 1);
            assert(ring@ =~= old(ring)@.push(item));
        }
        SpscPushResult::Pushed
    }
}

/// A ring of at least `capacity` slots, rounded up to a power of two, at
/// least 2.
pub fn new_spsc<T>(capacity: usize) -> (res: (Producer, Consumer<T>))
    requires
        capacity <= usize::MAX / 2 + 1,
    ensures
        res.1.wf(),
        res.1@ == Seq::<T>::empty(),
        rounded_slot_count(capacity as int, res.1.slot_count()),
{
    let cap: usize = round_up_slot_count(capacity);
    let mut buffer: Vec<Option<T>> = Vec::with_capacity(cap);
    let mut i: usize = 0;
    while i < cap
        invariant
            i <= cap,
            buffer@.len() == i,
        decreases cap - i,
    {
        buffer.push(None);
        i += 1;
    }
    let c = Consumer { buffer, tail: 0, head: 0 };
    proof {
        assert(c@ =~= Seq::<T>::empty());
    }
    (Producer {  }, c)
}

} // verus!
