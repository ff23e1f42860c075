//! Bounded Chase-Lev work-stealing deque.
//!
//! The owner pushes and pops at the bottom (last in, first out); thieves
//! take from the top (first in, first out). `top` and `bottom` are
//! free-running counters that wrap with the machine word, and a position's
//! slot is its remainder modulo the slot count. The owner handle holds the
//! storage; a [`Stealer`] is a copyable handle that takes from the deque it
//! is given.
//!
//! The interleavings of one owner with any number of thieves are the subject
//! of [`crate::chase_lev_protocol`].

use crate::math::{
    counter_modulus, is_slot_count, lemma_slot_count_divides, lemma_slots_distinct,
    lemma_wrapped_slot, round_up_slot_count, rounded_slot_count,
};
use vstd::prelude::*;

verus! {

/// Outcome of a pop or a steal.
#[derive(Debug, PartialEq, Eq)]
pub enum Steal<T> {
    /// Got an item.
    Success(T),
    /// Deque was empty.
    Empty,
    /// Lost a race; the caller should try again.
    Retry,
}

/// Owner side of the deque.
pub struct Worker<T> {
    buffer: Vec<Option<T>>,
    top: u64,
    bottom: u64,
}

/// Thief side of the deque. Copies are interchangeable.
#[derive(Debug, Clone, Copy)]
pub struct Stealer {
}

/// Slot of position `pos` in a deque of `cap` slots.
pub open spec fn slot_of(pos: int, cap: int) -> int {
    pos % cap
}

/// Number of positions from `from` up to `to`, both wrapped counters.
pub open spec fn counter_distance(from: u64, to: u64) -> int {
    if to >= from {
        to - from
    } else {
        to - from + counter_modulus()
    }
}

impl<T> View for Worker<T> {
    type V = Seq<T>;

    /// The unclaimed items, oldest (next to be stolen) first.
    closed spec fn view(&self) -> Seq<T> {
        Seq::new(
            counter_distance(self.top, self.bottom) as nat,
            |i: int| self.buffer@[slot_of(self.top + i, self.buffer@.len() as int)]->Some_0,
        )
    }
}

impl<T> Worker<T> {
    /// Number of slots.
    pub closed spec fn slots(&self) -> int {
        self.buffer@.len() as int
    }

    /// Representation invariant: a power-of-two slot count, no more items
    /// than slots, and every live position holds an item.
    pub closed spec fn wf(&self) -> bool {
        &&& is_slot_count(self.buffer@.len() as int)
        &&& counter_distance(self.top, self.bottom) <= self.buffer@.len()
        &&& forall|i: int|
            0 <= i < counter_distance(self.top, self.bottom) ==> (
            #[trigger] self.buffer@[slot_of(self.top + i, self.buffer@.len() as int)]) is Some
    }

    /// A well-formed deque holds at most its slot count.
    pub proof fn lemma_bounds(&self)
        requires
            self.wf(),
        ensures
            is_slot_count(self.slots()),
            2 <= self.slots() <= usize::MAX,
            self@.len() <= self.slots(),
    {
        lemma_slot_count_divides(self.buffer@.len() as int);
        assert(self.slots() == self.buffer.len());
    }

    /// Appends `item` at the bottom; gives it back when every slot is taken.
    pub fn push(&mut self, item: T) -> (res: Result<(), T>)
        requires
            old(self).wf(),
        ensures
            final(self).wf(),
            final(self).slots() == old(self).slots(),
            old(self)@.len() < old(self).slots() ==> {
                &&& res is Ok
                &&& final(self)@ == old(self)@.push(item)
            },
            old(self)@.len() >= old(self).slots() ==> {
                &&& res == Err::<(), T>(item)
                &&& final(self)@ == old(self)@
            },
    {
        proof {
            lemma_slot_count_divides(self.buffer@.len() as int);
        }
        let cap: usize = self.buffer.len();
        let size: u64 = self.bottom.wrapping_sub(self.top);
        if size >= cap as u64 {
            return Err(item);
        }
        let idx: usize = (self.bottom % (cap as u64)) as usize;
        let ghost n = counter_distance(self.top, self.bottom);
        let ghost c = cap as int;
        proof {
            lemma_wrapped_slot(self.top + n, c);
            assert((self.top + n) % counter_modulus() == self.bottom) by {
                if self.bottom < self.top {
                    assert(self.top + n == self.bottom + counter_modulus());
                    vstd::arithmetic::div_mod::lemma_mod_add_multiples_vanish(self.bottom as int, counter_modulus());
                }
                vstd::arithmetic::div_mod::lemma_small_mod(self.bottom as nat, counter_modulus() as nat);
            }
            assert(idx == slot_of(self.top + n, c));
            assert forall|i: int| 0 <= i < n implies #[trigger] slot_of(self.top + i, c) != idx by {
                if slot_of(self.top + i, c) == idx {
                    lemma_slots_distinct(self.top + i, self.top + n, c);
                }
            }
        }
        self.buffer.set(idx, Some(item));
        self.bottom = self.bottom.wrapping_add(1);
        proof {
            assert(counter_distance(self.top, self.bottom) == n + 1);
            assert(self@ =~= old(self)@.push(item));
        }
        Ok(())
    }

    /// Takes the newest item.
    pub fn pop(&mut self) -> (res: Steal<T>)
        requires
            old(self).wf(),
        ensures
            final(self).wf(),
            final(self).slots() == old(self).slots(),
            old(self)@.len() == 0 ==> {
                &&& res is Empty
                &&& final(self)@ == old(self)@
            },
            old(self)@.len() > 0 ==> {
                &&& res == Steal::Success(old(self)@.last())
                &&& final(self)@ == old(self)@.drop_last()
            },
    {
        proof {
            lemma_slot_count_divides(self.buffer@.len() as int);
        }
        let cap: usize = self.buffer.len();
        if self.top == self.bottom {
            return Steal::Empty;
        }
        let b: u64 = self.bottom.wrapping_sub(1);
        let idx: usize = (b % (cap as u64)) as usize;
        let ghost n = counter_distance(self.top, self.bottom);
        let ghost c = cap as int;
        proof {
            lemma_wrapped_slot(self.top + n - 1, c);
            assert((self.top + n - 1) % counter_modulus() == b) by {
                if b < self.top {
                    assert(self.top + n - 1 == b + counter_modulus());
                    vstd::arithmetic::div_mod::lemma_mod_add_multiples_vanish(b as int, counter_modulus());
                }
                vstd::arithmetic::div_mod::lemma_small_mod(b as nat, counter_modulus() as nat);
            }
            assert(idx == slot_of(self.top + (n - 1), c));
            assert forall|i: int| 0 <= i < n - 1 implies #[trigger] slot_of(self.top + i, c) != idx by {
                if slot_of(self.top + i, c) == idx {
                    lemma_slots_distinct(self.top + i, self.top + n - 1, c);
                }
            }
        }
        let taken: Option<T> = self.buffer[idx].take();
        self.bottom = b;
        proof {
            assert(counter_distance(self.top, self.bottom) == n - 1);
            assert(self@ =~= old(self)@.drop_last());
        }
        match taken {
            Some(item) => Steal::Success(item),
            None => Steal::Empty,
        }
    }

    /// A thief handle.
    pub fn stealer(&self) -> Stealer {
        Stealer {  }
    }

    /// Whether no item is left.
    pub fn is_empty(&self) -> (res: bool)
        requires
            self.wf(),
        ensures
            res == (self@.len() == 0),
    {
        self.bottom == self.top
    }

    /// The slot count, always a power of two.
    pub fn capacity(&self) -> (res: usize)
        ensures
            res == self.slots(),
    {
        self.buffer.len()
    }

    /// Number of unclaimed items.
    pub fn len(&self) -> (res: usize)
        requires
            self.wf(),
        ensures
            res == self@.len(),
    {
        proof {
            self.lemma_bounds();
        }
        self.bottom.wrapping_sub(self.top) as usize
    }
}

impl Stealer {
    /// Takes the oldest item. Uninterrupted, a steal never loses a race.
    pub fn steal<T>(&self, deque: &mut Worker<T>) -> (res: Steal<T>)
        requires
            old(deque).wf(),
        ensures
            final(deque).wf(),
            final(deque).slots() == old(deque).slots(),
            old(deque)@.len() == 0 ==> {
                &&& res is Empty
                &&& final(deque)@ == old(deque)@
            },
            old(deque)@.len() > 0 ==> {
                &&& res == Steal::Success(old(deque)@.first())
                &&& final(deque)@ == old(deque)@.drop_first()
            },
    {
        proof {
            lemma_slot_count_divides(deque.buffer@.len() as int);
        }
        let cap: usize = deque.buffer.len();
        if deque.top == deque.bottom {
            return Steal::Empty;
        }
        let idx: usize = (deque.top % (cap as u64)) as usize;
        let ghost n = counter_distance(deque.top, deque.bottom);
        let ghost c = cap as int;
        let ghost t = deque.top as int;
        proof {
            assert(idx == slot_of(t + 0, c));
            assert forall|i: int| 1 <= i < n implies #[trigger] slot_of(t + i, c) != idx by {
                if slot_of(t + i, c) == idx {
                    lemma_slots_distinct(t, t + i, c);
                }
            }
        }
        let taken: Option<T> = deque.buffer[idx].take();
        deque.top = deque.top.wrapping_add(1);
        proof {
            assert(counter_distance(deque.top, deque.bottom) == n - 1);
            assert forall|i: int| 0 <= i < n - 1 implies #[trigger] slot_of(deque.top + i, c)
                == slot_of(t + (i + 1), c) by {
                if deque.top == 0 {
                    lemma_wrapped_slot(t + 1 + i, c);
                    assert(t + 1 + i == i + counter_modulus());
                    vstd::arithmetic::div_mod::lemma_mod_add_multiples_vanish(i, counter_modulus());
                    vstd::arithmetic::div_mod::lemma_small_mod(i as nat, counter_modulus() as nat);
                } else {
                    assert(deque.top + i == t + (i + 1));
                }
            }
            assert forall|i: int| 0 <= i < n - 1 implies (
            #[trigger] deque.buffer@[slot_of(deque.top + i, c)]) is Some by {
                assert(slot_of(deque.top + i, c) == slot_of(t + (i + 1), c));
                assert(old(deque).buffer@[slot_of(t + (i + 1), c)] is Some);
            }
            assert(deque@ =~= old(deque)@.drop_first());
        }
        match taken {
            Some(item) => Steal::Success(item),
            None => Steal::Empty,
        }
    }

    /// Warms the next steal target. The deque is unchanged.
    pub fn prefetch_for_steal<T>(&self, deque: &Worker<T>)
        requires
            deque.wf(),
    {
        proof {
            lemma_slot_count_divides(deque.buffer@.len() as int);
        }
        let idx: usize = (deque.top % (deque.buffer.len() as u64)) as usize;
        let _slot = &deque.buffer[idx];
    }

    /// Whether no item is left.
    pub fn is_empty<T>(&self, deque: &Worker<T>) -> (res: bool)
        requires
            deque.wf(),
        ensures
            res == (deque@.len() == 0),
    {
        deque.is_empty()
    }
}

/// A deque of at least `capacity` slots (rounded up to a power of two, at
/// least 2) and a thief handle for it.
pub fn new_chase_lev<T>(capacity: usize) -> (res: (Worker<T>, Stealer))
    requires
        capacity <= usize::MAX / 2 + 1,
    ensures
        res.0.wf(),
        res.0@ == Seq::<T>::empty(),
        rounded_slot_count(capacity as int, res.0.slots()),
{
    let cap: usize = round_up_slot_count(capacity);
    let mut buffer: Vec<Option<T>> = Vec::with_capacity(cap);
    let mut i: usize = 0;
    while i < cap
        invariant
            i <= cap,
            buffer@.len() == i,
        decreases cap - i,
    {
        buffer.push(None);
        i += 1;
    }
    let w = Worker { buffer, top: 0, bottom: 0 };
    proof {
        assert(w@ =~= Seq::<T>::empty());
    }
    (w, Stealer {  })
}

} // verus!
