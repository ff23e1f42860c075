//! Bounded ring with a sequence number per slot.
//!
//! Producers claim positions at the tail and consumers at the head. A slot's
//! sequence number tells which position may use it next: `pos` while it waits
//! for the producer of `pos`, `pos + 1` while it holds the item of `pos`, and
//! `pos + capacity` once that item has left. Positions wrap with the machine
//! word.
//!
//! The interleavings of many producers with many consumers are the subject of
//! [`crate::ring_protocol`]; its steps take the decisions defined here.

use crate::math::{
    counter_modulus, is_slot_count, lemma_slot_count_divides, lemma_slots_distinct,
    lemma_wrapped_slot, round_up_slot_count, rounded_slot_count,
};
use vstd::prelude::*;

verus! {

/// Outcome of a push.
#[derive(Debug, PartialEq, Eq)]
pub enum PushResult<T> {
    /// Item enqueued.
    Pushed,
    /// The ring is at capacity; the item comes back.
    Full(T),
}

/// Outcome of a pop.
#[derive(Debug, PartialEq, Eq)]
pub enum PopResult<T> {
    /// Got an item.
    Popped(T),
    /// The ring is empty.
    Empty,
}

/// What the sequence number of a position's slot tells the claimant.
#[derive(Debug, Clone, Copy, PartialEq, Eq, Structural)]
pub enum SlotVerdict {
    /// The slot is ready: claim the position.
    Claim,
    /// The slot is a lap behind: the ring is full (to a producer) or empty
    /// (to a consumer).
    Blocked,
    /// Another claimant went past: reload the position.
    Reload,
}

/// A counter value as the machine word holds it.
pub open spec fn wrap(x: int) -> int {
    x % counter_modulus()
}

/// The verdict on a slot whose sequence number is `seq` when `wanted` makes
/// it ready. The difference is read as a signed number.
pub open spec fn slot_verdict_spec(seq: u64, wanted: u64) -> SlotVerdict {
    let diff = wrap(seq - wanted);
    if diff == 0 {
        SlotVerdict::Claim
    } else if diff >= 0x8000_0000_0000_0000 {
        SlotVerdict::Blocked
    } else {
        SlotVerdict::Reload
    }
}

/// The verdict on a slot whose sequence number is `seq` when `wanted` makes
/// it ready.
pub fn slot_verdict(seq: u64, wanted: u64) -> (res: SlotVerdict)
    ensures
        res == slot_verdict_spec(seq, wanted),
{
    let diff: u64 = seq.wrapping_sub(wanted);
    proof {
        lemma_wrap_sub(seq, wanted);
    }
    if diff == 0 {
        SlotVerdict::Claim
    } else if diff >= 0x8000_0000_0000_0000 {
        SlotVerdict::Blocked
    } else {
        SlotVerdict::Reload
    }
}

/// Wrapping subtraction is subtraction modulo the counter range.
pub proof fn lemma_wrap_sub(a: u64, b: u64)
    ensures
        a.wrapping_sub(b) == wrap(a - b),
{
    if a >= b {
        vstd::arithmetic::div_mod::lemma_small_mod((a - b) as nat, counter_modulus() as nat);
    } else {
        vstd::arithmetic::div_mod::lemma_mod_add_multiples_vanish(a - b, counter_modulus());
        vstd::arithmetic::div_mod::lemma_small_mod(
            (a - b + counter_modulus()) as nat,
            counter_modulus() as nat,
        );
    }
}

/// Wrapping addition is addition modulo the counter range.
pub proof fn lemma_wrap_add(a: int, b: u64, k: u64)
    requires
        a >= 0,
        b == wrap(a),
    ensures
        b.wrapping_add(k) == wrap(a + k),
{
    vstd::arithmetic::div_mod::lemma_add_mod_noop(a, k as int, counter_modulus());
    vstd::arithmetic::div_mod::lemma_small_mod(k as nat, counter_modulus() as nat);
    vstd::arithmetic::div_mod::lemma_small_mod(b as nat, counter_modulus() as nat);
    if b + k >= counter_modulus() {
        vstd::arithmetic::div_mod::lemma_mod_sub_multiples_vanish(b + k, counter_modulus());
        vstd::arithmetic::div_mod::lemma_small_mod(
            (b + k - counter_modulus()) as nat,
            counter_modulus() as nat,
        );
    } else {
        vstd::arithmetic::div_mod::lemma_small_mod((b + k) as nat, counter_modulus() as nat);
    }
}

/// Shifting both sides of a difference by whole positions keeps it.
pub proof fn lemma_wrap_diff(a: int, b: int, wa: u64, wb: u64)
    requires
        a >= 0,
        b >= 0,
        wa == wrap(a),
        wb == wrap(b),
    ensures
        wrap(wa - wb) == wrap(a - b),
{
    vstd::arithmetic::div_mod::lemma_sub_mod_noop(a, b, counter_modulus());
}

/// One slot.
struct RingSlot<T> {
    seq: u64,
    data: Option<T>,
}

/// Bounded ring.
pub struct FlynnelRing<T> {
    slots: Vec<RingSlot<T>>,
    tail: u64,
    head: u64,
    count: Ghost<nat>,
}

impl<T> View for FlynnelRing<T> {
    type V = Seq<T>;

    /// The items, oldest first.
    closed spec fn view(&self) -> Seq<T> {
        Seq::new(
            self.count@,
            |i: int| self.slots@[(self.head + i) % (self.slots@.len() as int)].data->Some_0,
        )
    }
}

impl<T> FlynnelRing<T> {
    /// Number of slots.
    pub closed spec fn slot_count(&self) -> int {
        self.slots@.len() as int
    }

    /// Representation invariant: the slots of the live positions hold items
    /// and carry the successor of their position; every other slot waits for
    /// the position that will use it next.
    pub closed spec fn wf(&self) -> bool {
        let c = self.slots@.len() as int;
        let n = self.count@ as int;
        &&& is_slot_count(c)
        &&& n <= c
        &&& self.tail == wrap(self.head + n)
        &&& forall|i: int|
            0 <= i < n ==> {
                let s = #[trigger] self.slots@[(self.head + i) % c];
                s.seq == wrap(self.head + i + 1) && s.data is Some
            }
        &&& forall|i: int|
            n <= i < c ==> {
                let s = #[trigger] self.slots@[(self.head + i) % c];
                s.seq == wrap(self.head + i)
            }
    }

    /// A well-formed ring holds at most its slot count.
    pub proof fn lemma_bounds(&self)
        requires
            self.wf(),
        ensures
            is_slot_count(self.slot_count()),
            2 <= self.slot_count() <= usize::MAX,
            self@.len() <= self.slot_count(),
    {
        lemma_slot_count_divides(self.slots@.len() as int);
        assert(self.slots@.len() == self.slots.len());
    }

    /// A ring of at least `capacity` slots, rounded up to a power of two, at
    /// least 2.
    pub fn new(capacity: usize) -> (res: FlynnelRing<T>)
        requires
            capacity <= usize::MAX / 2 + 1,
        ensures
            res.wf(),
            res@ == Seq::<T>::empty(),
            rounded_slot_count(capacity as int, res.slot_count()),
    {
        let cap: usize = round_up_slot_count(capacity);
        proof {
            lemma_slot_count_divides(cap as int);
        }
        let mut slots: Vec<RingSlot<T>> = Vec::with_capacity(cap);
        let mut i: usize = 0;
        while i < cap
            invariant
                i <= cap,
                slots@.len() == i,
                forall|j: int| 0 <= j < i ==> (#[trigger] slots@[j]).seq == j,
            decreases cap - i,
        {
            slots.push(RingSlot { seq: i as u64, data: None });
            i += 1;
        }
        let res = FlynnelRing { slots, tail: 0, head: 0, count: Ghost(0nat) };
        proof {
            let c = cap as int;
            assert forall|j: int| 0 <= j < c implies (#[trigger] res.slots@[(res.head + j) % c]).seq
                == wrap(res.head + j) by {
                vstd::arithmetic::div_mod::lemma_small_mod(j as nat, c as nat);
                vstd::arithmetic::div_mod::lemma_small_mod(j as nat, counter_modulus() as nat);
            }
            vstd::arithmetic::div_mod::lemma_small_mod(0, counter_modulus() as nat);
            assert(res@ =~= Seq::<T>::empty());
        }
        res
    }

    /// The slot count, always a power of two.
    pub fn capacity(&self) -> (res: usize)
        ensures
            res == self.slot_count(),
    {
        self.slots.len()
    }

    /// Number of items.
    pub fn len(&self) -> (res: usize)
        requires
            self.wf(),
        ensures
            res == self@.len(),
    {
        proof {
            self.lemma_bounds();
            lemma_wrap_sub(self.tail, self.head);
            vstd::arithmetic::div_mod::lemma_small_mod(self.head as nat, counter_modulus() as nat);
            lemma_wrap_diff(self.head + self.count@, self.head as int, self.tail, self.head);
            vstd::arithmetic::div_mod::lemma_small_mod(self.count@, counter_modulus() as nat);
        }
        self.tail.wrapping_sub(self.head) as usize
    }

    /// Whether no item is left.
    pub fn is_empty(&self) -> (res: bool)
        requires
            self.wf(),
        ensures
            res == (self@.len() == 0),
    {
        self.len() == 0
    }

    /// What a producer reads at the tail: a ready slot, or one a lap behind
    /// when the ring is full.
    proof fn lemma_tail_slot(&self)
        requires
            self.wf(),
        ensures
            self.slots@.len() >= 2,
            0 <= self.tail as int % (self.slots@.len() as int) < self.slots@.len(),
            (self.tail as int) % (self.slots@.len() as int) == (self.head + self.count@) % (
            self.slots@.len() as int),
            self.count@ < self.slots@.len() ==> self.slots@[(self.tail as int) % (
            self.slots@.len() as int)].seq == self.tail,
            self.count@ == self.slots@.len() ==> slot_verdict_spec(
                self.slots@[(self.tail as int) % (self.slots@.len() as int)].seq,
                self.tail,
            ) == SlotVerdict::Blocked,
    {
        let c = self.slots@.len() as int;
        let n = self.count@ as int;
        lemma_slot_count_divides(c);
        lemma_wrapped_slot(self.head + n, c);
        if n == c {
            vstd::arithmetic::div_mod::lemma_mod_add_multiples_vanish(self.head as int, c);
            assert((self.head + n) % c == (self.head + 0) % c);
            let s = self.slots@[(self.head + 0) % c];
            lemma_wrap_diff(self.head + 1, self.head + n, s.seq, self.tail);
            assert(self.head + 1 - (self.head + n) == 1 - c);
            vstd::arithmetic::div_mod::lemma_mod_add_multiples_vanish(1 - c, counter_modulus());
            vstd::arithmetic::div_mod::lemma_small_mod(
                (1 - c + counter_modulus()) as nat,
                counter_modulus() as nat,
            );
            assert(c <= 0x8000_0000_0000_0000) by {
                let k = choose|k: nat| 1 <= k < 64 && c == #[trigger] vstd::arithmetic::power2::pow2(k);
                vstd::arithmetic::power2::lemma2_to64_rest();
                if k < 63 {
                    vstd::arithmetic::power2::lemma_pow2_strictly_increases(k, 63);
                }
            }
        } else {
            let s = self.slots@[(self.head + n) % c];
            assert(s.seq == wrap(self.head + n));
        }
    }

    /// What a consumer reads at the head: a filled slot, or one that still
    /// waits for its producer.
    proof fn lemma_head_slot(&self)
        requires
            self.wf(),
        ensures
            self.slots@.len() >= 2,
            0 <= self.head as int % (self.slots@.len() as int) < self.slots@.len(),
            self.count@ > 0 ==> {
                let s = self.slots@[(self.head as int) % (self.slots@.len() as int)];
                &&& s.seq == self.head.wrapping_add(1)
                &&& s.data is Some
            },
            self.count@ == 0 ==> slot_verdict_spec(
                self.slots@[(self.head as int) % (self.slots@.len() as int)].seq,
                self.head.wrapping_add(1),
            ) == SlotVerdict::Blocked,
    {
        let c = self.slots@.len() as int;
        lemma_slot_count_divides(c);
        let s = self.slots@[(self.head + 0) % c];
        vstd::arithmetic::div_mod::lemma_small_mod(self.head as nat, counter_modulus() as nat);
        lemma_wrap_add(self.head as int, self.head, 1);
        if self.count@ == 0 {
            assert(s.seq == self.head);
            lemma_wrap_diff(self.head as int, self.head + 1, self.head, self.head.wrapping_add(1));
            vstd::arithmetic::div_mod::lemma_mod_add_multiples_vanish(-1, counter_modulus());
            vstd::arithmetic::div_mod::lemma_small_mod(
                (counter_modulus() - 1) as nat,
                counter_modulus() as nat,
            );
        }
    }

    /// Appends an item; gives it back when the ring is full.
    pub fn push(&mut self, item: T) -> (res: PushResult<T>)
        requires
            old(self).wf(),
        ensures
            final(self).wf(),
            final(self).slot_count() == old(self).slot_count(),
            old(self)@.len() < old(self).slot_count() ==> {
                &&& res is Pushed
                &&& final(self)@ == old(self)@.push(item)
            },
            old(self)@.len() >= old(self).slot_count() ==> {
                &&& res == PushResult::Full(item)
                &&& final(self)@ == old(self)@
            },
    {
        proof {
            self.lemma_bounds();
            self.lemma_tail_slot();
        }
        let cap: usize = self.slots.len();
        let pos: u64 = self.tail;
        let idx: usize = (pos % (cap as u64)) as usize;
        match slot_verdict(self.slots[idx].seq, pos) {
            SlotVerdict::Claim => {
                self.fill(idx, item);
                PushResult::Pushed
            },
            _ => PushResult::Full(item),
        }
    }

    /// Claims the tail position and publishes `item` in its slot.
    fn fill(&mut self, idx: usize, item: T)
        requires
            old(self).wf(),
            old(self).count@ < old(self).slots@.len(),
            idx == (old(self).tail as int) % (old(self).slots@.len() as int),
        ensures
            final(self).wf(),
            final(self).slot_count() == old(self).slot_count(),
            final(self)@ == old(self)@.push(item),
    {
        let ghost c = self.slots@.len() as int;
        let ghost n = self.count@ as int;
        let ghost h = self.head as int;
        proof {
            self.lemma_bounds();
            self.lemma_tail_slot();
            lemma_wrap_add(h + n, self.tail, 1);
            assert forall|i: int| 0 <= i < c && i != n implies #[trigger] ((h + i) % c) != idx by {
                if (h + i) % c == idx {
                    if i < n {
                        lemma_slots_distinct(h + i, h + n, c);
                    } else {
                        lemma_slots_distinct(h + n, h + i, c);
                    }
                }
            }
        }
        let pos: u64 = self.tail;
        self.tail = pos.wrapping_add(1);
        self.slots.set(idx, RingSlot { seq: pos.wrapping_add(1), data: Some(item) });
        self.count = Ghost((n + 1) as nat);
        proof {
            assert forall|i: int| 0 <= i < n + 1 implies {
                let s = #[trigger] self.slots@[(self.head + i) % c];
                s.seq == wrap(self.head + i + 1) && s.data is Some
            } by {
                if i < n {
                    let s = old(self).slots@[(h + i) % c];
                    assert(s.data is Some);
                }
            }
            assert forall|i: int| n + 1 <= i < c implies {
                let s = #[trigger] self.slots@[(self.head + i) % c];
                s.seq == wrap(self.head + i)
            } by {
                let s = old(self).slots@[(h + i) % c];
                assert(s.seq == wrap(h + i));
            }
            assert(self@ =~= old(self)@.push(item)) by {
                assert forall|i: int| 0 <= i < n implies self@[i] == old(self)@[i] by {
                    assert((h + i) % c != idx);
                }
            }
        }
    }

    /// Takes the oldest item.
    pub fn pop(&mut self) -> (res: PopResult<T>)
        requires
            old(self).wf(),
        ensures
            final(self).wf(),
            final(self).slot_count() == old(self).slot_count(),
            old(self)@.len() == 0 ==> {
                &&& res is Empty
                &&& final(self)@ == old(self)@
            },
            old(self)@.len() > 0 ==> {
                &&& res == PopResult::Popped(old(self)@.first())
                &&& final(self)@ == old(self)@.drop_first()
            },
    {
        proof {
            self.lemma_bounds();
            self.lemma_head_slot();
            lemma_wrap_sub(self.head.wrapping_add(1), self.head.wrapping_add(1));
            vstd::arithmetic::div_mod::lemma_small_mod(0, counter_modulus() as nat);
        }
        let cap: usize = self.slots.len();
        let pos: u64 = self.head;
        let idx: usize = (pos % (cap as u64)) as usize;
        match slot_verdict(self.slots[idx].seq, pos.wrapping_add(1)) {
            SlotVerdict::Claim => {
                match self.drain(idx) {
                    Some(item) => PopResult::Popped(item),
                    None => PopResult::Empty,
                }
            },
            _ => PopResult::Empty,
        }
    }

    /// Claims the head position, takes its item and releases its slot for the
    /// next lap.
    fn drain(&mut self, idx: usize) -> (res: Option<T>)
        requires
            old(self).wf(),
            old(self).count@ > 0,
            idx == (old(self).head as int) % (old(self).slots@.len() as int),
        ensures
            final(self).wf(),
            final(self).slot_count() == old(self).slot_count(),
            res == Some(old(self)@.first()),
            final(self)@ == old(self)@.drop_first(),
    {
        let ghost c = self.slots@.len() as int;
        let ghost n = self.count@ as int;
        let ghost h = self.head as int;
        proof {
            self.lemma_bounds();
            self.lemma_head_slot();
            vstd::arithmetic::div_mod::lemma_small_mod(self.head as nat, counter_modulus() as nat);
            lemma_wrap_add(h, self.head, 1);
            lemma_wrap_add(h, self.head, c as u64);
            assert((h + 0) % c == idx);
            assert forall|i: int| 1 <= i < c implies #[trigger] ((h + i) % c) != idx by {
                if (h + i) % c == idx {
                    lemma_slots_distinct(h, h + i, c);
                }
            }
        }
        let cap: usize = self.slots.len();
        let pos: u64 = self.head;
        self.head = pos.wrapping_add(1);
        let mut released: RingSlot<T> = RingSlot { seq: pos.wrapping_add(cap as u64), data: None };
        core::mem::swap(&mut released, &mut self.slots[idx]);
        self.count = Ghost((n - 1) as nat);
        proof {
            let h2 = self.head as int;
            // The new head is the old one plus one, up to a whole counter lap,
            // and a lap changes neither slots nor wrapped values.
            assert forall|i: int| 0 <= i < c implies #[trigger] ((h2 + i) % c) == (h + (i + 1)) % c by {
                if h2 == 0 {
                    assert(h + (i + 1) == i + counter_modulus());
                    lemma_wrapped_slot(h + (i + 1), c);
                    vstd::arithmetic::div_mod::lemma_mod_add_multiples_vanish(i, counter_modulus());
                    vstd::arithmetic::div_mod::lemma_small_mod(i as nat, counter_modulus() as nat);
                } else {
                    assert(h2 + i == h + (i + 1));
                }
            }
            assert forall|x: int| x >= 0 implies #[trigger] wrap(h2 + x) == wrap(h + 1 + x) by {
                if h2 == 0 {
                    assert(h + 1 + x == x + counter_modulus());
                    vstd::arithmetic::div_mod::lemma_mod_add_multiples_vanish(x, counter_modulus());
                } else {
                    assert(h2 + x == h + 1 + x);
                }
            }
            assert(self.tail == wrap(h2 + (n - 1)));
            assert forall|i: int| 0 <= i < n - 1 implies {
                let s = #[trigger] self.slots@[(self.head + i) % c];
                s.seq == wrap(self.head + i + 1) && s.data is Some
            } by {
                assert((h2 + i) % c == (h + (i + 1)) % c);
                let s = old(self).slots@[(h + (i + 1)) % c];
                assert(s.seq == wrap(h + (i + 1) + 1) && s.data is Some);
                assert(wrap(h2 + (i + 1)) == wrap(h + 1 + (i + 1)));
            }
            assert forall|i: int| n - 1 <= i < c implies {
                let s = #[trigger] self.slots@[(self.head + i) % c];
                s.seq == wrap(self.head + i)
            } by {
                assert((h2 + i) % c == (h + (i + 1)) % c);
                assert(wrap(h2 + i) == wrap(h + 1 + i));
                if i + 1 < c {
                    let s = old(self).slots@[(h + (i + 1)) % c];
                    assert(s.seq == wrap(h + (i + 1)));
                } else {
                    vstd::arithmetic::div_mod::lemma_mod_add_multiples_vanish(h, c);
                    assert((h + (i + 1)) % c == idx);
                    assert(h + c == h + 1 + i);
                }
            }
            assert(self@ =~= old(self)@.drop_first()) by {
                assert forall|i: int| 0 <= i < n - 1 implies self@[i] == old(self)@[i + 1] by {
                    assert((h2 + i) % c == (h + (i + 1)) % c);
                    assert((h + (i + 1)) % c != idx);
                }
            }
        }
        released.data
    }

    /// Appends an item. The call waits for a consumer when the ring is full,
    /// so it needs a free slot.
    pub fn push_blocking(&mut self, item: T)
        requires
            old(self).wf(),
            old(self)@.len() < old(self).slot_count(),
        ensures
            final(self).wf(),
            final(self).slot_count() == old(self).slot_count(),
            final(self)@ == old(self)@.push(item),
    {
        proof {
            self.lemma_bounds();
            self.lemma_tail_slot();
        }
        let idx: usize = (self.tail % (self.slots.len() as u64)) as usize;
        self.fill(idx, item);
    }

    /// Takes the oldest item. The call waits for a producer when the ring is
    /// empty, so it needs an item.
    pub fn pop_blocking(&mut self) -> (res: T)
        requires
            old(self).wf(),
            old(self)@.len() > 0,
        ensures
            final(self).wf(),
            final(self).slot_count() == old(self).slot_count(),
            res == old(self)@.first(),
            final(self)@ == old(self)@.drop_first(),
    {
        proof {
            self.lemma_bounds();
            self.lemma_head_slot();
        }
        let idx: usize = (self.head % (self.slots.len() as u64)) as usize;
        self.drain(idx).unwrap()
    }
}

} // verus!
