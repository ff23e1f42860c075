//! One producer and one consumer on one ring.
//!
//! Every operation of the ring is broken into steps with one access to shared
//! memory each, and the two sides take their steps in any order. The laws
//! hold between any two steps: what has left is what came first, in order,
//! and the two sides never touch the same slot at once.

use crate::math::lemma_slots_distinct;
use vstd::prelude::*;

verus! {

/// Where the producer stands in its operation.
#[verifier::ext_equal]
pub enum Producing<T> {
    /// Between operations.
    Idle,
    /// Loaded the tail, has to load the head.
    Loaded {
        /// The tail.
        tail: int,
        /// Its item.
        item: T,
    },
    /// Saw room, has to write its item.
    Room {
        /// The tail.
        tail: int,
        /// Its item.
        item: T,
    },
    /// Wrote its item, has to move the tail.
    Written {
        /// The tail.
        tail: int,
        /// Its item.
        item: T,
    },
}

/// Where the consumer stands in its operation.
#[verifier::ext_equal]
pub enum Consuming<T> {
    /// Between operations.
    Idle,
    /// Loaded the head, has to load the tail.
    Loaded {
        /// The head.
        head: int,
    },
    /// Saw an item, has to read it.
    Seen {
        /// The head.
        head: int,
    },
    /// Read its item, has to move the head.
    Read {
        /// The head.
        head: int,
        /// Its item.
        item: T,
    },
}

/// Shared memory, the two sides, and what has happened so far.
#[verifier::ext_equal]
pub struct Channel<T> {
    /// Number of slots.
    pub cap: int,
    /// What the slots' memory holds.
    pub slots: Seq<Option<T>>,
    /// Next position to push.
    pub tail: int,
    /// Next position to pop.
    pub head: int,
    /// The producer.
    pub producer: Producing<T>,
    /// The consumer.
    pub consumer: Consuming<T>,
    /// Every item that was pushed, in order.
    pub pushed: Seq<T>,
    /// Every item that was popped, in order.
    pub popped: Seq<T>,
}

/// One access to shared memory.
#[verifier::ext_equal]
pub enum Step<T> {
    /// The producer wants to push and loads the tail.
    StartPush {
        /// Its item.
        item: T,
    },
    /// The producer loads the head to see whether there is room.
    CheckRoom,
    /// The producer writes its item.
    WriteItem,
    /// The producer moves the tail.
    MoveTail,
    /// The consumer wants to pop and loads the head.
    StartPop,
    /// The consumer loads the tail to see whether there is an item.
    CheckItem,
    /// The consumer reads its item.
    ReadItem,
    /// The consumer moves the head.
    MoveHead,
}

impl<T> Channel<T> {
    /// What the slot of a position holds.
    pub open spec fn slot(self, p: int) -> Option<T> {
        self.slots[p % self.cap]
    }

    /// A step can be taken.
    pub open spec fn enabled(self, step: Step<T>) -> bool {
        match step {
            Step::StartPush { .. } => self.producer is Idle,
            Step::CheckRoom => self.producer is Loaded,
            Step::WriteItem => self.producer is Room,
            Step::MoveTail => self.producer is Written,
            Step::StartPop => self.consumer is Idle,
            Step::CheckItem => self.consumer is Loaded,
            Step::ReadItem => self.consumer is Seen,
            Step::MoveHead => self.consumer is Read,
        }
    }

    /// The state after a step.
    pub open spec fn after(self, step: Step<T>) -> Channel<T> {
        match step {
            Step::StartPush { item } => Channel {
                producer: Producing::Loaded { tail: self.tail, item },
                ..self
            },
            Step::CheckRoom => {
                let tail = self.producer->Loaded_tail;
                let item = self.producer->Loaded_item;
                Channel {
                    producer: if tail - self.head >= self.cap {
                        Producing::Idle
                    } else {
                        Producing::Room { tail, item }
                    },
                    ..self
                }
            },
            Step::WriteItem => {
                let tail = self.producer->Room_tail;
                let item = self.producer->Room_item;
                Channel {
                    slots: self.slots.update(tail % self.cap, Some(item)),
                    producer: Producing::Written { tail, item },
                    ..self
                }
            },
            Step::MoveTail => {
                let tail = self.producer->Written_tail;
                let item = self.producer->Written_item;
                Channel {
                    tail: tail + 1,
                    pushed: self.pushed.push(item),
                    producer: Producing::Idle,
                    ..self
                }
            },
            Step::StartPop => Channel {
                consumer: Consuming::Loaded { head: self.head },
                ..self
            },
            Step::CheckItem => {
                let head = self.consumer->Loaded_head;
                Channel {
                    consumer: if head >= self.tail {
                        Consuming::Idle
                    } else {
                        Consuming::Seen { head }
                    },
                    ..self
                }
            },
            Step::ReadItem => {
                let head = self.consumer->Seen_head;
                Channel {
                    consumer: Consuming::Read { head, item: self.slot(head)->Some_0 },
                    ..self
                }
            },
            Step::MoveHead => {
                let head = self.consumer->Read_head;
                let item = self.consumer->Read_item;
                Channel {
                    head: head + 1,
                    popped: self.popped.push(item),
                    consumer: Consuming::Idle,
                    ..self
                }
            },
        }
    }

    /// The item of a position in the ring is in its slot.
    pub open spec fn position_ok(self, p: int) -> bool {
        self.head <= p < self.tail ==> self.slot(p) == Some(self.pushed[p])
    }

    /// What the producer knows is true.
    pub open spec fn producer_ok(self) -> bool {
        match self.producer {
            Producing::Idle => true,
            Producing::Loaded { tail, .. } => tail == self.tail,
            Producing::Room { tail, .. } => tail == self.tail && tail - self.head < self.cap,
            Producing::Written { tail, item } => {
                &&& tail == self.tail
                &&& tail - self.head < self.cap
                &&& self.slot(tail) == Some(item)
            },
        }
    }

    /// What the consumer knows is true.
    pub open spec fn consumer_ok(self) -> bool {
        match self.consumer {
            Consuming::Idle => true,
            Consuming::Loaded { head } => head == self.head,
            Consuming::Seen { head } => head == self.head && head < self.tail,
            Consuming::Read { head, item } => {
                &&& head == self.head
                &&& head < self.tail
                &&& item == self.pushed[head]
            },
        }
    }

    /// What holds between any two steps.
    pub open spec fn consistent(self) -> bool {
        &&& self.cap >= 1
        &&& self.slots.len() == self.cap
        &&& 0 <= self.head <= self.tail <= self.head + self.cap
        &&& self.pushed.len() == self.tail
        &&& self.popped == self.pushed.subrange(0, self.head)
        &&& forall|p: int| #[trigger] self.position_ok(p)
        &&& self.producer_ok()
        &&& self.consumer_ok()
    }

    /// A ring that nobody has used.
    pub open spec fn started(self) -> bool {
        &&& self.cap >= 1
        &&& self.slots.len() == self.cap
        &&& self.tail == 0
        &&& self.head == 0
        &&& self.producer is Idle
        &&& self.consumer is Idle
        &&& self.pushed == Seq::<T>::empty()
        &&& self.popped == Seq::<T>::empty()
    }
}

/// The protocol starts consistent.
pub proof fn law_start_is_consistent<T>(c: Channel<T>)
    requires
        c.started(),
    ensures
        c.consistent(),
{
    assert(c.popped =~= c.pushed.subrange(0, 0));
    assert forall|p: int| #[trigger] c.position_ok(p) by {}
}

/// Every step of either side keeps the protocol consistent.
pub proof fn law_steps_keep_consistency<T>(c: Channel<T>, step: Step<T>)
    requires
        c.consistent(),
        c.enabled(step),
    ensures
        c.after(step).consistent(),
{
    let q = c.after(step);
    assert forall|p: int| #[trigger] q.position_ok(p) by {
        assert(c.position_ok(p));
        if step is WriteItem && q.head <= p < q.tail {
            let tail = c.producer->Room_tail;
            vstd::arithmetic::div_mod::lemma_mod_bound(p, c.cap);
            vstd::arithmetic::div_mod::lemma_mod_bound(tail, c.cap);
            if p % c.cap == tail % c.cap {
                lemma_slots_distinct(p, tail, c.cap);
            }
        }
    }
    if step is WriteItem {
        vstd::arithmetic::div_mod::lemma_mod_bound(c.producer->Room_tail, c.cap);
    } else if step is MoveTail {
        assert(q.popped =~= q.pushed.subrange(0, q.head));
    } else if step is ReadItem {
        assert(c.position_ok(c.head));
    } else if step is MoveHead {
        assert(q.popped =~= q.pushed.subrange(0, q.head));
    }
}

/// Items leave in the order in which they came, each once.
pub proof fn law_first_in_first_out<T>(c: Channel<T>)
    requires
        c.consistent(),
    ensures
        c.popped == c.pushed.subrange(0, c.head),
        c.popped.len() <= c.pushed.len() <= c.popped.len() + c.cap,
{
}

/// While the producer writes a slot, the consumer reads another.
pub proof fn law_sides_keep_apart<T>(c: Channel<T>)
    requires
        c.consistent(),
        c.producer is Room || c.producer is Written,
        c.consumer is Seen || c.consumer is Read,
    ensures
        c.tail % c.cap != c.head % c.cap,
{
    if c.tail % c.cap == c.head % c.cap {
        lemma_slots_distinct(c.head, c.tail, c.cap);
    }
}

/// A push gives up only where the ring is full, a pop only where it is empty,
/// at the moment of the look.
pub proof fn law_refusals_are_honest<T>(c: Channel<T>)
    requires
        c.consistent(),
    ensures
        c.producer is Loaded ==> (c.after(Step::CheckRoom).producer is Idle <==> c.tail - c.head
            == c.cap),
        c.consumer is Loaded ==> (c.after(Step::CheckItem).consumer is Idle <==> c.tail
            == c.head),
{
}

} // verus!
