//! Many producers and many consumers on one ring.
//!
//! Every operation of the ring is broken into steps with one access to shared
//! memory each, and any number of threads take their steps in any order.
//! Positions are numbered without end: the wrap of the machine word is dealt
//! with by [`law_verdict_of_words`]. The laws hold between any two steps: each
//! item that was pushed is taken at most once and none is lost, items leave by
//! the order of their positions, and nobody reads a slot while it is written.

use crate::flynnel_ring::{slot_verdict_spec, wrap, SlotVerdict};
use crate::math::{counter_modulus, lemma_slots_distinct};
use vstd::prelude::*;

verus! {

/// A slot. Its sequence number is `at` while it waits for the item of
/// position `at`, and `at + 1` while it holds it.
#[verifier::ext_equal]
pub struct Cell<T> {
    /// The position that the slot serves now.
    pub at: int,
    /// Whether the item of that position is in the slot.
    pub full: bool,
    /// What the slot's memory holds.
    pub item: Option<T>,
}

/// Where a thread stands in its operation.
#[verifier::ext_equal]
pub enum Thread<T> {
    /// Between operations.
    Idle,
    /// About to load the tail.
    PushStart {
        /// Its item.
        item: T,
    },
    /// Loaded the tail.
    PushLoaded {
        /// The tail that it saw.
        pos: int,
        /// Its item.
        item: T,
    },
    /// Saw that the slot is ready.
    PushReady {
        /// Position to claim.
        pos: int,
        /// Its item.
        item: T,
    },
    /// Took a position without looking, waits for the slot.
    PushTicket {
        /// Its position.
        pos: int,
        /// Its item.
        item: T,
    },
    /// Owns a position whose slot is ready.
    PushOwned {
        /// Its position.
        pos: int,
        /// Its item.
        item: T,
    },
    /// Wrote its item, has to publish it.
    PushWritten {
        /// Its position.
        pos: int,
    },
    /// About to load the head.
    PopStart,
    /// Loaded the head.
    PopLoaded {
        /// The head that it saw.
        pos: int,
    },
    /// Saw that the slot holds its item.
    PopReady {
        /// Position to claim.
        pos: int,
    },
    /// Took a position without looking, waits for its item.
    PopTicket {
        /// Its position.
        pos: int,
    },
    /// Owns a position whose item is there.
    PopOwned {
        /// Its position.
        pos: int,
    },
    /// Read its item, has to hand the slot on.
    PopRead {
        /// Its position.
        pos: int,
        /// Its item.
        item: T,
    },
}

/// Shared memory, threads, and what has happened so far.
#[verifier::ext_equal]
pub struct Ring<T> {
    /// Number of slots.
    pub cap: int,
    /// The slots.
    pub slots: Seq<Cell<T>>,
    /// Next position to push.
    pub tail: int,
    /// Next position to pop.
    pub head: int,
    /// The threads that are not idle.
    pub threads: Map<int, Thread<T>>,
    /// The item of every claimed position.
    pub pushed: Seq<T>,
    /// The items that have left, by position.
    pub taken: Map<int, T>,
    /// The thread that owes the item of a position.
    pub writer_of: Map<int, int>,
    /// The thread that is owed the item of a position.
    pub reader_of: Map<int, int>,
}

/// One access to shared memory.
#[verifier::ext_equal]
pub enum Step<T> {
    /// A thread wants to push.
    StartPush {
        /// Its item.
        item: T,
    },
    /// It loads the tail.
    LoadTail,
    /// It loads the sequence number of its slot.
    LookPush,
    /// It moves the tail from its position to the next, unless the tail has
    /// changed; a weak exchange may fail without a reason.
    ClaimTail {
        /// Fails without a reason.
        spurious: bool,
    },
    /// It moves the tail on, whatever it is.
    TakeTail {
        /// Its item.
        item: T,
    },
    /// It loads the sequence number of the slot that it waits for.
    WaitSlot,
    /// It writes its item.
    WriteItem,
    /// It stores the sequence number.
    Publish,
    /// A thread wants to pop.
    StartPop,
    /// It loads the head.
    LoadHead,
    /// It loads the sequence number of its slot.
    LookPop,
    /// It moves the head from its position to the next, unless the head has
    /// changed.
    ClaimHead {
        /// Fails without a reason.
        spurious: bool,
    },
    /// It moves the head on, whatever it is.
    TakeHead,
    /// It loads the sequence number of the slot that it waits for.
    WaitItem,
    /// It reads its item.
    ReadItem,
    /// It stores the sequence number of the next lap.
    Vacate,
}

impl<T> Ring<T> {
    /// What a thread is doing.
    pub open spec fn thread(self, t: int) -> Thread<T> {
        if self.threads.dom().contains(t) {
            self.threads[t]
        } else {
            Thread::Idle
        }
    }

    /// The slot of a position.
    pub open spec fn cell(self, pos: int) -> Cell<T> {
        self.slots[pos % self.cap]
    }

    /// The sequence number of a position's slot.
    pub open spec fn seq(self, pos: int) -> int {
        self.cell(pos).at + if self.cell(pos).full {
            1int
        } else {
            0
        }
    }

    /// The item of a position has been in its slot.
    pub open spec fn published(self, pos: int) -> bool {
        self.cell(pos).at > pos || (self.cell(pos).at == pos && self.cell(pos).full)
    }

    /// The slot of a position serves a later one.
    pub open spec fn passed(self, pos: int) -> bool {
        self.cell(pos).at > pos
    }

    /// With another slot for a position.
    pub open spec fn with_cell(self, pos: int, c: Cell<T>) -> Ring<T> {
        Ring { slots: self.slots.update(pos % self.cap, c), ..self }
    }

    /// With a thread at another point.
    pub open spec fn with_thread(self, t: int, th: Thread<T>) -> Ring<T> {
        Ring { threads: self.threads.insert(t, th), ..self }
    }

    /// A thread can take a step.
    pub open spec fn enabled(self, t: int, step: Step<T>) -> bool {
        match step {
            Step::StartPush { .. } => self.thread(t) is Idle,
            Step::LoadTail => self.thread(t) is PushStart,
            Step::LookPush => self.thread(t) is PushLoaded,
            Step::ClaimTail { .. } => self.thread(t) is PushReady,
            Step::TakeTail { .. } => self.thread(t) is Idle,
            Step::WaitSlot => self.thread(t) is PushTicket,
            Step::WriteItem => self.thread(t) is PushOwned,
            Step::Publish => self.thread(t) is PushWritten,
            Step::StartPop => self.thread(t) is Idle,
            Step::LoadHead => self.thread(t) is PopStart,
            Step::LookPop => self.thread(t) is PopLoaded,
            Step::ClaimHead { .. } => self.thread(t) is PopReady,
            Step::TakeHead => self.thread(t) is Idle,
            Step::WaitItem => self.thread(t) is PopTicket,
            Step::ReadItem => self.thread(t) is PopOwned,
            Step::Vacate => self.thread(t) is PopRead,
        }
    }

    /// The tail moves past its position, which becomes thread `t`'s to fill.
    pub open spec fn tail_claimed(self, t: int, item: T) -> Ring<T> {
        Ring {
            tail: self.tail + 1,
            pushed: self.pushed.push(item),
            writer_of: self.writer_of.insert(self.tail, t),
            ..self
        }
    }

    /// The head moves past its position, which becomes thread `t`'s to empty.
    pub open spec fn head_claimed(self, t: int) -> Ring<T> {
        Ring { head: self.head + 1, reader_of: self.reader_of.insert(self.head, t), ..self }
    }

    /// The state after a step.
    pub open spec fn after(self, t: int, step: Step<T>) -> Ring<T> {
        match (step, self.thread(t)) {
            (Step::StartPush { item }, _) => self.with_thread(t, Thread::PushStart { item }),
            (Step::LoadTail, Thread::PushStart { item }) => self.with_thread(
                t,
                Thread::PushLoaded { pos: self.tail, item },
            ),
            (Step::LookPush, Thread::PushLoaded { pos, item }) => {
                if self.seq(pos) == pos {
                    self.with_thread(t, Thread::PushReady { pos, item })
                } else if self.seq(pos) < pos {
                    self.with_thread(t, Thread::Idle)
                } else {
                    self.with_thread(t, Thread::PushStart { item })
                }
            },
            (Step::ClaimTail { spurious }, Thread::PushReady { pos, item }) => {
                if self.tail == pos && !spurious {
                    self.tail_claimed(t, item).with_thread(t, Thread::PushOwned { pos, item })
                } else {
                    self.with_thread(t, Thread::PushLoaded { pos: self.tail, item })
                }
            },
            (Step::TakeTail { item }, _) => self.tail_claimed(t, item).with_thread(
                t,
                Thread::PushTicket { pos: self.tail, item },
            ),
            (Step::WaitSlot, Thread::PushTicket { pos, item }) => {
                if self.seq(pos) == pos {
                    self.with_thread(t, Thread::PushOwned { pos, item })
                } else {
                    self
                }
            },
            (Step::WriteItem, Thread::PushOwned { pos, item }) => self.with_cell(
                pos,
                Cell { item: Some(item), ..self.cell(pos) },
            ).with_thread(t, Thread::PushWritten { pos }),
            (Step::Publish, Thread::PushWritten { pos }) => (Ring {
                writer_of: self.writer_of.remove(pos),
                ..self
            }).with_cell(pos, Cell { at: pos, full: true, ..self.cell(pos) }).with_thread(
                t,
                Thread::Idle,
            ),
            (Step::StartPop, _) => self.with_thread(t, Thread::PopStart),
            (Step::LoadHead, _) => self.with_thread(t, Thread::PopLoaded { pos: self.head }),
            (Step::LookPop, Thread::PopLoaded { pos }) => {
                if self.seq(pos) == pos + 1 {
                    self.with_thread(t, Thread::PopReady { pos })
                } else if self.seq(pos) < pos + 1 {
                    self.with_thread(t, Thread::Idle)
                } else {
                    self.with_thread(t, Thread::PopStart)
                }
            },
            (Step::ClaimHead { spurious }, Thread::PopReady { pos }) => {
                if self.head == pos && !spurious {
                    self.head_claimed(t).with_thread(t, Thread::PopOwned { pos })
                } else {
                    self.with_thread(t, Thread::PopLoaded { pos: self.head })
                }
            },
            (Step::TakeHead, _) => self.head_claimed(t).with_thread(
                t,
                Thread::PopTicket { pos: self.head },
            ),
            (Step::WaitItem, Thread::PopTicket { pos }) => {
                if self.seq(pos) == pos + 1 {
                    self.with_thread(t, Thread::PopOwned { pos })
                } else {
                    self
                }
            },
            (Step::ReadItem, Thread::PopOwned { pos }) => self.with_thread(
                t,
                Thread::PopRead { pos, item: self.cell(pos).item->Some_0 },
            ),
            (Step::Vacate, Thread::PopRead { pos, item }) => (Ring {
                taken: self.taken.insert(pos, item),
                reader_of: self.reader_of.remove(pos),
                ..self
            }).with_cell(
                pos,
                Cell { at: pos + self.cap, full: false, ..self.cell(pos) },
            ).with_thread(t, Thread::Idle),
            _ => self,
        }
    }

    /// A slot serves a position of its own, and holds that position's item
    /// while it is full.
    pub open spec fn slot_ok(self, i: int) -> bool {
        let c = self.slots[i];
        &&& c.at >= 0
        &&& c.at % self.cap == i
        &&& c.full ==> c.at < self.tail && c.item == Some(self.pushed[c.at])
    }

    /// A position's item is owed by its writer, in its slot, or taken; a
    /// claimed position that is not taken has its reader.
    pub open spec fn position_ok(self, p: int) -> bool {
        &&& self.passed(p) <==> self.taken.dom().contains(p)
        &&& self.passed(p) ==> p < self.head && p < self.tail && self.taken[p] == self.pushed[p]
        &&& p >= self.tail ==> !self.published(p)
        &&& 0 <= p < self.tail && !self.published(p) ==> self.writer_of.dom().contains(p)
            && self.thread(self.writer_of[p]).produces(p)
        &&& 0 <= p < self.head && !self.passed(p) ==> self.reader_of.dom().contains(p)
            && self.thread(self.reader_of[p]).consumes(p)
    }

    /// Thread `t` owes the item of a position.
    pub open spec fn owes(self, t: int, pos: int) -> bool {
        &&& 0 <= pos < self.tail
        &&& self.writer_of.dom().contains(pos)
        &&& self.writer_of[pos] == t
    }

    /// Thread `t` is owed the item of a position.
    pub open spec fn owed(self, t: int, pos: int) -> bool {
        &&& 0 <= pos < self.head
        &&& self.reader_of.dom().contains(pos)
        &&& self.reader_of[pos] == t
    }

    /// What a thread knows is true.
    pub open spec fn thread_ok(self, t: int) -> bool {
        match self.thread(t) {
            Thread::Idle => true,
            Thread::PushStart { .. } => true,
            Thread::PushLoaded { pos, .. } => 0 <= pos <= self.tail,
            Thread::PushReady { pos, .. } => 0 <= pos <= self.tail && self.cell(pos).at >= pos,
            Thread::PushTicket { pos, item } => {
                &&& self.owes(t, pos)
                &&& self.pushed[pos] == item
                &&& !self.published(pos)
            },
            Thread::PushOwned { pos, item } => {
                &&& self.owes(t, pos)
                &&& self.pushed[pos] == item
                &&& self.cell(pos).at == pos
                &&& !self.cell(pos).full
            },
            Thread::PushWritten { pos } => {
                &&& self.owes(t, pos)
                &&& self.cell(pos) == (Cell {
                    at: pos,
                    full: false,
                    item: Some(self.pushed[pos]),
                })
            },
            Thread::PopStart => true,
            Thread::PopLoaded { pos } => 0 <= pos <= self.head,
            Thread::PopReady { pos } => 0 <= pos <= self.head && self.published(pos),
            Thread::PopTicket { pos } => self.owed(t, pos) && !self.passed(pos),
            Thread::PopOwned { pos } => {
                &&& self.owed(t, pos)
                &&& self.cell(pos).at == pos
                &&& self.cell(pos).full
            },
            Thread::PopRead { pos, item } => {
                &&& self.owed(t, pos)
                &&& self.cell(pos).at == pos
                &&& self.cell(pos).full
                &&& pos < self.tail
                &&& item == self.pushed[pos]
            },
        }
    }

    /// What holds between any two steps.
    pub open spec fn consistent(self) -> bool {
        &&& self.cap >= 2
        &&& self.slots.len() == self.cap
        &&& self.tail >= 0
        &&& self.head >= 0
        &&& self.pushed.len() == self.tail
        &&& forall|i: int| 0 <= i < self.cap ==> #[trigger] self.slot_ok(i)
        &&& forall|p: int| 0 <= p ==> #[trigger] self.position_ok(p)
        &&& forall|p: int| self.taken.dom().contains(p) ==> 0 <= p
        &&& forall|t: int| #[trigger] self.thread_ok(t)
    }

    /// A ring that nobody has used.
    pub open spec fn started(self) -> bool {
        &&& self.cap >= 2
        &&& self.slots.len() == self.cap
        &&& forall|i: int|
            0 <= i < self.cap ==> (#[trigger] self.slots[i]).at == i && !self.slots[i].full
        &&& self.tail == 0
        &&& self.head == 0
        &&& self.threads == Map::<int, Thread<T>>::empty()
        &&& self.pushed == Seq::<T>::empty()
        &&& self.taken == Map::<int, T>::empty()
        &&& self.writer_of == Map::<int, int>::empty()
        &&& self.reader_of == Map::<int, int>::empty()
    }
}

impl<T> Thread<T> {
    /// Owes the item of a position.
    pub open spec fn produces(self, p: int) -> bool {
        match self {
            Thread::PushTicket { pos, .. } => pos == p,
            Thread::PushOwned { pos, .. } => pos == p,
            Thread::PushWritten { pos } => pos == p,
            _ => false,
        }
    }

    /// Is owed the item of a position.
    pub open spec fn consumes(self, p: int) -> bool {
        match self {
            Thread::PopTicket { pos } => pos == p,
            Thread::PopOwned { pos } => pos == p,
            Thread::PopRead { pos, .. } => pos == p,
            _ => false,
        }
    }
}

proof fn lemma_in_range<T>(r: Ring<T>, p: int)
    requires
        r.cap >= 2,
        0 <= p,
    ensures
        0 <= p % r.cap < r.cap,
{
    vstd::arithmetic::div_mod::lemma_mod_bound(p, r.cap);
}

/// A position's slot serves the position itself, or one at least a lap away.
proof fn lemma_laps<T>(r: Ring<T>, p: int)
    requires
        r.consistent(),
        0 <= p,
    ensures
        0 <= p % r.cap < r.cap,
        r.cell(p).at % r.cap == p % r.cap,
        r.cell(p).at >= 0,
        r.cell(p).at == p || r.cell(p).at >= p + r.cap || r.cell(p).at <= p - r.cap,
{
    lemma_in_range(r, p);
    assert(r.slot_ok(p % r.cap));
    let at = r.cell(p).at;
    if p < at < p + r.cap {
        lemma_slots_distinct(p, at, r.cap);
    }
    if at < p < at + r.cap {
        lemma_slots_distinct(at, p, r.cap);
    }
}

/// Two positions share a slot only a lap apart.
proof fn lemma_sharing(p: int, q: int, cap: int)
    requires
        cap >= 2,
        p % cap == q % cap,
    ensures
        p == q || p >= q + cap || q >= p + cap,
{
    if p < q < p + cap {
        lemma_slots_distinct(p, q, cap);
    }
    if q < p < q + cap {
        lemma_slots_distinct(q, p, cap);
    }
}

/// The protocol starts consistent.
pub proof fn law_start_is_consistent<T>(r: Ring<T>)
    requires
        r.started(),
    ensures
        r.consistent(),
{
    assert forall|i: int| 0 <= i < r.cap implies #[trigger] r.slot_ok(i) by {
        assert(r.slots[i].at == i);
        vstd::arithmetic::div_mod::lemma_small_mod(i as nat, r.cap as nat);
    }
    assert forall|p: int| 0 <= p implies #[trigger] r.position_ok(p) by {
        lemma_in_range(r, p);
        let i = p % r.cap;
        assert(r.slots[i].at == i);
        vstd::arithmetic::div_mod::lemma_mod_decreases(p as nat, r.cap as nat);
    }
    assert forall|t: int| #[trigger] r.thread_ok(t) by {}
}

/// A step that changes what one thread knows, and nothing else.
proof fn lemma_private_step<T>(r: Ring<T>, t: int, th: Thread<T>)
    requires
        r.consistent(),
        r.with_thread(t, th).thread_ok(t),
        forall|p: int| r.thread(t).produces(p) ==> th.produces(p),
        forall|p: int| r.thread(t).consumes(p) ==> th.consumes(p),
    ensures
        r.with_thread(t, th).consistent(),
{
    let q = r.with_thread(t, th);
    assert forall|i: int| 0 <= i < q.cap implies #[trigger] q.slot_ok(i) by {
        assert(r.slot_ok(i));
    }
    assert forall|p: int| 0 <= p implies #[trigger] q.position_ok(p) by {
        assert(r.position_ok(p));
    }
    assert forall|u: int| #[trigger] q.thread_ok(u) by {
        assert(r.thread_ok(u));
    }
}

proof fn lemma_claim_tail<T>(r: Ring<T>, t: int, item: T, th: Thread<T>)
    requires
        r.consistent(),
        forall|p: int| !r.thread(t).produces(p) && !r.thread(t).consumes(p),
        th == (Thread::PushTicket { pos: r.tail, item }) || (th == (Thread::PushOwned {
            pos: r.tail,
            item,
        }) && r.cell(r.tail).at == r.tail),
    ensures
        r.tail_claimed(t, item).with_thread(t, th).consistent(),
{
    let q = r.tail_claimed(t, item).with_thread(t, th);
    assert(r.position_ok(r.tail));
    assert forall|i: int| 0 <= i < q.cap implies #[trigger] q.slot_ok(i) by {
        assert(r.slot_ok(i));
    }
    assert forall|p: int| 0 <= p implies #[trigger] q.position_ok(p) by {
        assert(r.position_ok(p));
    }
    assert forall|u: int| #[trigger] q.thread_ok(u) by {
        assert(r.thread_ok(u));
    }
}

proof fn lemma_claim_head<T>(r: Ring<T>, t: int, th: Thread<T>)
    requires
        r.consistent(),
        forall|p: int| !r.thread(t).produces(p) && !r.thread(t).consumes(p),
        th == (Thread::<T>::PopTicket { pos: r.head }) || (th == (Thread::<T>::PopOwned {
            pos: r.head,
        }) && r.published(r.head)),
    ensures
        r.head_claimed(t).with_thread(t, th).consistent(),
{
    let q = r.head_claimed(t).with_thread(t, th);
    assert(r.position_ok(r.head));
    assert forall|i: int| 0 <= i < q.cap implies #[trigger] q.slot_ok(i) by {
        assert(r.slot_ok(i));
    }
    assert forall|p: int| 0 <= p implies #[trigger] q.position_ok(p) by {
        assert(r.position_ok(p));
    }
    assert forall|u: int| #[trigger] q.thread_ok(u) by {
        assert(r.thread_ok(u));
    }
}

proof fn lemma_write_item<T>(r: Ring<T>, t: int)
    requires
        r.consistent(),
        r.thread(t) is PushOwned,
    ensures
        r.after(t, Step::WriteItem).consistent(),
{
    let q = r.after(t, Step::WriteItem);
    assert(r.thread_ok(t));
    let pos = r.thread(t)->PushOwned_pos;
    lemma_laps(r, pos);
    assert forall|i: int| 0 <= i < q.cap implies #[trigger] q.slot_ok(i) by {
        assert(r.slot_ok(i));
    }
    assert forall|p: int| 0 <= p implies #[trigger] q.position_ok(p) by {
        assert(r.position_ok(p));
        lemma_in_range(r, p);
    }
    assert forall|u: int| #[trigger] q.thread_ok(u) by {
        assert(r.thread_ok(u));
        match r.thread(u) {
            Thread::PushLoaded { pos: p, .. } => lemma_in_range(r, p),
            Thread::PushReady { pos: p, .. } => lemma_in_range(r, p),
            Thread::PushTicket { pos: p, .. } => lemma_in_range(r, p),
            Thread::PushOwned { pos: p, .. } => lemma_in_range(r, p),
            Thread::PushWritten { pos: p } => lemma_in_range(r, p),
            Thread::PopLoaded { pos: p } => lemma_in_range(r, p),
            Thread::PopReady { pos: p } => lemma_in_range(r, p),
            Thread::PopTicket { pos: p } => lemma_in_range(r, p),
            Thread::PopOwned { pos: p } => lemma_in_range(r, p),
            Thread::PopRead { pos: p, .. } => lemma_in_range(r, p),
            _ => {},
        }
    }
}

proof fn lemma_publish<T>(r: Ring<T>, t: int)
    requires
        r.consistent(),
        r.thread(t) is PushWritten,
    ensures
        r.after(t, Step::Publish).consistent(),
{
    let q = r.after(t, Step::Publish);
    assert(r.thread_ok(t));
    let pos = r.thread(t)->PushWritten_pos;
    lemma_laps(r, pos);
    assert forall|i: int| 0 <= i < q.cap implies #[trigger] q.slot_ok(i) by {
        assert(r.slot_ok(i));
    }
    assert forall|p: int| 0 <= p implies #[trigger] q.position_ok(p) by {
        assert(r.position_ok(p));
        lemma_in_range(r, p);
    }
    assert forall|u: int| #[trigger] q.thread_ok(u) by {
        assert(r.thread_ok(u));
        match r.thread(u) {
            Thread::PushLoaded { pos: p, .. } => lemma_in_range(r, p),
            Thread::PushReady { pos: p, .. } => lemma_in_range(r, p),
            Thread::PushTicket { pos: p, .. } => lemma_in_range(r, p),
            Thread::PushOwned { pos: p, .. } => lemma_in_range(r, p),
            Thread::PushWritten { pos: p } => lemma_in_range(r, p),
            Thread::PopLoaded { pos: p } => lemma_in_range(r, p),
            Thread::PopReady { pos: p } => lemma_in_range(r, p),
            Thread::PopTicket { pos: p } => lemma_in_range(r, p),
            Thread::PopOwned { pos: p } => lemma_in_range(r, p),
            Thread::PopRead { pos: p, .. } => lemma_in_range(r, p),
            _ => {},
        }
    }
}

proof fn lemma_vacate<T>(r: Ring<T>, t: int)
    requires
        r.consistent(),
        r.thread(t) is PopRead,
    ensures
        r.after(t, Step::Vacate).consistent(),
{
    let q = r.after(t, Step::Vacate);
    assert(r.thread_ok(t));
    let pos = r.thread(t)->PopRead_pos;
    lemma_laps(r, pos);
    assert((pos + r.cap) % r.cap == pos % r.cap) by {
        vstd::arithmetic::div_mod::lemma_mod_add_multiples_vanish(pos, r.cap);
    }
    assert forall|i: int| 0 <= i < q.cap implies #[trigger] q.slot_ok(i) by {
        assert(r.slot_ok(i));
    }
    assert forall|p: int| 0 <= p implies #[trigger] q.position_ok(p) by {
        assert(r.position_ok(p));
        lemma_in_range(r, p);
        if p % r.cap == pos % r.cap {
            lemma_sharing(p, pos, r.cap);
        }
    }
    assert forall|u: int| #[trigger] q.thread_ok(u) by {
        assert(r.thread_ok(u));
        match r.thread(u) {
            Thread::PushReady { pos: p, .. } => lemma_in_range(r, p),
            Thread::PushTicket { pos: p, .. } => {
                lemma_in_range(r, p);
                if p % r.cap == pos % r.cap {
                    lemma_sharing(p, pos, r.cap);
                }
            },
            Thread::PushOwned { pos: p, .. } => lemma_in_range(r, p),
            Thread::PushWritten { pos: p } => lemma_in_range(r, p),
            Thread::PopReady { pos: p } => lemma_in_range(r, p),
            Thread::PopTicket { pos: p } => {
                lemma_in_range(r, p);
                if p % r.cap == pos % r.cap {
                    lemma_sharing(p, pos, r.cap);
                }
            },
            Thread::PopOwned { pos: p } => lemma_in_range(r, p),
            Thread::PopRead { pos: p, .. } => lemma_in_range(r, p),
            _ => {},
        }
    }
}

/// Every step of every thread keeps the protocol consistent.
pub proof fn law_steps_keep_consistency<T>(r: Ring<T>, t: int, step: Step<T>)
    requires
        r.consistent(),
        r.enabled(t, step),
    ensures
        r.after(t, step).consistent(),
{
    assert(r.thread_ok(t));
    match step {
        Step::WriteItem => lemma_write_item(r, t),
        Step::Publish => lemma_publish(r, t),
        Step::Vacate => lemma_vacate(r, t),
        Step::TakeTail { item } => lemma_claim_tail(
            r,
            t,
            item,
            Thread::PushTicket { pos: r.tail, item },
        ),
        Step::TakeHead => lemma_claim_head(r, t, Thread::PopTicket { pos: r.head }),
        Step::ClaimTail { spurious } => {
            let pos = r.thread(t)->PushReady_pos;
            let item = r.thread(t)->PushReady_item;
            if r.tail == pos && !spurious {
                assert(r.position_ok(pos));
                lemma_claim_tail(r, t, item, Thread::PushOwned { pos, item });
            } else {
                lemma_private_step(r, t, Thread::PushLoaded { pos: r.tail, item });
            }
        },
        Step::ClaimHead { spurious } => {
            let pos = r.thread(t)->PopReady_pos;
            if r.head == pos && !spurious {
                assert(r.position_ok(pos));
                lemma_claim_head(r, t, Thread::PopOwned { pos });
            } else {
                lemma_private_step(r, t, Thread::PopLoaded { pos: r.head });
            }
        },
        Step::StartPush { item } => lemma_private_step(r, t, Thread::PushStart { item }),
        Step::LoadTail => {
            let item = r.thread(t)->PushStart_item;
            lemma_private_step(r, t, Thread::PushLoaded { pos: r.tail, item });
        },
        Step::LookPush => {
            let pos = r.thread(t)->PushLoaded_pos;
            let item = r.thread(t)->PushLoaded_item;
            lemma_laps(r, pos);
            if r.seq(pos) == pos {
                lemma_private_step(r, t, Thread::PushReady { pos, item });
            } else if r.seq(pos) < pos {
                lemma_private_step(r, t, Thread::Idle);
            } else {
                lemma_private_step(r, t, Thread::PushStart { item });
            }
        },
        Step::WaitSlot => {
            let pos = r.thread(t)->PushTicket_pos;
            let item = r.thread(t)->PushTicket_item;
            lemma_laps(r, pos);
            if r.seq(pos) == pos {
                lemma_private_step(r, t, Thread::PushOwned { pos, item });
            }
        },
        Step::StartPop => lemma_private_step(r, t, Thread::PopStart),
        Step::LoadHead => lemma_private_step(r, t, Thread::PopLoaded { pos: r.head }),
        Step::LookPop => {
            let pos = r.thread(t)->PopLoaded_pos;
            lemma_laps(r, pos);
            if r.seq(pos) == pos + 1 {
                lemma_private_step(r, t, Thread::PopReady { pos });
            } else if r.seq(pos) < pos + 1 {
                lemma_private_step(r, t, Thread::Idle);
            } else {
                lemma_private_step(r, t, Thread::PopStart);
            }
        },
        Step::WaitItem => {
            let pos = r.thread(t)->PopTicket_pos;
            lemma_laps(r, pos);
            if r.seq(pos) == pos + 1 {
                lemma_private_step(r, t, Thread::PopOwned { pos });
            }
        },
        Step::ReadItem => {
            let pos = r.thread(t)->PopOwned_pos;
            lemma_laps(r, pos);
            assert(r.slot_ok(pos % r.cap));
            lemma_private_step(r, t, Thread::PopRead { pos, item: r.cell(pos).item->Some_0 });
        },
    }
}

/// An item is taken once: the position that a finished pop adds to what has
/// been taken was not there before, and its item is the one that was pushed
/// at that position.
pub proof fn law_taken_once<T>(r: Ring<T>, t: int)
    requires
        r.consistent(),
        r.thread(t) is PopRead,
    ensures
        ({
            let q = r.after(t, Step::Vacate);
            let pos = r.thread(t)->PopRead_pos;
            let item = r.thread(t)->PopRead_item;
            &&& !r.taken.dom().contains(pos)
            &&& 0 <= pos < r.tail
            &&& item == r.pushed[pos]
            &&& q.taken == r.taken.insert(pos, item)
        }),
{
    assert(r.thread_ok(t));
    let pos = r.thread(t)->PopRead_pos;
    assert(r.position_ok(pos));
}

/// No other step takes an item.
pub proof fn law_only_a_finished_pop_takes<T>(r: Ring<T>, t: int, step: Step<T>)
    requires
        r.enabled(t, step),
        !(step is Vacate),
    ensures
        r.after(t, step).taken == r.taken,
{
}

/// No item is lost: the item of every claimed position is owed by exactly the
/// thread that claimed it, is in the position's slot, or has been taken.
pub proof fn law_no_item_is_lost<T>(r: Ring<T>, p: int)
    requires
        r.consistent(),
        0 <= p < r.tail,
    ensures
        ({
            ||| r.writer_of.dom().contains(p) && r.thread(r.writer_of[p]).produces(p)
            ||| r.cell(p).at == p && r.cell(p).full && r.cell(p).item == Some(r.pushed[p])
            ||| r.taken.dom().contains(p) && r.taken[p] == r.pushed[p]
        }),
        forall|t: int, u: int|
            #[trigger] r.thread(t).produces(p) && #[trigger] r.thread(u).produces(p) ==> t == u,
{
    assert(r.position_ok(p));
    lemma_laps(r, p);
    assert(r.slot_ok(p % r.cap));
    assert forall|t: int, u: int|
        #[trigger] r.thread(t).produces(p) && #[trigger] r.thread(u).produces(p) implies t
        == u by {
        assert(r.thread_ok(t));
        assert(r.thread_ok(u));
    }
}

/// Once every thread is idle and every claimed position has been popped, what
/// was taken is exactly what was pushed.
pub proof fn law_drained_ring_gave_everything<T>(r: Ring<T>, p: int)
    requires
        r.consistent(),
        forall|t: int| r.thread(t) is Idle,
        r.head >= r.tail,
        0 <= p,
    ensures
        r.taken.dom().contains(p) <==> p < r.tail,
        p < r.tail ==> r.taken[p] == r.pushed[p],
{
    assert(r.position_ok(p));
}

/// A ring never holds more items than it has slots: two positions whose items
/// are in the ring have different slots.
pub proof fn law_one_item_per_slot<T>(r: Ring<T>, p: int, q: int)
    requires
        r.consistent(),
        0 <= p,
        0 <= q,
        r.published(p) && !r.passed(p),
        r.published(q) && !r.passed(q),
        p % r.cap == q % r.cap,
    ensures
        p == q,
{
}

/// While a thread writes a slot, no other thread reads or writes it.
pub proof fn law_writer_is_alone<T>(r: Ring<T>, t: int, u: int)
    requires
        r.consistent(),
        t != u,
        r.thread(t) is PushOwned,
    ensures
        ({
            let pos = r.thread(t)->PushOwned_pos;
            match r.thread(u) {
                Thread::PushOwned { pos: p, .. } => p % r.cap != pos % r.cap,
                Thread::PushWritten { pos: p } => p % r.cap != pos % r.cap,
                Thread::PopOwned { pos: p } => p % r.cap != pos % r.cap,
                Thread::PopRead { pos: p, .. } => p % r.cap != pos % r.cap,
                _ => true,
            }
        }),
{
    assert(r.thread_ok(t));
    assert(r.thread_ok(u));
}

/// A push gives up only when the item one lap back has not left, and a pop
/// only when the item of its position has not arrived.
pub proof fn law_refusals_are_honest<T>(r: Ring<T>, t: int)
    requires
        r.consistent(),
    ensures
        r.thread(t) matches Thread::PushLoaded { pos, item } ==> r.after(t, Step::LookPush).thread(
            t,
        ) is Idle ==> pos >= r.cap && !r.taken.dom().contains(pos - r.cap),
        r.thread(t) matches Thread::PopLoaded { pos } ==> r.after(t, Step::LookPop).thread(
            t,
        ) is Idle ==> !r.published(pos),
{
    assert(r.thread_ok(t));
    match r.thread(t) {
        Thread::PushLoaded { pos, item } => {
            lemma_laps(r, pos);
            if r.seq(pos) < pos {
                let back = pos - r.cap;
                assert(back % r.cap == pos % r.cap) by {
                    vstd::arithmetic::div_mod::lemma_mod_add_multiples_vanish(back, r.cap);
                }
                assert(r.position_ok(back));
            }
        },
        Thread::PopLoaded { pos } => {
            lemma_laps(r, pos);
        },
        _ => {},
    }
}

impl<T> Ring<T> {
    /// Nobody is in the middle of an operation.
    pub open spec fn quiet(self) -> bool {
        &&& forall|t: int| #[trigger] self.thread(t) is Idle
        &&& self.head <= self.tail
    }

    /// The items in the ring, oldest first, while nobody is in the middle of
    /// an operation.
    pub open spec fn contents(self) -> Seq<T> {
        self.pushed.subrange(self.head, self.tail)
    }
}

/// In a quiet ring every claimed position is settled.
proof fn lemma_quiet<T>(r: Ring<T>, p: int)
    requires
        r.consistent(),
        r.quiet(),
        0 <= p,
    ensures
        p < r.tail <==> r.published(p),
        p < r.head <==> r.passed(p),
{
    assert(r.position_ok(p));
    if p < r.tail && !r.published(p) {
        assert(r.thread(r.writer_of[p]) is Idle);
    }
    if p < r.head && !r.passed(p) {
        assert(r.thread(r.reader_of[p]) is Idle);
    }
}

/// A push that nobody interrupts appends its item, or finds the ring full.
pub proof fn law_uninterrupted_push<T>(r: Ring<T>, t: int, item: T)
    requires
        r.consistent(),
        r.quiet(),
    ensures
        ({
            let looked = r.after(t, Step::StartPush { item }).after(t, Step::LoadTail).after(
                t,
                Step::LookPush,
            );
            let ended = looked.after(t, Step::ClaimTail { spurious: false }).after(
                t,
                Step::WriteItem,
            ).after(t, Step::Publish);
            if r.contents().len() < r.cap {
                &&& looked.thread(t) is PushReady
                &&& ended.contents() == r.contents().push(item)
                &&& ended.thread(t) is Idle
            } else {
                &&& looked.thread(t) is Idle
                &&& looked.contents() == r.contents()
            }
        }),
{
    let s1 = r.after(t, Step::StartPush { item });
    let s2 = s1.after(t, Step::LoadTail);
    let s3 = s2.after(t, Step::LookPush);
    let pos = r.tail;
    assert(r.thread(t) is Idle);
    assert(s1.thread(t) == (Thread::PushStart { item }));
    assert(s2.thread(t) == (Thread::PushLoaded { pos, item }));
    lemma_laps(r, pos);
    lemma_quiet(r, pos);
    let at = r.cell(pos).at;
    assert(at % r.cap == pos % r.cap);
    if r.tail - r.head < r.cap {
        if at < pos {
            lemma_quiet(r, at);
        }
        assert(at == pos);
        assert(s2.seq(pos) == pos);
        assert(s3.thread(t) == (Thread::PushReady { pos, item }));
        let s4 = s3.after(t, Step::ClaimTail { spurious: false });
        assert(s4.thread(t) == (Thread::PushOwned { pos, item }));
        let s5 = s4.after(t, Step::WriteItem);
        assert(s5.thread(t) == (Thread::<T>::PushWritten { pos }));
        let s6 = s5.after(t, Step::Publish);
        assert(s6.contents() =~= r.contents().push(item));
    } else {
        let back = pos - r.cap;
        assert(back % r.cap == pos % r.cap) by {
            vstd::arithmetic::div_mod::lemma_mod_add_multiples_vanish(back, r.cap);
        }
        lemma_quiet(r, back);
        assert(s2.seq(pos) < pos);
    }
}

/// A pop that nobody interrupts takes the oldest item, or finds the ring
/// empty.
pub proof fn law_uninterrupted_pop<T>(r: Ring<T>, t: int)
    requires
        r.consistent(),
        r.quiet(),
    ensures
        ({
            let looked = r.after(t, Step::StartPop).after(t, Step::LoadHead).after(
                t,
                Step::LookPop,
            );
            let read = looked.after(t, Step::ClaimHead { spurious: false }).after(
                t,
                Step::ReadItem,
            );
            let ended = read.after(t, Step::Vacate);
            if r.contents().len() > 0 {
                &&& looked.thread(t) is PopReady
                &&& read.thread(t) == (Thread::PopRead { pos: r.head, item: r.contents()[0] })
                &&& ended.contents() == r.contents().subrange(1, r.contents().len() as int)
                &&& ended.thread(t) is Idle
            } else {
                &&& looked.thread(t) is Idle
                &&& looked.contents() == r.contents()
            }
        }),
{
    let s1 = r.after(t, Step::StartPop);
    let s2 = s1.after(t, Step::LoadHead);
    let s3 = s2.after(t, Step::LookPop);
    let pos = r.head;
    assert(r.thread(t) is Idle);
    assert(s1.thread(t) is PopStart);
    assert(s2.thread(t) == (Thread::<T>::PopLoaded { pos }));
    lemma_laps(r, pos);
    lemma_quiet(r, pos);
    assert(r.slot_ok(pos % r.cap));
    if r.head < r.tail {
        assert(s2.seq(pos) == pos + 1);
        assert(s3.thread(t) == (Thread::<T>::PopReady { pos }));
        let s4 = s3.after(t, Step::ClaimHead { spurious: false });
        assert(s4.thread(t) == (Thread::<T>::PopOwned { pos }));
        let s5 = s4.after(t, Step::ReadItem);
        assert(s5.thread(t) == (Thread::PopRead { pos, item: r.pushed[pos] }));
        let s6 = s5.after(t, Step::Vacate);
        assert(s6.contents() =~= r.contents().subrange(1, r.contents().len() as int));
    } else {
        assert(s2.seq(pos) < pos + 1);
    }
}

/// The machine compares words as the protocol compares positions, as long as
/// the two are less than half the word's range apart.
pub proof fn law_verdict_of_words(seq: int, wanted: int)
    requires
        -0x8000_0000_0000_0000 < seq - wanted < 0x8000_0000_0000_0000,
    ensures
        slot_verdict_spec(wrap(seq) as u64, wrap(wanted) as u64) == if seq == wanted {
            SlotVerdict::Claim
        } else if seq < wanted {
            SlotVerdict::Blocked
        } else {
            SlotVerdict::Reload
        },
{
    let m = counter_modulus();
    let d = seq - wanted;
    vstd::arithmetic::div_mod::lemma_sub_mod_noop(seq, wanted, m);
    assert(wrap(wrap(seq) - wrap(wanted)) == wrap(d));
    if d >= 0 {
        vstd::arithmetic::div_mod::lemma_small_mod(d as nat, m as nat);
    } else {
        vstd::arithmetic::div_mod::lemma_mod_add_multiples_vanish(d, m);
        vstd::arithmetic::div_mod::lemma_small_mod((d + m) as nat, m as nat);
    }
}

} // verus!
