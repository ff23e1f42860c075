//! One owner and any number of thieves on one deque.
//!
//! Every operation of the deque is broken into steps with one access to
//! shared memory each, and owner and thieves take their steps in any order.
//! The accesses take effect one after the other, which is what the fences
//! between the owner's store of the bottom and its load of the top, and
//! between a thief's two loads, are for. The laws hold between any two steps:
//! each item that was pushed is taken at most once and none is lost, thieves
//! take the oldest item and the owner the newest.

use crate::math::lemma_slots_distinct;
use vstd::prelude::*;

verus! {

/// Where the owner stands in its operation.
#[verifier::ext_equal]
pub enum Owner<T> {
    /// Between operations.
    Idle,
    /// Loaded the bottom, has to load the top.
    PushLoaded {
        /// The bottom.
        b: int,
        /// Its item.
        item: T,
    },
    /// Saw room, has to write its item.
    PushRoom {
        /// The bottom.
        b: int,
        /// Its item.
        item: T,
    },
    /// Wrote its item, has to move the bottom.
    PushWritten {
        /// The bottom.
        b: int,
        /// Its item.
        item: T,
    },
    /// Moved the bottom down, has to load the top.
    PopStored {
        /// The bottom.
        b: int,
    },
    /// Saw nothing, has to move the bottom back.
    PopNothing {
        /// The bottom.
        b: int,
    },
    /// Owns an item that is not the last, has to read it.
    PopMine {
        /// The bottom.
        b: int,
        /// The item's number.
        id: int,
    },
    /// Saw the last item, has to read it.
    PopLast {
        /// The bottom.
        b: int,
    },
    /// Read the last item, has to win it.
    PopLastRead {
        /// The bottom.
        b: int,
        /// What it read.
        item: T,
    },
}

/// Where a thief stands in its operation.
#[verifier::ext_equal]
pub enum Thief<T> {
    /// Between operations.
    Idle,
    /// Loaded the top.
    Top {
        /// The top.
        t: int,
    },
    /// Saw a bottom beyond that top.
    Seen {
        /// The top.
        t: int,
    },
    /// Read the slot.
    Read {
        /// The top.
        t: int,
        /// What it read.
        item: T,
    },
}

/// Shared memory, threads, and what has happened so far.
#[verifier::ext_equal]
pub struct Deque<T> {
    /// Number of slots.
    pub cap: int,
    /// What the slots' memory holds.
    pub slots: Seq<Option<T>>,
    /// The top.
    pub top: int,
    /// The bottom.
    pub bottom: int,
    /// The owner.
    pub owner: Owner<T>,
    /// The thieves that are not idle.
    pub thieves: Map<int, Thief<T>>,
    /// End of the positions whose items are in the deque.
    pub lim: int,
    /// Every item that was pushed, by number.
    pub pushed: Seq<T>,
    /// The items that were taken, by number.
    pub taken: Map<int, T>,
    /// The number of the item at a position.
    pub ids: Map<int, int>,
    /// The position of an item that is in the deque.
    pub pos_of: Map<int, int>,
}

/// One access to shared memory.
#[verifier::ext_equal]
pub enum Step<T> {
    /// The owner wants to push and loads the bottom.
    StartPush {
        /// Its item.
        item: T,
    },
    /// The owner loads the top to see whether there is room.
    CheckRoom,
    /// The owner writes its item.
    WriteItem,
    /// The owner moves the bottom up.
    RaiseBottom,
    /// The owner wants to pop and moves the bottom down.
    LowerBottom,
    /// The owner loads the top.
    CompareTop,
    /// The owner moves the bottom back.
    RestoreBottom,
    /// The owner reads its item.
    ReadMine,
    /// The owner reads the last item.
    ReadLast,
    /// The owner moves the top past the last item, unless it has moved.
    WinLast,
    /// A thief loads the top.
    LoadTop {
        /// The thief.
        who: int,
    },
    /// A thief loads the bottom.
    LoadBottom {
        /// The thief.
        who: int,
    },
    /// A thief reads the slot of its top.
    ReadSlot {
        /// The thief.
        who: int,
    },
    /// A thief moves the top past its item, unless it has moved.
    MoveTop {
        /// The thief.
        who: int,
    },
}

impl<T> Deque<T> {
    /// What a thief is doing.
    pub open spec fn thief(self, who: int) -> Thief<T> {
        if self.thieves.dom().contains(who) {
            self.thieves[who]
        } else {
            Thief::Idle
        }
    }

    /// What the slot of a position holds.
    pub open spec fn slot(self, p: int) -> Option<T> {
        self.slots[p % self.cap]
    }

    /// The item of a position is in the deque.
    pub open spec fn live(self, p: int) -> bool {
        self.top <= p < self.lim
    }

    /// With a thief at another point.
    pub open spec fn with_thief(self, who: int, th: Thief<T>) -> Deque<T> {
        Deque { thieves: self.thieves.insert(who, th), ..self }
    }

    /// A step can be taken.
    pub open spec fn enabled(self, step: Step<T>) -> bool {
        match step {
            Step::StartPush { .. } => self.owner is Idle,
            Step::CheckRoom => self.owner is PushLoaded,
            Step::WriteItem => self.owner is PushRoom,
            Step::RaiseBottom => self.owner is PushWritten,
            Step::LowerBottom => self.owner is Idle,
            Step::CompareTop => self.owner is PopStored,
            Step::RestoreBottom => self.owner is PopNothing,
            Step::ReadMine => self.owner is PopMine,
            Step::ReadLast => self.owner is PopLast,
            Step::WinLast => self.owner is PopLastRead,
            Step::LoadTop { who } => self.thief(who) is Idle,
            Step::LoadBottom { who } => self.thief(who) is Top,
            Step::ReadSlot { who } => self.thief(who) is Seen,
            Step::MoveTop { who } => self.thief(who) is Read,
        }
    }

    /// The item at the top leaves.
    pub open spec fn top_taken(self) -> Deque<T> {
        let id = self.ids[self.top];
        Deque { top: self.top + 1, taken: self.taken.insert(id, self.pushed[id]), ..self }
    }

    /// The state after a step.
    pub open spec fn after(self, step: Step<T>) -> Deque<T> {
        match step {
            Step::StartPush { item } => Deque {
                owner: Owner::PushLoaded { b: self.bottom, item },
                ..self
            },
            Step::CheckRoom => {
                let b = self.owner->PushLoaded_b;
                let item = self.owner->PushLoaded_item;
                if b - self.top >= self.cap {
                    Deque { owner: Owner::Idle, ..self }
                } else {
                    Deque { owner: Owner::PushRoom { b, item }, ..self }
                }
            },
            Step::WriteItem => {
                let b = self.owner->PushRoom_b;
                let item = self.owner->PushRoom_item;
                Deque {
                    slots: self.slots.update(b % self.cap, Some(item)),
                    owner: Owner::PushWritten { b, item },
                    ..self
                }
            },
            Step::RaiseBottom => {
                let b = self.owner->PushWritten_b;
                let item = self.owner->PushWritten_item;
                let id = self.pushed.len() as int;
                Deque {
                    bottom: b + 1,
                    lim: b + 1,
                    pushed: self.pushed.push(item),
                    ids: self.ids.insert(b, id),
                    pos_of: self.pos_of.insert(id, b),
                    owner: Owner::Idle,
                    ..self
                }
            },
            Step::LowerBottom => Deque {
                bottom: self.bottom - 1,
                owner: Owner::PopStored { b: self.bottom - 1 },
                ..self
            },
            Step::CompareTop => {
                let b = self.owner->PopStored_b;
                if self.top > b {
                    Deque { owner: Owner::PopNothing { b }, ..self }
                } else if self.top < b {
                    let id = self.ids[b];
                    Deque {
                        lim: b,
                        taken: self.taken.insert(id, self.pushed[id]),
                        owner: Owner::PopMine { b, id },
                        ..self
                    }
                } else {
                    Deque { owner: Owner::PopLast { b }, ..self }
                }
            },
            Step::RestoreBottom => Deque {
                bottom: self.owner->PopNothing_b + 1,
                owner: Owner::Idle,
                ..self
            },
            Step::ReadMine => Deque { owner: Owner::Idle, ..self },
            Step::ReadLast => {
                let b = self.owner->PopLast_b;
                Deque {
                    owner: Owner::PopLastRead { b, item: self.slot(b)->Some_0 },
                    ..self
                }
            },
            Step::WinLast => {
                let b = self.owner->PopLastRead_b;
                if self.top == b {
                    Deque { owner: Owner::PopNothing { b }, ..self.top_taken() }
                } else {
                    Deque { owner: Owner::PopNothing { b }, ..self }
                }
            },
            Step::LoadTop { who } => self.with_thief(who, Thief::Top { t: self.top }),
            Step::LoadBottom { who } => {
                let t = self.thief(who)->Top_t;
                if t >= self.bottom {
                    self.with_thief(who, Thief::Idle)
                } else {
                    self.with_thief(who, Thief::Seen { t })
                }
            },
            Step::ReadSlot { who } => {
                let t = self.thief(who)->Seen_t;
                self.with_thief(who, Thief::Read { t, item: self.slot(t)->Some_0 })
            },
            Step::MoveTop { who } => {
                let t = self.thief(who)->Read_t;
                if self.top == t {
                    self.top_taken().with_thief(who, Thief::Idle)
                } else {
                    self.with_thief(who, Thief::Idle)
                }
            },
        }
    }

    /// The item of a position in the deque is in its slot, was pushed, and
    /// has not been taken.
    pub open spec fn position_ok(self, p: int) -> bool {
        self.live(p) ==> {
            let id = self.ids[p];
            &&& self.ids.dom().contains(p)
            &&& 0 <= id < self.pushed.len()
            &&& self.slot(p) == Some(self.pushed[id])
            &&& !self.taken.dom().contains(id)
            &&& self.pos_of.dom().contains(id)
            &&& self.pos_of[id] == p
        }
    }

    /// An item that was pushed has been taken or is in the deque.
    pub open spec fn item_ok(self, id: int) -> bool {
        &&& self.taken.dom().contains(id) ==> 0 <= id < self.pushed.len() && self.taken[id]
            == self.pushed[id]
        &&& 0 <= id < self.pushed.len() && !self.taken.dom().contains(id) ==> {
            &&& self.pos_of.dom().contains(id)
            &&& self.live(self.pos_of[id])
            &&& self.ids[self.pos_of[id]] == id
        }
    }

    /// What the owner knows is true.
    pub open spec fn owner_ok(self) -> bool {
        match self.owner {
            Owner::Idle => self.bottom == self.lim,
            Owner::PushLoaded { b, .. } => b == self.bottom == self.lim,
            Owner::PushRoom { b, .. } => b == self.bottom == self.lim && b - self.top < self.cap,
            Owner::PushWritten { b, item } => {
                &&& b == self.bottom == self.lim
                &&& b - self.top < self.cap
                &&& self.slot(b) == Some(item)
            },
            Owner::PopStored { b } => b == self.bottom == self.lim - 1,
            Owner::PopNothing { b } => b == self.bottom == self.lim - 1 && self.top == self.lim,
            Owner::PopMine { b, id } => {
                &&& b == self.bottom == self.lim
                &&& self.top <= b
                &&& b - self.top < self.cap
                &&& self.taken.dom().contains(id)
                &&& self.slot(b) == Some(self.taken[id])
            },
            Owner::PopLast { b } => b == self.bottom == self.lim - 1 && self.top >= b,
            Owner::PopLastRead { b, item } => {
                &&& b == self.bottom == self.lim - 1
                &&& self.top >= b
                &&& self.top == b ==> item == self.pushed[self.ids[b]]
            },
        }
    }

    /// What a thief knows is true.
    pub open spec fn thief_ok(self, who: int) -> bool {
        match self.thief(who) {
            Thief::Idle => true,
            Thief::Top { t } => 0 <= t <= self.top,
            Thief::Seen { t } => 0 <= t <= self.top && (t == self.top ==> t < self.lim),
            Thief::Read { t, item } => {
                &&& 0 <= t <= self.top
                &&& t == self.top ==> t < self.lim && item == self.pushed[self.ids[t]]
            },
        }
    }

    /// What holds between any two steps.
    pub open spec fn consistent(self) -> bool {
        &&& self.cap >= 1
        &&& self.slots.len() == self.cap
        &&& 0 <= self.top <= self.lim <= self.top + self.cap
        &&& forall|p: int| #[trigger] self.position_ok(p)
        &&& forall|id: int| #[trigger] self.item_ok(id)
        &&& self.owner_ok()
        &&& forall|who: int| #[trigger] self.thief_ok(who)
    }

    /// A deque that nobody has used.
    pub open spec fn started(self) -> bool {
        &&& self.cap >= 1
        &&& self.slots.len() == self.cap
        &&& self.top == 0
        &&& self.bottom == 0
        &&& self.lim == 0
        &&& self.owner is Idle
        &&& self.thieves == Map::<int, Thief<T>>::empty()
        &&& self.pushed == Seq::<T>::empty()
        &&& self.taken == Map::<int, T>::empty()
    }
}

/// The protocol starts consistent.
pub proof fn law_start_is_consistent<T>(d: Deque<T>)
    requires
        d.started(),
    ensures
        d.consistent(),
{
    assert forall|p: int| #[trigger] d.position_ok(p) by {}
    assert forall|id: int| #[trigger] d.item_ok(id) by {}
    assert forall|who: int| #[trigger] d.thief_ok(who) by {}
}

/// Writing beyond the items in the deque disturbs none of them.
proof fn lemma_other_slot<T>(d: Deque<T>, b: int, p: int)
    requires
        d.cap >= 1,
        d.live(p),
        d.lim == b,
        b - d.top < d.cap,
    ensures
        p % d.cap != b % d.cap,
{
    if p % d.cap == b % d.cap {
        lemma_slots_distinct(p, b, d.cap);
    }
}

/// What follows from a step of the owner that leaves the deque's items, its
/// top and its slots alone.
proof fn lemma_owner_moves<T>(d: Deque<T>, q: Deque<T>)
    requires
        d.consistent(),
        q == (Deque { bottom: q.bottom, owner: q.owner, ..d }),
        q.owner_ok(),
    ensures
        q.consistent(),
{
    assert forall|p: int| #[trigger] q.position_ok(p) by {
        assert(d.position_ok(p));
    }
    assert forall|id: int| #[trigger] q.item_ok(id) by {
        assert(d.item_ok(id));
    }
    assert forall|who: int| #[trigger] q.thief_ok(who) by {
        assert(d.thief_ok(who));
    }
}

/// What follows from a step of a thief that changes only what it knows.
proof fn lemma_thief_moves<T>(d: Deque<T>, who: int, th: Thief<T>)
    requires
        d.consistent(),
        d.with_thief(who, th).thief_ok(who),
    ensures
        d.with_thief(who, th).consistent(),
{
    let q = d.with_thief(who, th);
    assert forall|p: int| #[trigger] q.position_ok(p) by {
        assert(d.position_ok(p));
    }
    assert forall|id: int| #[trigger] q.item_ok(id) by {
        assert(d.item_ok(id));
    }
    assert forall|u: int| #[trigger] q.thief_ok(u) by {
        assert(d.thief_ok(u));
    }
}

proof fn lemma_write<T>(d: Deque<T>)
    requires
        d.consistent(),
        d.owner is PushRoom,
    ensures
        d.after(Step::WriteItem).consistent(),
{
    let q = d.after(Step::WriteItem);
    let b = d.owner->PushRoom_b;
    vstd::arithmetic::div_mod::lemma_mod_bound(b, d.cap);
    assert forall|p: int| #[trigger] q.position_ok(p) by {
        assert(d.position_ok(p));
        if d.live(p) {
            vstd::arithmetic::div_mod::lemma_mod_bound(p, d.cap);
            lemma_other_slot(d, b, p);
        }
    }
    assert forall|id: int| #[trigger] q.item_ok(id) by {
        assert(d.item_ok(id));
    }
    assert forall|who: int| #[trigger] q.thief_ok(who) by {
        assert(d.thief_ok(who));
    }
}

proof fn lemma_raise<T>(d: Deque<T>)
    requires
        d.consistent(),
        d.owner is PushWritten,
    ensures
        d.after(Step::RaiseBottom).consistent(),
{
    let q = d.after(Step::RaiseBottom);
    let b = d.owner->PushWritten_b;
    let id = d.pushed.len() as int;
    assert(d.item_ok(id));
    assert forall|p: int| #[trigger] q.position_ok(p) by {
        assert(d.position_ok(p));
    }
    assert forall|j: int| #[trigger] q.item_ok(j) by {
        assert(d.item_ok(j));
    }
    assert forall|who: int| #[trigger] q.thief_ok(who) by {
        assert(d.thief_ok(who));
        assert(d.position_ok(d.top));
    }
}

proof fn lemma_compare<T>(d: Deque<T>)
    requires
        d.consistent(),
        d.owner is PopStored,
    ensures
        d.after(Step::CompareTop).consistent(),
{
    let q = d.after(Step::CompareTop);
    let b = d.owner->PopStored_b;
    if d.top < b {
        assert(d.position_ok(b));
        let mine = d.ids[b];
        assert forall|p: int| #[trigger] q.position_ok(p) by {
            assert(d.position_ok(p));
        }
        assert forall|id: int| #[trigger] q.item_ok(id) by {
            assert(d.item_ok(id));
        }
        assert forall|who: int| #[trigger] q.thief_ok(who) by {
            assert(d.thief_ok(who));
        }
    } else {
        lemma_owner_moves(d, q);
    }
}

/// The item at the top leaves, taken by a thief or by the owner.
proof fn lemma_top_leaves<T>(d: Deque<T>, q: Deque<T>)
    requires
        d.consistent(),
        d.top < d.lim,
        q == (Deque { owner: q.owner, thieves: q.thieves, ..d.top_taken() }),
        q.owner_ok(),
        forall|who: int|
            #![trigger q.thief(who)]
            q.thief(who) is Idle || q.thief(who) == d.thief(who),
    ensures
        q.consistent(),
{
    assert(d.position_ok(d.top));
    assert forall|p: int| #[trigger] q.position_ok(p) by {
        assert(d.position_ok(p));
    }
    assert forall|id: int| #[trigger] q.item_ok(id) by {
        assert(d.item_ok(id));
    }
    assert forall|who: int| #[trigger] q.thief_ok(who) by {
        assert(d.thief_ok(who));
        assert(q.thief(who) is Idle || q.thief(who) == d.thief(who));
    }
}

/// Every step of the owner and of every thief keeps the protocol consistent.
pub proof fn law_steps_keep_consistency<T>(d: Deque<T>, step: Step<T>)
    requires
        d.consistent(),
        d.enabled(step),
    ensures
        d.after(step).consistent(),
{
    let q = d.after(step);
    match step {
        Step::WriteItem => lemma_write(d),
        Step::RaiseBottom => lemma_raise(d),
        Step::CompareTop => lemma_compare(d),
        Step::WinLast => {
            let b = d.owner->PopLastRead_b;
            if d.top == b {
                lemma_top_leaves(d, q);
            } else {
                lemma_owner_moves(d, q);
            }
        },
        Step::ReadLast => {
            let b = d.owner->PopLast_b;
            assert(d.position_ok(b));
            lemma_owner_moves(d, q);
        },
        Step::StartPush { .. } => lemma_owner_moves(d, q),
        Step::CheckRoom => lemma_owner_moves(d, q),
        Step::LowerBottom => lemma_owner_moves(d, q),
        Step::RestoreBottom => lemma_owner_moves(d, q),
        Step::ReadMine => lemma_owner_moves(d, q),
        Step::LoadTop { who } => lemma_thief_moves(d, who, Thief::Top { t: d.top }),
        Step::LoadBottom { who } => {
            assert(d.thief_ok(who));
            let t = d.thief(who)->Top_t;
            if t >= d.bottom {
                lemma_thief_moves(d, who, Thief::Idle);
            } else {
                assert(d.bottom <= d.lim);
                lemma_thief_moves(d, who, Thief::Seen { t });
            }
        },
        Step::ReadSlot { who } => {
            assert(d.thief_ok(who));
            let t = d.thief(who)->Seen_t;
            assert(d.position_ok(t));
            lemma_thief_moves(d, who, Thief::Read { t, item: d.slot(t)->Some_0 });
        },
        Step::MoveTop { who } => {
            assert(d.thief_ok(who));
            let t = d.thief(who)->Read_t;
            if d.top == t {
                assert(d.position_ok(t));
                lemma_top_leaves(d, q);
            } else {
                lemma_thief_moves(d, who, Thief::Idle);
            }
        },
    }
}

/// A thief that moves the top holds the oldest item of the deque, and nobody
/// had taken it.
pub proof fn law_thief_takes_the_oldest<T>(d: Deque<T>, who: int)
    requires
        d.consistent(),
        d.thief(who) matches Thief::Read { t, item } && t == d.top,
    ensures
        ({
            let q = d.after(Step::MoveTop { who });
            let id = d.ids[d.top];
            &&& d.live(d.top)
            &&& !d.taken.dom().contains(id)
            &&& d.thief(who)->Read_item == d.pushed[id]
            &&& q.taken == d.taken.insert(id, d.pushed[id])
        }),
{
    assert(d.thief_ok(who));
    assert(d.position_ok(d.top));
}

/// A thief that loses the race takes nothing.
pub proof fn law_loser_takes_nothing<T>(d: Deque<T>, who: int)
    requires
        d.thief(who) matches Thief::Read { t, item } && t != d.top,
    ensures
        d.after(Step::MoveTop { who }).taken == d.taken,
        d.after(Step::MoveTop { who }).top == d.top,
{
}

/// The owner takes the newest item of the deque, and nobody had taken it: at
/// once if it is not the last, by moving the top if it is.
pub proof fn law_owner_takes_the_newest<T>(d: Deque<T>)
    requires
        d.consistent(),
        (d.owner is PopStored && d.top < d.lim - 1) || (d.owner is PopLastRead && d.top == d.lim
            - 1),
    ensures
        ({
            let q = if d.owner is PopStored {
                d.after(Step::CompareTop)
            } else {
                d.after(Step::WinLast)
            };
            let id = d.ids[d.lim - 1];
            &&& d.live(d.lim - 1)
            &&& !d.taken.dom().contains(id)
            &&& q.taken == d.taken.insert(id, d.pushed[id])
            &&& d.owner is PopLastRead ==> d.owner->PopLastRead_item == d.pushed[id]
        }),
{
    assert(d.position_ok(d.lim - 1));
}

/// What the owner reads after it took an item is that item.
pub proof fn law_owner_reads_its_item<T>(d: Deque<T>)
    requires
        d.consistent(),
        d.owner is PopMine,
    ensures
        d.slot(d.owner->PopMine_b) == Some(d.pushed[d.owner->PopMine_id]),
{
    assert(d.item_ok(d.owner->PopMine_id));
}

/// No item is lost: one that was pushed has been taken, or is in the deque at
/// one position.
pub proof fn law_no_item_is_lost<T>(d: Deque<T>, id: int)
    requires
        d.consistent(),
        0 <= id < d.pushed.len(),
    ensures
        d.taken.dom().contains(id) <==> !(exists|p: int| #[trigger] d.live(p) && d.ids[p] == id),
        d.taken.dom().contains(id) ==> d.taken[id] == d.pushed[id],
        forall|p: int, r: int|
            #[trigger] d.live(p) && #[trigger] d.live(r) && d.ids[p] == id && d.ids[r] == id ==> p
                == r,
{
    assert(d.item_ok(id));
    if !d.taken.dom().contains(id) {
        assert(d.live(d.pos_of[id]));
    }
    assert forall|p: int| #[trigger] d.live(p) && d.ids[p] == id implies d.pos_of[id] == p
        && !d.taken.dom().contains(id) by {
        assert(d.position_ok(p));
    }
}

/// The deque never holds more items than it has slots.
pub proof fn law_bounded<T>(d: Deque<T>)
    requires
        d.consistent(),
    ensures
        d.lim - d.top <= d.cap,
{
}

/// Only the last step of a push adds an item, and it adds it at the bottom.
pub proof fn law_push_adds_at_the_bottom<T>(d: Deque<T>)
    requires
        d.consistent(),
        d.owner is PushWritten,
    ensures
        ({
            let q = d.after(Step::RaiseBottom);
            &&& q.lim == d.lim + 1
            &&& q.pushed == d.pushed.push(d.owner->PushWritten_item)
            &&& q.ids[d.lim] == d.pushed.len()
            &&& q.taken == d.taken
        }),
{
}

impl<T> Deque<T> {
    /// The items in the deque, oldest first.
    pub open spec fn contents(self) -> Seq<T> {
        Seq::new((self.lim - self.top) as nat, |i: int| self.pushed[self.ids[self.top + i]])
    }
}

/// A push that nobody interrupts appends its item, or finds the deque full.
pub proof fn law_uninterrupted_push<T>(d: Deque<T>, item: T)
    requires
        d.consistent(),
        d.owner is Idle,
    ensures
        ({
            let looked = d.after(Step::StartPush { item }).after(Step::CheckRoom);
            let ended = looked.after(Step::WriteItem).after(Step::RaiseBottom);
            if d.contents().len() < d.cap {
                &&& looked.owner is PushRoom
                &&& ended.contents() == d.contents().push(item)
                &&& ended.owner is Idle
            } else {
                &&& looked.owner is Idle
                &&& looked.contents() == d.contents()
            }
        }),
{
    let looked = d.after(Step::StartPush { item }).after(Step::CheckRoom);
    let ended = looked.after(Step::WriteItem).after(Step::RaiseBottom);
    if d.contents().len() < d.cap {
        assert forall|i: int| 0 <= i < d.contents().len() implies #[trigger] ended.contents()[i]
            == d.contents()[i] by {
            assert(d.position_ok(d.top + i));
        }
        assert(ended.contents() =~= d.contents().push(item));
    } else {
        assert(looked.contents() =~= d.contents());
    }
}

/// A pop that nobody interrupts takes the newest item, or finds the deque
/// empty.
pub proof fn law_uninterrupted_pop<T>(d: Deque<T>)
    requires
        d.consistent(),
        d.owner is Idle,
    ensures
        ({
            let c = d.contents();
            let looked = d.after(Step::LowerBottom).after(Step::CompareTop);
            if c.len() == 0 {
                let ended = looked.after(Step::RestoreBottom);
                &&& looked.owner is PopNothing
                &&& ended.contents() == c
                &&& ended.owner is Idle
            } else if c.len() > 1 {
                let ended = looked.after(Step::ReadMine);
                &&& looked.owner is PopMine
                &&& looked.slot(looked.owner->PopMine_b) == Some(c.last())
                &&& ended.contents() == c.drop_last()
                &&& ended.owner is Idle
            } else {
                let read = looked.after(Step::ReadLast);
                let ended = read.after(Step::WinLast).after(Step::RestoreBottom);
                &&& looked.owner is PopLast
                &&& read.owner is PopLastRead
                &&& read.owner->PopLastRead_item == c.last()
                &&& ended.contents() == c.drop_last()
                &&& ended.owner is Idle
            }
        }),
{
    let c = d.contents();
    let looked = d.after(Step::LowerBottom).after(Step::CompareTop);
    if c.len() == 0 {
        assert(looked.after(Step::RestoreBottom).contents() =~= c);
    } else {
        assert(d.position_ok(d.lim - 1));
        if c.len() > 1 {
            assert(looked.after(Step::ReadMine).contents() =~= c.drop_last());
        } else {
            let read = looked.after(Step::ReadLast);
            let won = read.after(Step::WinLast);
            assert(won.after(Step::RestoreBottom).contents() =~= c.drop_last());
        }
    }
}

/// A steal that nobody interrupts takes the oldest item, or finds the deque
/// empty.
pub proof fn law_uninterrupted_steal<T>(d: Deque<T>, who: int)
    requires
        d.consistent(),
        d.owner is Idle,
        d.thief(who) is Idle,
    ensures
        ({
            let c = d.contents();
            let looked = d.after(Step::LoadTop { who }).after(Step::LoadBottom { who });
            let read = looked.after(Step::ReadSlot { who });
            let ended = read.after(Step::MoveTop { who });
            if c.len() == 0 {
                &&& looked.thief(who) is Idle
                &&& looked.contents() == c
            } else {
                &&& looked.thief(who) is Seen
                &&& read.thief(who) == (Thief::Read { t: d.top, item: c[0] })
                &&& ended.contents() == c.subrange(1, c.len() as int)
                &&& ended.thief(who) is Idle
            }
        }),
{
    let c = d.contents();
    let s1 = d.after(Step::LoadTop { who });
    assert(s1.thief(who) == (Thief::<T>::Top { t: d.top }));
    let looked = s1.after(Step::LoadBottom { who });
    if c.len() == 0 {
        assert(looked.contents() =~= c);
    } else {
        assert(d.position_ok(d.top));
        assert(looked.thief(who) == (Thief::<T>::Seen { t: d.top }));
        let read = looked.after(Step::ReadSlot { who });
        assert(read.thief(who) == (Thief::Read { t: d.top, item: c[0] }));
        let ended = read.after(Step::MoveTop { who });
        assert(ended.contents() =~= c.subrange(1, c.len() as int));
    }
}

} // verus!
