//! Many-producer rings composed of single-producer rings.
//!
//! Each producer has a ring of its own towards each consumer. A consumer
//! walks its rings in turn, starting behind the one it last took from; a
//! producer spreads its items over the consumers the same way. The items of
//! one producer reach a consumer in the order they were pushed; items of
//! different producers may overtake each other.

use crate::flynnel_ring_spsc::{new_spsc, Consumer, Producer, SpscPopResult, SpscPushResult};
use crate::math::rounded_slot_count;
use vstd::prelude::*;

verus! {

/// Outcome of a composed push.
#[derive(Debug, PartialEq, Eq)]
pub enum ComposedPushResult<T> {
    /// Item enqueued on the producer's ring.
    Pushed,
    /// The producer's ring is full; the item comes back.
    Full(T),
}

impl<T> ComposedPushResult<T> {
    /// The rejected item, if any.
    pub fn ok(self) -> (res: Option<T>)
        ensures
            res == match self {
                ComposedPushResult::Pushed => None,
                ComposedPushResult::Full(t) => Some(t),
            },
    {
        match self {
            ComposedPushResult::Pushed => None,
            ComposedPushResult::Full(t) => Some(t),
        }
    }

    /// Whether the push succeeded.
    pub fn is_ok(&self) -> (res: bool)
        ensures
            res == (self is Pushed),
    {
        matches!(self, ComposedPushResult::Pushed)
    }
}

/// Outcome of a composed pop.
#[derive(Debug, PartialEq, Eq)]
pub enum ComposedPopResult<T> {
    /// Got an item of one of the rings.
    Popped(T),
    /// Every ring is empty.
    Empty,
}

/// Producers and their only consumer.
pub struct ComposedMpsc<T> {
    /// One handle per producer.
    pub producers: Vec<Producer>,
    /// The consumer.
    pub consumer: ComposedMpscConsumer<T>,
}

/// The only consumer: one ring per producer and a cursor.
pub struct ComposedMpscConsumer<T> {
    rings: Vec<Consumer<T>>,
    cursor: usize,
}

/// The ring reached after `k` steps from `start` on a circle of `n` rings.
pub open spec fn nth_ring(start: int, k: int, n: int) -> int {
    (start + k) % n
}

/// Number of steps from ring `from` forward to ring `to` on a circle of `n`.
pub open spec fn steps_to(from: int, to: int, n: int) -> int {
    (to - from) % n
}

/// `k` is the number of empty rings that a walk from `start` skips before it
/// meets an item.
pub open spec fn first_nonempty<T>(rings: Seq<Seq<T>>, start: int, k: int) -> bool {
    &&& 0 <= k < rings.len()
    &&& rings[nth_ring(start, k, rings.len() as int)].len() > 0
    &&& forall|j: int|
        0 <= j < k ==> (#[trigger] rings[nth_ring(start, j, rings.len() as int)]).len() == 0
}

/// Every ring is empty.
pub open spec fn all_empty<T>(rings: Seq<Seq<T>>) -> bool {
    forall|i: int| 0 <= i < rings.len() ==> (#[trigger] rings[i]).len() == 0
}

/// The outcome of taking one item from the first non-empty ring of a walk
/// from `start`.
pub open spec fn walk_pop<T>(
    before: Seq<Seq<T>>,
    start: int,
    after: Seq<Seq<T>>,
    cursor: int,
    taken: Option<T>,
) -> bool {
    let n = before.len() as int;
    match taken {
        Some(item) => exists|k: int|
            #![trigger nth_ring(start, k, n)]
            {
                let i = nth_ring(start, k, n);
                &&& first_nonempty(before, start, k)
                &&& item == before[i].first()
                &&& after == before.update(i, before[i].drop_first())
                &&& cursor == (i + 1) % n
            },
        None => {
            &&& all_empty(before)
            &&& after == before
            &&& cursor == if n == 0 { start } else { (start + 1) % n }
        },
    }
}

/// A walk that meets no item has seen every ring.
proof fn lemma_walk_covers<T>(rings: Seq<Seq<T>>, start: int)
    requires
        0 <= start < rings.len(),
        forall|j: int|
            0 <= j < rings.len() ==> (#[trigger] rings[nth_ring(start, j, rings.len() as int)]).len()
                == 0,
    ensures
        all_empty(rings),
{
    let n = rings.len() as int;
    assert forall|i: int| 0 <= i < n implies (#[trigger] rings[i]).len() == 0 by {
        let k = if i >= start { i - start } else { i - start + n };
        assert(nth_ring(start, k, n) == i) by {
            if i >= start {
                vstd::arithmetic::div_mod::lemma_small_mod(i as nat, n as nat);
            } else {
                vstd::arithmetic::div_mod::lemma_mod_add_multiples_vanish(i, n);
                vstd::arithmetic::div_mod::lemma_small_mod(i as nat, n as nat);
            }
        }
        assert(rings[nth_ring(start, k, n)].len() == 0);
    }
}

/// Contents of a list of rings.
pub open spec fn contents<T>(rings: Seq<Consumer<T>>) -> Seq<Seq<T>> {
    Seq::new(rings.len(), |i: int| rings[i]@)
}

/// Slot counts of a list of rings.
pub open spec fn slot_counts<T>(rings: Seq<Consumer<T>>) -> Seq<int> {
    Seq::new(rings.len(), |i: int| rings[i].slot_count())
}

/// Every ring of a list is well formed.
pub open spec fn rings_wf<T>(rings: Seq<Consumer<T>>) -> bool {
    forall|i: int| 0 <= i < rings.len() ==> (#[trigger] rings[i]).wf()
}

/// Takes one item from the first non-empty ring of a walk from the cursor,
/// and moves the cursor past that ring; past one ring when all are empty.
fn pop_round_robin<T>(rings: &mut Vec<Consumer<T>>, cursor: &mut usize) -> (res: Option<T>)
    requires
        rings_wf(old(rings)@),
        old(rings)@.len() > 0 ==> *old(cursor) < old(rings)@.len(),
    ensures
        rings_wf(final(rings)@),
        final(rings)@.len() == old(rings)@.len(),
        slot_counts(final(rings)@) == slot_counts(old(rings)@),
        old(rings)@.len() > 0 ==> *final(cursor) < old(rings)@.len(),
        walk_pop(
            contents(old(rings)@),
            *old(cursor) as int,
            contents(final(rings)@),
            *final(cursor) as int,
            res,
        ),
{
    let n: usize = rings.len();
    if n == 0 {
        return None;
    }
    let start: usize = *cursor;
    let mut idx: usize = start;
    let mut offset: usize = 0;
    let ghost before = contents(rings@);
    proof {
        vstd::arithmetic::div_mod::lemma_small_mod(start as nat, n as nat);
    }
    while offset < n
        invariant
            n == rings@.len(),
            n > 0,
            start < n,
            offset <= n,
            *cursor == start,
            start == *old(cursor),
            idx < n,
            idx == nth_ring(start as int, offset as int, n as int),
            rings@.len() == old(rings)@.len(),
            rings_wf(rings@),
            slot_counts(rings@) == slot_counts(old(rings)@),
            contents(rings@) == before,
            before == contents(old(rings)@),
            forall|j: int|
                0 <= j < offset ==> (#[trigger] before[nth_ring(start as int, j, n as int)]).len()
                    == 0,
        decreases n - offset,
    {
        assert(before[idx as int] == rings@[idx as int]@);
        match rings[idx].pop() {
            SpscPopResult::Popped(item) => {
                *cursor = if idx + 1 == n { 0 } else { idx + 1 };
                proof {
                    assert(contents(rings@) =~= before.update(
                        idx as int,
                        before[idx as int].drop_first(),
                    ));
                    assert(slot_counts(rings@) =~= slot_counts(old(rings)@));
                    assert(first_nonempty(before, start as int, offset as int));
                    if idx + 1 < n {
                        vstd::arithmetic::div_mod::lemma_small_mod((idx + 1) as nat, n as nat);
                    }
                    assert(*cursor == (nth_ring(start as int, offset as int, n as int) + 1) % (
                    n as int));
                }
                return Some(item);
            },
            SpscPopResult::Empty => {
                proof {
                    assert(contents(rings@) =~= before);
                    assert(slot_counts(rings@) =~= slot_counts(old(rings)@));
                    lemma_next_ring(start as int, offset as int, n as int);
                }
                idx = if idx + 1 == n { 0 } else { idx + 1 };
                offset += 1;
            },
        }
    }
    proof {
        lemma_walk_covers(before, start as int);
        vstd::arithmetic::div_mod::lemma_mod_self_0(n as int);
        if start + 1 < n {
            vstd::arithmetic::div_mod::lemma_small_mod((start + 1) as nat, n as nat);
        }
    }
    *cursor = if start + 1 == n { 0 } else { start + 1 };
    None
}

/// One more step leads to the next ring of the circle.
proof fn lemma_next_ring(start: int, k: int, n: int)
    requires
        n > 0,
    ensures
        nth_ring(start, k + 1, n) == if nth_ring(start, k, n) + 1 == n {
            0
        } else {
            nth_ring(start, k, n) + 1
        },
{
    vstd::arithmetic::div_mod::lemma_add_mod_noop(start + k, 1, n);
    vstd::arithmetic::div_mod::lemma_mod_self_0(n);
    let r = (start + k) % n;
    if n > 1 {
        vstd::arithmetic::div_mod::lemma_small_mod(1, n as nat);
        if r + 1 < n {
            vstd::arithmetic::div_mod::lemma_small_mod((r + 1) as nat, n as nat);
        }
    }
}

impl<T> ComposedMpscConsumer<T> {
    /// What the invariant says of the rings.
    pub proof fn lemma_rings(&self)
        ensures
            self.slot_counts().len() == self@.len(),
            self.wf() && self@.len() > 0 ==> 0 <= self.next_ring() < self@.len(),
    {
    }

    /// Contents of each producer's ring, oldest item first.
    pub closed spec fn view(&self) -> Seq<Seq<T>> {
        contents(self.rings@)
    }

    /// Slot count of each producer's ring.
    pub closed spec fn slot_counts(&self) -> Seq<int> {
        slot_counts(self.rings@)
    }

    /// Ring that the next pop looks at first.
    pub closed spec fn next_ring(&self) -> int {
        self.cursor as int
    }

    /// Representation invariant.
    pub closed spec fn wf(&self) -> bool {
        &&& rings_wf(self.rings@)
        &&& self.rings@.len() > 0 ==> self.cursor < self.rings@.len()
    }

    /// Takes one item of the first non-empty ring behind the cursor.
    pub fn pop(&mut self) -> (res: ComposedPopResult<T>)
        requires
            old(self).wf(),
        ensures
            final(self).wf(),
            final(self)@.len() == old(self)@.len(),
            final(self).slot_counts() == old(self).slot_counts(),
            final(self).slot_counts().len() == final(self)@.len(),
            !(res is Empty) ==> res is Popped,
            walk_pop(
                old(self)@,
                old(self).next_ring(),
                final(self)@,
                final(self).next_ring(),
                match res {
                    ComposedPopResult::Popped(item) => Some(item),
                    ComposedPopResult::Empty => None,
                },
            ),
    {
        match pop_round_robin(&mut self.rings, &mut self.cursor) {
            Some(item) => ComposedPopResult::Popped(item),
            None => ComposedPopResult::Empty,
        }
    }

    /// Number of rings, one per producer.
    pub fn ring_count(&self) -> (res: usize)
        ensures
            res == self@.len(),
    {
        self.rings.len()
    }

    /// The ring of producer `i`, for its handle to push to.
    pub fn ring_mut(&mut self, i: usize) -> (res: &mut Consumer<T>)
        requires
            old(self).wf(),
            i < old(self)@.len(),
        ensures
            (*res).wf(),
            (*res)@ == old(self)@[i as int],
            (*res).slot_count() == old(self).slot_counts()[i as int],
            (*final(res)).wf() ==> final(self).wf(),
            final(self).slot_counts().len() == final(self)@.len(),
            final(self).next_ring() == old(self).next_ring(),
            final(self)@ == old(self)@.update(i as int, (*final(res))@),
            final(self).slot_counts() == old(self).slot_counts().update(
                i as int,
                (*final(res)).slot_count(),
            ),
    {
        &mut self.rings[i]
    }
}

impl Producer {
    /// Appends an item to the producer's ring.
    pub fn push_composed<T>(&self, ring: &mut Consumer<T>, item: T) -> (res: ComposedPushResult<T>)
        requires
            old(ring).wf(),
        ensures
            final(ring).wf(),
            final(ring).slot_count() == old(ring).slot_count(),
            old(ring)@.len() < old(ring).slot_count() ==> {
                &&& res is Pushed
                &&& final(ring)@ == old(ring)@.push(item)
            },
            old(ring)@.len() >= old(ring).slot_count() ==> {
                &&& res == ComposedPushResult::Full(item)
                &&& final(ring)@ == old(ring)@
            },
    {
        match self.push(ring, item) {
            SpscPushResult::Pushed => ComposedPushResult::Pushed,
            SpscPushResult::Full(t) => ComposedPushResult::Full(t),
        }
    }
}

/// `n_producers` producers (at least one), each with a ring of at least
/// `capacity_per_producer` slots, and their consumer.
pub fn new_composed_mpsc<T>(n_producers: usize, capacity_per_producer: usize) -> (res: ComposedMpsc<T>)
    requires
        capacity_per_producer <= usize::MAX / 2 + 1,
    ensures
        res.consumer.wf(),
        res.consumer.next_ring() == 0,
        res.producers@.len() == if n_producers == 0 { 1 } else { n_producers as int },
        res.consumer@.len() == res.producers@.len(),
        res.consumer.slot_counts().len() == res.consumer@.len(),
        all_empty(res.consumer@),
        forall|i: int|
            0 <= i < res.consumer@.len() ==> rounded_slot_count(
                capacity_per_producer as int,
                #[trigger] res.consumer.slot_counts()[i],
            ),
{
    let n: usize = if n_producers == 0 { 1 } else { n_producers };
    let mut producers: Vec<Producer> = Vec::with_capacity(n);
    let mut rings: Vec<Consumer<T>> = Vec::with_capacity(n);
    let mut i: usize = 0;
    while i < n
        invariant
            i <= n,
            capacity_per_producer <= usize::MAX / 2 + 1,
            producers@.len() == i,
            rings@.len() == i,
            rings_wf(rings@),
            forall|j: int| 0 <= j < i ==> (#[trigger] rings@[j])@.len() == 0,
            forall|j: int|
                0 <= j < i ==> rounded_slot_count(
                    capacity_per_producer as int,
                    (#[trigger] rings@[j]).slot_count(),
                ),
        decreases n - i,
    {
        let (p, c) = new_spsc::<T>(capacity_per_producer);
        producers.push(p);
        rings.push(c);
        i += 1;
    }
    ComposedMpsc { producers, consumer: ComposedMpscConsumer { rings, cursor: 0 } }
}

/// A pop is determined by the contents and the cursor: it serves the first
/// non-empty ring of the walk.
pub proof fn law_pop_is_determined<T>(
    before: Seq<Seq<T>>,
    start: int,
    after: Seq<Seq<T>>,
    cursor: int,
    taken: Option<T>,
    k: int,
)
    requires
        walk_pop(before, start, after, cursor, taken),
        first_nonempty(before, start, k),
        0 <= start < before.len(),
    ensures
        ({
            let n = before.len() as int;
            let i = nth_ring(start, k, n);
            &&& taken == Some(before[i].first())
            &&& after == before.update(i, before[i].drop_first())
            &&& cursor == (i + 1) % n
        }),
{
    let n = before.len() as int;
    vstd::arithmetic::div_mod::lemma_mod_bound(start + k, n);
    assert(before[nth_ring(start, k, n)].len() > 0);
    assert(taken is Some);
    let j = choose|j: int|
        #![trigger nth_ring(start, j, n)]
        {
            let i = nth_ring(start, j, n);
            &&& first_nonempty(before, start, j)
            &&& taken == Some(before[i].first())
            &&& after == before.update(i, before[i].drop_first())
            &&& cursor == (i + 1) % n
        };
    if j < k {
        assert(before[nth_ring(start, j, n)].len() == 0);
    }
    if k < j {
        assert(before[nth_ring(start, k, n)].len() == 0);
    }
}

/// The items of one producer leave in the order they were pushed: a pop takes
/// the oldest item of one ring and leaves every other ring alone.
pub proof fn law_per_producer_fifo<T>(
    before: Seq<Seq<T>>,
    start: int,
    after: Seq<Seq<T>>,
    cursor: int,
    taken: Option<T>,
    ring: int,
)
    requires
        walk_pop(before, start, after, cursor, taken),
        0 <= ring < before.len(),
    ensures
        after.len() == before.len(),
        after[ring] == before[ring] || {
            &&& before[ring].len() > 0
            &&& taken == Some(before[ring].first())
            &&& after[ring] == before[ring].drop_first()
            &&& forall|other: int|
                0 <= other < before.len() && other != ring ==> #[trigger] after[other]
                    == before[other]
        },
        taken is None ==> after == before,
{
}

/// The pop took the oldest item of `ring`, or left it alone and brought the
/// cursor closer to it.
pub open spec fn served_or_nearer<T>(
    before: Seq<Seq<T>>,
    start: int,
    after: Seq<Seq<T>>,
    cursor: int,
    taken: Option<T>,
    ring: int,
) -> bool {
    if taken == Some(before[ring].first()) && after[ring] == before[ring].drop_first() {
        true
    } else {
        let n = before.len() as int;
        after[ring] == before[ring] && steps_to(cursor, ring, n) < steps_to(start, ring, n)
    }
}

/// No producer starves: while its ring holds items, each pop either takes its
/// oldest item or brings the cursor closer to it.
pub proof fn law_no_starvation<T>(
    before: Seq<Seq<T>>,
    start: int,
    after: Seq<Seq<T>>,
    cursor: int,
    taken: Option<T>,
    ring: int,
)
    requires
        walk_pop(before, start, after, cursor, taken),
        0 <= start < before.len(),
        0 <= ring < before.len(),
        before[ring].len() > 0,
    ensures
        taken is Some,
        served_or_nearer(before, start, after, cursor, taken, ring),
{
    let n = before.len() as int;
    assert(taken is Some);
    let k = choose|k: int|
        #![trigger nth_ring(start, k, n)]
        {
            let i = nth_ring(start, k, n);
            &&& first_nonempty(before, start, k)
            &&& taken == Some(before[i].first())
            &&& after == before.update(i, before[i].drop_first())
            &&& cursor == (i + 1) % n
        };
    let i = nth_ring(start, k, n);
    let d = steps_to(start, ring, n);
    lemma_steps(start, ring, n);
    if i != ring {
        assert(k < d) by {
            if d < k {
                assert(before[nth_ring(start, d, n)].len() == 0);
            } else if d == k {
            }
        }
        lemma_steps_shift(start, k, ring, n);
    }
}

/// Walking the distance to a ring leads to it.
proof fn lemma_steps(start: int, to: int, n: int)
    requires
        0 <= start < n,
        0 <= to < n,
    ensures
        0 <= steps_to(start, to, n) < n,
        nth_ring(start, steps_to(start, to, n), n) == to,
{
    if to >= start {
        vstd::arithmetic::div_mod::lemma_small_mod((to - start) as nat, n as nat);
        vstd::arithmetic::div_mod::lemma_small_mod(to as nat, n as nat);
    } else {
        vstd::arithmetic::div_mod::lemma_mod_add_multiples_vanish(to - start, n);
        vstd::arithmetic::div_mod::lemma_small_mod((to - start + n) as nat, n as nat);
        vstd::arithmetic::div_mod::lemma_mod_add_multiples_vanish(to, n);
        vstd::arithmetic::div_mod::lemma_small_mod(to as nat, n as nat);
    }
}

/// Starting behind the `k`-th ring of a walk, the distance to a later ring
/// shrinks by `k + 1`.
proof fn lemma_steps_shift(start: int, k: int, to: int, n: int)
    requires
        0 <= start < n,
        0 <= to < n,
        0 <= k < steps_to(start, to, n),
    ensures
        steps_to((nth_ring(start, k, n) + 1) % n, to, n) == steps_to(start, to, n) - k - 1,
{
    let d = steps_to(start, to, n);
    lemma_steps(start, to, n);
    let c = (nth_ring(start, k, n) + 1) % n;
    lemma_next_ring(start, k, n);
    assert(c == nth_ring(start, k + 1, n)) by {
        let r = nth_ring(start, k, n);
        if r + 1 == n {
            vstd::arithmetic::div_mod::lemma_mod_self_0(n);
        } else {
            vstd::arithmetic::div_mod::lemma_small_mod((r + 1) as nat, n as nat);
        }
    }
    vstd::arithmetic::div_mod::lemma_sub_mod_noop(start + d, start + k + 1, n);
    assert((to - c) % n == ((start + d) - (start + (k + 1))) % n);
    vstd::arithmetic::div_mod::lemma_small_mod((d - k - 1) as nat, n as nat);
}

/// Outcome of a grid push.
#[derive(Debug, PartialEq, Eq)]
pub enum GridPushResult<T> {
    /// Item enqueued on one of the producer's rings.
    Pushed,
    /// Every ring of the producer is full; the item comes back.
    Full(T),
}

impl<T> GridPushResult<T> {
    /// The rejected item, if any.
    pub fn ok(self) -> (res: Option<T>)
        ensures
            res == match self {
                GridPushResult::Pushed => None,
                GridPushResult::Full(t) => Some(t),
            },
    {
        match self {
            GridPushResult::Pushed => None,
            GridPushResult::Full(t) => Some(t),
        }
    }

    /// Whether the push succeeded.
    pub fn is_ok(&self) -> (res: bool)
        ensures
            res == (self is Pushed),
    {
        matches!(self, GridPushResult::Pushed)
    }
}

/// Outcome of a grid pop.
#[derive(Debug, PartialEq, Eq)]
pub enum GridPopResult<T> {
    /// Got an item of one of the consumer's rings.
    Popped(T),
    /// Every ring of the consumer is empty.
    Empty,
}

/// Producer of a grid: its row, and a cursor over the consumers.
#[derive(Debug)]
pub struct GridProducer {
    handle: Producer,
    row: usize,
    columns: usize,
    cursor: usize,
}

/// Consumer of a grid: one ring per producer, and a cursor over them.
pub struct GridConsumer<T> {
    handles: Vec<Consumer<T>>,
    cursor: usize,
}

/// Every producer has a ring to every consumer.
pub struct ComposedMpmc<T> {
    /// One handle per producer.
    pub producers: Vec<GridProducer>,
    /// One handle per consumer.
    pub consumers: Vec<GridConsumer<T>>,
}

/// Contents of a grid: the ring from producer `i` to consumer `j` is
/// `grid[j][i]`.
pub open spec fn grid_contents<T>(consumers: Seq<GridConsumer<T>>) -> Seq<Seq<Seq<T>>> {
    Seq::new(consumers.len(), |j: int| consumers[j]@)
}

/// Slot counts of a grid, laid out like its contents.
pub open spec fn grid_slots<T>(consumers: Seq<GridConsumer<T>>) -> Seq<Seq<int>> {
    Seq::new(consumers.len(), |j: int| consumers[j].slot_counts())
}

/// Every consumer is well formed and has a ring for producer `row`.
pub open spec fn grid_wf<T>(consumers: Seq<GridConsumer<T>>, row: int) -> bool {
    forall|j: int|
        0 <= j < consumers.len() ==> (#[trigger] consumers[j]).wf() && row < consumers[j]@.len()
}

/// The ring from producer `row` to consumer `j` has room.
pub open spec fn has_room<T>(grid: Seq<Seq<Seq<T>>>, slots: Seq<Seq<int>>, row: int, j: int) -> bool {
    grid[j][row].len() < slots[j][row]
}

/// `k` is the number of full rings that a producer's walk from `start` skips
/// before it meets one with room.
pub open spec fn first_with_room<T>(
    grid: Seq<Seq<Seq<T>>>,
    slots: Seq<Seq<int>>,
    row: int,
    start: int,
    k: int,
) -> bool {
    &&& 0 <= k < grid.len()
    &&& has_room(grid, slots, row, nth_ring(start, k, grid.len() as int))
    &&& forall|j: int|
        0 <= j < k ==> !has_room(
            grid,
            slots,
            row,
            #[trigger] nth_ring(start, j, grid.len() as int),
        )
}

/// The outcome of pushing one item to the first ring with room of a walk from
/// `start`.
pub open spec fn walk_push<T>(
    before: Seq<Seq<Seq<T>>>,
    slots: Seq<Seq<int>>,
    row: int,
    start: int,
    item: T,
    after: Seq<Seq<Seq<T>>>,
    cursor: int,
    rejected: Option<T>,
) -> bool {
    let m = before.len() as int;
    match rejected {
        None => exists|k: int|
            #![trigger nth_ring(start, k, m)]
            {
                let j = nth_ring(start, k, m);
                &&& first_with_room(before, slots, row, start, k)
                &&& after == before.update(j, before[j].update(row, before[j][row].push(item)))
                &&& cursor == (j + 1) % m
            },
        Some(back) => {
            &&& back == item
            &&& forall|j: int| 0 <= j < m ==> !#[trigger] has_room(before, slots, row, j)
            &&& after == before
            &&& cursor == if m == 0 { start } else { (start + 1) % m }
        },
    }
}

/// A walk that meets no room has seen every consumer.
proof fn lemma_walk_covers_full<T>(
    grid: Seq<Seq<Seq<T>>>,
    slots: Seq<Seq<int>>,
    row: int,
    start: int,
)
    requires
        0 <= start < grid.len(),
        forall|j: int|
            0 <= j < grid.len() ==> !has_room(
                grid,
                slots,
                row,
                #[trigger] nth_ring(start, j, grid.len() as int),
            ),
    ensures
        forall|j: int| 0 <= j < grid.len() ==> !#[trigger] has_room(grid, slots, row, j),
{
    let m = grid.len() as int;
    assert forall|j: int| 0 <= j < m implies !#[trigger] has_room(grid, slots, row, j) by {
        lemma_steps(start, j, m);
        let k = steps_to(start, j, m);
        assert(!has_room(grid, slots, row, nth_ring(start, k, m)));
    }
}

impl GridProducer {
    /// Index of this producer.
    pub closed spec fn row(&self) -> int {
        self.row as int
    }

    /// Number of consumers.
    pub closed spec fn columns(&self) -> int {
        self.columns as int
    }

    /// Consumer that the next push looks at first.
    pub closed spec fn next_column(&self) -> int {
        self.cursor as int
    }

    /// Representation invariant.
    pub closed spec fn wf(&self) -> bool {
        self.columns > 0 ==> self.cursor < self.columns
    }

    /// Number of consumers this producer can reach.
    pub fn consumer_count(&self) -> (res: usize)
        ensures
            res == self.columns(),
    {
        self.columns
    }

    /// Appends an item to the first of its rings with room behind the cursor,
    /// and moves the cursor past that consumer; past one consumer when every
    /// ring is full.
    pub fn push<T>(&mut self, consumers: &mut Vec<GridConsumer<T>>, item: T) -> (res: GridPushResult<T>)
        requires
            old(self).wf(),
            old(consumers)@.len() == old(self).columns(),
            grid_wf(old(consumers)@, old(self).row()),
        ensures
            final(self).wf(),
            final(self).row() == old(self).row(),
            final(self).columns() == old(self).columns(),
            final(consumers)@.len() == old(consumers)@.len(),
            grid_wf(final(consumers)@, old(self).row()),
            grid_slots(final(consumers)@) == grid_slots(old(consumers)@),
            forall|j: int|
                0 <= j < old(consumers)@.len() ==> (#[trigger] final(consumers)@[j]).next_ring()
                    == old(consumers)@[j].next_ring() && final(consumers)@[j].slot_counts().len()
                    == final(consumers)@[j]@.len(),
            walk_push(
                grid_contents(old(consumers)@),
                grid_slots(old(consumers)@),
                old(self).row(),
                old(self).next_column(),
                item,
                grid_contents(final(consumers)@),
                final(self).next_column(),
                match res {
                    GridPushResult::Pushed => None,
                    GridPushResult::Full(back) => Some(back),
                },
            ),
    {
        let m: usize = consumers.len();
        if m == 0 {
            return GridPushResult::Full(item);
        }
        let row: usize = self.row;
        let start: usize = self.cursor;
        let mut idx: usize = start;
        let mut carry: T = item;
        let mut offset: usize = 0;
        let ghost before = grid_contents(consumers@);
        let ghost slots = grid_slots(consumers@);
        proof {
            vstd::arithmetic::div_mod::lemma_small_mod(start as nat, m as nat);
        }
        while offset < m
            invariant
                m == consumers@.len(),
                m > 0,
                start < m,
                offset <= m,
                idx < m,
                idx == nth_ring(start as int, offset as int, m as int),
                *self == *old(self),
                row == self.row(),
                start == self.next_column(),
                m == self.columns(),
                carry == item,
                consumers@.len() == old(consumers)@.len(),
                grid_wf(consumers@, row as int),
                forall|j: int|
                    0 <= j < m ==> (#[trigger] consumers@[j]).next_ring() == old(
                        consumers,
                    )@[j].next_ring(),
                grid_contents(consumers@) == before,
                before == grid_contents(old(consumers)@),
                grid_slots(consumers@) == slots,
                slots == grid_slots(old(consumers)@),
                forall|j: int|
                    0 <= j < offset ==> !has_room(
                        before,
                        slots,
                        row as int,
                        #[trigger] nth_ring(start as int, j, m as int),
                    ),
            decreases m - offset,
        {
            assert(before[idx as int] == consumers@[idx as int]@);
            assert(slots[idx as int] == consumers@[idx as int].slot_counts());
            let ghost pre = consumers@;
            match self.handle.push(consumers[idx].ring_mut(row), carry) {
                SpscPushResult::Pushed => {
                    self.cursor = if idx + 1 == m { 0 } else { idx + 1 };
                    proof {
                        let j = idx as int;
                        assert(consumers@[j].slot_counts() =~= pre[j].slot_counts());
                        assert(grid_contents(consumers@) =~= before.update(
                            j,
                            before[j].update(row as int, before[j][row as int].push(item)),
                        ));
                        assert(grid_slots(consumers@) =~= slots);
                        assert(first_with_room(before, slots, row as int, start as int, offset as int));
                        if idx + 1 < m {
                            vstd::arithmetic::div_mod::lemma_small_mod((idx + 1) as nat, m as nat);
                        }
                        assert(self.cursor == (nth_ring(start as int, offset as int, m as int) + 1) % (
                        m as int));
                    }
                    return GridPushResult::Pushed;
                },
                SpscPushResult::Full(t) => {
                    carry = t;
                    proof {
                        let j = idx as int;
                        assert(consumers@[j].slot_counts() =~= pre[j].slot_counts());
                        assert(consumers@[j]@ =~= pre[j]@);
                        assert(grid_contents(consumers@) =~= before);
                        assert(grid_slots(consumers@) =~= slots);
                        lemma_next_ring(start as int, offset as int, m as int);
                    }
                    idx = if idx + 1 == m { 0 } else { idx + 1 };
                    offset += 1;
                },
            }
        }
        proof {
            lemma_walk_covers_full(before, slots, row as int, start as int);
            vstd::arithmetic::div_mod::lemma_mod_self_0(m as int);
            if start + 1 < m {
                vstd::arithmetic::div_mod::lemma_small_mod((start + 1) as nat, m as nat);
            }
        }
        self.cursor = if start + 1 == m { 0 } else { start + 1 };
        GridPushResult::Full(carry)
    }
}

impl<T> GridConsumer<T> {
    /// What the invariant says of the rings.
    pub proof fn lemma_rings(&self)
        ensures
            self.slot_counts().len() == self@.len(),
            self.wf() && self@.len() > 0 ==> 0 <= self.next_ring() < self@.len(),
    {
    }

    /// Contents of each producer's ring, oldest item first.
    pub closed spec fn view(&self) -> Seq<Seq<T>> {
        contents(self.handles@)
    }

    /// Slot count of each producer's ring.
    pub closed spec fn slot_counts(&self) -> Seq<int> {
        slot_counts(self.handles@)
    }

    /// Ring that the next pop looks at first.
    pub closed spec fn next_ring(&self) -> int {
        self.cursor as int
    }

    /// Representation invariant.
    pub closed spec fn wf(&self) -> bool {
        &&& rings_wf(self.handles@)
        &&& self.handles@.len() > 0 ==> self.cursor < self.handles@.len()
    }

    /// Number of producers this consumer drains.
    pub fn producer_count(&self) -> (res: usize)
        ensures
            res == self@.len(),
    {
        self.handles.len()
    }

    /// Takes one item of the first non-empty ring behind the cursor.
    pub fn pop(&mut self) -> (res: GridPopResult<T>)
        requires
            old(self).wf(),
        ensures
            final(self).wf(),
            final(self)@.len() == old(self)@.len(),
            final(self).slot_counts() == old(self).slot_counts(),
            final(self).slot_counts().len() == final(self)@.len(),
            walk_pop(
                old(self)@,
                old(self).next_ring(),
                final(self)@,
                final(self).next_ring(),
                match res {
                    GridPopResult::Popped(item) => Some(item),
                    GridPopResult::Empty => None,
                },
            ),
    {
        match pop_round_robin(&mut self.handles, &mut self.cursor) {
            Some(item) => GridPopResult::Popped(item),
            None => GridPopResult::Empty,
        }
    }

    /// The ring of producer `i`.
    fn ring_mut(&mut self, i: usize) -> (res: &mut Consumer<T>)
        requires
            old(self).wf(),
            i < old(self)@.len(),
        ensures
            (*res).wf(),
            (*res)@ == old(self)@[i as int],
            (*res).slot_count() == old(self).slot_counts()[i as int],
            (*final(res)).wf() ==> final(self).wf(),
            final(self).slot_counts().len() == final(self)@.len(),
            final(self).next_ring() == old(self).next_ring(),
            final(self)@ == old(self)@.update(i as int, (*final(res))@),
            final(self).slot_counts() == old(self).slot_counts().update(
                i as int,
                (*final(res)).slot_count(),
            ),
    {
        &mut self.handles[i]
    }
}

/// `n_producers` producers and `n_consumers` consumers (at least one each)
/// with a ring of at least `capacity_per_pair` slots for every pair.
pub fn new_composed_mpmc<T>(n_producers: usize, n_consumers: usize, capacity_per_pair: usize) -> (res:
    ComposedMpmc<T>)
    requires
        capacity_per_pair <= usize::MAX / 2 + 1,
    ensures
        res.producers@.len() == if n_producers == 0 { 1 } else { n_producers as int },
        res.consumers@.len() == if n_consumers == 0 { 1 } else { n_consumers as int },
        forall|i: int|
            0 <= i < res.producers@.len() ==> {
                let p = #[trigger] res.producers@[i];
                &&& p.wf()
                &&& p.row() == i
                &&& p.columns() == res.consumers@.len()
                &&& p.next_column() == 0
            },
        forall|j: int|
            0 <= j < res.consumers@.len() ==> {
                let c = #[trigger] res.consumers@[j];
                &&& c.wf()
                &&& c.next_ring() == 0
                &&& c@.len() == res.producers@.len()
                &&& c.slot_counts().len() == c@.len()
                &&& all_empty(c@)
                &&& forall|i: int|
                    0 <= i < c@.len() ==> rounded_slot_count(
                        capacity_per_pair as int,
                        #[trigger] c.slot_counts()[i],
                    )
            },
{
    let n: usize = if n_producers == 0 { 1 } else { n_producers };
    let m: usize = if n_consumers == 0 { 1 } else { n_consumers };
    let mut producers: Vec<GridProducer> = Vec::with_capacity(n);
    let mut i: usize = 0;
    while i < n
        invariant
            i <= n,
            m > 0,
            producers@.len() == i,
            forall|k: int|
                0 <= k < i ==> {
                    let p = #[trigger] producers@[k];
                    &&& p.wf()
                    &&& p.row() == k
                    &&& p.columns() == m
                    &&& p.next_column() == 0
                },
        decreases n - i,
    {
        producers.push(GridProducer { handle: Producer {  }, row: i, columns: m, cursor: 0 });
        i += 1;
    }
    let mut consumers: Vec<GridConsumer<T>> = Vec::with_capacity(m);
    let mut j: usize = 0;
    while j < m
        invariant
            j <= m,
            n > 0,
            capacity_per_pair <= usize::MAX / 2 + 1,
            consumers@.len() == j,
            forall|k: int|
                0 <= k < j ==> {
                    let c = #[trigger] consumers@[k];
                    &&& c.wf()
                    &&& c.next_ring() == 0
                    &&& c@.len() == n
                    &&& c.slot_counts().len() == c@.len()
                    &&& all_empty(c@)
                    &&& forall|i: int|
                        0 <= i < c@.len() ==> rounded_slot_count(
                            capacity_per_pair as int,
                            #[trigger] c.slot_counts()[i],
                        )
                },
        decreases m - j,
    {
        let composed = new_composed_mpsc::<T>(n, capacity_per_pair);
        let inner = composed.consumer;
        let ghost made = inner;
        consumers.push(GridConsumer { handles: inner.rings, cursor: inner.cursor });
        proof {
            let c = consumers@[j as int];
            assert(c@ == made@);
            assert(c.slot_counts() == made.slot_counts());
            assert(c.wf());
        }
        j += 1;
    }
    ComposedMpmc { producers, consumers }
}

/// A push on a grid adds the item to the end of exactly one ring of its own
/// producer, one that had room; the ring at the cursor where that has room. It
/// comes back only where no consumer's ring has room, and then nothing changes.
pub proof fn law_grid_push_finds_room<T>(
    before: Seq<Seq<Seq<T>>>,
    slots: Seq<Seq<int>>,
    row: int,
    start: int,
    item: T,
    after: Seq<Seq<Seq<T>>>,
    cursor: int,
    rejected: Option<T>,
)
    requires
        before.len() > 0,
        0 <= start < before.len(),
        forall|j: int| 0 <= j < before.len() ==> 0 <= row < (#[trigger] before[j]).len(),
        walk_push(before, slots, row, start, item, after, cursor, rejected),
    ensures
        rejected is None <==> exists|j: int|
            0 <= j < before.len() && (#[trigger] before[j])[row].len() < slots[j][row],
        rejected is Some ==> after == before && rejected == Some(item),
        rejected is None ==> exists|j: int|
            0 <= j < before.len() && (#[trigger] before[j])[row].len() < slots[j][row]
                && after[j][row] == before[j][row].push(item) && (forall|c: int, p: int|
                0 <= c < before.len() && 0 <= p < before[c].len() && !(c == j && p == row)
                    ==> #[trigger] after[c][p] == before[c][p]) && (before[start][row].len()
                < slots[start][row] ==> j == start),
        0 <= cursor < before.len(),
{
    let m = before.len() as int;
    if rejected is None {
        let k = choose|k: int|
            #![trigger nth_ring(start, k, m)]
            {
                let j = nth_ring(start, k, m);
                &&& first_with_room(before, slots, row, start, k)
                &&& after == before.update(j, before[j].update(row, before[j][row].push(item)))
                &&& cursor == (j + 1) % m
            };
        let j = nth_ring(start, k, m);
        vstd::arithmetic::div_mod::lemma_mod_bound(start + k, m);
        vstd::arithmetic::div_mod::lemma_mod_bound(j + 1, m);
        vstd::arithmetic::div_mod::lemma_small_mod(start as nat, m as nat);
        assert(nth_ring(start, 0, m) == start);
        assert(before[j][row].len() < slots[j][row]);
        if k > 0 {
            assert(!has_room(before, slots, row, nth_ring(start, 0, m)));
        }
        assert(after[j][row] == before[j][row].push(item));
        assert forall|c: int, p: int|
            0 <= c < before.len() && 0 <= p < before[c].len() && !(c == j && p
                == row) implies #[trigger] after[c][p] == before[c][p] by {}
    } else {
        vstd::arithmetic::div_mod::lemma_mod_bound(start + 1, m);
        assert forall|j: int| 0 <= j < before.len() implies !((#[trigger] before[j])[row].len()
            < slots[j][row]) by {
            assert(!has_room(before, slots, row, j));
        }
    }
}

} // verus!
