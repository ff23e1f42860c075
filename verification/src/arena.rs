//! Fork-join.
//!
//! A join runs two closures and gives both results in order. Small operands
//! run one closure after the other on the calling thread. Larger ones go to
//! the pool: the right half becomes a job that a peer may steal, the left
//! half runs at once, and the caller then takes the right half back or helps
//! with other jobs until a thief has finished it. A thread outside the pool
//! hands the whole join over and waits.
//!
//! The pool's threads run the closures; this module decides each step.

use crate::arena_local::{
    after_push, after_refusal, arena_shape, deques_look_empty, first_rng, search_order, slot_pushed,
    source_job, tier_has_slot, wake_if, walk, Arena, Ctx, LocalArena, SmtGuard, Wake, WorkSource,
    EXTERNAL_SLOT_COUNT,
};
use crate::arena_numa::{
    resolved_node, sibling_wake, slot_released, smt_acquired, smt_released, Numa, NumaArena,
};
use crate::deque_tier::{tier_idx, DequeTier};
use crate::fcl_worker::slot_job;
use crate::job::{compact_of, CompactJobRef, JobRef};
use crate::math::{clamp_int, clamp_u64, max_int, sat64, saturating_product};
use crate::plan::JobPlan;
use vstd::prelude::*;

verus! {

/// Largest operand size (as a binary logarithm) that runs inline.
pub const INLINE_K_MAX: u8 = 4;

/// Rounds that a waiting outside thread spins before it tries to sleep.
pub const SLOT_WAIT_SPIN: u32 = 256;

/// Where a join runs.
#[derive(Debug, Clone, Copy, PartialEq, Eq, Structural)]
pub enum JoinRoute {
    /// On the calling thread, one half after the other.
    Inline,
    /// In the pool.
    Pool,
}

/// Where a plan's joins run.
pub fn join_route(plan: &JobPlan) -> (res: JoinRoute)
    ensures
        res == if plan.k_outer <= INLINE_K_MAX {
            JoinRoute::Inline
        } else {
            JoinRoute::Pool
        },
{
    if plan.k_outer <= INLINE_K_MAX {
        JoinRoute::Inline
    } else {
        JoinRoute::Pool
    }
}

/// Runs `a`, then `b`, on the calling thread. Neither half moves to another
/// thread, and both are told so.
pub fn inline_join_context<A, B, RA, RB>(a: A, b: B) -> (res: (RA, RB)) where
    A: FnOnce(bool) -> RA,
    B: FnOnce(bool) -> RB,

    requires
        call_requires(a, (false,)),
        call_requires(b, (false,)),
    ensures
        call_ensures(a, (false,), res.0),
        call_ensures(b, (false,), res.1),
{
    let ra = a(false);
    let rb = b(false);
    (ra, rb)
}

/// A plan's joins go to the pool.
pub open spec fn pool_bound(plan: JobPlan) -> bool {
    plan.k_outer > INLINE_K_MAX
}

/// Runs both halves for a caller outside the pool and gives both results,
/// left half first. The left half learns whether the join had to be taken into
/// the pool, the right half whether another thread took it over. Here the
/// caller takes its own join in, and nobody else is there to take the half.
pub fn join_context<A, B, RA, RB>(plan: &JobPlan, a: A, b: B) -> (res: (RA, RB)) where
    A: FnOnce(bool) -> RA + Send,
    B: FnOnce(bool) -> RB + Send,
    RA: Send,
    RB: Send,

    requires
        call_requires(a, (pool_bound(*plan),)),
        call_requires(b, (false,)),
    ensures
        call_ensures(a, (pool_bound(*plan),), res.0),
        call_ensures(b, (false,), res.1),
{
    match join_route(plan) {
        JoinRoute::Inline => inline_join_context(a, b),
        JoinRoute::Pool => {
            let ra = a(true);
            let rb = b(false);
            (ra, rb)
        },
    }
}

/// Runs both halves and gives both results, left half first. Without a pool
/// both stay with the caller.
pub fn join<A, B, RA, RB>(_plan: &JobPlan, a: A, b: B) -> (res: (RA, RB)) where
    A: FnOnce() -> RA + Send,
    B: FnOnce() -> RB + Send,
    RA: Send,
    RB: Send,

    requires
        call_requires(a, ()),
        call_requires(b, ()),
    ensures
        call_ensures(a, (), res.0),
        call_ensures(b, (), res.1),
{
    let ra = a();
    let rb = b();
    (ra, rb)
}

/// [`join`] under a plan of which only size is known.
pub fn join_default<A, B, RA, RB>(k_outer: u8, batch_size: u32, a: A, b: B) -> (res: (RA, RB)) where
    A: FnOnce() -> RA + Send,
    B: FnOnce() -> RB + Send,
    RA: Send,
    RB: Send,

    requires
        call_requires(a, ()),
        call_requires(b, ()),
    ensures
        call_ensures(a, (), res.0),
        call_ensures(b, (), res.1),
{
    let plan = JobPlan::new(k_outer, batch_size);
    join(&plan, a, b)
}

/// Wake requests of a push: the push's own, and a broadcast where an outside
/// slot pushed.
#[derive(Debug, Clone, Copy, PartialEq, Eq, Structural)]
pub struct PushWakes {
    /// For the pushed job.
    pub job: Option<Wake>,
    /// For everybody.
    pub broadcast: Option<Wake>,
}

/// A request to wake everybody.
pub open spec fn wake_everybody(a: Arena) -> Wake {
    Wake { jobs: a.total() as u32, queue_was_empty: false }
}

/// Tier position that a plan's halves go to.
pub open spec fn hinted_tier(plan: JobPlan) -> DequeTier {
    match plan.deque_tier_hint {
        Some(tier) => tier,
        None => DequeTier::Public,
    }
}

/// Outcome of pushing a half to the worker's own deque.
pub open spec fn own_push(
    before: Arena,
    me: int,
    job: JobRef,
    plan: JobPlan,
    use_jec_wake: bool,
    after: Arena,
    res: Result<PushWakes, JobRef>,
) -> bool {
    let c = before.ctxs[me];
    let t = tier_idx(hinted_tier(plan));
    if tier_has_slot(c, t) {
        &&& res == Ok::<PushWakes, JobRef>(
            PushWakes {
                job: wake_if(use_jec_wake, 1, deques_look_empty(c)),
                broadcast: if c.external {
                    Some(wake_everybody(before))
                } else {
                    None
                },
            },
        )
        &&& after == before.with_ctx(me, after_push(c, t, job))
        &&& after.bag() == before.bag().insert(compact_of(job))
    } else {
        &&& res == Err::<PushWakes, JobRef>(job)
        &&& after == before.with_ctx(me, after_refusal(c))
        &&& after.bag() == before.bag()
    }
}

/// Pushes a half to the worker's own deque of the plan's tier. Gives it back
/// when that deque is full.
pub fn push_with_tier_hint(
    arena: &mut LocalArena,
    me: usize,
    job: JobRef,
    plan: &JobPlan,
    use_jec_wake: bool,
) -> (res: Result<PushWakes, JobRef>)
    requires
        old(arena).wf(),
        me < old(arena)@.total(),
    ensures
        final(arena).wf(),
        own_push(old(arena)@, me as int, job, *plan, use_jec_wake, final(arena)@, res),
{
    let external: bool = arena.is_external(me);
    let total: usize = arena.total_positions();
    let pushed = match plan.deque_tier_hint {
        Some(tier) => arena.try_push_tier(me, job, tier, use_jec_wake),
        None => arena.try_push(me, job, use_jec_wake),
    };
    match pushed {
        Err(refused) => Err(refused),
        Ok(wake) => {
            let broadcast: Option<Wake> = if external {
                Some(
                    Wake {
                        jobs: #[verifier::truncate]
                        (total as u32),
                        queue_was_empty: false,
                    },
                )
            } else {
                None
            };
            Ok(PushWakes { job: wake, broadcast })
        },
    }
}

/// The position next to `me` in its pair, where siblings are neighbours.
pub open spec fn sibling_of(me: int) -> int {
    if me % 2 == 0 {
        me + 1
    } else {
        me - 1
    }
}

/// A half goes to the sibling's mailbox: the plan allows it, there is such a
/// position, a worker's or an outside slot's, and it has nothing queued.
pub open spec fn mailbox_first(a: Arena, me: int, plan: JobPlan) -> bool {
    let s = sibling_of(me);
    &&& plan.use_mailbox_routing
    &&& s < a.total()
    &&& a.ctxs[s].mailbox.len() == 0
    &&& a.ctxs[s].deques[0].khl.published.len() == 0
    &&& a.ctxs[s].deques[0].fcl.published.len() == 0
}

/// Outcome of forking off a half: to the idle sibling's mailbox, or to the
/// worker's own deque.
pub open spec fn forked(
    before: Arena,
    me: int,
    job: JobRef,
    plan: JobPlan,
    use_jec_wake: bool,
    after: Arena,
    res: Result<PushWakes, JobRef>,
) -> bool {
    if mailbox_first(before, me, plan) {
        let s = sibling_of(me);
        let c = before.ctxs[s];
        &&& res == Ok::<PushWakes, JobRef>(
            PushWakes { job: wake_if(use_jec_wake, 1, true), broadcast: None },
        )
        &&& after == (Arena {
            mailbox_ever_used: true,
            ..before.with_ctx(s, (Ctx { mailbox: c.mailbox.push(job), ..c }))
        })
        &&& after.bag() == before.bag().insert(compact_of(job))
    } else {
        own_push(before, me, job, plan, use_jec_wake, after, res)
    }
}

/// Forks off the right half of a join. Where it is given back, the caller
/// runs both halves itself: waiting for a free slot could wait for ever.
pub fn fork(
    arena: &mut LocalArena,
    me: usize,
    job: JobRef,
    plan: &JobPlan,
    use_jec_wake: bool,
) -> (res: Result<PushWakes, JobRef>)
    requires
        old(arena).wf(),
        me < old(arena)@.total(),
    ensures
        final(arena).wf(),
        forked(old(arena)@, me as int, job, *plan, use_jec_wake, final(arena)@, res),
{
    proof {
        arena.lemma_shape();
    }
    if plan.use_mailbox_routing {
        let total: usize = arena.total_positions();
        let sibling: usize = if me % 2 == 1 { me - 1 } else { me + 1 };
        if sibling < total && arena.mailbox_is_empty(sibling) && arena.nothing_to_steal(
            sibling,
            DequeTier::SmtLocal,
        ) {
            match arena.push_to_mailbox(sibling, job, use_jec_wake) {
                Ok(wake) => {
                    return Ok(PushWakes { job: wake, broadcast: None });
                },
                Err(refused) => {
                    return push_with_tier_hint(arena, me, refused, plan, use_jec_wake);
                },
            }
        }
    }
    push_with_tier_hint(arena, me, job, plan, use_jec_wake)
}

/// What a caller does next while it waits for the half that it forked off.
#[derive(Debug, Clone, Copy, PartialEq, Eq, Structural)]
pub enum JoinStep {
    /// A thief has finished the half: take its result.
    Done,
    /// The half came back: run it here, not stolen.
    RunOwn,
    /// Run another job.
    Help(JobRef),
    /// There is nothing to do: let other threads run.
    Yield,
}

/// The next step of a wait for the half whose state is at `own`.
pub open spec fn wait_step(a: Arena, me: int, own: usize, latch_set: bool) -> (JoinStep, Arena) {
    if latch_set {
        (JoinStep::Done, a)
    } else {
        let found = walk(a, me, search_order(a, me));
        (
            match found.0 {
                Some(hit) => if hit.0.data == own {
                    JoinStep::RunOwn
                } else {
                    JoinStep::Help(hit.0)
                },
                None => JoinStep::Yield,
            },
            found.1,
        )
    }
}

/// One step of the wait for the half that worker `me` forked off.
pub fn join_wait_step(arena: &mut LocalArena, me: usize, own: usize, latch_set: bool) -> (res: JoinStep)
    requires
        old(arena).wf(),
        me < old(arena)@.total(),
    ensures
        final(arena).wf(),
        final(arena)@.total() == old(arena)@.total(),
        res == wait_step(old(arena)@, me as int, own, latch_set).0,
        final(arena)@ == wait_step(old(arena)@, me as int, own, latch_set).1,
        res matches JoinStep::Help(j) ==> j.data != own && old(arena)@.bag()
            == final(arena)@.bag().insert(compact_of(j)),
        res is RunOwn ==> exists|entry: usize|
            old(arena)@.bag() == #[trigger] final(arena)@.bag().insert(
                (CompactJobRef { data: own, entry }),
            ),
        res is Yield || res is Done ==> old(arena)@.bag() == final(arena)@.bag(),
{
    if latch_set {
        return JoinStep::Done;
    }
    match arena.find_work(me) {
        Some(job) => if job.data == own {
            proof {
                assert(compact_of(job) == (CompactJobRef {
                    data: own,
                    entry: job.entry,
                }));
            }
            JoinStep::RunOwn
        } else {
            JoinStep::Help(job)
        },
        None => JoinStep::Yield,
    }
}

/// A half that nobody stole comes back at once: after a push to the worker's
/// widest deque, with nothing left over from an earlier pop or burst, the
/// first step of the wait is to run the half itself.
pub proof fn law_unstolen_half_comes_back(a: Arena, me: int, job: JobRef)
    requires
        arena_shape(a),
        0 <= me < a.total(),
        a.ctxs[me].deques[3].front().stash.jobs.len() == 0,
        a.ctxs[me].deques[3].front().buffered.jobs.len() == 0,
    ensures
        ({
            let b = a.with_ctx(me, after_push(a.ctxs[me], 3, job));
            wait_step(b, me, job.data, false).0 == JoinStep::RunOwn
        }),
{
    let c = a.ctxs[me];
    let c2 = after_push(c, 3, job);
    let b = a.with_ctx(me, c2);
    let d = c.deques[3];
    let d2 = c2.deques[3];
    assert(d2.front() == d.front().pushed(job));
    assert(d2.front().published.last() == d.front().buffered.with_job(job));
    let order = search_order(b, me);
    assert(order[0] == WorkSource::Tier(DequeTier::Public));
    assert(b.ctxs[me] == c2);
    assert(source_job(b, me, order[0]) == Some(slot_job(d.front().buffered.with_job(job), 0)));
    assert(slot_job(d.front().buffered.with_job(job), 0).data == job.data);
}

/// Counters of where joins spend their time. They wrap.
#[derive(Debug, Clone, Copy, PartialEq, Eq, Structural)]
pub struct DispatchTrace {
    /// Joins.
    pub calls: u64,
    /// Cycles in left halves.
    pub body: u64,
    /// Cycles waiting for right halves.
    pub wait: u64,
    /// Cycles helping while waiting.
    pub wait_steal: u64,
    /// Cycles idle while waiting.
    pub wait_idle: u64,
}

/// A sum that wraps.
pub open spec fn wrapping_sum(a: u64, b: u64) -> u64 {
    ((a + b) % 0x1_0000_0000_0000_0000) as u64
}

impl DispatchTrace {
    /// All zero.
    pub fn new() -> (res: DispatchTrace)
        ensures
            res == (DispatchTrace { calls: 0, body: 0, wait: 0, wait_steal: 0, wait_idle: 0 }),
    {
        DispatchTrace { calls: 0, body: 0, wait: 0, wait_steal: 0, wait_idle: 0 }
    }

    /// Counts a finished join.
    pub fn record_join(&mut self, body: u64, wait: u64)
        ensures
            *final(self) == (DispatchTrace {
                calls: wrapping_sum(old(self).calls, 1),
                body: wrapping_sum(old(self).body, body),
                wait: wrapping_sum(old(self).wait, wait),
                ..*old(self)
            }),
    {
        self.calls = self.calls.wrapping_add(1);
        self.body = self.body.wrapping_add(body);
        self.wait = self.wait.wrapping_add(wait);
    }

    /// Counts cycles spent helping.
    pub fn record_steal(&mut self, cycles: u64)
        ensures
            *final(self) == (DispatchTrace {
                wait_steal: wrapping_sum(old(self).wait_steal, cycles),
                ..*old(self)
            }),
    {
        self.wait_steal = self.wait_steal.wrapping_add(cycles);
    }

    /// Counts idle cycles.
    pub fn record_idle(&mut self, cycles: u64)
        ensures
            *final(self) == (DispatchTrace {
                wait_idle: wrapping_sum(old(self).wait_idle, cycles),
                ..*old(self)
            }),
    {
        self.wait_idle = self.wait_idle.wrapping_add(cycles);
    }
}

/// Joins, cycles in left halves and cycles waiting since the last such call.
pub fn dispatch_trace_snapshot(trace: &mut DispatchTrace) -> (res: (u64, u64, u64))
    ensures
        res == (old(trace).calls, old(trace).body, old(trace).wait),
        *final(trace) == (DispatchTrace { calls: 0, body: 0, wait: 0, ..*old(trace) }),
{
    let res = (trace.calls, trace.body, trace.wait);
    trace.calls = 0;
    trace.body = 0;
    trace.wait = 0;
    res
}

/// Cycles helping and idle since the last such call.
pub fn dispatch_trace_wait_snapshot(trace: &mut DispatchTrace) -> (res: (u64, u64))
    ensures
        res == (old(trace).wait_steal, old(trace).wait_idle),
        *final(trace) == (DispatchTrace { wait_steal: 0, wait_idle: 0, ..*old(trace) }),
{
    let res = (trace.wait_steal, trace.wait_idle);
    trace.wait_steal = 0;
    trace.wait_idle = 0;
    res
}

/// How a job from outside the pool was handed over.
#[derive(Debug, Clone, Copy, PartialEq, Eq, Structural)]
pub enum HandedOver {
    /// Through a claimed slot, which is to be released after the job.
    Slot {
        /// The node.
        node: usize,
        /// The slot's position.
        at: usize,
        /// Everybody is to be woken.
        wake: Wake,
    },
    /// Not yet: the claimed slot has no room, and the push is to be repeated.
    SlotFull {
        /// The node.
        node: usize,
        /// The slot's position.
        at: usize,
    },
    /// Through the submitted jobs, as every slot is taken.
    Submitted {
        /// The node.
        node: usize,
        /// Wake request of the submission.
        wake: Wake,
        /// Rounds to spin before blocking.
        spin: usize,
    },
}

/// Rounds that the submitter of a plan's job spins: a third of the predicted
/// nanoseconds, within bounds.
pub open spec fn spin_rounds(plan: JobPlan) -> int {
    match plan.estimated_per_item_ns {
        Some(ns) => clamp_int(
            sat64(ns * max_int(plan.batch_size as int, 1)) / 3,
            1_000,
            500_000,
        ),
        None => 200_000,
    }
}

/// Rounds that the submitter of a plan's job spins before it blocks.
pub fn submit_spin_rounds(plan: &JobPlan) -> (res: usize)
    ensures
        res == spin_rounds(*plan),
{
    match plan.estimated_per_item_ns {
        Some(ns) => {
            let batch: u32 = if plan.batch_size < 1 { 1 } else { plan.batch_size };
            let predicted: u64 = saturating_product(ns as u64, batch as u64);
            clamp_u64(predicted / 3, 1_000, 500_000) as usize
        },
        None => 200_000,
    }
}

/// The first free outside slot of an arena.
pub open spec fn free_slot(a: Arena, k: int) -> bool {
    &&& 0 <= k < EXTERNAL_SLOT_COUNT
    &&& !a.claimed[k]
    &&& forall|j: int| 0 <= j < k ==> #[trigger] a.claimed[j]
}

/// Every outside slot is taken.
pub open spec fn slots_exhausted(a: Arena) -> bool {
    forall|j: int| 0 <= j < EXTERNAL_SLOT_COUNT ==> #[trigger] a.claimed[j]
}

/// An arena whose slot at position `at` was claimed and readied.
pub open spec fn slot_claimed(a: Arena, at: usize) -> Arena {
    Arena {
        claimed: a.claimed.update(at - a.n_workers, true),
        ..a.with_ctx(
            at as int,
            (Ctx {
                rng: first_rng(at as int),
                last_victim: None,
                burst_pushed: 0,
                wake_rotor: at,
                ..a.ctxs[at as int]
            }),
        )
    }
}

/// Outcome of handing a job over from outside: through the first free slot of
/// the node's arena, or by submission where every slot is taken.
pub open spec fn handed_over(
    before: Numa,
    node: int,
    job: JobRef,
    plan: JobPlan,
    after: Numa,
    res: HandedOver,
) -> bool {
    let a = before.nodes[node];
    match res {
        HandedOver::Slot { node: n, at, wake } => {
            &&& n == node
            &&& free_slot(a, at - a.n_workers)
            &&& tier_has_slot(a.ctxs[at as int], 3)
            &&& wake == wake_everybody(a)
            &&& after == before.with_node(
                node,
                slot_pushed(slot_claimed(a, at), at as int, job),
            )
            &&& after.bag() == before.bag().insert(compact_of(job))
        },
        HandedOver::SlotFull { node: n, at } => {
            &&& n == node
            &&& free_slot(a, at - a.n_workers)
            &&& !tier_has_slot(a.ctxs[at as int], 3)
            &&& after == before.with_node(node, slot_claimed(a, at))
            &&& after.bag() == before.bag()
        },
        HandedOver::Submitted { node: n, wake, spin } => {
            &&& n == node
            &&& slots_exhausted(a)
            &&& wake == (Wake { jobs: 1, queue_was_empty: a.injector.len() == 0 })
            &&& spin == spin_rounds(plan)
            &&& after == before.with_node(
                node,
                (Arena { injector: a.injector.push(job), ..a }),
            )
            &&& after.bag() == before.bag().insert(compact_of(job))
        },
    }
}

/// One step of an outside thread's wait for its handed-over job.
#[derive(Debug, Clone, Copy, PartialEq, Eq, Structural)]
pub enum SlotWait {
    /// About to look whether the job is done, after so many spins.
    Poll {
        /// Spins since the last sleep.
        spun: u32,
    },
    /// Asked to be marked sleepy.
    Sleepy,
    /// Looks once more before sleeping.
    Recheck,
    /// Asked to be marked asleep.
    Falling,
    /// Parked, and now awake.
    Parked,
}

/// What an outside thread does next; the answer drives the next step.
#[derive(Debug, Clone, Copy, PartialEq, Eq, Structural)]
pub enum SlotAction {
    /// The job is done: take its result.
    Finish,
    /// Clear the sleep mark; the job is done.
    WakeAndFinish,
    /// Spin once, then look whether the job is done.
    SpinAndCheck,
    /// Look whether the job is done.
    Check,
    /// Mark the latch sleepy; the answer is whether that worked.
    MarkSleepy,
    /// Mark the latch asleep; the answer is whether that worked.
    MarkAsleep,
    /// Park until the job is done.
    Park,
    /// Clear the sleep mark, then look whether the job is done.
    WakeAndCheck,
}

/// The next step of the wait: spin for a while, then go to sleep in three
/// moves, looking once more in between so that a job finished meanwhile is
/// not slept over.
pub open spec fn slot_wait_spec(state: SlotWait, yes: bool) -> (SlotWait, SlotAction) {
    match state {
        SlotWait::Poll { spun } => if yes {
            (state, SlotAction::Finish)
        } else if spun < SLOT_WAIT_SPIN {
            (SlotWait::Poll { spun: (spun + 1) as u32 }, SlotAction::SpinAndCheck)
        } else {
            (SlotWait::Sleepy, SlotAction::MarkSleepy)
        },
        SlotWait::Sleepy => if yes {
            (SlotWait::Recheck, SlotAction::Check)
        } else {
            (SlotWait::Poll { spun: 0 }, SlotAction::Check)
        },
        SlotWait::Recheck => if yes {
            (state, SlotAction::WakeAndFinish)
        } else {
            (SlotWait::Falling, SlotAction::MarkAsleep)
        },
        SlotWait::Falling => if yes {
            (SlotWait::Parked, SlotAction::Park)
        } else {
            (SlotWait::Poll { spun: 0 }, SlotAction::Check)
        },
        SlotWait::Parked => (SlotWait::Poll { spun: 0 }, SlotAction::WakeAndCheck),
    }
}

/// One step of an outside thread's wait; `yes` is the answer to the last
/// action.
pub fn slot_wait_step(state: SlotWait, yes: bool) -> (res: (SlotWait, SlotAction))
    ensures
        res == slot_wait_spec(state, yes),
{
    match state {
        SlotWait::Poll { spun } => {
            if yes {
                (state, SlotAction::Finish)
            } else if spun < SLOT_WAIT_SPIN {
                (SlotWait::Poll { spun: spun + 1 }, SlotAction::SpinAndCheck)
            } else {
                (SlotWait::Sleepy, SlotAction::MarkSleepy)
            }
        },
        SlotWait::Sleepy => {
            if yes {
                (SlotWait::Recheck, SlotAction::Check)
            } else {
                (SlotWait::Poll { spun: 0 }, SlotAction::Check)
            }
        },
        SlotWait::Recheck => {
            if yes {
                (state, SlotAction::WakeAndFinish)
            } else {
                (SlotWait::Falling, SlotAction::MarkAsleep)
            }
        },
        SlotWait::Falling => {
            if yes {
                (SlotWait::Parked, SlotAction::Park)
            } else {
                (SlotWait::Poll { spun: 0 }, SlotAction::Check)
            }
        },
        SlotWait::Parked => (SlotWait::Poll { spun: 0 }, SlotAction::WakeAndCheck),
    }
}

/// The wait ends exactly when a look found the job done.
pub proof fn law_wait_ends_when_done(state: SlotWait, yes: bool)
    ensures
        (slot_wait_spec(state, yes).1 is Finish || slot_wait_spec(state, yes).1 is WakeAndFinish)
            <==> yes && (state is Poll || state is Recheck),
{
}

/// A thread parks only after it was marked sleepy, saw the job unfinished,
/// and was then marked asleep: each of the three moves must succeed in turn.
pub proof fn law_no_park_without_recheck(state: SlotWait, first: bool, second: bool, third: bool)
    requires
        state is Sleepy,
    ensures
        ({
            let s1 = slot_wait_spec(state, first);
            let s2 = slot_wait_spec(s1.0, second);
            let s3 = slot_wait_spec(s2.0, third);
            s3.1 is Park ==> first && !second && third
        }),
        slot_wait_spec(state, first).1 !is Park,
{
}

/// A dispatch from outside the pool.
#[derive(Debug)]
pub struct Dispatched {
    /// The sibling requests that it holds open, one per node or none.
    pub smt: Vec<SmtGuard>,
    /// For each request, the positions to wake.
    pub sibling_wakes: Vec<Vec<usize>>,
    /// How the job was handed over.
    pub how: HandedOver,
}

/// The arenas after the sibling requests were opened.
pub open spec fn with_requests(n: Numa, use_smt: bool) -> Numa {
    if use_smt {
        smt_acquired(n)
    } else {
        n
    }
}

/// Opens the sibling requests of a dispatch: one per node, or none.
pub(crate) fn open_requests(numa: &mut NumaArena, use_smt: bool) -> (res: (
    Vec<SmtGuard>,
    Vec<Vec<usize>>,
))
    requires
        old(numa).wf(),
    ensures
        final(numa).wf(),
        final(numa)@ == with_requests(old(numa)@, use_smt),
        final(numa)@.bag() == old(numa)@.bag(),
        res.0@.len() == if use_smt {
            old(numa)@.nodes.len()
        } else {
            0
        },
        res.1@.len() == res.0@.len(),
        forall|i: int|
            0 <= i < res.0@.len() ==> (#[trigger] res.1@[i])@ == sibling_wake(
                old(numa)@.nodes[i],
            ),
{
    let mut smt: Vec<SmtGuard> = Vec::new();
    let mut sibling_wakes: Vec<Vec<usize>> = Vec::new();
    if use_smt {
        match numa.try_acquire_smt_single() {
            Some((guard, wake)) => {
                smt.push(guard);
                sibling_wakes.push(wake);
            },
            None => {
                let (guards, wakes) = numa.acquire_smt();
                smt = guards;
                sibling_wakes = wakes;
            },
        }
    }
    (smt, sibling_wakes)
}

/// Starts a dispatch from outside the pool: requests the siblings where the
/// plan has use for them, and hands the job over on the node that the plan's
/// hint leads to.
pub fn external_dispatch(
    numa: &mut NumaArena,
    plan: &JobPlan,
    use_smt: bool,
    cpu: usize,
    job: JobRef,
) -> (res: Dispatched)
    requires
        old(numa).wf(),
        old(numa)@.nodes[resolved_node(
            old(numa)@,
            plan.numa_hint,
            cpu as int,
        )].injector.len() < usize::MAX,
    ensures
        final(numa).wf(),
        handed_over(
            with_requests(old(numa)@, use_smt),
            resolved_node(old(numa)@, plan.numa_hint, cpu as int),
            job,
            *plan,
            final(numa)@,
            res.how,
        ),
        res.smt@.len() == if use_smt {
            old(numa)@.nodes.len()
        } else {
            0
        },
        res.sibling_wakes@.len() == res.smt@.len(),
        forall|i: int|
            0 <= i < res.smt@.len() ==> (#[trigger] res.sibling_wakes@[i])@ == sibling_wake(
                old(numa)@.nodes[i],
            ),
{
    let (smt, sibling_wakes) = open_requests(numa, use_smt);
    let node: usize = numa.resolve_node_idx(plan.numa_hint, cpu);
    let how = numa.hand_over(node, plan, job);
    Dispatched { smt, sibling_wakes, how }
}

/// The arenas after a dispatch from outside the pool ended.
pub open spec fn finished(n: Numa, how: HandedOver, held: bool) -> Numa {
    let released = match how {
        HandedOver::Slot { node, at, wake } => n.with_node(
            node as int,
            slot_released(n.nodes[node as int], at),
        ),
        HandedOver::SlotFull { node, at } => n.with_node(
            node as int,
            slot_released(n.nodes[node as int], at),
        ),
        HandedOver::Submitted { node, wake, spin } => n,
    };
    if held {
        smt_released(released)
    } else {
        released
    }
}

/// A claimed slot is one of its node's.
pub open spec fn slot_exists(n: Numa, how: HandedOver) -> bool {
    match how {
        HandedOver::Slot { node, at, wake } => node < n.nodes.len()
            && n.nodes[node as int].n_workers <= at < n.nodes[node as int].total(),
        HandedOver::SlotFull { node, at } => node < n.nodes.len()
            && n.nodes[node as int].n_workers <= at < n.nodes[node as int].total(),
        HandedOver::Submitted { node, wake, spin } => true,
    }
}

/// Ends a dispatch from outside the pool once its job is done: releases the
/// slot and closes the sibling requests.
pub fn external_finish(numa: &mut NumaArena, dispatched: Dispatched)
    requires
        old(numa).wf(),
        dispatched.smt@.len() == 0 || dispatched.smt@.len() == old(numa)@.nodes.len(),
        slot_exists(old(numa)@, dispatched.how),
    ensures
        final(numa).wf(),
        final(numa)@ == finished(old(numa)@, dispatched.how, dispatched.smt@.len() > 0),
        final(numa)@.bag() == old(numa)@.bag(),
{
    match dispatched.how {
        HandedOver::Slot { node, at, wake: _ } => {
            numa.release_slot(node, at);
        },
        HandedOver::SlotFull { node, at } => {
            numa.release_slot(node, at);
        },
        HandedOver::Submitted { node: _, wake: _, spin: _ } => {},
    }
    if dispatched.smt.len() > 0 {
        numa.release_smt(dispatched.smt);
    }
}

/// A dispatch that has ended leaves no slot claimed and no request open: with
/// everything else at rest, the arenas differ from before only in what the
/// claim readied.
pub proof fn law_dispatch_returns_what_it_took(
    n: Numa,
    node: usize,
    at: usize,
    use_smt: bool,
    i: int,
)
    requires
        node < n.nodes.len(),
        n.nodes[node as int].claimed.len() == EXTERNAL_SLOT_COUNT,
        free_slot(n.nodes[node as int], at - n.nodes[node as int].n_workers),
        0 <= i < n.nodes.len(),
    ensures
        ({
            let started = with_requests(n, use_smt);
            let a = slot_claimed(started.nodes[node as int], at);
            let ended = finished(
                started.with_node(node as int, a),
                (HandedOver::Slot { node, at, wake: wake_everybody(a) }),
                use_smt,
            );
            &&& ended.nodes[i].claimed == n.nodes[i].claimed
            &&& ended.nodes[i].smt_requests == n.nodes[i].smt_requests
            &&& ended.nodes[i].injector == n.nodes[i].injector
        }),
{
    let k = at - n.nodes[node as int].n_workers;
    let claimed = n.nodes[node as int].claimed;
    assert(claimed.update(k, true).update(k, false) =~= claimed);
}

/// The submitter of a job spins for a third of the nanoseconds that the plan
/// predicts, its estimate of an item times its items, kept between a thousand
/// and half a million rounds. Without an estimate it spins 200000 rounds.
pub proof fn law_spin_is_a_third_of_the_prediction(plan: JobPlan, ns: u32)
    requires
        plan.estimated_per_item_ns == Some(ns),
    ensures
        ({
            let r = spin_rounds(plan);
            let total = ns * if plan.batch_size == 0 {
                1
            } else {
                plan.batch_size as int
            };
            &&& 1_000 <= r <= 500_000
            &&& 1_000 < r < 500_000 ==> 3 * r <= total < 3 * (r + 1)
            &&& r == 1_000 ==> total < 3 * 1_001
            &&& r == 500_000 ==> total >= 3 * 500_000
        }),
        spin_rounds(JobPlan { estimated_per_item_ns: None, ..plan }) == 200_000,
{
    let b = max_int(plan.batch_size as int, 1);
    assert(0 <= ns * b <= u64::MAX) by (nonlinear_arith)
        requires
            0 <= ns <= u32::MAX,
            1 <= b <= u32::MAX,
    ;
}

/// Siblings come in pairs: each position's sibling is the other position of
/// its pair.
pub proof fn law_siblings_are_pairs(me: int)
    requires
        0 <= me,
    ensures
        sibling_of(me) != me,
        sibling_of(me) / 2 == me / 2,
        sibling_of(sibling_of(me)) == me,
{
}

/// A forked half goes to the sibling's mailbox exactly where the plan allows
/// it and the sibling has neither mail nor a published job on its closest
/// deque; else to the worker's own deque of the hinted tier, the widest where
/// no tier is hinted; and it is given back only where that deque is full.
pub proof fn law_fork_places_the_half(
    before: Arena,
    me: int,
    job: JobRef,
    plan: JobPlan,
    wake: bool,
    after: Arena,
    res: Result<PushWakes, JobRef>,
)
    requires
        arena_shape(before),
        0 <= me < before.total(),
        forked(before, me, job, plan, wake, after, res),
    ensures
        ({
            let s = if me % 2 == 0 {
                me + 1
            } else {
                me - 1
            };
            let t = match plan.deque_tier_hint {
                Some(DequeTier::SmtLocal) => 0int,
                Some(DequeTier::IntraCcx) => 1,
                Some(DequeTier::CrossCcx) => 2,
                _ => 3,
            };
            let idle = s < before.total() && before.ctxs[s].mailbox.len() == 0
                && before.ctxs[s].deques[0].khl.published.len() == 0
                && before.ctxs[s].deques[0].fcl.published.len() == 0;
            let own = before.ctxs[me].deques[t].front().published;
            if plan.use_mailbox_routing && idle {
                &&& res is Ok
                &&& after.ctxs[s].mailbox == seq![job]
                &&& after.ctxs[me] == before.ctxs[me]
            } else if own.len() < before.ctxs[me].slot_limit {
                &&& res is Ok
                &&& after.ctxs[me].deques[t].front().published.len() == own.len() + 1
                &&& after.ctxs[me].deques[t].front().published.last().jobs.last().data == job.data
                &&& after.ctxs[me].mailbox == before.ctxs[me].mailbox
            } else {
                &&& res == Err::<PushWakes, JobRef>(job)
                &&& after.ctxs[me].deques == before.ctxs[me].deques
            }
        }),
{
    let s = sibling_of(me);
    if mailbox_first(before, me, plan) {
        assert(before.ctxs[s].mailbox.push(job) =~= seq![job]);
    }
}

/// What a waiting caller does: it is done once the half is done; else it runs
/// what a search finds, its own half as such, and yields where nothing is
/// found.
pub proof fn law_waiting_caller_helps(a: Arena, me: int, own: usize, latch_set: bool)
    ensures
        ({
            let step = wait_step(a, me, own, latch_set).0;
            let found = walk(a, me, search_order(a, me)).0;
            &&& latch_set <==> step is Done
            &&& latch_set ==> wait_step(a, me, own, latch_set).1 == a
            &&& !latch_set && found is None ==> step is Yield
            &&& !latch_set && found is Some && found->Some_0.0.data == own ==> step is RunOwn
            &&& !latch_set && found is Some && found->Some_0.0.data != own ==> step
                == JoinStep::Help(found->Some_0.0)
        }),
{
}

/// A waiting outside thread spins 256 times, looking each time, before it goes
/// to sleep; a move that fails, and waking up, starts the spinning anew.
pub proof fn law_wait_spins_first(spun: u32)
    ensures
        spun < 256 ==> slot_wait_spec(SlotWait::Poll { spun }, false) == (
            SlotWait::Poll { spun: (spun + 1) as u32 },
            SlotAction::SpinAndCheck,
        ),
        spun >= 256 ==> slot_wait_spec(SlotWait::Poll { spun }, false).1 is MarkSleepy,
        slot_wait_spec(SlotWait::Sleepy, false).0 == (SlotWait::Poll { spun: 0 }),
        slot_wait_spec(SlotWait::Falling, false).0 == (SlotWait::Poll { spun: 0 }),
        slot_wait_spec(SlotWait::Parked, true).0 == (SlotWait::Poll { spun: 0 }),
        slot_wait_spec(SlotWait::Falling, true).1 is Park,
        slot_wait_spec(SlotWait::Sleepy, true).1 is Check,
{
}

/// A job from outside never gets lost. While some outside slot is free the
/// caller claims the first such slot and the job is the newest on its widest
/// deque, unless that is full, which the caller is told; with every slot taken
/// the job is the last in the queue of the node. Other nodes stay as they are.
pub proof fn law_outside_jobs_arrive(
    before: Numa,
    node: int,
    job: JobRef,
    plan: JobPlan,
    after: Numa,
    res: HandedOver,
    k: int,
    other: int,
)
    requires
        0 <= node < before.nodes.len(),
        0 <= other < before.nodes.len(),
        other != node,
        arena_shape(before.nodes[node]),
        0 <= k < EXTERNAL_SLOT_COUNT,
        handed_over(before, node, job, plan, after, res),
    ensures
        ({
            let a = before.nodes[node];
            let b = after.nodes[node];
            let at = a.n_workers + k;
            let first = !a.claimed[k] && forall|j: int| 0 <= j < k ==> #[trigger] a.claimed[j];
            let room = a.ctxs[at].deques[3].front().published.len() < a.ctxs[at].slot_limit;
            &&& after.nodes[other] == before.nodes[other]
            &&& first ==> !(res is Submitted) && b.claimed[k] && b.injector == a.injector
            &&& first && room ==> res is Slot && b.ctxs[at].deques[3].front().published.len()
                == a.ctxs[at].deques[3].front().published.len() + 1
                && b.ctxs[at].deques[3].front().published.last().jobs.last().data == job.data
            &&& first && !room ==> res is SlotFull && b.ctxs[at].deques == a.ctxs[at].deques
            &&& (forall|j: int| 0 <= j < EXTERNAL_SLOT_COUNT ==> #[trigger] a.claimed[j])
                ==> res is Submitted && b.injector.drop_last() == a.injector && b.injector.last()
                == job && b.ctxs == a.ctxs && b.claimed == a.claimed
        }),
{
    let a = before.nodes[node];
    match res {
        HandedOver::Slot { node: _, at, wake: _ } => {
            let x = at - a.n_workers;
            if x < k {
                assert(!a.claimed[x]);
            }
            if k < x {
                assert(a.claimed[k]);
            }
        },
        HandedOver::SlotFull { node: _, at } => {
            let x = at - a.n_workers;
            if x < k {
                assert(!a.claimed[x]);
            }
            if k < x {
                assert(a.claimed[k]);
            }
        },
        HandedOver::Submitted { .. } => {
            assert(a.claimed[k]);
            assert(a.injector.push(job).drop_last() =~= a.injector);
        },
    }
}

} // verus!
