//! Work-stealing arena of one NUMA node, as data.
//!
//! The arena holds every worker's deques, mailbox, steal leftovers, counters
//! and random states, plus a block of slots that outside threads can claim to
//! act as workers for a while. Threads, parking and job execution live
//! outside: a thread asks the arena what to do next and does it.

use crate::adaptive_worker::{
    new_adaptive, steal_via_stash, Adaptive, AdaptiveSteal2, AdaptiveStash, AdaptiveWorker,
    Leftovers, ACTIVE_FCL, ACTIVE_KHL,
};
use crate::deque_tier::{
    distance_spec, may_steal, peer_distance, tier_at, tier_idx, DequeTier, N_TIERS,
};
use crate::fcl_worker::slot_job;
use crate::flynnel_ring::{FlynnelRing, PopResult, PushResult};
use crate::job::{compact_of, JobRef};
use crate::job_bag::{
    lemma_exchange_frame, lemma_exchange_give, lemma_exchange_same, lemma_exchange_take,
    lemma_refs_bag_drop_first, lemma_refs_bag_empty, lemma_refs_bag_push, lemma_union_bags_empty,
    lemma_union_bags_update, refs_bag, union_bags, JobBag,
};
use crate::k_gating::KGating;
use crate::math::{lemma_common_slot_counts, rounded_slot_count, rounded_slot_count_unique};
use crate::text::{bool_text, decimal, decimal2, put, put_bool, put_decimal, put_decimal2};
use std::collections::VecDeque;
use vstd::prelude::*;

verus! {

/// Slots of a mailbox.
pub const MAILBOX_CAPACITY: usize = 16;

/// Slots per backing of a worker's deque.
pub const ADAPTIVE_SLOT_CAPACITY: usize = 256;

/// Number of slots that outside threads can claim.
pub const EXTERNAL_SLOT_COUNT: usize = 32;

/// Slots per backing of an outside slot's deque.
pub const EXTERNAL_SLOT_DEQUE_CAPACITY: usize = 64;

/// Spin rounds of a worker before it parks.
pub const LOCAL_SPIN_ROUNDS: u32 = 64;

/// Largest pool in which a worker probes every peer.
pub const PROBE_FULL_CUTOFF: usize = 8;

/// Peers probed per round in a larger pool.
pub const PROBE_LARGE: usize = 4;

/// Seed that replaces a zero random state, and multiplier of the first states.
pub const RNG_SEED: u64 = 0x9E37_79B9_7F4A_7C15;

/// Counters of one worker. They wrap.
#[derive(Debug, Clone, Copy, PartialEq, Eq, Structural)]
pub struct WorkerStats {
    /// Jobs taken from the worker's own mailbox and deques.
    pub local_pops: u64,
    /// Jobs stolen from peers.
    pub peer_steal_hits: u64,
    /// Rounds of probing that found nothing.
    pub peer_steal_misses: u64,
    /// Jobs that peers stole from this worker.
    pub times_stolen_from: u64,
    /// Burst pushes.
    pub burst_pushes: u64,
    /// Single pushes.
    pub single_pushes: u64,
    /// Single pushes refused for want of a slot.
    pub push_refusals: u64,
}

/// All counters at zero.
pub open spec fn zero_stats() -> WorkerStats {
    WorkerStats {
        local_pops: 0,
        peer_steal_hits: 0,
        peer_steal_misses: 0,
        times_stolen_from: 0,
        burst_pushes: 0,
        single_pushes: 0,
        push_refusals: 0,
    }
}

/// A counter after one more event.
pub open spec fn bump(x: u64) -> u64 {
    x.wrapping_add(1)
}

/// One worker, or one slot for an outside thread.
pub struct WorkerCtx {
    deques: Vec<AdaptiveWorker>,
    stash: AdaptiveStash,
    mailbox: FlynnelRing<JobRef>,
    burst_pushed: u32,
    rng: u64,
    probe_rng: u64,
    wake_rotor: usize,
    stats: WorkerStats,
    last_victim: Option<usize>,
    is_external_slot: bool,
    idle: bool,
}

/// What one worker holds.
#[verifier::ext_equal]
pub struct Ctx {
    /// One deque per tier.
    pub deques: Seq<Adaptive>,
    /// How many slots each backing of each deque can publish.
    pub slot_limit: int,
    /// Leftovers of the last steal.
    pub stash: Leftovers,
    /// Jobs handed to this worker, oldest first.
    pub mailbox: Seq<JobRef>,
    /// Burst pushes since the last flush.
    pub burst_pushed: u32,
    /// Random state of work searches.
    pub rng: u64,
    /// Random state of the worker loop.
    pub probe_rng: u64,
    /// Peer that was woken last.
    pub wake_rotor: usize,
    /// Counters.
    pub stats: WorkerStats,
    /// Peer of the last successful steal.
    pub last_victim: Option<usize>,
    /// Whether this is a slot for outside threads.
    pub external: bool,
    /// Whether the worker loop is looking for work.
    pub idle: bool,
}

impl Ctx {
    /// Every job held.
    pub open spec fn bag(self) -> JobBag {
        union_bags(self.deques.map_values(|d: Adaptive| d.bag())).add(self.stash.bag()).add(
            refs_bag(self.mailbox),
        )
    }

    /// With another deque at tier position `t`.
    pub open spec fn with_deque(self, t: int, d: Adaptive) -> Ctx {
        Ctx { deques: self.deques.update(t, d), ..self }
    }
}

impl View for WorkerCtx {
    type V = Ctx;

    closed spec fn view(&self) -> Ctx {
        Ctx {
            deques: self.deques@.map_values(|d: AdaptiveWorker| d@),
            slot_limit: self.deques@[0].slot_limit(),
            stash: self.stash@,
            mailbox: self.mailbox@,
            burst_pushed: self.burst_pushed,
            rng: self.rng,
            probe_rng: self.probe_rng,
            wake_rotor: self.wake_rotor,
            stats: self.stats,
            last_victim: self.last_victim,
            external: self.is_external_slot,
            idle: self.idle,
        }
    }
}

impl WorkerCtx {
    /// Representation invariant: four well-formed deques of equal size and a
    /// mailbox of the fixed size.
    closed spec fn wf(&self) -> bool {
        &&& self.deques@.len() == N_TIERS
        &&& forall|t: int|
            0 <= t < N_TIERS ==> (#[trigger] self.deques@[t]).wf() && self.deques@[t].slot_limit()
                == self.deques@[0].slot_limit()
        &&& self.stash.wf()
        &&& self.mailbox.wf()
        &&& self.mailbox.slot_count() == MAILBOX_CAPACITY
    }
}

/// The arena.
pub struct LocalArena {
    ctxs: Vec<WorkerCtx>,
    claimed: Vec<bool>,
    injector: VecDeque<JobRef>,
    n_workers: usize,
    primary_count: usize,
    smt_requests: u32,
    shutdown: bool,
    ccx_size: usize,
    mailbox_ever_used: bool,
    cores: Vec<Option<usize>>,
}

/// What an arena holds.
#[verifier::ext_equal]
pub struct Arena {
    /// The workers, then the slots for outside threads.
    pub ctxs: Seq<Ctx>,
    /// Which outside slots are taken.
    pub claimed: Seq<bool>,
    /// Submitted jobs, oldest first.
    pub injector: Seq<JobRef>,
    /// Number of workers.
    pub n_workers: int,
    /// How many workers run regardless of sibling requests.
    pub primary_count: int,
    /// Open requests for sibling workers.
    pub smt_requests: u32,
    /// Whether the arena is shutting down.
    pub shutdown: bool,
    /// Logical cores per cluster.
    pub ccx_size: int,
    /// Whether any mailbox was ever used.
    pub mailbox_ever_used: bool,
    /// Core that each worker is to be pinned to.
    pub cores: Seq<Option<usize>>,
}

impl Arena {
    /// Number of workers and outside slots together.
    pub open spec fn total(self) -> int {
        self.ctxs.len() as int
    }

    /// With another worker at position `i`.
    pub open spec fn with_ctx(self, i: int, c: Ctx) -> Arena {
        Arena { ctxs: self.ctxs.update(i, c), ..self }
    }

    /// Every job held anywhere in the arena.
    pub open spec fn bag(self) -> JobBag {
        union_bags(self.ctxs.map_values(|c: Ctx| c.bag())).add(refs_bag(self.injector))
    }
}

impl View for LocalArena {
    type V = Arena;

    closed spec fn view(&self) -> Arena {
        Arena {
            ctxs: self.ctxs@.map_values(|c: WorkerCtx| c@),
            claimed: self.claimed@,
            injector: self.injector@,
            n_workers: self.n_workers as int,
            primary_count: self.primary_count as int,
            smt_requests: self.smt_requests,
            shutdown: self.shutdown,
            ccx_size: self.ccx_size as int,
            mailbox_ever_used: self.mailbox_ever_used,
            cores: self.cores@,
        }
    }
}

/// Shape of a well-formed arena: at least one worker, all of them primaries
/// or siblings, followed by the fixed number of outside slots.
pub open spec fn arena_shape(a: Arena) -> bool {
    &&& 1 <= a.primary_count <= a.n_workers
    &&& a.total() == a.n_workers + EXTERNAL_SLOT_COUNT
    &&& a.total() <= usize::MAX
    &&& a.claimed.len() == EXTERNAL_SLOT_COUNT
    &&& a.cores.len() == a.n_workers
    &&& forall|i: int| 0 <= i < a.total() ==> (#[trigger] a.ctxs[i]).deques.len() == N_TIERS
    &&& forall|i: int|
        0 <= i < a.total() ==> (#[trigger] a.ctxs[i]).mailbox.len() <= MAILBOX_CAPACITY
    &&& forall|i: int| 0 <= i < a.total() ==> (#[trigger] a.ctxs[i]).external == (i >= a.n_workers)
    &&& forall|i: int| 0 <= i < a.total() ==> (#[trigger] a.ctxs[i]).wake_rotor < a.total()
}

/// Replacing one worker exchanges its jobs.
pub proof fn lemma_arena_bag_update(a: Arena, i: int, c: Ctx)
    requires
        0 <= i < a.total(),
    ensures
        a.with_ctx(i, c).bag().add(a.ctxs[i].bag()) == a.bag().add(c.bag()),
{
    let f = |c: Ctx| c.bag();
    let bags = a.ctxs.map_values(f);
    lemma_union_bags_update(bags, i, c.bag());
    assert(a.ctxs.update(i, c).map_values(f) =~= bags.update(i, c.bag()));
    lemma_exchange_frame(
        union_bags(bags),
        a.ctxs[i].bag(),
        union_bags(bags.update(i, c.bag())),
        c.bag(),
        refs_bag(a.injector),
    );
}

/// Replacing one deque of a worker exchanges its jobs.
pub proof fn lemma_ctx_bag_update(c: Ctx, t: int, d: Adaptive)
    requires
        0 <= t < c.deques.len(),
    ensures
        c.with_deque(t, d).bag().add(c.deques[t].bag()) == c.bag().add(d.bag()),
{
    let f = |d: Adaptive| d.bag();
    let bags = c.deques.map_values(f);
    lemma_union_bags_update(bags, t, d.bag());
    assert(c.deques.update(t, d).map_values(f) =~= bags.update(t, d.bag()));
    lemma_exchange_frame(
        union_bags(bags),
        c.deques[t].bag(),
        union_bags(bags.update(t, d.bag())),
        d.bag(),
        c.stash.bag(),
    );
    lemma_exchange_frame(
        union_bags(bags).add(c.stash.bag()),
        c.deques[t].bag(),
        union_bags(bags.update(t, d.bag())).add(c.stash.bag()),
        d.bag(),
        refs_bag(c.mailbox),
    );
}

/// Where a job can come from, and the re-rolls between probes.
#[derive(Debug, Clone, Copy, PartialEq, Eq, Structural)]
pub enum WorkSource {
    /// The worker's own deque of a tier.
    Tier(DequeTier),
    /// The leftovers of the last steal.
    Stash,
    /// The worker's mailbox.
    Mailbox,
    /// The jobs submitted from outside.
    Injector,
    /// A peer's deque of a tier.
    Peer(usize, DequeTier),
    /// No source: advances the random state of work searches.
    SearchRoll,
    /// No source: advances the random state of the worker loop.
    LoopRoll,
}

/// One step of the xorshift generator.
pub open spec fn xorshift(x: u64) -> u64 {
    let a = x ^ (x << 13u64);
    let b = a ^ (a >> 7u64);
    b ^ (b << 17u64)
}

/// A random state that the generator can leave.
pub open spec fn seeded(x: u64) -> u64 {
    if x == 0 { RNG_SEED } else { x }
}

/// The peer that a random value picks among `n`, skipping `me`.
pub open spec fn victim_of(x: u64, me: int, n: int) -> int {
    let v = (x as usize) as int % n;
    if v == me { (v + 1) % n } else { v }
}

/// The job that a source would hand to worker `me` now.
pub open spec fn source_job(a: Arena, me: int, src: WorkSource) -> Option<JobRef> {
    match src {
        WorkSource::Tier(t) => a.ctxs[me].deques[tier_idx(t)].next_pop(),
        WorkSource::Stash => a.ctxs[me].stash.next_drain(),
        WorkSource::Mailbox => if a.ctxs[me].mailbox.len() > 0 {
            Some(a.ctxs[me].mailbox.first())
        } else {
            None
        },
        WorkSource::Injector => if a.injector.len() > 0 {
            Some(a.injector.first())
        } else {
            None
        },
        WorkSource::Peer(v, t) => match a.ctxs[v as int].deques[tier_idx(t)].next_stolen() {
            Some(slot) => Some(slot_job(slot, 0)),
            None => None,
        },
        WorkSource::SearchRoll => None,
        WorkSource::LoopRoll => None,
    }
}

/// The arena after worker `me` has probed a source, whether or not it found a
/// job there.
pub open spec fn after_probe(a: Arena, me: int, src: WorkSource) -> Arena {
    let c = a.ctxs[me];
    match src {
        WorkSource::Tier(t) => a.with_ctx(
            me,
            c.with_deque(tier_idx(t), c.deques[tier_idx(t)].popped()),
        ),
        WorkSource::Stash => a.with_ctx(me, (Ctx { stash: c.stash.after_drain(), ..c })),
        WorkSource::Mailbox => if c.mailbox.len() > 0 {
            a.with_ctx(me, (Ctx { mailbox: c.mailbox.drop_first(), ..c }))
        } else {
            a
        },
        WorkSource::Injector => if a.injector.len() > 0 {
            Arena { injector: a.injector.drop_first(), ..a }
        } else {
            a
        },
        WorkSource::Peer(v, t) => after_peer_probe(a, me, v, tier_idx(t)),
        WorkSource::SearchRoll => a.with_ctx(me, (Ctx { rng: xorshift(seeded(c.rng)), ..c })),
        WorkSource::LoopRoll => a.with_ctx(me, (Ctx { probe_rng: xorshift(c.probe_rng), ..c })),
    }
}

/// The arena after worker `me` has tried to steal from a peer's deque. A
/// success counts as a theft for the victim, leaves the rest of the slot with
/// the thief, and makes the victim the thief's first choice next time.
pub open spec fn after_peer_probe(a: Arena, me: int, v: usize, t: int) -> Arena {
    let victim = a.ctxs[v as int];
    let thief = a.ctxs[me];
    let d = victim.deques[t];
    if d.next_stolen() is Some {
        a.with_ctx(
            v as int,
            (Ctx {
                stats: (WorkerStats {
                    times_stolen_from: bump(victim.stats.times_stolen_from),
                    ..victim.stats
                }),
                ..victim.with_deque(t, d.robbed())
            }),
        ).with_ctx(
            me,
            (Ctx { stash: thief.stash.after_steal(d), last_victim: Some(v), ..thief }),
        )
    } else {
        a.with_ctx(v as int, victim.with_deque(t, d.robbed()))
    }
}

/// A source that worker `me` may probe in a pool of `n`.
pub open spec fn source_ok(src: WorkSource, me: int, n: int) -> bool {
    match src {
        WorkSource::Peer(v, t) => v < n && v != me,
        _ => true,
    }
}

/// The outcome of probing sources in order until one has a job: the job, the
/// source it came from, and the arena afterwards.
pub open spec fn walk(a: Arena, me: int, order: Seq<WorkSource>) -> (
    Option<(JobRef, WorkSource)>,
    Arena,
)
    decreases order.len(),
{
    if order.len() == 0 {
        (None, a)
    } else {
        match source_job(a, me, order[0]) {
            Some(job) => (Some((job, order[0])), after_probe(a, me, order[0])),
            None => walk(after_probe(a, me, order[0]), me, order.drop_first()),
        }
    }
}

/// Stealing needs empty leftovers, so the leftovers are probed before any
/// peer.
pub open spec fn stash_before_peers(order: Seq<WorkSource>) -> bool {
    forall|i: int|
        0 <= i < order.len() && (#[trigger] order[i]) is Peer ==> exists|j: int|
            0 <= j < i && #[trigger] order[j] == WorkSource::Stash
}

impl LocalArena {
    /// Representation invariant.
    pub closed spec fn wf(&self) -> bool {
        &&& arena_shape(self@)
        &&& forall|i: int| 0 <= i < self.ctxs@.len() ==> (#[trigger] self.ctxs@[i]).wf()
    }

    /// What the invariant says of the contents.
    pub proof fn lemma_shape(&self)
        requires
            self.wf(),
        ensures
            arena_shape(self@),
    {
    }

    /// Probes the worker's own deque of a tier.
    fn probe_tier(&mut self, me: usize, t: usize) -> (res: Option<JobRef>)
        requires
            old(self).wf(),
            me < old(self)@.total(),
            t < N_TIERS,
        ensures
            final(self).wf(),
            res == old(self)@.ctxs[me as int].deques[t as int].next_pop(),
            final(self)@ == old(self)@.with_ctx(
                me as int,
                old(self)@.ctxs[me as int].with_deque(
                    t as int,
                    old(self)@.ctxs[me as int].deques[t as int].popped(),
                ),
            ),
            res matches Some(j) ==> old(self)@.bag() == final(self)@.bag().insert(compact_of(j)),
            res is None ==> old(self)@.bag() == final(self)@.bag(),
    {
        let ghost c = self@.ctxs[me as int];
        let res = self.ctxs[me].deques[t].pop();
        proof {
            let d = self.ctxs@[me as int].deques@[t as int]@;
            let c2 = c.with_deque(t as int, d);
            assert(self.ctxs@[me as int]@ =~= c2);
            assert(self@ =~= old(self)@.with_ctx(me as int, c2));
            lemma_ctx_bag_update(c, t as int, d);
            lemma_arena_bag_update(old(self)@, me as int, c2);
            let d0 = c.deques[t as int].bag();
            if res is Some {
                let j = compact_of(res.unwrap());
                lemma_exchange_take(c.bag(), d0, c2.bag(), d.bag(), j);
                lemma_exchange_take(old(self)@.bag(), c.bag(), self@.bag(), c2.bag(), j);
            } else {
                lemma_exchange_same(c.bag(), d0, c2.bag(), d.bag());
                lemma_exchange_same(old(self)@.bag(), c.bag(), self@.bag(), c2.bag());
            }
        }
        res
    }
}

/// A probe that finds nothing takes nothing away from any source.
pub proof fn lemma_failed_probe_keeps(a: Arena, me: int, src: WorkSource, other: WorkSource)
    requires
        arena_shape(a),
        0 <= me < a.total(),
        source_ok(src, me, a.total()),
        source_ok(other, me, a.total()),
        source_job(a, me, src) is None,
    ensures
        source_job(after_probe(a, me, src), me, other) == source_job(a, me, other),
{
    match src {
        WorkSource::Tier(t) => {
            let d = a.ctxs[me].deques[tier_idx(t)];
            lemma_failed_pop_keeps(d);
        },
        WorkSource::Peer(v, t) => {
            let d = a.ctxs[v as int].deques[tier_idx(t)];
            lemma_failed_steal_keeps(d);
        },
        _ => {},
    }
}

/// An owner pop that finds nothing changes neither what the next pop nor what
/// the next steal would find.
proof fn lemma_failed_pop_keeps(d: Adaptive)
    requires
        d.next_pop() is None,
    ensures
        d.popped().next_pop() == d.next_pop(),
        d.popped().next_stolen() == d.next_stolen(),
{
}

/// A steal that finds nothing changes neither what the next pop nor what the
/// next steal would find.
proof fn lemma_failed_steal_keeps(d: Adaptive)
    requires
        d.next_stolen() is None,
    ensures
        d.robbed().next_pop() == d.next_pop(),
        d.robbed().next_stolen() == d.next_stolen(),
{
}

/// The xorshift step.
fn xorshift_step(x: u64) -> (res: u64)
    ensures
        res == xorshift(x),
{
    let a: u64 = x ^ (x << 13u64);
    let b: u64 = a ^ (a >> 7u64);
    b ^ (b << 17u64)
}

/// Picks a peer among `n` that is not `self_idx` (unless `n` is 1), and
/// advances the random state.
pub fn pick_victim(state: &mut u64, self_idx: usize, n: usize) -> (res: usize)
    requires
        n > 0,
        self_idx < n,
    ensures
        *final(state) == xorshift(*old(state)),
        res == victim_of(*final(state), self_idx as int, n as int),
        res < n,
        n >= 2 ==> res != self_idx,
{
    let x: u64 = xorshift_step(*state);
    *state = x;
    victim_from(x, self_idx, n)
}

/// The peer that a random value picks.
fn victim_from(x: u64, self_idx: usize, n: usize) -> (res: usize)
    requires
        n > 0,
        self_idx < n,
    ensures
        res == victim_of(x, self_idx as int, n as int),
        res < n,
        n >= 2 ==> res != self_idx,
{
    let v: usize = (x as usize) % n;
    if v == self_idx {
        proof {
            if v + 1 < n {
                vstd::arithmetic::div_mod::lemma_small_mod((v + 1) as nat, n as nat);
            } else {
                vstd::arithmetic::div_mod::lemma_mod_self_0(n as int);
            }
        }
        if v + 1 == n { 0 } else { v + 1 }
    } else {
        v
    }
}

impl LocalArena {
    /// Probes the leftovers of the last steal.
    fn probe_stash(&mut self, me: usize) -> (res: Option<JobRef>)
        requires
            old(self).wf(),
            me < old(self)@.total(),
        ensures
            final(self).wf(),
            res == source_job(old(self)@, me as int, WorkSource::Stash),
            final(self)@ == after_probe(old(self)@, me as int, WorkSource::Stash),
            res matches Some(j) ==> old(self)@.bag() == final(self)@.bag().insert(compact_of(j)),
            res is None ==> old(self)@.bag() == final(self)@.bag(),
    {
        let ghost c = self@.ctxs[me as int];
        let res = self.ctxs[me].stash.drain_one();
        proof {
            let c2 = (Ctx { stash: c.stash.after_drain(), ..c });
            assert(self.ctxs@[me as int]@ =~= c2);
            assert(self@ =~= old(self)@.with_ctx(me as int, c2));
            lemma_arena_bag_update(old(self)@, me as int, c2);
            if res is Some {
                let j = compact_of(res.unwrap());
                assert(c.bag() =~= c2.bag().insert(j));
                lemma_exchange_take(old(self)@.bag(), c.bag(), self@.bag(), c2.bag(), j);
            } else {
                assert(c2 =~= c);
                lemma_exchange_same(old(self)@.bag(), c.bag(), self@.bag(), c2.bag());
            }
        }
        res
    }

    /// Probes the worker's mailbox.
    fn probe_mailbox(&mut self, me: usize) -> (res: Option<JobRef>)
        requires
            old(self).wf(),
            me < old(self)@.total(),
        ensures
            final(self).wf(),
            res == source_job(old(self)@, me as int, WorkSource::Mailbox),
            final(self)@ == after_probe(old(self)@, me as int, WorkSource::Mailbox),
            res matches Some(j) ==> old(self)@.bag() == final(self)@.bag().insert(compact_of(j)),
            res is None ==> old(self)@.bag() == final(self)@.bag(),
    {
        let ghost c = self@.ctxs[me as int];
        match self.ctxs[me].mailbox.pop() {
            PopResult::Popped(job) => {
                proof {
                    let c2 = (Ctx { mailbox: c.mailbox.drop_first(), ..c });
                    assert(self.ctxs@[me as int]@ =~= c2);
                    assert(self@ =~= old(self)@.with_ctx(me as int, c2));
                    lemma_arena_bag_update(old(self)@, me as int, c2);
                    lemma_refs_bag_drop_first(c.mailbox);
                    let j = compact_of(job);
                    assert(c.bag() =~= c2.bag().insert(j));
                    lemma_exchange_take(old(self)@.bag(), c.bag(), self@.bag(), c2.bag(), j);
                }
                Some(job)
            },
            PopResult::Empty => {
                proof {
                    assert(self.ctxs@[me as int]@ =~= c);
                    assert(self@ =~= old(self)@);
                }
                None
            },
        }
    }

    /// Probes the jobs submitted from outside.
    fn probe_injector(&mut self) -> (res: Option<JobRef>)
        requires
            old(self).wf(),
        ensures
            final(self).wf(),
            old(self)@.injector.len() > 0 ==> {
                &&& res == Some(old(self)@.injector.first())
                &&& final(self)@ == (Arena { injector: old(self)@.injector.drop_first(), ..old(self)@ })
            },
            old(self)@.injector.len() == 0 ==> res is None && final(self)@ == old(self)@,
            res matches Some(j) ==> old(self)@.bag() == final(self)@.bag().insert(compact_of(j)),
            res is None ==> old(self)@.bag() == final(self)@.bag(),
    {
        let res = self.injector.pop_front();
        proof {
            if res is Some {
                let a = old(self)@;
                assert(self@ =~= (Arena { injector: a.injector.drop_first(), ..a }));
                lemma_refs_bag_drop_first(a.injector);
                assert(a.bag() =~= self@.bag().insert(compact_of(res.unwrap())));
            } else {
                assert(self@ =~= old(self)@);
            }
        }
        res
    }

    /// Probes a peer's deque of a tier. The thief's leftovers must be empty.
    fn probe_peer(&mut self, me: usize, v: usize, t: usize) -> (res: Option<JobRef>)
        requires
            old(self).wf(),
            me < old(self)@.total(),
            v < old(self)@.total(),
            v != me,
            t < N_TIERS,
            old(self)@.ctxs[me as int].stash.drained(),
        ensures
            final(self).wf(),
            res == match old(self)@.ctxs[v as int].deques[t as int].next_stolen() {
                Some(slot) => Some(slot_job(slot, 0)),
                None => None,
            },
            final(self)@ == after_peer_probe(old(self)@, me as int, v, t as int),
            res matches Some(j) ==> old(self)@.bag() == final(self)@.bag().insert(compact_of(j)),
            res is None ==> old(self)@.bag() == final(self)@.bag(),
            res is None ==> final(self)@.ctxs[me as int].stash.drained(),
    {
        let ghost a0 = self@;
        let ghost cv = self@.ctxs[v as int];
        let ghost cm = self@.ctxs[me as int];
        let ghost d0 = cv.deques[t as int];
        let mut stash: AdaptiveStash = self.ctxs[me].stash;
        let stealer = self.ctxs[v].deques[t].stealer();
        let outcome = steal_via_stash(&stealer, &mut self.ctxs[v].deques[t], &mut stash);
        let ghost d1 = self.ctxs@[v as int].deques@[t as int]@;
        proof {
            let cv1 = cv.with_deque(t as int, d1);
            assert(self.ctxs@[v as int]@ =~= cv1);
            assert(self@ =~= a0.with_ctx(v as int, cv1));
            lemma_ctx_bag_update(cv, t as int, d1);
            lemma_arena_bag_update(a0, v as int, cv1);
            if !(outcome is Success) {
                lemma_exchange_same(cv.bag(), d0.bag(), cv1.bag(), d1.bag());
                lemma_exchange_same(a0.bag(), cv.bag(), self@.bag(), cv1.bag());
            }
        }
        match outcome {
            AdaptiveSteal2::Success(job) => {
                let ghost a1 = self@;
                self.ctxs[v].stats.times_stolen_from =
                    self.ctxs[v].stats.times_stolen_from.wrapping_add(1);
                let ghost cv2 = self.ctxs@[v as int]@;
                proof {
                    assert(cv2.deques =~= a1.ctxs[v as int].deques);
                    assert(self@ =~= a1.with_ctx(v as int, cv2));
                    lemma_arena_bag_update(a1, v as int, cv2);
                    lemma_exchange_same(a1.bag(), a1.ctxs[v as int].bag(), self@.bag(), cv2.bag());
                }
                let ghost a2 = self@;
                self.ctxs[me].stash = stash;
                self.ctxs[me].last_victim = Some(v);
                proof {
                    let cm2 = (Ctx { stash: stash@, last_victim: Some(v), ..cm });
                    assert(self.ctxs@[me as int]@ =~= cm2);
                    assert(self@ =~= a2.with_ctx(me as int, cm2));
                    assert(self@ =~= after_peer_probe(a0, me as int, v, t as int));
                    lemma_arena_bag_update(a2, me as int, cm2);
                    let j = compact_of(job);
                    let left = stash@.bag();
                    lemma_leftovers_empty(cm.stash);
                    assert forall|x: crate::job::CompactJobRef|
                        a0.bag().count(x) == self@.bag().insert(j).count(x) by {
                        let cv1 = cv.with_deque(t as int, d1);
                        assert(d0.bag() == d1.bag().add(left).insert(j));
                        assert(cv1.bag().add(d0.bag()).count(x) == cv1.bag().count(x)
                            + d0.bag().count(x));
                        assert(cv.bag().add(d1.bag()).count(x) == cv.bag().count(x)
                            + d1.bag().count(x));
                        assert(a1.bag().add(cv.bag()).count(x) == a1.bag().count(x)
                            + cv.bag().count(x));
                        assert(a0.bag().add(cv1.bag()).count(x) == a0.bag().count(x)
                            + cv1.bag().count(x));
                        assert(self@.bag().add(cm.bag()).count(x) == self@.bag().count(x)
                            + cm.bag().count(x));
                        assert(a2.bag().add(cm2.bag()).count(x) == a2.bag().count(x)
                            + cm2.bag().count(x));
                        assert(d1.bag().add(left).insert(j).count(x) == d1.bag().count(x)
                            + left.count(x) + if x == j { 1nat } else { 0nat });
                    }
                    assert(a0.bag() =~= self@.bag().insert(j));
                }
                Some(job)
            },
            _ => {
                proof {
                    assert(self@ =~= after_peer_probe(a0, me as int, v, t as int));
                }
                None
            },
        }
    }

    /// Probes one source.
    fn probe(&mut self, me: usize, src: WorkSource) -> (res: Option<JobRef>)
        requires
            old(self).wf(),
            me < old(self)@.total(),
            source_ok(src, me as int, old(self)@.total()),
            src is Peer ==> old(self)@.ctxs[me as int].stash.drained(),
        ensures
            final(self).wf(),
            res == source_job(old(self)@, me as int, src),
            final(self)@ == after_probe(old(self)@, me as int, src),
            res matches Some(j) ==> old(self)@.bag() == final(self)@.bag().insert(compact_of(j)),
            res is None ==> old(self)@.bag() == final(self)@.bag(),
            final(self)@.total() == old(self)@.total(),
            res is None && (src == WorkSource::Stash || old(self)@.ctxs[me as int].stash.drained()) ==> final(self)@.ctxs[me as int].stash.drained(),
    {
        match src {
            WorkSource::Tier(t) => self.probe_tier(me, t.idx()),
            WorkSource::Stash => self.probe_stash(me),
            WorkSource::Mailbox => self.probe_mailbox(me),
            WorkSource::Injector => self.probe_injector(),
            WorkSource::Peer(v, t) => self.probe_peer(me, v, t.idx()),
            WorkSource::SearchRoll => {
                let rng: u64 = self.ctxs[me].rng;
                let seed: u64 = if rng == 0 { RNG_SEED } else { rng };
                self.ctxs[me].rng = xorshift_step(seed);
                proof {
                    let c2 = (Ctx { rng: xorshift(seeded(rng)), ..old(self)@.ctxs[me as int] });
                    self.lemma_scalar_update(*old(self), me as int, c2);
                }
                None
            },
            WorkSource::LoopRoll => {
                let rng: u64 = self.ctxs[me].probe_rng;
                self.ctxs[me].probe_rng = xorshift_step(rng);
                proof {
                    let c2 = (Ctx { probe_rng: xorshift(rng), ..old(self)@.ctxs[me as int] });
                    self.lemma_scalar_update(*old(self), me as int, c2);
                }
                None
            },
        }
    }

    /// Changing a worker's scalar fields moves no job.
    proof fn lemma_scalar_update(&self, before: LocalArena, i: int, c2: Ctx)
        requires
            before.wf(),
            0 <= i < before@.total(),
            self.ctxs@ == before.ctxs@.update(i, self.ctxs@[i]),
            self.ctxs@[i]@ == c2,
            self@ == (Arena { ctxs: self@.ctxs, ..before@ }),
            c2.deques == before@.ctxs[i].deques,
            c2.stash == before@.ctxs[i].stash,
            c2.mailbox == before@.ctxs[i].mailbox,
        ensures
            self@ == before@.with_ctx(i, c2),
            self@.bag() == before@.bag(),
    {
        assert(self@ =~= before@.with_ctx(i, c2));
        lemma_arena_bag_update(before@, i, c2);
        lemma_exchange_same(before@.bag(), before@.ctxs[i].bag(), self@.bag(), c2.bag());
    }

    /// Probes sources in order until one has a job.
    fn walk_sources(&mut self, me: usize, order: &Vec<WorkSource>) -> (res: Option<
        (JobRef, WorkSource),
    >)
        requires
            old(self).wf(),
            me < old(self)@.total(),
            forall|i: int|
                0 <= i < order@.len() ==> source_ok(
                    #[trigger] order@[i],
                    me as int,
                    old(self)@.total(),
                ),
            stash_before_peers(order@),
        ensures
            final(self).wf(),
            final(self)@.total() == old(self)@.total(),
            (res, final(self)@) == walk(old(self)@, me as int, order@),
            res matches Some(hit) ==> old(self)@.bag() == final(self)@.bag().insert(
                compact_of(hit.0),
            ) && order@.contains(hit.1),
            res is None ==> old(self)@.bag() == final(self)@.bag(),
            res is None ==> forall|i: int|
                0 <= i < order@.len() ==> source_job(
                    final(self)@,
                    me as int,
                    #[trigger] order@[i],
                ) is None,
    {
        let mut i: usize = 0;
        proof {
            assert(order@.skip(0) =~= order@);
        }
        while i < order.len()
            invariant
                i <= order@.len(),
                self.wf(),
                me < self@.total(),
                self@.total() == old(self)@.total(),
                forall|k: int|
                    0 <= k < order@.len() ==> source_ok(
                        #[trigger] order@[k],
                        me as int,
                        old(self)@.total(),
                    ),
                stash_before_peers(order@),
                walk(old(self)@, me as int, order@) == walk(self@, me as int, order@.skip(i as int)),
                old(self)@.bag() == self@.bag(),
                forall|k: int|
                    0 <= k < i ==> source_job(self@, me as int, #[trigger] order@[k]) is None,
                forall|k: int|
                    0 <= k < i && #[trigger] order@[k] == WorkSource::Stash
                        ==> self@.ctxs[me as int].stash.drained(),
            decreases order@.len() - i,
        {
            let src: WorkSource = order[i];
            let ghost before = self@;
            proof {
                assert(order@.skip(i as int)[0] == src);
                assert(order@.skip(i as int).drop_first() =~= order@.skip(i + 1));
                self.lemma_shape();
            }
            if let Some(job) = self.probe(me, src) {
                return Some((job, src));
            }
            proof {
                assert forall|k: int| 0 <= k < i + 1 implies source_job(
                    self@,
                    me as int,
                    #[trigger] order@[k],
                ) is None by {
                    lemma_failed_probe_keeps(before, me as int, src, order@[k]);
                }
            }
            i += 1;
        }
        None
    }
}

/// Empty leftovers hold no job.
proof fn lemma_leftovers_empty(l: Leftovers)
    requires
        l.drained(),
    ensures
        l.bag() == JobBag::empty(),
{
    crate::job_bag::lemma_seq_bag_empty(l.khl.jobs);
    crate::job_bag::lemma_seq_bag_empty(l.fcl.jobs);
    assert(l.bag() =~= JobBag::empty());
}

/// The deques of peer `v` that worker `me` may steal from, closest tier first.
pub open spec fn peer_sources(me: int, v: usize, ccx_size: int) -> Seq<WorkSource> {
    let d = tier_idx(distance_spec(me, v as int, ccx_size));
    Seq::new((N_TIERS - d) as nat, |i: int| WorkSource::Peer(v, tier_at(d + i)->Some_0))
}

/// The worker's own sources in a work search: the widest tier, the leftovers,
/// the mailbox (once any was used), the closer tiers, the submitted jobs.
pub open spec fn search_local(mailbox_ever_used: bool) -> Seq<WorkSource> {
    seq![WorkSource::Tier(DequeTier::Public), WorkSource::Stash] + (if mailbox_ever_used {
        seq![WorkSource::Mailbox]
    } else {
        Seq::empty()
    }) + seq![
        WorkSource::Tier(DequeTier::SmtLocal),
        WorkSource::Tier(DequeTier::IntraCcx),
        WorkSource::Tier(DequeTier::CrossCcx),
        WorkSource::Injector,
    ]
}

/// The last successful victim's deques, if there is one.
pub open spec fn search_last(a: Arena, me: int) -> Seq<WorkSource> {
    match a.ctxs[me].last_victim {
        Some(v) => if v != me && v < a.total() {
            peer_sources(me, v, a.ccx_size)
        } else {
            Seq::empty()
        },
        None => Seq::empty(),
    }
}

/// The victim that a work search rolls.
pub open spec fn search_victim(a: Arena, me: int) -> int {
    victim_of(xorshift(seeded(a.ctxs[me].rng)), me, a.total())
}

/// Probe order of a work search: the worker's own sources, then the last
/// successful victim, then a random peer.
pub open spec fn search_order(a: Arena, me: int) -> Seq<WorkSource> {
    let local = search_local(a.mailbox_ever_used);
    if a.total() < 2 {
        local
    } else {
        local + search_last(a, me) + seq![WorkSource::SearchRoll] + peer_sources(
            me,
            search_victim(a, me) as usize,
            a.ccx_size,
        )
    }
}

/// Up to `left` peers of a rotation that starts at `start`, from offset `off`
/// on, skipping `me`.
pub open spec fn victims_from(start: int, off: int, left: int, me: int, n: int) -> Seq<int>
    decreases n - off,
{
    if off >= n || left <= 0 {
        Seq::empty()
    } else {
        let v = (start + off) % n;
        if v == me {
            victims_from(start, off + 1, left, me, n)
        } else {
            seq![v] + victims_from(start, off + 1, left - 1, me, n)
        }
    }
}

/// Number of peers that the worker loop probes in a pool of `n`.
pub open spec fn probe_count(n: int) -> int {
    if n <= PROBE_FULL_CUTOFF { n - 1 } else { PROBE_LARGE as int }
}

/// The deques of a list of peers, one peer after the other.
pub open spec fn victims_sources(me: int, victims: Seq<int>, ccx_size: int) -> Seq<WorkSource>
    decreases victims.len(),
{
    if victims.len() == 0 {
        Seq::empty()
    } else {
        victims_sources(me, victims.drop_last(), ccx_size) + peer_sources(
            me,
            victims.last() as usize,
            ccx_size,
        )
    }
}

/// The peers that the worker loop probes in this round.
pub open spec fn loop_victims(a: Arena, me: int) -> Seq<int> {
    let n = a.total();
    victims_from(victim_of(xorshift(a.ctxs[me].probe_rng), me, n), 0, probe_count(n), me, n)
}

/// Probe order of the worker loop: leftovers, mailbox, own tiers from the
/// closest, submitted jobs, then a rotation of peers.
pub open spec fn loop_order(a: Arena, me: int) -> Seq<WorkSource> {
    let local = seq![
        WorkSource::Stash,
        WorkSource::Mailbox,
        WorkSource::Tier(DequeTier::SmtLocal),
        WorkSource::Tier(DequeTier::IntraCcx),
        WorkSource::Tier(DequeTier::CrossCcx),
        WorkSource::Tier(DequeTier::Public),
        WorkSource::Injector,
    ];
    if a.total() < 2 {
        local
    } else {
        local + seq![WorkSource::LoopRoll] + victims_sources(me, loop_victims(a, me), a.ccx_size)
    }
}

/// Every source of an order may be probed, and the leftovers come before any
/// peer.
pub open spec fn order_ok(order: Seq<WorkSource>, me: int, n: int) -> bool {
    &&& forall|i: int| 0 <= i < order.len() ==> source_ok(#[trigger] order[i], me, n)
    &&& stash_before_peers(order)
}

/// Appending sources behind the leftovers keeps an order admissible.
proof fn lemma_order_append(order: Seq<WorkSource>, more: Seq<WorkSource>, me: int, n: int, s: int)
    requires
        order_ok(order, me, n),
        0 <= s < order.len(),
        order[s] == WorkSource::Stash,
        forall|i: int| 0 <= i < more.len() ==> source_ok(#[trigger] more[i], me, n),
    ensures
        order_ok(order + more, me, n),
        (order + more)[s] == WorkSource::Stash,
{
    let both = order + more;
    assert forall|i: int| 0 <= i < both.len() && (#[trigger] both[i]) is Peer implies exists|j: int|
        0 <= j < i && #[trigger] both[j] == WorkSource::Stash by {
        if i < order.len() {
            let j = choose|j: int| 0 <= j < i && #[trigger] order[j] == WorkSource::Stash;
            assert(both[j] == WorkSource::Stash);
        } else {
            assert(both[s] == WorkSource::Stash);
        }
    }
}

/// Appends the deques of a peer that the worker may steal from.
fn push_peer_sources(order: &mut Vec<WorkSource>, me: usize, v: usize, ccx_size: usize)
    ensures
        final(order)@ == old(order)@ + peer_sources(me as int, v, ccx_size as int),
{
    let d: usize = peer_distance(me, v, ccx_size).idx();
    let mut t: usize = d;
    proof {
        assert(order@ =~= old(order)@ + peer_sources(me as int, v, ccx_size as int).take(0));
    }
    while t < N_TIERS
        invariant
            d <= t <= N_TIERS,
            d == tier_idx(distance_spec(me as int, v as int, ccx_size as int)),
            order@ == old(order)@ + peer_sources(me as int, v, ccx_size as int).take(t - d),
        decreases N_TIERS - t,
    {
        let tier: DequeTier = match DequeTier::from_idx(t) {
            Some(tier) => tier,
            None => DequeTier::Public,
        };
        order.push(WorkSource::Peer(v, tier));
        proof {
            let all = peer_sources(me as int, v, ccx_size as int);
            assert(all.take(t + 1 - d) =~= all.take(t - d).push(all[t - d]));
        }
        t += 1;
    }
    proof {
        let all = peer_sources(me as int, v, ccx_size as int);
        assert(all.take(N_TIERS - d) =~= all);
    }
}

impl LocalArena {
    /// Probe order of a work search.
    fn build_search_order(&self, me: usize) -> (res: Vec<WorkSource>)
        requires
            self.wf(),
            me < self@.total(),
        ensures
            res@ == search_order(self@, me as int),
            order_ok(res@, me as int, self@.total()),
    {
        proof {
            self.lemma_shape();
        }
        let ghost n = self@.total();
        let mut order: Vec<WorkSource> = Vec::new();
        order.push(WorkSource::Tier(DequeTier::Public));
        order.push(WorkSource::Stash);
        if self.mailbox_ever_used {
            order.push(WorkSource::Mailbox);
        }
        order.push(WorkSource::Tier(DequeTier::SmtLocal));
        order.push(WorkSource::Tier(DequeTier::IntraCcx));
        order.push(WorkSource::Tier(DequeTier::CrossCcx));
        order.push(WorkSource::Injector);
        proof {
            assert(order@ =~= search_local(self@.mailbox_ever_used));
            assert(order@[1] == WorkSource::Stash);
            assert(order_ok(order@, me as int, n));
        }
        let total: usize = self.ctxs.len();
        if total < 2 {
            return order;
        }
        let ghost local = order@;
        if let Some(v) = self.ctxs[me].last_victim {
            if v != me && v < total {
                push_peer_sources(&mut order, me, v, self.ccx_size);
                proof {
                    lemma_order_append(
                        local,
                        peer_sources(me as int, v, self@.ccx_size),
                        me as int,
                        n,
                        1,
                    );
                }
            }
        }
        proof {
            assert(order@ =~= local + search_last(self@, me as int));
        }
        let ghost upto = order@;
        order.push(WorkSource::SearchRoll);
        let rng: u64 = self.ctxs[me].rng;
        let seed: u64 = if rng == 0 { RNG_SEED } else { rng };
        let victim: usize = victim_from(xorshift_step(seed), me, total);
        push_peer_sources(&mut order, me, victim, self.ccx_size);
        proof {
            let roll = seq![WorkSource::SearchRoll];
            let rest = peer_sources(me as int, victim, self@.ccx_size);
            assert(upto.push(WorkSource::SearchRoll) =~= upto + roll);
            lemma_order_append(upto, roll, me as int, n, 1);
            lemma_order_append(upto + roll, rest, me as int, n, 1);
            assert(order@ =~= search_order(self@, me as int));
        }
        order
    }

    /// Finds one job for worker `me`: in its own deques, leftovers and
    /// mailbox, among the submitted jobs, or with a peer. The search order is
    /// fixed by the arena's state. `None` means that every source of the
    /// order was empty.
    pub fn find_work(&mut self, me: usize) -> (res: Option<JobRef>)
        requires
            old(self).wf(),
            me < old(self)@.total(),
        ensures
            final(self).wf(),
            final(self)@.total() == old(self)@.total(),
            res == match walk(old(self)@, me as int, search_order(old(self)@, me as int)).0 {
                Some(hit) => Some(hit.0),
                None => None,
            },
            final(self)@ == walk(old(self)@, me as int, search_order(old(self)@, me as int)).1,
            res matches Some(j) ==> old(self)@.bag() == final(self)@.bag().insert(compact_of(j)),
            res is None ==> old(self)@.bag() == final(self)@.bag(),
            res is None ==> forall|src: WorkSource|
                search_order(old(self)@, me as int).contains(src) ==> #[trigger] source_job(
                    final(self)@,
                    me as int,
                    src,
                ) is None,
    {
        let order = self.build_search_order(me);
        match self.walk_sources(me, &order) {
            Some(hit) => Some(hit.0),
            None => {
                proof {
                    assert forall|src: WorkSource| order@.contains(src) implies #[trigger] source_job(
                        self@,
                        me as int,
                        src,
                    ) is None by {
                        let i = choose|i: int| 0 <= i < order@.len() && order@[i] == src;
                        assert(source_job(self@, me as int, order@[i]) is None);
                    }
                }
                None
            },
        }
    }

    /// Probe order of the worker loop.
    fn build_loop_order(&self, me: usize) -> (res: Vec<WorkSource>)
        requires
            self.wf(),
            me < self@.total(),
        ensures
            res@ == loop_order(self@, me as int),
            order_ok(res@, me as int, self@.total()),
    {
        proof {
            self.lemma_shape();
        }
        let mut order: Vec<WorkSource> = Vec::new();
        order.push(WorkSource::Stash);
        order.push(WorkSource::Mailbox);
        order.push(WorkSource::Tier(DequeTier::SmtLocal));
        order.push(WorkSource::Tier(DequeTier::IntraCcx));
        order.push(WorkSource::Tier(DequeTier::CrossCcx));
        order.push(WorkSource::Tier(DequeTier::Public));
        order.push(WorkSource::Injector);
        proof {
            assert(order@[0] == WorkSource::Stash);
            assert(order_ok(order@, me as int, self@.total()));
        }
        let n: usize = self.ctxs.len();
        if n < 2 {
            return order;
        }
        let ghost local = order@;
        order.push(WorkSource::LoopRoll);
        let ghost head = order@;
        proof {
            let roll = seq![WorkSource::LoopRoll];
            assert(head =~= local + roll);
            lemma_order_append(local, roll, me as int, n as int, 0);
        }
        let count: usize = if n <= PROBE_FULL_CUTOFF { n - 1 } else { PROBE_LARGE };
        let start: usize = victim_from(xorshift_step(self.ctxs[me].probe_rng), me, n);
        let mut probed: usize = 0;
        let mut offset: usize = 0;
        let mut victim: usize = start;
        let ghost all = loop_victims(self@, me as int);
        let ghost mut done: Seq<int> = Seq::empty();
        proof {
            vstd::arithmetic::div_mod::lemma_small_mod(start as nat, n as nat);
            assert(done + victims_from(start as int, 0, count as int, me as int, n as int) =~= all);
            assert(order@ =~= head + victims_sources(me as int, done, self@.ccx_size));
        }
        while probed < count && offset < n
            invariant
                n == self@.total(),
                n == self.ctxs@.len(),
                me < n,
                start < n,
                count == probe_count(n as int),
                probed <= count,
                offset <= n,
                victim < n,
                victim == (start + offset) % (n as int),
                self.ccx_size == self@.ccx_size,
                all == done + victims_from(
                    start as int,
                    offset as int,
                    count - probed,
                    me as int,
                    n as int,
                ),
                order@ == head + victims_sources(me as int, done, self@.ccx_size),
                order_ok(order@, me as int, n as int),
                order@.len() > 0,
                order@[0] == WorkSource::Stash,
            decreases n - offset,
        {
            let v: usize = victim;
            let ghost rest = victims_from(
                start as int,
                offset as int,
                count - probed,
                me as int,
                n as int,
            );
            proof {
                lemma_rotate(start as int, offset as int, n as int);
            }
            victim = if victim + 1 == n { 0 } else { victim + 1 };
            offset += 1;
            if v != me {
                probed += 1;
                let ghost before = order@;
                push_peer_sources(&mut order, me, v, self.ccx_size);
                proof {
                    let more = peer_sources(me as int, v, self@.ccx_size);
                    lemma_order_append(before, more, me as int, n as int, 0);
                    let done2 = done.push(v as int);
                    assert(done2.drop_last() =~= done);
                    assert(order@ =~= head + victims_sources(me as int, done2, self@.ccx_size));
                    let tail = victims_from(
                        start as int,
                        offset as int,
                        count - probed,
                        me as int,
                        n as int,
                    );
                    assert(rest =~= seq![v as int] + tail);
                    assert(done + (seq![v as int] + tail) =~= done2 + tail);
                    done = done2;
                }
            }
        }
        proof {
            assert(victims_from(start as int, offset as int, count - probed, me as int, n as int)
                =~= Seq::<int>::empty());
            assert(done =~= all);
            assert(order@ =~= loop_order(self@, me as int));
        }
        order
    }
}

/// One more step of a rotation.
proof fn lemma_rotate(start: int, off: int, n: int)
    requires
        n > 0,
    ensures
        (start + off + 1) % n == if (start + off) % n + 1 == n {
            0
        } else {
            (start + off) % n + 1
        },
{
    vstd::arithmetic::div_mod::lemma_add_mod_noop(start + off, 1, n);
    vstd::arithmetic::div_mod::lemma_mod_self_0(n);
    let r = (start + off) % n;
    if n > 1 {
        vstd::arithmetic::div_mod::lemma_small_mod(1, n as nat);
        if r + 1 < n {
            vstd::arithmetic::div_mod::lemma_small_mod((r + 1) as nat, n as nat);
        }
    }
}

/// What a worker thread is to do next.
#[derive(Debug, Clone, Copy, PartialEq, Eq, Structural)]
pub enum WorkerAction {
    /// Leave the loop; report found work if it was looking.
    Exit {
        /// Whether the thread was looking for work.
        work_found: bool,
    },
    /// Wait until sibling workers are requested.
    WaitForRequest,
    /// Execute a job; report found work first if it was looking.
    Run {
        /// The job.
        job: JobRef,
        /// Whether the thread was looking for work.
        work_found: bool,
    },
    /// Nothing to do: start looking if it was not, then go idle.
    Idle {
        /// Whether the thread starts looking now.
        start_looking: bool,
    },
}

/// The worker's state once a job of a source has been taken.
pub open spec fn after_hit(c: Ctx, src: WorkSource) -> Ctx {
    let s = c.stats;
    Ctx {
        stats: match src {
            WorkSource::Mailbox | WorkSource::Tier(_) => (WorkerStats {
                local_pops: bump(s.local_pops),
                ..s
            }),
            WorkSource::Peer(_, _) => (WorkerStats { peer_steal_hits: bump(s.peer_steal_hits), ..s }),
            _ => s,
        },
        idle: false,
        ..c
    }
}

/// The worker's state after a round that found nothing in a pool of `n`.
pub open spec fn after_miss(c: Ctx, n: int) -> Ctx {
    let s = c.stats;
    Ctx {
        stats: if n >= 2 {
            (WorkerStats { peer_steal_misses: bump(s.peer_steal_misses), ..s })
        } else {
            s
        },
        idle: true,
        ..c
    }
}

/// One round of the worker loop: shut down, wait as an unrequested sibling,
/// run the first job of the probe order, or go idle.
pub open spec fn worker_step(a: Arena, me: int, own_shutdown: bool) -> (WorkerAction, Arena) {
    let c = a.ctxs[me];
    if own_shutdown || a.shutdown {
        (
            WorkerAction::Exit { work_found: c.idle },
            a.with_ctx(me, (Ctx { idle: false, ..c })),
        )
    } else if me >= a.primary_count && a.smt_requests == 0 {
        (WorkerAction::WaitForRequest, a)
    } else {
        let (hit, b) = walk(a, me, loop_order(a, me));
        match hit {
            Some((job, src)) => (
                WorkerAction::Run { job, work_found: c.idle },
                b.with_ctx(me, after_hit(b.ctxs[me], src)),
            ),
            None => (
                WorkerAction::Idle { start_looking: !c.idle },
                b.with_ctx(me, after_miss(b.ctxs[me], a.total())),
            ),
        }
    }
}

/// Worker `me` has nothing of its own to do, and nothing is submitted.
pub open spec fn own_sources_empty(a: Arena, me: int) -> bool {
    &&& forall|t: int| 0 <= t < N_TIERS ==> (#[trigger] a.ctxs[me].deques[t]).next_pop() is None
    &&& a.ctxs[me].stash.next_drain() is None
    &&& a.ctxs[me].mailbox.len() == 0
    &&& a.injector.len() == 0
}

impl LocalArena {
    /// Decides the next round of a worker thread. `own_shutdown` says that
    /// this thread alone was told to stop.
    pub fn worker_loop_step(&mut self, me: usize, own_shutdown: bool) -> (res: WorkerAction)
        requires
            old(self).wf(),
            me < old(self)@.n_workers,
        ensures
            final(self).wf(),
            (res, final(self)@) == worker_step(old(self)@, me as int, own_shutdown),
            res matches WorkerAction::Run { job, .. } ==> old(self)@.bag() == final(self)@.bag().insert(compact_of(job)),
            !(res is Run) ==> final(self)@.bag() == old(self)@.bag(),
            res is Idle ==> own_sources_empty(final(self)@, me as int),
    {
        proof {
            self.lemma_shape();
        }
        let was_idle: bool = self.ctxs[me].idle;
        if own_shutdown || self.shutdown {
            self.ctxs[me].idle = false;
            proof {
                let c2 = (Ctx { idle: false, ..old(self)@.ctxs[me as int] });
                self.lemma_scalar_update(*old(self), me as int, c2);
            }
            return WorkerAction::Exit { work_found: was_idle };
        }
        if me >= self.primary_count && self.smt_requests == 0 {
            return WorkerAction::WaitForRequest;
        }
        let order = self.build_loop_order(me);
        let hit = self.walk_sources(me, &order);
        let ghost mid = *self;
        proof {
            mid.lemma_shape();
        }
        let n: usize = self.ctxs.len();
        match hit {
            Some((job, src)) => {
                match src {
                    WorkSource::Mailbox | WorkSource::Tier(_) => {
                        self.ctxs[me].stats.local_pops =
                            self.ctxs[me].stats.local_pops.wrapping_add(1);
                    },
                    WorkSource::Peer(_, _) => {
                        self.ctxs[me].stats.peer_steal_hits =
                            self.ctxs[me].stats.peer_steal_hits.wrapping_add(1);
                    },
                    _ => {},
                }
                self.ctxs[me].idle = false;
                proof {
                    let c2 = after_hit(mid@.ctxs[me as int], src);
                    assert(self.ctxs@[me as int]@ =~= c2);
                    assert(self.ctxs@ =~= mid.ctxs@.update(me as int, self.ctxs@[me as int]));
                    self.lemma_scalar_update(mid, me as int, c2);
                }
                WorkerAction::Run { job, work_found: was_idle }
            },
            None => {
                if n >= 2 {
                    self.ctxs[me].stats.peer_steal_misses =
                        self.ctxs[me].stats.peer_steal_misses.wrapping_add(1);
                }
                self.ctxs[me].idle = true;
                proof {
                    let c2 = after_miss(mid@.ctxs[me as int], mid@.total());
                    assert(self.ctxs@[me as int]@ =~= c2);
                    assert(self.ctxs@ =~= mid.ctxs@.update(me as int, self.ctxs@[me as int]));
                    self.lemma_scalar_update(mid, me as int, c2);
                    assert(order@[0] == WorkSource::Stash);
                    assert(order@[1] == WorkSource::Mailbox);
                    assert(order@[2] == WorkSource::Tier(DequeTier::SmtLocal));
                    assert(order@[3] == WorkSource::Tier(DequeTier::IntraCcx));
                    assert(order@[4] == WorkSource::Tier(DequeTier::CrossCcx));
                    assert(order@[5] == WorkSource::Tier(DequeTier::Public));
                    assert(order@[6] == WorkSource::Injector);
                }
                WorkerAction::Idle { start_looking: !was_idle }
            },
        }
    }
}

/// Rounds a sibling yields before it starts to sleep.
pub const SMT_SIBLING_SPIN_ROUNDS: u32 = 1000;

/// Rounds a sibling sleeps before it parks.
pub const SMT_SIBLING_SLEEP_ROUNDS: u32 = 100;

/// Length of one sleep round in microseconds.
pub const SMT_SIBLING_SLEEP_US: u64 = 100;

/// Where a waiting sibling is.
#[derive(Debug, Clone, Copy, PartialEq, Eq, Structural)]
pub enum SmtGate {
    /// Has yielded this many times.
    Spinning {
        /// Rounds so far.
        rounds: u32,
    },
    /// Has slept this many times.
    Sleeping {
        /// Rounds so far.
        rounds: u32,
    },
    /// Has parked and was woken.
    Woken,
}

/// What a waiting sibling is to do next.
#[derive(Debug, Clone, Copy, PartialEq, Eq, Structural)]
pub enum GateAction {
    /// Return to the worker loop.
    Leave,
    /// End the thread.
    Exit,
    /// Yield the processor.
    Yield,
    /// Sleep for this many microseconds.
    SleepMicros(u64),
    /// Park until siblings are requested or the arena shuts down.
    Park,
}

/// The next step of a waiting sibling.
pub open spec fn gate_step(gate: SmtGate, smt_requests: u32, shutdown: bool) -> (
    GateAction,
    SmtGate,
) {
    match gate {
        SmtGate::Woken => (GateAction::Leave, gate),
        SmtGate::Spinning { rounds } if rounds < SMT_SIBLING_SPIN_ROUNDS => {
            if smt_requests > 0 {
                (GateAction::Leave, gate)
            } else if shutdown {
                (GateAction::Exit, gate)
            } else {
                (GateAction::Yield, SmtGate::Spinning { rounds: (rounds + 1) as u32 })
            }
        },
        _ => {
            let slept = match gate {
                SmtGate::Sleeping { rounds } => rounds,
                _ => 0,
            };
            if slept >= SMT_SIBLING_SLEEP_ROUNDS {
                (GateAction::Park, SmtGate::Woken)
            } else if smt_requests > 0 {
                (GateAction::Leave, gate)
            } else if shutdown {
                (GateAction::Exit, gate)
            } else {
                (
                    GateAction::SleepMicros(SMT_SIBLING_SLEEP_US),
                    SmtGate::Sleeping { rounds: (slept + 1) as u32 },
                )
            }
        },
    }
}

/// Decides the next step of a sibling that waits for a request: it yields for
/// a while, then sleeps in short rounds, then parks.
pub fn smt_gate_step(gate: SmtGate, smt_requests: u32, shutdown: bool) -> (res: (
    GateAction,
    SmtGate,
))
    ensures
        res == gate_step(gate, smt_requests, shutdown),
{
    if let SmtGate::Woken = gate {
        return (GateAction::Leave, gate);
    }
    let mut slept: u32 = 0;
    match gate {
        SmtGate::Spinning { rounds } => {
            if rounds < SMT_SIBLING_SPIN_ROUNDS {
                if smt_requests > 0 {
                    return (GateAction::Leave, gate);
                }
                if shutdown {
                    return (GateAction::Exit, gate);
                }
                return (GateAction::Yield, SmtGate::Spinning { rounds: rounds + 1 });
            }
        },
        SmtGate::Sleeping { rounds } => {
            slept = rounds;
        },
        SmtGate::Woken => {},
    }
    if slept >= SMT_SIBLING_SLEEP_ROUNDS {
        return (GateAction::Park, SmtGate::Woken);
    }
    if smt_requests > 0 {
        return (GateAction::Leave, gate);
    }
    if shutdown {
        return (GateAction::Exit, gate);
    }
    (
        GateAction::SleepMicros(SMT_SIBLING_SLEEP_US),
        SmtGate::Sleeping { rounds: slept + 1 },
    )
}

/// Rounds that a waiting sibling has left before it returns to the loop.
pub open spec fn gate_rounds_left(gate: SmtGate) -> int {
    match gate {
        SmtGate::Spinning { rounds } => if rounds < SMT_SIBLING_SPIN_ROUNDS {
            SMT_SIBLING_SPIN_ROUNDS - rounds + SMT_SIBLING_SLEEP_ROUNDS + 2
        } else {
            SMT_SIBLING_SLEEP_ROUNDS + 2
        },
        SmtGate::Sleeping { rounds } => if rounds < SMT_SIBLING_SLEEP_ROUNDS {
            SMT_SIBLING_SLEEP_ROUNDS - rounds + 2
        } else {
            2
        },
        SmtGate::Woken => 1,
    }
}

/// A waiting sibling keeps waiting for a bounded number of rounds: each step
/// leaves, ends the thread, or comes closer to leaving; and it never parks
/// before its yields and sleeps are used up.
pub proof fn law_gate_is_bounded(gate: SmtGate, smt_requests: u32, shutdown: bool)
    ensures
        gate_step(gate, smt_requests, shutdown).0 is Leave || gate_step(
            gate,
            smt_requests,
            shutdown,
        ).0 is Exit || gate_rounds_left(gate_step(gate, smt_requests, shutdown).1)
            < gate_rounds_left(gate),
        gate_rounds_left(gate) >= 1,
        gate_step(gate, smt_requests, shutdown).0 is Park ==> gate_rounds_left(gate) == 2,
{
}

/// Request to the sleep coordinator to wake workers for new jobs.
#[derive(Debug, Clone, Copy, PartialEq, Eq, Structural)]
pub struct Wake {
    /// Number of new jobs.
    pub jobs: u32,
    /// Whether the queue was empty before.
    pub queue_was_empty: bool,
}

/// The wake request of a push, if the dispatch asks for one.
pub open spec fn wake_if(use_jec_wake: bool, jobs: u32, queue_was_empty: bool) -> Option<Wake> {
    if use_jec_wake {
        Some(Wake { jobs, queue_was_empty })
    } else {
        None
    }
}

/// Hint that none of a worker's deques has anything to pop.
pub open spec fn deques_look_empty(c: Ctx) -> bool {
    forall|t: int|
        0 <= t < N_TIERS ==> (#[trigger] c.deques[t]).khl.drained()
            && c.deques[t].fcl.stash.jobs.len() == 0
}

/// A free slot is left in the active backing of tier position `t`.
pub open spec fn tier_has_slot(c: Ctx, t: int) -> bool {
    c.deques[t].front().published.len() < c.slot_limit
}

/// The worker after a job was pushed to tier position `t` and published.
pub open spec fn after_push(c: Ctx, t: int, job: JobRef) -> Ctx {
    let d = c.deques[t];
    Ctx {
        stats: (WorkerStats { single_pushes: bump(c.stats.single_pushes), ..c.stats }),
        ..c.with_deque(t, d.with_front(d.front().pushed(job)))
    }
}

/// The worker after a job entered the accumulator of tier position `t`.
pub open spec fn after_burst(c: Ctx, t: int, job: JobRef) -> Ctx {
    let d = c.deques[t];
    Ctx {
        stats: (WorkerStats { burst_pushes: bump(c.stats.burst_pushes), ..c.stats }),
        burst_pushed: if c.burst_pushed == u32::MAX {
            c.burst_pushed
        } else {
            (c.burst_pushed + 1) as u32
        },
        ..c.with_deque(t, d.with_front(d.front().burst(job)))
    }
}

/// The worker after every tier was flushed.
pub open spec fn after_flush(c: Ctx) -> Ctx {
    Ctx {
        deques: c.deques.map_values(|d: Adaptive| d.with_front(d.front().flushed())),
        burst_pushed: 0,
        ..c
    }
}

/// Every accumulator with jobs has a free slot to go to.
pub open spec fn flush_has_room(c: Ctx) -> bool {
    forall|t: int|
        0 <= t < N_TIERS ==> (#[trigger] c.deques[t]).front().buffered.jobs.len() > 0
            ==> tier_has_slot(c, t)
}

impl LocalArena {
    /// Hands a job to a worker's mailbox; gives it back when the worker does
    /// not exist or the mailbox is full.
    pub fn push_to_mailbox(&mut self, target: usize, job: JobRef, use_jec_wake: bool) -> (res: Result<
        Option<Wake>,
        JobRef,
    >)
        requires
            old(self).wf(),
        ensures
            final(self).wf(),
            target >= old(self)@.total() || old(self)@.ctxs[target as int].mailbox.len()
                >= MAILBOX_CAPACITY ==> {
                &&& res == Err::<Option<Wake>, JobRef>(job)
                &&& final(self)@ == old(self)@
            },
            target < old(self)@.total() && old(self)@.ctxs[target as int].mailbox.len()
                < MAILBOX_CAPACITY ==> {
                let c = old(self)@.ctxs[target as int];
                &&& res == Ok::<Option<Wake>, JobRef>(
                    wake_if(use_jec_wake, 1, c.mailbox.len() == 0),
                )
                &&& final(self)@ == (Arena {
                    mailbox_ever_used: true,
                    ..old(self)@.with_ctx(
                        target as int,
                        (Ctx { mailbox: c.mailbox.push(job), ..c }),
                    )
                })
                &&& final(self)@.bag() == old(self)@.bag().insert(compact_of(job))
            },
    {
        if target >= self.ctxs.len() {
            return Err(job);
        }
        let ghost c = self@.ctxs[target as int];
        let was_empty: bool = self.ctxs[target].mailbox.is_empty();
        match self.ctxs[target].mailbox.push(job) {
            PushResult::Pushed => {},
            PushResult::Full(j) => {
                proof {
                    assert(self.ctxs@[target as int]@ =~= c);
                    assert(self@ =~= old(self)@);
                }
                return Err(j);
            },
        }
        proof {
            let c2 = (Ctx { mailbox: c.mailbox.push(job), ..c });
            assert(self.ctxs@[target as int]@ =~= c2);
            assert(self@ =~= old(self)@.with_ctx(target as int, c2));
            lemma_arena_bag_update(old(self)@, target as int, c2);
            lemma_refs_bag_push(c.mailbox, job);
            assert(c2.bag() =~= c.bag().insert(compact_of(job)));
            lemma_exchange_give(old(self)@.bag(), c.bag(), self@.bag(), c2.bag(), compact_of(job));
        }
        let ghost mid = self@;
        self.mailbox_ever_used = true;
        proof {
            assert(self@ =~= (Arena { mailbox_ever_used: true, ..mid }));
        }
        if use_jec_wake {
            Ok(Some(Wake { jobs: 1, queue_was_empty: was_empty }))
        } else {
            Ok(None)
        }
    }

    /// Adds a job to the accumulator of a worker's default deque.
    pub fn push_burst(&mut self, me: usize, job: JobRef)
        requires
            old(self).wf(),
            me < old(self)@.total(),
            old(self)@.ctxs[me as int].deques[3].front().buffered.jobs.len() == 2 ==> tier_has_slot(
                old(self)@.ctxs[me as int],
                3,
            ),
        ensures
            final(self).wf(),
            final(self)@ == old(self)@.with_ctx(
                me as int,
                after_burst(old(self)@.ctxs[me as int], 3, job),
            ),
            final(self)@.bag() == old(self)@.bag().insert(compact_of(job)),
    {
        self.push_tier_burst(me, job, DequeTier::Public);
    }

    /// Whether a burst push to a tier would have to wait for a thief.
    pub fn burst_would_block(&self, me: usize, tier: DequeTier) -> (res: bool)
        requires
            self.wf(),
            me < self@.total(),
        ensures
            res == (self@.ctxs[me as int].deques[tier_idx(tier)].front().buffered.jobs.len() == 2
                && !tier_has_slot(self@.ctxs[me as int], tier_idx(tier))),
    {
        self.ctxs[me].deques[tier.idx()].burst_would_block()
    }

    /// Adds a job to the accumulator of a worker's deque; the third one
    /// publishes it, which needs a free slot. No wake request is made before
    /// the flush.
    pub fn push_tier_burst(&mut self, me: usize, job: JobRef, tier: DequeTier)
        requires
            old(self).wf(),
            me < old(self)@.total(),
            old(self)@.ctxs[me as int].deques[tier_idx(tier)].front().buffered.jobs.len() == 2
                ==> tier_has_slot(old(self)@.ctxs[me as int], tier_idx(tier)),
        ensures
            final(self).wf(),
            final(self)@ == old(self)@.with_ctx(
                me as int,
                after_burst(old(self)@.ctxs[me as int], tier_idx(tier), job),
            ),
            final(self)@.bag() == old(self)@.bag().insert(compact_of(job)),
    {
        let ghost c = self@.ctxs[me as int];
        let t: usize = tier.idx();
        self.ctxs[me].deques[t].push_burst(job);
        let ghost d = self.ctxs@[me as int].deques@[t as int]@;
        let ghost mid = *self;
        proof {
            let c1 = c.with_deque(t as int, d);
            assert(self.ctxs@[me as int]@ =~= c1);
            assert(self@ =~= old(self)@.with_ctx(me as int, c1));
            lemma_ctx_bag_update(c, t as int, d);
            lemma_arena_bag_update(old(self)@, me as int, c1);
            lemma_exchange_give(c.bag(), c.deques[t as int].bag(), c1.bag(), d.bag(), compact_of(job));
            lemma_exchange_give(old(self)@.bag(), c.bag(), self@.bag(), c1.bag(), compact_of(job));
        }
        self.ctxs[me].burst_pushed = self.ctxs[me].burst_pushed.saturating_add(1);
        self.ctxs[me].stats.burst_pushes = self.ctxs[me].stats.burst_pushes.wrapping_add(1);
        proof {
            let c2 = after_burst(c, t as int, job);
            assert(self.ctxs@[me as int]@ =~= c2);
            assert(self.ctxs@ =~= mid.ctxs@.update(me as int, self.ctxs@[me as int]));
            self.lemma_scalar_update(mid, me as int, c2);
            assert(self@ =~= old(self)@.with_ctx(me as int, c2));
        }
    }

    /// Whether flushing a worker would have to wait for a thief.
    pub fn flush_would_block(&self, me: usize) -> (res: bool)
        requires
            self.wf(),
            me < self@.total(),
        ensures
            res == !flush_has_room(self@.ctxs[me as int]),
    {
        let mut t: usize = 0;
        while t < N_TIERS
            invariant
                t <= N_TIERS,
                self.wf(),
                me < self@.total(),
                forall|k: int|
                    0 <= k < t ==> (#[trigger] self@.ctxs[me as int].deques[k]).front().buffered.jobs.len()
                        > 0 ==> tier_has_slot(self@.ctxs[me as int], k),
            decreases N_TIERS - t,
        {
            if self.ctxs[me].deques[t].flush_would_block() {
                proof {
                    let d = self@.ctxs[me as int].deques[t as int];
                    assert(d.front().buffered.jobs.len() > 0);
                    assert(!tier_has_slot(self@.ctxs[me as int], t as int));
                }
                return true;
            }
            t += 1;
        }
        false
    }

    /// Publishes every accumulator of a worker and makes one wake request for
    /// all burst pushes since the last flush.
    pub fn flush_all(&mut self, me: usize, use_jec_wake: bool) -> (res: Option<Wake>)
        requires
            old(self).wf(),
            me < old(self)@.total(),
            flush_has_room(old(self)@.ctxs[me as int]),
        ensures
            final(self).wf(),
            res == wake_if(
                use_jec_wake && old(self)@.ctxs[me as int].burst_pushed > 0,
                old(self)@.ctxs[me as int].burst_pushed,
                true,
            ),
            final(self)@ == old(self)@.with_ctx(me as int, after_flush(old(self)@.ctxs[me as int])),
            final(self)@.bag() == old(self)@.bag(),
    {
        let ghost c = self@.ctxs[me as int];
        let ghost f = |d: Adaptive| d.with_front(d.front().flushed());
        let mut t: usize = 0;
        proof {
            assert(self@ =~= old(self)@.with_ctx(me as int, c));
        }
        while t < N_TIERS
            invariant
                t <= N_TIERS,
                self.wf(),
                me < self@.total(),
                self@.total() == old(self)@.total(),
                c == old(self)@.ctxs[me as int],
                c.deques.len() == N_TIERS,
                flush_has_room(c),
                f == (|d: Adaptive| d.with_front(d.front().flushed())),
                self@ == old(self)@.with_ctx(me as int, self@.ctxs[me as int]),
                self@.ctxs[me as int] == (Ctx { deques: self@.ctxs[me as int].deques, ..c }),
                forall|k: int|
                    0 <= k < N_TIERS ==> #[trigger] self@.ctxs[me as int].deques[k] == if k < t {
                        f(c.deques[k])
                    } else {
                        c.deques[k]
                    },
                self@.bag() == old(self)@.bag(),
            decreases N_TIERS - t,
        {
            let ghost before = self@;
            let ghost c0 = self@.ctxs[me as int];
            assert(c0.deques[t as int] == c.deques[t as int]);
            self.ctxs[me].deques[t].flush();
            let ghost d = self.ctxs@[me as int].deques@[t as int]@;
            proof {
                let c1 = c0.with_deque(t as int, d);
                assert(self.ctxs@[me as int]@ =~= c1);
                assert(self@ =~= before.with_ctx(me as int, c1));
                lemma_ctx_bag_update(c0, t as int, d);
                lemma_arena_bag_update(before, me as int, c1);
                lemma_exchange_same(c0.bag(), c0.deques[t as int].bag(), c1.bag(), d.bag());
                lemma_exchange_same(before.bag(), c0.bag(), self@.bag(), c1.bag());
                assert(self@ =~= old(self)@.with_ctx(me as int, c1));
            }
            t += 1;
        }
        let ghost mid = *self;
        let n: u32 = self.ctxs[me].burst_pushed;
        self.ctxs[me].burst_pushed = 0;
        proof {
            let c2 = after_flush(c);
            assert(self.ctxs@[me as int]@ =~= c2);
            assert(self.ctxs@ =~= mid.ctxs@.update(me as int, self.ctxs@[me as int]));
            self.lemma_scalar_update(mid, me as int, c2);
            assert(self@ =~= old(self)@.with_ctx(me as int, c2));
        }
        if n > 0 && use_jec_wake {
            Some(Wake { jobs: n, queue_was_empty: true })
        } else {
            None
        }
    }

    /// Pushes a job to a worker's default deque.
    pub fn try_push(&mut self, me: usize, job: JobRef, use_jec_wake: bool) -> (res: Result<
        Option<Wake>,
        JobRef,
    >)
        requires
            old(self).wf(),
            me < old(self)@.total(),
        ensures
            final(self).wf(),
            pushed_or_refused(old(self)@, me as int, job, 3, use_jec_wake, final(self)@, res),
    {
        self.try_push_tier(me, job, DequeTier::Public, use_jec_wake)
    }

    /// Pushes a job to a worker's deque of a tier and publishes it; gives it
    /// back, and counts a refusal, when no slot is free. The caller then runs
    /// the job itself.
    pub fn try_push_tier(&mut self, me: usize, job: JobRef, tier: DequeTier, use_jec_wake: bool) -> (res:
        Result<Option<Wake>, JobRef>)
        requires
            old(self).wf(),
            me < old(self)@.total(),
        ensures
            final(self).wf(),
            pushed_or_refused(
                old(self)@,
                me as int,
                job,
                tier_idx(tier),
                use_jec_wake,
                final(self)@,
                res,
            ),
    {
        let ghost c = self@.ctxs[me as int];
        let t: usize = tier.idx();
        let mut looks_empty: bool = true;
        let mut k: usize = 0;
        while k < N_TIERS
            invariant
                k <= N_TIERS,
                self.wf(),
                me < self@.total(),
                c == self@.ctxs[me as int],
                looks_empty == (forall|i: int|
                    0 <= i < k ==> (#[trigger] c.deques[i]).khl.drained()
                        && c.deques[i].fcl.stash.jobs.len() == 0),
            decreases N_TIERS - k,
        {
            let e: bool = self.ctxs[me].deques[k].is_empty();
            proof {
                assert(e == (c.deques[k as int].khl.drained() && c.deques[k as int].fcl.stash.jobs.len()
                    == 0));
            }
            looks_empty = looks_empty && e;
            k += 1;
        }
        assert(looks_empty == deques_look_empty(c));
        let outcome = self.ctxs[me].deques[t].try_push(job);
        let ghost d = self.ctxs@[me as int].deques@[t as int]@;
        let ghost mid = *self;
        proof {
            let c1 = c.with_deque(t as int, d);
            assert(self.ctxs@[me as int]@ =~= c1);
            assert(self@ =~= old(self)@.with_ctx(me as int, c1));
            lemma_ctx_bag_update(c, t as int, d);
            lemma_arena_bag_update(old(self)@, me as int, c1);
            if outcome is Ok {
                lemma_exchange_give(
                    c.bag(),
                    c.deques[t as int].bag(),
                    c1.bag(),
                    d.bag(),
                    compact_of(job),
                );
                lemma_exchange_give(
                    old(self)@.bag(),
                    c.bag(),
                    self@.bag(),
                    c1.bag(),
                    compact_of(job),
                );
            } else {
                lemma_exchange_same(c.bag(), c.deques[t as int].bag(), c1.bag(), d.bag());
                lemma_exchange_same(old(self)@.bag(), c.bag(), self@.bag(), c1.bag());
            }
        }
        match outcome {
            Ok(_) => {
                self.ctxs[me].stats.single_pushes =
                    self.ctxs[me].stats.single_pushes.wrapping_add(1);
                proof {
                    let c2 = after_push(c, t as int, job);
                    assert(self.ctxs@[me as int]@ =~= c2);
                    assert(self.ctxs@ =~= mid.ctxs@.update(me as int, self.ctxs@[me as int]));
                    self.lemma_scalar_update(mid, me as int, c2);
                    assert(self@ =~= old(self)@.with_ctx(me as int, c2));
                }
                if use_jec_wake {
                    Ok(Some(Wake { jobs: 1, queue_was_empty: looks_empty }))
                } else {
                    Ok(None)
                }
            },
            Err(back) => {
                self.ctxs[me].stats.push_refusals =
                    self.ctxs[me].stats.push_refusals.wrapping_add(1);
                proof {
                    let c2 = after_refusal(c);
                    assert(self.ctxs@[me as int]@ =~= c2);
                    assert(self.ctxs@ =~= mid.ctxs@.update(me as int, self.ctxs@[me as int]));
                    self.lemma_scalar_update(mid, me as int, c2);
                    assert(self@ =~= old(self)@.with_ctx(me as int, c2));
                }
                Err(back)
            },
        }
    }
}

/// The worker after a refused push.
pub open spec fn after_refusal(c: Ctx) -> Ctx {
    Ctx { stats: (WorkerStats { push_refusals: bump(c.stats.push_refusals), ..c.stats }), ..c }
}

/// Outcome of a single push to tier position `t`: published with a wake
/// request, or refused for want of a slot.
pub open spec fn pushed_or_refused(
    before: Arena,
    me: int,
    job: JobRef,
    t: int,
    use_jec_wake: bool,
    after: Arena,
    res: Result<Option<Wake>, JobRef>,
) -> bool {
    let c = before.ctxs[me];
    if tier_has_slot(c, t) {
        &&& res == Ok::<Option<Wake>, JobRef>(wake_if(use_jec_wake, 1, deques_look_empty(c)))
        &&& after == before.with_ctx(me, after_push(c, t, job))
        &&& after.bag() == before.bag().insert(compact_of(job))
    } else {
        &&& res == Err::<Option<Wake>, JobRef>(job)
        &&& after == before.with_ctx(me, after_refusal(c))
        &&& after.bag() == before.bag()
    }
}

/// A worker or outside slot at position `i` that was never used.
pub open spec fn fresh_ctx(i: int, slot_limit: int, external: bool) -> Ctx {
    Ctx {
        deques: Seq::new(N_TIERS as nat, |t: int| Adaptive::fresh(KGating::Auto)),
        slot_limit,
        stash: Leftovers::fresh(),
        mailbox: Seq::empty(),
        burst_pushed: 0,
        rng: first_rng(i),
        probe_rng: first_rng(i),
        wake_rotor: i as usize,
        stats: zero_stats(),
        last_victim: None,
        external,
        idle: false,
    }
}

/// First random state of position `i`.
pub open spec fn first_rng(i: int) -> u64 {
    RNG_SEED.wrapping_mul((i + 1) as u64)
}

/// The core that worker `i` is pinned to, if any are named.
pub open spec fn core_of(cpu_set: Option<Seq<usize>>, i: int) -> Option<usize> {
    match cpu_set {
        Some(ids) => Some(ids[i % (ids.len() as int)]),
        None => None,
    }
}

/// A list of cores as a sequence.
pub open spec fn cpu_set_view(cpu_set: Option<Vec<usize>>) -> Option<Seq<usize>> {
    match cpu_set {
        Some(ids) => Some(ids@),
        None => None,
    }
}

/// A count of workers, of which there is always one.
pub open spec fn at_least_one(n: int) -> int {
    if n == 0 { 1 } else { n }
}

/// A new arena: the primaries and siblings, then the outside slots, all
/// unused.
pub open spec fn fresh_arena(
    primary: int,
    siblings: int,
    cpu_set: Option<Seq<usize>>,
    ccx_size: int,
) -> Arena {
    let n = primary + siblings;
    Arena {
        ctxs: Seq::new(
            (n + EXTERNAL_SLOT_COUNT) as nat,
            |i: int|
                fresh_ctx(
                    i,
                    if i < n {
                        ADAPTIVE_SLOT_CAPACITY as int
                    } else {
                        EXTERNAL_SLOT_DEQUE_CAPACITY as int
                    },
                    i >= n,
                ),
        ),
        claimed: Seq::new(EXTERNAL_SLOT_COUNT as nat, |k: int| false),
        injector: Seq::empty(),
        n_workers: n,
        primary_count: primary,
        smt_requests: 0,
        shutdown: false,
        ccx_size,
        mailbox_ever_used: false,
        cores: Seq::new(n as nat, |i: int| core_of(cpu_set, i)),
    }
}

/// Jobs of an unused worker.
proof fn lemma_fresh_ctx_bag(i: int, slot_limit: int, external: bool)
    ensures
        fresh_ctx(i, slot_limit, external).bag() == JobBag::empty(),
{
    let c = fresh_ctx(i, slot_limit, external);
    let f = |d: Adaptive| d.bag();
    let bags = c.deques.map_values(f);
    lemma_fresh_adaptive_bag();
    assert forall|t: int| 0 <= t < bags.len() implies #[trigger] bags[t] == JobBag::empty() by {
        assert(c.deques[t] == Adaptive::fresh(KGating::Auto));
    }
    lemma_union_bags_empty(bags);
    lemma_leftovers_empty(c.stash);
    lemma_refs_bag_empty(c.mailbox);
    assert(c.bag() =~= JobBag::empty());
}

/// Jobs of an unused deque.
proof fn lemma_fresh_adaptive_bag()
    ensures
        Adaptive::fresh(KGating::Auto).bag() == JobBag::empty(),
{
    let b = crate::fcl_worker::Backing::fresh();
    crate::job_bag::lemma_seq_bag_empty(b.stash.jobs);
    assert(b.bag() =~= JobBag::empty());
    assert(Adaptive::fresh(KGating::Auto).bag() =~= JobBag::empty());
}

/// A new arena holds no job.
pub proof fn law_fresh_arena_holds_nothing(
    primary: int,
    siblings: int,
    cpu_set: Option<Seq<usize>>,
    ccx_size: int,
)
    requires
        primary >= 1,
        siblings >= 0,
    ensures
        fresh_arena(primary, siblings, cpu_set, ccx_size).bag() == JobBag::empty(),
{
    let a = fresh_arena(primary, siblings, cpu_set, ccx_size);
    let f = |c: Ctx| c.bag();
    let bags = a.ctxs.map_values(f);
    assert forall|i: int| 0 <= i < bags.len() implies #[trigger] bags[i] == JobBag::empty() by {
        let c = a.ctxs[i];
        lemma_fresh_ctx_bag(i, c.slot_limit, c.external);
    }
    lemma_union_bags_empty(bags);
    lemma_refs_bag_empty(a.injector);
    assert(a.bag() =~= JobBag::empty());
}

impl WorkerCtx {
    /// An unused worker or outside slot at position `i`.
    fn fresh(i: usize, slot_capacity: usize, external: bool) -> (res: WorkerCtx)
        requires
            slot_capacity == ADAPTIVE_SLOT_CAPACITY || slot_capacity
                == EXTERNAL_SLOT_DEQUE_CAPACITY,
            i < usize::MAX,
        ensures
            res.wf(),
            res@ == fresh_ctx(i as int, slot_capacity as int, external),
    {
        proof {
            lemma_common_slot_counts();
        }
        let mut deques: Vec<AdaptiveWorker> = Vec::with_capacity(N_TIERS);
        let mut t: usize = 0;
        while t < N_TIERS
            invariant
                t <= N_TIERS,
                slot_capacity == ADAPTIVE_SLOT_CAPACITY || slot_capacity
                    == EXTERNAL_SLOT_DEQUE_CAPACITY,
                rounded_slot_count(64, 64),
                rounded_slot_count(256, 256),
                deques@.len() == t,
                forall|k: int|
                    0 <= k < t ==> (#[trigger] deques@[k]).wf() && deques@[k].slot_limit()
                        == slot_capacity && deques@[k]@ == Adaptive::fresh(KGating::Auto),
            decreases N_TIERS - t,
        {
            let (w, _stealer) = new_adaptive(slot_capacity, KGating::Auto);
            proof {
                rounded_slot_count_unique(
                    slot_capacity as int,
                    w.slot_limit(),
                    slot_capacity as int,
                );
            }
            deques.push(w);
            t += 1;
        }
        let mailbox: FlynnelRing<JobRef> = FlynnelRing::new(MAILBOX_CAPACITY);
        proof {
            rounded_slot_count_unique(16, mailbox.slot_count(), 16);
        }
        let rng: u64 = RNG_SEED.wrapping_mul(i as u64 + 1);
        let res = WorkerCtx {
            deques,
            stash: AdaptiveStash::empty(),
            mailbox,
            burst_pushed: 0,
            rng,
            probe_rng: rng,
            wake_rotor: i,
            stats: WorkerStats {
                local_pops: 0,
                peer_steal_hits: 0,
                peer_steal_misses: 0,
                times_stolen_from: 0,
                burst_pushes: 0,
                single_pushes: 0,
                push_refusals: 0,
            },
            last_victim: None,
            is_external_slot: external,
            idle: false,
        };
        proof {
            assert(res@ =~= fresh_ctx(i as int, slot_capacity as int, external));
        }
        res
    }
}

/// The cores that the current thread may run on, by
/// `core_affinity::get_core_ids`. What it returns depends on the machine and
/// on the thread's affinity mask, so nothing is claimed of it.
#[verifier::external_body]
pub(crate) fn host_core_ids() -> (res: Option<Vec<usize>>)
{
    core_affinity::get_core_ids().map(|ids| ids.into_iter().map(|core| core.id).collect())
}

impl LocalArena {
    /// An arena of `n_workers` workers (at least one) and no siblings. With
    /// `pin`, the workers are spread over the host's cores.
    pub fn new(n_workers: usize, pin: bool, ccx_size: usize) -> (res: LocalArena)
        requires
            n_workers <= usize::MAX - EXTERNAL_SLOT_COUNT - 1,
        ensures
            res.wf(),
            exists|cpu_set: Option<Seq<usize>>|
                (!pin ==> cpu_set is None) && res@ == #[trigger] fresh_arena(
                    at_least_one(n_workers as int),
                    0,
                    cpu_set,
                    ccx_size as int,
                ),
    {
        let cpu_set: Option<Vec<usize>> = if pin {
            match host_core_ids() {
                Some(ids) => if ids.len() > 0 { Some(ids) } else { None },
                None => None,
            }
        } else {
            None
        };
        LocalArena::with_cpu_set(n_workers, cpu_set, ccx_size)
    }

    /// An arena of `n_workers` workers (at least one) on the given cores.
    pub fn with_cpu_set(n_workers: usize, cpu_set: Option<Vec<usize>>, ccx_size: usize) -> (res: LocalArena)
        requires
            n_workers <= usize::MAX - EXTERNAL_SLOT_COUNT - 1,
            cpu_set matches Some(ids) ==> ids@.len() > 0,
        ensures
            res.wf(),
            res@ == fresh_arena(
                at_least_one(n_workers as int),
                0,
                cpu_set_view(cpu_set),
                ccx_size as int,
            ),
    {
        LocalArena::with_smt_extension(n_workers, 0, cpu_set, ccx_size)
    }

    /// An arena of `primary_count` workers (at least one) that always run and
    /// `smt_extension` siblings that run on request. Worker `i` is assigned
    /// the `i`-th of the given cores, which repeat.
    pub fn with_smt_extension(
        primary_count: usize,
        smt_extension: usize,
        cpu_set: Option<Vec<usize>>,
        ccx_size: usize,
    ) -> (res: LocalArena)
        requires
            primary_count + smt_extension <= usize::MAX - EXTERNAL_SLOT_COUNT - 1,
            cpu_set matches Some(ids) ==> ids@.len() > 0,
        ensures
            res.wf(),
            res@ == fresh_arena(
                at_least_one(primary_count as int),
                smt_extension as int,
                cpu_set_view(cpu_set),
                ccx_size as int,
            ),
    {
        let primary: usize = if primary_count == 0 { 1 } else { primary_count };
        let n: usize = primary + smt_extension;
        let total: usize = n + EXTERNAL_SLOT_COUNT;
        let ghost want = fresh_arena(
            primary as int,
            smt_extension as int,
            cpu_set_view(cpu_set),
            ccx_size as int,
        );
        let mut ctxs: Vec<WorkerCtx> = Vec::with_capacity(total);
        let mut i: usize = 0;
        while i < total
            invariant
                i <= total,
                total == n + EXTERNAL_SLOT_COUNT,
                n == primary + smt_extension,
                want == fresh_arena(
                    primary as int,
                    smt_extension as int,
                    cpu_set_view(cpu_set),
                    ccx_size as int,
                ),
                ctxs@.len() == i,
                forall|k: int|
                    0 <= k < i ==> (#[trigger] ctxs@[k]).wf() && ctxs@[k]@ == want.ctxs[k],
            decreases total - i,
        {
            let ctx = if i < n {
                WorkerCtx::fresh(i, ADAPTIVE_SLOT_CAPACITY, false)
            } else {
                WorkerCtx::fresh(i, EXTERNAL_SLOT_DEQUE_CAPACITY, true)
            };
            ctxs.push(ctx);
            i += 1;
        }
        let mut claimed: Vec<bool> = Vec::with_capacity(EXTERNAL_SLOT_COUNT);
        let mut k: usize = 0;
        while k < EXTERNAL_SLOT_COUNT
            invariant
                k <= EXTERNAL_SLOT_COUNT,
                claimed@.len() == k,
                forall|j: int| 0 <= j < k ==> !#[trigger] claimed@[j],
            decreases EXTERNAL_SLOT_COUNT - k,
        {
            claimed.push(false);
            k += 1;
        }
        let mut cores: Vec<Option<usize>> = Vec::with_capacity(n);
        let mut w: usize = 0;
        while w < n
            invariant
                w <= n,
                cpu_set matches Some(ids) ==> ids@.len() > 0,
                cores@.len() == w,
                forall|j: int|
                    0 <= j < w ==> #[trigger] cores@[j] == core_of(cpu_set_view(cpu_set), j),
            decreases n - w,
        {
            let core: Option<usize> = match &cpu_set {
                Some(ids) => Some(ids[w % ids.len()]),
                None => None,
            };
            cores.push(core);
            w += 1;
        }
        let res = LocalArena {
            ctxs,
            claimed,
            injector: VecDeque::new(),
            n_workers: n,
            primary_count: primary,
            smt_requests: 0,
            shutdown: false,
            ccx_size,
            mailbox_ever_used: false,
            cores,
        };
        proof {
            assert(res@.ctxs =~= want.ctxs);
            assert(res@.claimed =~= want.claimed);
            assert(res@.cores =~= want.cores);
            assert(res@ =~= want);
        }
        res
    }

    /// Claims the first free outside slot and readies it for a new owner.
    /// Gives its position in the arena; `None` when every slot is taken.
    pub fn try_claim_external_slot(&mut self) -> (res: Option<usize>)
        requires
            old(self).wf(),
        ensures
            final(self).wf(),
            res matches Some(at) ==> {
                let a = old(self)@;
                let k = at - a.n_workers;
                &&& 0 <= k < EXTERNAL_SLOT_COUNT
                &&& !a.claimed[k]
                &&& forall|j: int| 0 <= j < k ==> #[trigger] a.claimed[j]
                &&& final(self)@ == (Arena {
                    claimed: a.claimed.update(k, true),
                    ..a.with_ctx(
                        at as int,
                        (Ctx {
                            rng: first_rng(at as int),
                            last_victim: None,
                            burst_pushed: 0,
                            wake_rotor: at,
                            ..a.ctxs[at as int]
                        }),
                    )
                })
                &&& final(self)@.bag() == a.bag()
            },
            res is None ==> {
                &&& final(self)@ == old(self)@
                &&& forall|j: int|
                    0 <= j < EXTERNAL_SLOT_COUNT ==> #[trigger] old(self)@.claimed[j]
            },
    {
        proof {
            self.lemma_shape();
        }
        let mut k: usize = 0;
        while k < EXTERNAL_SLOT_COUNT
            invariant
                k <= EXTERNAL_SLOT_COUNT,
                *self == *old(self),
                self.wf(),
                arena_shape(self@),
                forall|j: int| 0 <= j < k ==> #[trigger] self@.claimed[j],
            decreases EXTERNAL_SLOT_COUNT - k,
        {
            if !self.claimed[k] {
                let at: usize = self.n_workers + k;
                let ghost mid = *self;
                self.ctxs[at].rng = RNG_SEED.wrapping_mul(at as u64 + 1);
                self.ctxs[at].last_victim = None;
                self.ctxs[at].burst_pushed = 0;
                self.ctxs[at].wake_rotor = at;
                proof {
                    let c2 = (Ctx {
                        rng: first_rng(at as int),
                        last_victim: None,
                        burst_pushed: 0,
                        wake_rotor: at,
                        ..mid@.ctxs[at as int]
                    });
                    assert(self.ctxs@[at as int]@ =~= c2);
                    assert(self.ctxs@ =~= mid.ctxs@.update(at as int, self.ctxs@[at as int]));
                    self.lemma_scalar_update(mid, at as int, c2);
                }
                let ghost b = self@;
                self.claimed.set(k, true);
                proof {
                    assert(self@ =~= (Arena { claimed: b.claimed.update(k as int, true), ..b }));
                }
                return Some(at);
            }
            k += 1;
        }
        None
    }

    /// Whether an outside slot is taken.
    pub fn is_claimed(&self, k: usize) -> (res: bool)
        requires
            self.wf(),
            k < EXTERNAL_SLOT_COUNT,
        ensures
            res == self@.claimed[k as int],
    {
        self.claimed[k]
    }

    /// Gives an outside slot back.
    pub fn release_external_slot(&mut self, at: usize)
        requires
            old(self).wf(),
            old(self)@.n_workers <= at < old(self)@.total(),
        ensures
            final(self).wf(),
            final(self)@ == (Arena {
                claimed: old(self)@.claimed.update(at - old(self)@.n_workers, false),
                ..old(self)@
            }),
            final(self)@.bag() == old(self)@.bag(),
    {
        proof {
            self.lemma_shape();
        }
        let k: usize = at - self.n_workers;
        self.claimed.set(k, false);
        proof {
            let a = old(self)@;
            assert(self@ =~= (Arena { claimed: a.claimed.update(k as int, false), ..a }));
        }
    }

    /// Pushes a job to the widest deque of a claimed slot, where the workers
    /// will find it. Says whether there was room.
    pub fn push_to_slot(&mut self, at: usize, job: JobRef) -> (res: bool)
        requires
            old(self).wf(),
            old(self)@.n_workers <= at < old(self)@.total(),
        ensures
            final(self).wf(),
            res == tier_has_slot(old(self)@.ctxs[at as int], 3),
            res ==> final(self)@ == slot_pushed(old(self)@, at as int, job) && final(self)@.bag()
                == old(self)@.bag().insert(compact_of(job)),
            !res ==> final(self)@ == old(self)@,
    {
        let ghost a = self@;
        let ghost c = self@.ctxs[at as int];
        let outcome = self.ctxs[at].deques[3].try_push(job);
        let ghost d = self.ctxs@[at as int].deques@[3]@;
        proof {
            let c1 = c.with_deque(3, d);
            assert(self.ctxs@[at as int]@ =~= c1);
            assert(self@ =~= a.with_ctx(at as int, c1));
            lemma_ctx_bag_update(c, 3, d);
            lemma_arena_bag_update(a, at as int, c1);
            if outcome is Ok {
                lemma_exchange_give(c.bag(), c.deques[3].bag(), c1.bag(), d.bag(), compact_of(job));
                lemma_exchange_give(a.bag(), c.bag(), self@.bag(), c1.bag(), compact_of(job));
            } else {
                assert(c1 =~= c);
                assert(self@ =~= a);
            }
        }
        match outcome {
            Ok(_) => true,
            Err(_) => false,
        }
    }

    /// Submits a job from outside the pool.
    pub fn submit(&mut self, job: JobRef) -> (res: Wake)
        requires
            old(self).wf(),
            old(self)@.injector.len() < usize::MAX,
        ensures
            final(self).wf(),
            res == (Wake { jobs: 1, queue_was_empty: old(self)@.injector.len() == 0 }),
            final(self)@ == (Arena { injector: old(self)@.injector.push(job), ..old(self)@ }),
            final(self)@.bag() == old(self)@.bag().insert(compact_of(job)),
    {
        let was_empty: bool = self.injector.len() == 0;
        self.injector.push_back(job);
        proof {
            let a = old(self)@;
            assert(self@ =~= (Arena { injector: a.injector.push(job), ..a }));
            lemma_refs_bag_push(a.injector, job);
            assert(self@.bag() =~= a.bag().insert(compact_of(job)));
        }
        Wake { jobs: 1, queue_was_empty: was_empty }
    }

    /// Takes the oldest submitted job.
    pub fn take_submitted(&mut self) -> (res: Option<JobRef>)
        requires
            old(self).wf(),
        ensures
            final(self).wf(),
            old(self)@.injector.len() == 0 ==> res is None && final(self)@ == old(self)@,
            old(self)@.injector.len() > 0 ==> {
                &&& res == Some(old(self)@.injector.first())
                &&& final(self)@ == (Arena {
                    injector: old(self)@.injector.drop_first(),
                    ..old(self)@
                })
                &&& old(self)@.bag() == final(self)@.bag().insert(
                    compact_of(old(self)@.injector.first()),
                )
            },
    {
        let res = self.injector.pop_front();
        proof {
            let a = old(self)@;
            if a.injector.len() > 0 {
                assert(self@ =~= (Arena { injector: a.injector.drop_first(), ..a }));
                lemma_refs_bag_drop_first(a.injector);
                assert(a.bag() =~= self@.bag().insert(compact_of(a.injector.first())));
            } else {
                assert(self@ =~= a);
            }
        }
        res
    }

    /// Whether a worker's mailbox is empty.
    pub fn mailbox_is_empty(&self, i: usize) -> (res: bool)
        requires
            self.wf(),
            i < self@.total(),
        ensures
            res == (self@.ctxs[i as int].mailbox.len() == 0),
    {
        self.ctxs[i].mailbox.is_empty()
    }

    /// Whether a worker's deque of a tier has nothing that a thief could take.
    pub fn nothing_to_steal(&self, i: usize, tier: DequeTier) -> (res: bool)
        requires
            self.wf(),
            i < self@.total(),
        ensures
            res == (self@.ctxs[i as int].deques[tier_idx(tier)].khl.published.len() == 0
                && self@.ctxs[i as int].deques[tier_idx(tier)].fcl.published.len() == 0),
    {
        self.ctxs[i].deques[tier.idx()].stealer().is_empty(&self.ctxs[i].deques[tier.idx()])
    }

    /// Number of submitted jobs.
    pub fn injector_len(&self) -> (res: usize)
        requires
            self.wf(),
        ensures
            res == self@.injector.len(),
    {
        self.injector.len()
    }

    /// Finds one job for a thread outside the pool: a submitted one, a
    /// leftover of its last steal, or one of a random worker's widest tier.
    pub fn try_run_one(&mut self, rng_state: &mut u64, stash: &mut AdaptiveStash) -> (res: Option<JobRef>)
        requires
            old(self).wf(),
            old(stash).wf(),
        ensures
            final(self).wf(),
            final(stash).wf(),
            helper_step(
                old(self)@,
                *old(rng_state),
                old(stash)@,
                res,
                final(self)@,
                *final(rng_state),
                final(stash)@,
            ),
            res matches Some(j) ==> old(self)@.bag().add(old(stash)@.bag()) == final(self)@.bag().add(
                final(stash)@.bag(),
            ).insert(compact_of(j)),
            res is None ==> final(self)@.bag() == old(self)@.bag() && final(stash)@ == old(stash)@,
    {
        proof {
            self.lemma_shape();
        }
        let ghost a0 = self@;
        let ghost s0 = stash@;
        if let Some(job) = self.probe_injector() {
            proof {
                assert(a0.bag().add(s0.bag()) =~= self@.bag().add(s0.bag()).insert(compact_of(job)));
            }
            return Some(job);
        }
        let n: usize = self.ctxs.len();
        let seed: u64 = if *rng_state == 0 { RNG_SEED } else { *rng_state };
        let x: u64 = xorshift_step(seed);
        *rng_state = x;
        let idx: usize = (x as usize) % n;
        if let Some(job) = stash.drain_one() {
            proof {
                assert(a0.bag().add(s0.bag()) =~= self@.bag().add(stash@.bag()).insert(
                    compact_of(job),
                ));
            }
            return Some(job);
        }
        proof {
            assert(stash@ =~= s0);
            assert(s0.drained());
            lemma_leftovers_empty(s0);
        }
        let ghost c = self@.ctxs[idx as int];
        let stealer = self.ctxs[idx].deques[3].stealer();
        let outcome = steal_via_stash(&stealer, &mut self.ctxs[idx].deques[3], stash);
        proof {
            let d = self.ctxs@[idx as int].deques@[3]@;
            let c2 = c.with_deque(3, d);
            assert(self.ctxs@[idx as int]@ =~= c2);
            assert(self@ =~= a0.with_ctx(idx as int, c2));
            lemma_ctx_bag_update(c, 3, d);
            lemma_arena_bag_update(a0, idx as int, c2);
            match outcome {
                AdaptiveSteal2::Success(job) => {
                    let j = compact_of(job);
                    let left = stash@.bag();
                    assert forall|y: crate::job::CompactJobRef|
                        a0.bag().add(s0.bag()).count(y) == self@.bag().add(left).insert(j).count(
                            y,
                        ) by {
                        let d0 = c.deques[3];
                        assert(c2.bag().add(d0.bag()).count(y) == c2.bag().count(y)
                            + d0.bag().count(y));
                        assert(c.bag().add(d.bag()).count(y) == c.bag().count(y) + d.bag().count(y));
                        assert(self@.bag().add(c.bag()).count(y) == self@.bag().count(y)
                            + c.bag().count(y));
                        assert(a0.bag().add(c2.bag()).count(y) == a0.bag().count(y)
                            + c2.bag().count(y));
                        assert(d.bag().add(left).insert(j).count(y) == d.bag().count(y)
                            + left.count(y) + if y == j { 1nat } else { 0nat });
                        assert(d0.bag() == d.bag().add(left).insert(j));
                    }
                    assert(a0.bag().add(s0.bag()) =~= self@.bag().add(left).insert(j));
                },
                _ => {
                    lemma_exchange_same(c.bag(), c.deques[3].bag(), c2.bag(), d.bag());
                    lemma_exchange_same(a0.bag(), c.bag(), self@.bag(), c2.bag());
                },
            }
        }
        match outcome {
            AdaptiveSteal2::Success(job) => Some(job),
            _ => None,
        }
    }

    /// Switches the publication discipline of every deque of the arena. Jobs
    /// in the old backings keep leaving through pops and steals.
    pub fn migrate_all_workers_k_gating(&mut self, gating: KGating)
        requires
            old(self).wf(),
        ensures
            final(self).wf(),
            final(self)@ == (Arena {
                ctxs: old(self)@.ctxs.map_values(|c: Ctx| retagged_ctx(c, gating)),
                ..old(self)@
            }),
            final(self)@.bag() == old(self)@.bag(),
    {
        let target: u32 = match gating.resolved() {
            KGating::CounterOnly => ACTIVE_FCL,
            _ => ACTIVE_KHL,
        };
        let ghost a = self@;
        let mut i: usize = 0;
        proof {
            self.lemma_shape();
        }
        while i < self.ctxs.len()
            invariant
                self.wf(),
                arena_shape(a),
                i <= self.ctxs@.len(),
                self.ctxs@.len() == a.total(),
                a == old(self)@,
                target == crate::adaptive_worker::tag_of(gating),
                self@ == (Arena { ctxs: self@.ctxs, ..a }),
                forall|k: int|
                    0 <= k < a.total() ==> #[trigger] self@.ctxs[k] == if k < i {
                        retagged_ctx(a.ctxs[k], gating)
                    } else {
                        a.ctxs[k]
                    },
                self@.bag() == a.bag(),
            decreases self.ctxs@.len() - i,
        {
            let mut t: usize = 0;
            let ghost c = self@.ctxs[i as int];
            assert(c == a.ctxs[i as int]);
            while t < N_TIERS
                invariant
                    self.wf(),
                    arena_shape(a),
                    t <= N_TIERS,
                    i < self.ctxs@.len(),
                    self.ctxs@.len() == a.total(),
                    a == old(self)@,
                    target == crate::adaptive_worker::tag_of(gating),
                    c == a.ctxs[i as int],
                    c.deques.len() == N_TIERS,
                    self@ == (Arena { ctxs: self@.ctxs, ..a }),
                    forall|k: int|
                        0 <= k < a.total() && k != i ==> #[trigger] self@.ctxs[k] == if k < i {
                            retagged_ctx(a.ctxs[k], gating)
                        } else {
                            a.ctxs[k]
                        },
                    self@.ctxs[i as int] == (Ctx { deques: self@.ctxs[i as int].deques, ..c }),
                    self@.ctxs[i as int].deques.len() == N_TIERS,
                    forall|k: int|
                        0 <= k < N_TIERS ==> #[trigger] self@.ctxs[i as int].deques[k] == if k < t {
                            c.deques[k].retagged(target)
                        } else {
                            c.deques[k]
                        },
                    self@.bag() == a.bag(),
                decreases N_TIERS - t,
            {
                let ghost before = self@;
                let ghost c0 = self@.ctxs[i as int];
                assert(c0.deques[t as int] == c.deques[t as int]);
                self.ctxs[i].deques[t].set_active(target);
                proof {
                    let d = self.ctxs@[i as int].deques@[t as int]@;
                    let c1 = c0.with_deque(t as int, d);
                    assert(self.ctxs@[i as int]@ =~= c1);
                    assert(self@ =~= before.with_ctx(i as int, c1));
                    lemma_ctx_bag_update(c0, t as int, d);
                    lemma_arena_bag_update(before, i as int, c1);
                    lemma_exchange_same(c0.bag(), c0.deques[t as int].bag(), c1.bag(), d.bag());
                    lemma_exchange_same(before.bag(), c0.bag(), self@.bag(), c1.bag());
                }
                t += 1;
            }
            proof {
                assert(self@.ctxs[i as int] =~= retagged_ctx(c, gating));
            }
            i += 1;
        }
        proof {
            assert(self@ =~= (Arena {
                ctxs: a.ctxs.map_values(|c: Ctx| retagged_ctx(c, gating)),
                ..a
            }));
        }
    }
}

/// A worker after all its deques were switched to a discipline.
pub open spec fn retagged_ctx(c: Ctx, gating: KGating) -> Ctx {
    Ctx {
        deques: c.deques.map_values(
            |d: Adaptive| d.retagged(crate::adaptive_worker::tag_of(gating)),
        ),
        ..c
    }
}

/// The arena after a job entered the widest deque of the slot at `at`.
pub open spec fn slot_pushed(a: Arena, at: int, job: JobRef) -> Arena {
    let d = a.ctxs[at].deques[3];
    a.with_ctx(at, a.ctxs[at].with_deque(3, d.with_front(d.front().pushed(job))))
}

/// Outcome of one search by a thread outside the pool.
pub open spec fn helper_step(
    a: Arena,
    rng: u64,
    left: Leftovers,
    res: Option<JobRef>,
    a2: Arena,
    rng2: u64,
    left2: Leftovers,
) -> bool {
    if a.injector.len() > 0 {
        &&& res == Some(a.injector.first())
        &&& a2 == (Arena { injector: a.injector.drop_first(), ..a })
        &&& rng2 == rng
        &&& left2 == left
    } else {
        let x = xorshift(seeded(rng));
        let idx = (x as usize) as int % a.total();
        let d = a.ctxs[idx].deques[3];
        &&& rng2 == x
        &&& if left.next_drain() is Some {
            &&& res == left.next_drain()
            &&& a2 == a
            &&& left2 == left.after_drain()
        } else {
            &&& res == match d.next_stolen() {
                Some(slot) => Some(slot_job(slot, 0)),
                None => None,
            }
            &&& a2 == a.with_ctx(idx, a.ctxs[idx].with_deque(3, d.robbed()))
            &&& left2 == left.after_steal(d)
        }
    }
}

/// An open request for sibling workers. Only an arena makes one.
#[derive(Debug)]
pub struct SmtGuard {
    _opened: (),
}

/// Saturating sum of a counter over a list of workers.
pub open spec fn saturating_total(xs: Seq<u64>) -> int
    decreases xs.len(),
{
    if xs.len() == 0 {
        0
    } else {
        let sum = saturating_total(xs.drop_last()) + xs.last();
        if sum > u64::MAX { u64::MAX as int } else { sum }
    }
}

/// The burst counters of all workers and slots.
pub open spec fn burst_counts(a: Arena) -> Seq<u64> {
    a.ctxs.map_values(|c: Ctx| c.stats.burst_pushes)
}

/// The single-push counters of all workers and slots.
pub open spec fn single_counts(a: Arena) -> Seq<u64> {
    a.ctxs.map_values(|c: Ctx| c.stats.single_pushes)
}

/// The positions from `from` up to `to`.
pub open spec fn positions(from: int, to: int) -> Seq<usize> {
    Seq::new((to - from) as nat, |i: int| (from + i) as usize)
}

/// Every position but one.
pub open spec fn other_positions(me: int, n: int) -> Seq<usize> {
    positions(0, me) + positions(me + 1, n)
}

impl LocalArena {
    /// Requests the sibling workers. The first request names every position
    /// that is to be woken: the siblings and what follows them.
    pub fn acquire_smt(&mut self) -> (res: (SmtGuard, Vec<usize>))
        requires
            old(self).wf(),
        ensures
            final(self).wf(),
            final(self)@ == (Arena {
                smt_requests: old(self)@.smt_requests.wrapping_add(1),
                ..old(self)@
            }),
            res.1@ == if old(self)@.smt_requests == 0 {
                positions(old(self)@.primary_count, old(self)@.total())
            } else {
                Seq::empty()
            },
    {
        proof {
            self.lemma_shape();
        }
        let prev: u32 = self.smt_requests;
        self.smt_requests = prev.wrapping_add(1);
        proof {
            assert(self@ =~= (Arena { smt_requests: prev.wrapping_add(1), ..old(self)@ }));
        }
        let mut wake: Vec<usize> = Vec::new();
        if prev == 0 {
            let from: usize = self.primary_count;
            let n: usize = self.ctxs.len();
            let mut i: usize = from;
            while i < n
                invariant
                    from <= i <= n,
                    wake@ == positions(from as int, i as int),
                decreases n - i,
            {
                wake.push(i);
                i += 1;
                proof {
                    assert(wake@ =~= positions(from as int, i as int));
                }
            }
        }
        proof {
            assert(prev != 0 ==> wake@ =~= Seq::<usize>::empty());
        }
        (SmtGuard { _opened: () }, wake)
    }

    /// Closes a request for the sibling workers.
    pub fn release_smt(&mut self, _guard: SmtGuard)
        requires
            old(self).wf(),
        ensures
            final(self).wf(),
            final(self)@ == (Arena {
                smt_requests: old(self)@.smt_requests.wrapping_sub(1),
                ..old(self)@
            }),
    {
        self.smt_requests = self.smt_requests.wrapping_sub(1);
        proof {
            let r = old(self)@.smt_requests.wrapping_sub(1);
            assert(self@ =~= (Arena { smt_requests: r, ..old(self)@ }));
        }
    }

    /// Open requests for sibling workers.
    pub fn smt_requests(&self) -> (res: u32)
        ensures
            res == self@.smt_requests,
    {
        self.smt_requests
    }

    /// Tells every worker to stop.
    pub fn begin_shutdown(&mut self)
        requires
            old(self).wf(),
        ensures
            final(self).wf(),
            final(self)@ == (Arena { shutdown: true, ..old(self)@ }),
    {
        self.shutdown = true;
        proof {
            assert(self@ =~= (Arena { shutdown: true, ..old(self)@ }));
        }
    }

    /// Whether every worker was told to stop.
    pub fn is_shutdown(&self) -> (res: bool)
        ensures
            res == self@.shutdown,
    {
        self.shutdown
    }

    /// Positions to wake so that every peer of `me` runs.
    pub fn wake_all_peers(&self, me: usize) -> (res: Vec<usize>)
        requires
            self.wf(),
            me < self@.total(),
        ensures
            res@ == other_positions(me as int, self@.total()),
    {
        let n: usize = self.ctxs.len();
        let mut wake: Vec<usize> = Vec::new();
        let mut i: usize = 0;
        proof {
            assert(wake@ =~= positions(0, 0));
        }
        while i < n
            invariant
                i <= n,
                me < n,
                wake@ == if i <= me {
                    positions(0, i as int)
                } else {
                    positions(0, me as int) + positions(me + 1, i as int)
                },
            decreases n - i,
        {
            if i != me {
                wake.push(i);
            }
            i += 1;
            proof {
                if i <= me {
                    assert(wake@ =~= positions(0, i as int));
                } else {
                    assert(wake@ =~= positions(0, me as int) + positions(me + 1, i as int));
                }
            }
        }
        wake
    }

    /// The next peer of `me` to wake, in turn.
    pub fn wake_one_peer(&mut self, me: usize) -> (res: Option<usize>)
        requires
            old(self).wf(),
            me < old(self)@.total(),
        ensures
            final(self).wf(),
            final(self)@.bag() == old(self)@.bag(),
            old(self)@.total() <= 1 ==> res is None && final(self)@ == old(self)@,
            old(self)@.total() > 1 ==> {
                let c = old(self)@.ctxs[me as int];
                let r = next_peer(c.wake_rotor as int, me as int, old(self)@.total());
                &&& res == Some(r as usize)
                &&& 0 <= r < old(self)@.total()
                &&& r != me
                &&& final(self)@ == old(self)@.with_ctx(
                    me as int,
                    (Ctx { wake_rotor: r as usize, ..c }),
                )
            },
    {
        proof {
            self.lemma_shape();
            assert(self@.ctxs[me as int].wake_rotor < self@.total());
        }
        let n: usize = self.ctxs.len();
        if n <= 1 {
            return None;
        }
        let rotor: usize = self.ctxs[me].wake_rotor;
        let mut r: usize = if rotor + 1 == n { 0 } else { rotor + 1 };
        if r == me {
            r = if r + 1 == n { 0 } else { r + 1 };
        }
        proof {
            lemma_rotate(rotor as int, 0, n as int);
            vstd::arithmetic::div_mod::lemma_small_mod(rotor as nat, n as nat);
            let first = (rotor + 1) % (n as int);
            lemma_rotate(first, 0, n as int);
            vstd::arithmetic::div_mod::lemma_small_mod(first as nat, n as nat);
            assert(r == next_peer(rotor as int, me as int, n as int));
        }
        self.ctxs[me].wake_rotor = r;
        proof {
            let c2 = (Ctx { wake_rotor: r, ..old(self)@.ctxs[me as int] });
            assert(self.ctxs@[me as int]@ =~= c2);
            self.lemma_scalar_update(*old(self), me as int, c2);
        }
        Some(r)
    }

    /// Burst and single pushes of all workers and slots, each limited to the
    /// counter range.
    pub fn push_totals(&self) -> (res: (u64, u64))
        requires
            self.wf(),
        ensures
            res.0 == saturating_total(burst_counts(self@)),
            res.1 == saturating_total(single_counts(self@)),
    {
        let mut bursts: u64 = 0;
        let mut singles: u64 = 0;
        let mut i: usize = 0;
        let ghost b = burst_counts(self@);
        let ghost s = single_counts(self@);
        while i < self.ctxs.len()
            invariant
                i <= self.ctxs@.len(),
                b == burst_counts(self@),
                s == single_counts(self@),
                b.len() == self.ctxs@.len(),
                s.len() == self.ctxs@.len(),
                bursts == saturating_total(b.take(i as int)),
                singles == saturating_total(s.take(i as int)),
            decreases self.ctxs@.len() - i,
        {
            proof {
                assert(b.take(i + 1).drop_last() =~= b.take(i as int));
                assert(s.take(i + 1).drop_last() =~= s.take(i as int));
                assert(b[i as int] == self.ctxs@[i as int].stats.burst_pushes);
                assert(s[i as int] == self.ctxs@[i as int].stats.single_pushes);
            }
            bursts = bursts.saturating_add(self.ctxs[i].stats.burst_pushes);
            singles = singles.saturating_add(self.ctxs[i].stats.single_pushes);
            i += 1;
        }
        proof {
            assert(b.take(b.len() as int) =~= b);
            assert(s.take(s.len() as int) =~= s);
        }
        (bursts, singles)
    }

    /// Counters of a worker or slot.
    pub fn worker_stats(&self, i: usize) -> (res: WorkerStats)
        requires
            self.wf(),
            i < self@.total(),
        ensures
            res == self@.ctxs[i as int].stats,
    {
        self.ctxs[i].stats
    }

    /// Number of workers and outside slots together.
    pub fn total_positions(&self) -> (res: usize)
        requires
            self.wf(),
        ensures
            res == self@.total(),
    {
        self.ctxs.len()
    }

    /// Number of workers that run regardless of requests.
    pub fn primary_count(&self) -> (res: usize)
        ensures
            res == self@.primary_count,
    {
        self.primary_count
    }

    /// Number of workers that run on request.
    pub fn smt_extension_count(&self) -> (res: usize)
        requires
            self.wf(),
        ensures
            res == self@.n_workers - self@.primary_count,
    {
        proof {
            self.lemma_shape();
        }
        self.n_workers - self.primary_count
    }

    /// Number of workers.
    pub fn worker_count(&self) -> (res: usize)
        ensures
            res == self@.n_workers,
    {
        self.n_workers
    }

    /// Whether a position is a slot for outside threads.
    pub fn is_external(&self, i: usize) -> (res: bool)
        requires
            self.wf(),
            i < self@.total(),
        ensures
            res == (i >= self@.n_workers),
            res == self@.ctxs[i as int].external,
    {
        proof {
            self.lemma_shape();
        }
        self.ctxs[i].is_external_slot
    }

    /// The core that a worker is to be pinned to, if any.
    pub fn assigned_core(&self, i: usize) -> (res: Option<usize>)
        requires
            self.wf(),
            i < self@.n_workers,
        ensures
            res == self@.cores[i as int],
    {
        proof {
            self.lemma_shape();
        }
        self.cores[i]
    }
}

/// The peer after the last woken one, skipping `me`.
pub open spec fn next_peer(rotor: int, me: int, n: int) -> int {
    let r = (rotor + 1) % n;
    if r == me { (r + 1) % n } else { r }
}

/// A request and its release leave the arena as it was, and nested requests
/// count: the siblings stay requested until the last release.
pub proof fn law_smt_requests_compose(a: Arena)
    ensures
        a.smt_requests.wrapping_add(1).wrapping_sub(1) == a.smt_requests,
        a.smt_requests < u32::MAX ==> a.smt_requests.wrapping_add(1) > 0,
{
}

/// A thread's flag that asks pushes to wake sleeping workers, set for the
/// length of one dispatch.
#[derive(Debug)]
pub struct DispatchScope {
    prev: bool,
}

impl DispatchScope {
    /// The flag's value before the scope.
    pub closed spec fn prev(&self) -> bool {
        self.prev
    }

    /// Opens a scope with the given flag.
    pub fn new(cell: &mut bool, use_jec_wake: bool) -> (res: DispatchScope)
        ensures
            *final(cell) == use_jec_wake,
            res.prev() == *old(cell),
    {
        let prev: bool = *cell;
        *cell = use_jec_wake;
        DispatchScope { prev }
    }

    /// Opens a scope only if the flag has to change.
    pub fn new_if_change(cell: &mut bool, use_jec_wake: bool) -> (res: Option<DispatchScope>)
        ensures
            *final(cell) == use_jec_wake,
            *old(cell) == use_jec_wake ==> res is None,
            *old(cell) != use_jec_wake ==> (res matches Some(s) && s.prev() == *old(cell)),
    {
        let prev: bool = *cell;
        if prev == use_jec_wake {
            None
        } else {
            *cell = use_jec_wake;
            Some(DispatchScope { prev })
        }
    }

    /// Closes the scope: the flag is what it was.
    pub fn close(self, cell: &mut bool)
        ensures
            *final(cell) == self.prev(),
    {
        *cell = self.prev;
    }
}

/// Work is stolen only where the steal rule allows it: every peer deque in a
/// probe order is one that the worker's distance admits, and no worker probes
/// itself.
pub proof fn law_probes_respect_discipline(a: Arena, me: int, i: int)
    requires
        arena_shape(a),
        0 <= me < a.total(),
    ensures
        0 <= i < search_order(a, me).len() ==> probe_allowed(a, me, search_order(a, me)[i]),
        0 <= i < loop_order(a, me).len() ==> probe_allowed(a, me, loop_order(a, me)[i]),
{
    let n = a.total();
    lemma_victim_in_range(xorshift(seeded(a.ctxs[me].rng)), me, n);
    if 0 <= i < search_order(a, me).len() {
        let local = search_local(a.mailbox_ever_used);
        let last = search_last(a, me);
        if i >= local.len() + last.len() + 1 {
            lemma_peer_sources_allowed(
                a,
                me,
                search_victim(a, me) as usize,
                i - local.len() - last.len() - 1,
            );
        } else if i >= local.len() + last.len() {
        } else if i >= local.len() {
            lemma_peer_sources_allowed(a, me, a.ctxs[me].last_victim->Some_0, i - local.len());
        }
    }
    if 0 <= i < loop_order(a, me).len() && i >= 8 {
        let start = victim_of(xorshift(a.ctxs[me].probe_rng), me, n);
        lemma_victim_in_range(xorshift(a.ctxs[me].probe_rng), me, n);
        let victims = loop_victims(a, me);
        assert forall|k: int| 0 <= k < victims.len() implies 0 <= #[trigger] victims[k] < n
            && victims[k] != me by {
            lemma_victim_is_peer(start, 0, probe_count(n), me, n, k);
        }
        lemma_victims_sources_allowed(a, me, loop_victims(a, me), i - 8);
    }
}

/// A source that the steal rule admits.
pub open spec fn probe_allowed(a: Arena, me: int, src: WorkSource) -> bool {
    match src {
        WorkSource::Peer(v, t) => {
            &&& v != me
            &&& v < a.total()
            &&& may_steal(distance_spec(me, v as int, a.ccx_size), t)
        },
        _ => true,
    }
}

/// A rolled victim is a peer.
proof fn lemma_victim_in_range(x: u64, me: int, n: int)
    requires
        0 <= me < n,
        n >= 2,
    ensures
        0 <= victim_of(x, me, n) < n,
        victim_of(x, me, n) != me,
{
    let v = (x as usize) as int % n;
    if v == me {
        lemma_rotate(v, 0, n);
        vstd::arithmetic::div_mod::lemma_small_mod(v as nat, n as nat);
    }
}

proof fn lemma_peer_sources_allowed(a: Arena, me: int, v: usize, i: int)
    requires
        v != me,
        v < a.total(),
        0 <= i < peer_sources(me, v, a.ccx_size).len(),
    ensures
        probe_allowed(a, me, peer_sources(me, v, a.ccx_size)[i]),
{
}

proof fn lemma_victims_sources_allowed(a: Arena, me: int, victims: Seq<int>, i: int)
    requires
        a.total() <= usize::MAX,
        forall|k: int|
            0 <= k < victims.len() ==> 0 <= #[trigger] victims[k] < a.total() && victims[k] != me,
        0 <= i < victims_sources(me, victims, a.ccx_size).len(),
    ensures
        probe_allowed(a, me, victims_sources(me, victims, a.ccx_size)[i]),
    decreases victims.len(),
{
    let head = victims_sources(me, victims.drop_last(), a.ccx_size);
    if i < head.len() {
        lemma_victims_sources_allowed(a, me, victims.drop_last(), i);
    } else {
        assert(victims.last() == victims[victims.len() - 1]);
        lemma_peer_sources_allowed(a, me, victims.last() as usize, i - head.len());
    }
}

/// A rotation of victims holds peers only.
proof fn lemma_victim_is_peer(start: int, off: int, left: int, me: int, n: int, k: int)
    requires
        n > 0,
        0 <= k < victims_from(start, off, left, me, n).len(),
    ensures
        0 <= victims_from(start, off, left, me, n)[k] < n,
        victims_from(start, off, left, me, n)[k] != me,
    decreases n - off,
{
    let v = (start + off) % n;
    if v == me {
        lemma_victim_is_peer(start, off + 1, left, me, n, k);
    } else if k > 0 {
        lemma_victim_is_peer(start, off + 1, left - 1, me, n, k - 1);
    }
}

/// In a small pool one rotation probes every peer.
pub proof fn law_small_pool_probes_everyone(start: int, me: int, peer: int, n: int)
    requires
        0 <= start < n,
        0 <= me < n,
        0 <= peer < n,
        peer != me,
        n <= PROBE_FULL_CUTOFF,
    ensures
        victims_from(start, 0, probe_count(n), me, n).contains(peer),
{
    let k = lemma_offset_of(start, peer, n);
    let m = lemma_offset_of(start, me, n);
    lemma_rotation_covers(start, 0, n - 1, me, n, k, m);
}

/// A round of the worker loop probes as many peers as it is meant to, each at
/// most once.
pub proof fn law_probes_are_different_peers(a: Arena, me: int)
    requires
        arena_shape(a),
        0 <= me < a.total(),
    ensures
        loop_victims(a, me).len() == probe_count(a.total()),
        loop_victims(a, me).no_duplicates(),
{
    let n = a.total();
    let start = victim_of(xorshift(a.ctxs[me].probe_rng), me, n);
    lemma_victim_in_range(xorshift(a.ctxs[me].probe_rng), me, n);
    let m = lemma_offset_of(start, me, n);
    lemma_rotation_length(start, 0, probe_count(n), me, n, m);
    let v = loop_victims(a, me);
    assert forall|i: int, j: int| 0 <= i < v.len() && 0 <= j < v.len() && i != j implies v[i]
        != v[j] by {
        if i < j {
            lemma_rotation_distinct(start, 0, probe_count(n), me, n, i, j);
        } else {
            lemma_rotation_distinct(start, 0, probe_count(n), me, n, j, i);
        }
    }
}

/// The offset at which a rotation passes a position.
proof fn lemma_offset_of(start: int, at: int, n: int) -> (k: int)
    requires
        0 <= start < n,
        0 <= at < n,
    ensures
        0 <= k < n,
        (start + k) % n == at,
{
    if at >= start {
        vstd::arithmetic::div_mod::lemma_small_mod(at as nat, n as nat);
        at - start
    } else {
        vstd::arithmetic::div_mod::lemma_mod_add_multiples_vanish(at, n);
        vstd::arithmetic::div_mod::lemma_small_mod(at as nat, n as nat);
        at - start + n
    }
}

/// A rotation that has enough positions left uses up its probes.
proof fn lemma_rotation_length(start: int, off: int, left: int, me: int, n: int, m: int)
    requires
        0 <= start < n,
        0 <= off <= n,
        0 <= m < n,
        (start + m) % n == me,
        0 <= left <= n - off - if m >= off { 1int } else { 0int },
    ensures
        victims_from(start, off, left, me, n).len() == left,
    decreases n - off,
{
    if off < n && left > 0 {
        if (start + off) % n == me {
            assert(off == m) by {
                if off < m {
                    crate::math::lemma_slots_distinct(start + off, start + m, n);
                } else if m < off {
                    crate::math::lemma_slots_distinct(start + m, start + off, n);
                }
            }
            lemma_rotation_length(start, off + 1, left, me, n, m);
        } else {
            assert(off != m);
            lemma_rotation_length(start, off + 1, left - 1, me, n, m);
        }
    }
}

/// The offset of the `j`-th probe of a rotation.
proof fn lemma_probe_offset(start: int, off: int, left: int, me: int, n: int, j: int) -> (k: int)
    requires
        0 <= off,
        0 <= j < victims_from(start, off, left, me, n).len(),
    ensures
        off <= k < n,
        victims_from(start, off, left, me, n)[j] == (start + k) % n,
    decreases n - off,
{
    let v = (start + off) % n;
    if v == me {
        lemma_probe_offset(start, off + 1, left, me, n, j)
    } else if j == 0 {
        off
    } else {
        let k = lemma_probe_offset(start, off + 1, left - 1, me, n, j - 1);
        assert(victims_from(start, off, left, me, n)[j] == victims_from(
            start,
            off + 1,
            left - 1,
            me,
            n,
        )[j - 1]);
        k
    }
}

/// Two probes of a rotation go to different positions.
proof fn lemma_rotation_distinct(
    start: int,
    off: int,
    left: int,
    me: int,
    n: int,
    i: int,
    j: int,
)
    requires
        0 <= off,
        0 <= i < j < victims_from(start, off, left, me, n).len(),
    ensures
        victims_from(start, off, left, me, n)[i] != victims_from(start, off, left, me, n)[j],
    decreases n - off,
{
    let all = victims_from(start, off, left, me, n);
    let v = (start + off) % n;
    if v == me {
        lemma_rotation_distinct(start, off + 1, left, me, n, i, j);
    } else {
        let rest = victims_from(start, off + 1, left - 1, me, n);
        assert(all[j] == rest[j - 1]);
        if i == 0 {
            let k = lemma_probe_offset(start, off + 1, left - 1, me, n, j - 1);
            if v == rest[j - 1] {
                crate::math::lemma_slots_distinct(start + off, start + k, n);
            }
        } else {
            assert(all[i] == rest[i - 1]);
            lemma_rotation_distinct(start, off + 1, left - 1, me, n, i - 1, j - 1);
        }
    }
}

/// A rotation that still has to pass `me` and has a probe for every other
/// peer left reaches the `k`-th position; one that has passed `me` needs a
/// probe for every position left.
proof fn lemma_rotation_covers(start: int, off: int, left: int, me: int, n: int, k: int, m: int)
    requires
        0 <= start < n,
        0 <= off <= k < n,
        0 <= m < n,
        (start + m) % n == me,
        (start + k) % n != me,
        left >= n - off - if m >= off { 1int } else { 0int },
    ensures
        victims_from(start, off, left, me, n).contains((start + k) % n),
    decreases n - off,
{
    let v = (start + off) % n;
    let all = victims_from(start, off, left, me, n);
    if v == me {
        assert(off == m) by {
            if off < m {
                crate::math::lemma_slots_distinct(start + off, start + m, n);
            } else if m < off {
                crate::math::lemma_slots_distinct(start + m, start + off, n);
            }
        }
        lemma_rotation_covers(start, off + 1, left, me, n, k, m);
    } else {
        assert(off != m);
        assert(all[0] == v);
        if off < k {
            lemma_rotation_covers(start, off + 1, left - 1, me, n, k, m);
            let rest = victims_from(start, off + 1, left - 1, me, n);
            let i = choose|i: int| 0 <= i < rest.len() && rest[i] == (start + k) % n;
            assert(all[i + 1] == rest[i]);
        }
    }
}

/// What the sleep coordinator reports.
#[derive(Debug)]
pub struct SleepState {
    /// Sleeping workers.
    pub sleeping: u64,
    /// Inactive workers.
    pub inactive: u64,
    /// Event counter.
    pub jec: u64,
    /// Whether each worker is blocked; `None` when that could not be read.
    pub blocked: Vec<Option<bool>>,
}

/// The jobs that thieves could take from a deque, as a diagnostic shows them.
pub open spec fn occupancy_mark(prefix: Seq<char>, d: Adaptive) -> Seq<char> {
    if d.khl.published.len() == 0 && d.fcl.published.len() == 0 {
        prefix + "."@
    } else {
        let n = d.khl.published.len();
        prefix + decimal(if n == 0 { 1 } else { n })
    }
}

/// The occupancy of a worker's deques, closest tier first.
pub open spec fn occupancy_text(prefix: Seq<char>, c: Ctx) -> Seq<char> {
    let t0 = occupancy_mark(prefix, c.deques[0]);
    let t1 = occupancy_mark(t0 + ","@, c.deques[1]);
    let t2 = occupancy_mark(t1 + ","@, c.deques[2]);
    occupancy_mark(t2 + ","@, c.deques[3])
}

/// Some deque of a worker has a slot that thieves could take.
pub open spec fn occupied(c: Ctx) -> bool {
    exists|t: int|
        0 <= t < N_TIERS && ((#[trigger] c.deques[t]).khl.published.len() > 0
            || c.deques[t].fcl.published.len() > 0)
}

/// Block state of worker `i` in words.
pub open spec fn block_text(blocked: Seq<Option<bool>>, i: int) -> Seq<char> {
    if i < blocked.len() && blocked[i] == Some(true) {
        "blocked"@
    } else if i < blocked.len() && blocked[i] == Some(false) {
        "awake"@
    } else {
        "mutex-held"@
    }
}

/// First line of a snapshot.
pub open spec fn snapshot_head(a: Arena, sleep: SleepState) -> Seq<char> {
    Seq::<char>::empty() + "workers="@ + decimal(a.n_workers as nat) + " primary="@ + decimal(
        a.primary_count as nat,
    ) + " smt_requests="@ + decimal(a.smt_requests as nat) + " injector_empty="@ + bool_text(
        a.injector.len() == 0,
    ) + " sleeping="@ + decimal(sleep.sleeping as nat) + " inactive="@ + decimal(
        sleep.inactive as nat,
    ) + " jec="@ + decimal(sleep.jec as nat) + "\n"@
}

/// Line of worker `i` behind `prefix`.
pub open spec fn worker_line(prefix: Seq<char>, c: Ctx, blocked: Seq<Option<bool>>, i: int) -> Seq<char> {
    occupancy_text(prefix + "  w"@ + decimal2(i as nat) + " deques["@, c) + "] "@ + block_text(
        blocked,
        i,
    ) + " pops="@ + decimal(c.stats.local_pops as nat) + " steals="@ + decimal(
        c.stats.peer_steal_hits as nat,
    ) + " stolen_from="@ + decimal(c.stats.times_stolen_from as nat) + " refused="@ + decimal(
        c.stats.push_refusals as nat,
    ) + "\n"@
}

/// Line of outside slot `k` behind `prefix`; only slots that are taken or hold
/// work have one.
pub open spec fn slot_line(prefix: Seq<char>, c: Ctx, claimed: bool, k: int) -> Seq<char> {
    if claimed || occupied(c) {
        occupancy_text(
            prefix + "  slot"@ + decimal2(k as nat) + " claimed="@ + bool_text(claimed)
                + " deques["@,
            c,
        ) + "]\n"@
    } else {
        prefix
    }
}

/// The first `n` worker lines of a snapshot.
pub open spec fn snapshot_workers(a: Arena, sleep: SleepState, n: int) -> Seq<char>
    decreases n,
{
    if n <= 0 {
        snapshot_head(a, sleep)
    } else {
        worker_line(snapshot_workers(a, sleep, n - 1), a.ctxs[n - 1], sleep.blocked@, n - 1)
    }
}

/// A snapshot up to outside slot `k`.
pub open spec fn snapshot_slots(a: Arena, sleep: SleepState, k: int) -> Seq<char>
    decreases k,
{
    if k <= 0 {
        snapshot_workers(a, sleep, a.n_workers)
    } else {
        slot_line(
            snapshot_slots(a, sleep, k - 1),
            a.ctxs[a.n_workers + k - 1],
            a.claimed[k - 1],
            k - 1,
        )
    }
}

impl LocalArena {
    /// Appends the occupancy of a position's deques.
    fn put_occupancy(&self, s: &mut String, i: usize)
        requires
            self.wf(),
            i < self@.total(),
        ensures
            final(s)@ == occupancy_text(old(s)@, self@.ctxs[i as int]),
    {
        self.put_mark(s, i, 0);
        put(s, ",");
        self.put_mark(s, i, 1);
        put(s, ",");
        self.put_mark(s, i, 2);
        put(s, ",");
        self.put_mark(s, i, 3);
    }

    fn put_mark(&self, s: &mut String, i: usize, t: usize)
        requires
            self.wf(),
            i < self@.total(),
            t < N_TIERS,
        ensures
            final(s)@ == occupancy_mark(old(s)@, self@.ctxs[i as int].deques[t as int]),
    {
        let stealer = self.ctxs[i].deques[t].stealer();
        if stealer.is_empty(&self.ctxs[i].deques[t]) {
            put(s, ".");
        } else {
            let n: usize = stealer.khl_len(&self.ctxs[i].deques[t]);
            put_decimal(s, if n == 0 { 1 } else { n as u64 });
        }
    }

    /// Whether a position's deques hold a slot that thieves could take.
    fn is_occupied(&self, i: usize) -> (res: bool)
        requires
            self.wf(),
            i < self@.total(),
        ensures
            res == occupied(self@.ctxs[i as int]),
    {
        let mut t: usize = 0;
        while t < N_TIERS
            invariant
                t <= N_TIERS,
                self.wf(),
                i < self@.total(),
                forall|k: int|
                    0 <= k < t ==> (#[trigger] self@.ctxs[i as int].deques[k]).khl.published.len()
                        == 0 && self@.ctxs[i as int].deques[k].fcl.published.len() == 0,
            decreases N_TIERS - t,
        {
            let stealer = self.ctxs[i].deques[t].stealer();
            let e: bool = stealer.is_empty(&self.ctxs[i].deques[t]);
            proof {
                let d = self@.ctxs[i as int].deques[t as int];
                assert(e == (d.khl.published.len() == 0 && d.fcl.published.len() == 0));
            }
            if !e {
                return true;
            }
            t += 1;
        }
        false
    }

    /// Diagnostic text: the sleep counters, a line per worker with its deque
    /// occupancy, block state and counters, and a line per outside slot that
    /// is taken or holds work.
    pub fn debug_snapshot(&self, sleep: &SleepState) -> (res: String)
        requires
            self.wf(),
        ensures
            res@ == snapshot_slots(self@, *sleep, EXTERNAL_SLOT_COUNT as int),
    {
        proof {
            self.lemma_shape();
        }
        let mut s = String::new();
        proof {
            assert(s@ =~= Seq::<char>::empty());
        }
        put(&mut s, "workers=");
        put_decimal(&mut s, self.n_workers as u64);
        put(&mut s, " primary=");
        put_decimal(&mut s, self.primary_count as u64);
        put(&mut s, " smt_requests=");
        put_decimal(&mut s, self.smt_requests as u64);
        put(&mut s, " injector_empty=");
        put_bool(&mut s, self.injector.len() == 0);
        put(&mut s, " sleeping=");
        put_decimal(&mut s, sleep.sleeping);
        put(&mut s, " inactive=");
        put_decimal(&mut s, sleep.inactive);
        put(&mut s, " jec=");
        put_decimal(&mut s, sleep.jec);
        put(&mut s, "\n");
        let mut i: usize = 0;
        while i < self.n_workers
            invariant
                self.wf(),
                arena_shape(self@),
                i <= self.n_workers,
                s@ == snapshot_workers(self@, *sleep, i as int),
            decreases self.n_workers - i,
        {
            put(&mut s, "  w");
            put_decimal2(&mut s, i as u64);
            put(&mut s, " deques[");
            self.put_occupancy(&mut s, i);
            put(&mut s, "] ");
            if i < sleep.blocked.len() && sleep.blocked[i] == Some(true) {
                put(&mut s, "blocked");
            } else if i < sleep.blocked.len() && sleep.blocked[i] == Some(false) {
                put(&mut s, "awake");
            } else {
                put(&mut s, "mutex-held");
            }
            put(&mut s, " pops=");
            put_decimal(&mut s, self.ctxs[i].stats.local_pops);
            put(&mut s, " steals=");
            put_decimal(&mut s, self.ctxs[i].stats.peer_steal_hits);
            put(&mut s, " stolen_from=");
            put_decimal(&mut s, self.ctxs[i].stats.times_stolen_from);
            put(&mut s, " refused=");
            put_decimal(&mut s, self.ctxs[i].stats.push_refusals);
            put(&mut s, "\n");
            i += 1;
        }
        let mut k: usize = 0;
        while k < EXTERNAL_SLOT_COUNT
            invariant
                self.wf(),
                arena_shape(self@),
                k <= EXTERNAL_SLOT_COUNT,
                s@ == snapshot_slots(self@, *sleep, k as int),
            decreases EXTERNAL_SLOT_COUNT - k,
        {
            let at: usize = self.n_workers + k;
            if self.claimed[k] || self.is_occupied(at) {
                put(&mut s, "  slot");
                put_decimal2(&mut s, k as u64);
                put(&mut s, " claimed=");
                put_bool(&mut s, self.claimed[k]);
                put(&mut s, " deques[");
                self.put_occupancy(&mut s, at);
                put(&mut s, "]\n");
            }
            k += 1;
        }
        s
    }
}

/// A failed probe keeps the arena's shape.
proof fn lemma_failed_probe_shape(a: Arena, me: int, src: WorkSource)
    requires
        arena_shape(a),
        0 <= me < a.total(),
        source_ok(src, me, a.total()),
        source_job(a, me, src) is None,
    ensures
        arena_shape(after_probe(a, me, src)),
        after_probe(a, me, src).total() == a.total(),
{
    let b = after_probe(a, me, src);
    assert forall|i: int| 0 <= i < b.total() implies (#[trigger] b.ctxs[i]).deques.len() == N_TIERS
        && b.ctxs[i].mailbox.len() <= MAILBOX_CAPACITY && b.ctxs[i].external == (i >= b.n_workers)
        && b.ctxs[i].wake_rotor < b.total() by {
        let c = a.ctxs[i];
    }
}

/// The first source with a job is the one that a walk takes it from.
proof fn lemma_walk_takes_the_first(a: Arena, me: int, order: Seq<WorkSource>, k: int)
    requires
        arena_shape(a),
        0 <= me < a.total(),
        forall|i: int| 0 <= i < order.len() ==> source_ok(#[trigger] order[i], me, a.total()),
        0 <= k < order.len(),
        source_job(a, me, order[k]) is Some,
        forall|i: int| 0 <= i < k ==> source_job(a, me, #[trigger] order[i]) is None,
    ensures
        walk(a, me, order).0 == Some((source_job(a, me, order[k])->Some_0, order[k])),
    decreases order.len(),
{
    if k > 0 {
        let src = order[0];
        let b = after_probe(a, me, src);
        let rest = order.drop_first();
        lemma_failed_probe_shape(a, me, src);
        assert forall|i: int| 0 <= i < rest.len() implies source_ok(
            #[trigger] rest[i],
            me,
            b.total(),
        ) && source_job(b, me, rest[i]) == source_job(a, me, rest[i]) by {
            assert(rest[i] == order[i + 1]);
            lemma_failed_probe_keeps(a, me, src, order[i + 1]);
        }
        assert forall|i: int| 0 <= i < k - 1 implies source_job(
            b,
            me,
            #[trigger] rest[i],
        ) is None by {
            assert(rest[i] == order[i + 1]);
        }
        assert(rest[k - 1] == order[k]);
        lemma_walk_takes_the_first(b, me, rest, k - 1);
    }
}

/// A source with a job makes the walk find one, there or before.
proof fn lemma_walk_finds(a: Arena, me: int, order: Seq<WorkSource>, k: int) -> (first: int)
    requires
        arena_shape(a),
        0 <= me < a.total(),
        forall|i: int| 0 <= i < order.len() ==> source_ok(#[trigger] order[i], me, a.total()),
        0 <= k < order.len(),
        source_job(a, me, order[k]) is Some,
    ensures
        0 <= first <= k,
        source_job(a, me, order[first]) is Some,
        forall|i: int| 0 <= i < first ==> source_job(a, me, #[trigger] order[i]) is None,
        walk(a, me, order).0 == Some((source_job(a, me, order[first])->Some_0, order[first])),
    decreases k,
{
    if forall|i: int| 0 <= i < k ==> source_job(a, me, #[trigger] order[i]) is None {
        lemma_walk_takes_the_first(a, me, order, k);
        k
    } else {
        let j = choose|j: int| 0 <= j < k && source_job(a, me, #[trigger] order[j]) is Some;
        lemma_walk_finds(a, me, order, j)
    }
}

/// A walk that finds a job found it at the first source that had one.
proof fn lemma_walk_hit(a: Arena, me: int, order: Seq<WorkSource>) -> (first: int)
    requires
        arena_shape(a),
        0 <= me < a.total(),
        forall|i: int| 0 <= i < order.len() ==> source_ok(#[trigger] order[i], me, a.total()),
        walk(a, me, order).0 is Some,
    ensures
        0 <= first < order.len(),
        source_job(a, me, order[first]) is Some,
        forall|i: int| 0 <= i < first ==> source_job(a, me, #[trigger] order[i]) is None,
        walk(a, me, order).0 == Some((source_job(a, me, order[first])->Some_0, order[first])),
    decreases order.len(),
{
    if exists|k: int| 0 <= k < order.len() && source_job(a, me, #[trigger] order[k]) is Some {
        let k = choose|k: int|
            0 <= k < order.len() && source_job(a, me, #[trigger] order[k]) is Some;
        lemma_walk_finds(a, me, order, k)
    } else {
        lemma_walk_misses(a, me, order);
        0
    }
}

proof fn lemma_walk_misses(a: Arena, me: int, order: Seq<WorkSource>)
    requires
        arena_shape(a),
        0 <= me < a.total(),
        forall|i: int| 0 <= i < order.len() ==> source_ok(#[trigger] order[i], me, a.total()),
        forall|i: int| 0 <= i < order.len() ==> source_job(a, me, #[trigger] order[i]) is None,
    ensures
        walk(a, me, order).0 is None,
    decreases order.len(),
{
    if order.len() > 0 {
        let src = order[0];
        let b = after_probe(a, me, src);
        let rest = order.drop_first();
        lemma_failed_probe_shape(a, me, src);
        assert forall|i: int| 0 <= i < rest.len() implies source_ok(
            #[trigger] rest[i],
            me,
            b.total(),
        ) && source_job(b, me, rest[i]) is None by {
            assert(rest[i] == order[i + 1]);
            lemma_failed_probe_keeps(a, me, src, order[i + 1]);
        }
        lemma_walk_misses(b, me, rest);
    }
}

/// The sources of a work search may be probed.
proof fn lemma_search_order_ok(a: Arena, me: int)
    requires
        arena_shape(a),
        0 <= me < a.total(),
    ensures
        forall|i: int|
            0 <= i < search_order(a, me).len() ==> source_ok(
                #[trigger] search_order(a, me)[i],
                me,
                a.total(),
            ),
        forall|i: int|
            0 <= i < loop_order(a, me).len() ==> source_ok(
                #[trigger] loop_order(a, me)[i],
                me,
                a.total(),
            ),
{
    assert forall|i: int| 0 <= i < search_order(a, me).len() implies source_ok(
        #[trigger] search_order(a, me)[i],
        me,
        a.total(),
    ) by {
        law_probes_respect_discipline(a, me, i);
    }
    assert forall|i: int| 0 <= i < loop_order(a, me).len() implies source_ok(
        #[trigger] loop_order(a, me)[i],
        me,
        a.total(),
    ) by {
        law_probes_respect_discipline(a, me, i);
    }
}

/// A worker holds no job at all: none in its deques, its leftovers or its
/// mailbox.
pub open spec fn holds_nothing(c: Ctx) -> bool {
    &&& forall|t: int|
        #![trigger c.deques[t]]
        0 <= t < 4 ==> c.deques[t].khl.published.len() == 0 && c.deques[t].khl.buffered.jobs.len()
            == 0 && c.deques[t].khl.stash.jobs.len() == 0 && c.deques[t].fcl.published.len() == 0
            && c.deques[t].fcl.buffered.jobs.len() == 0 && c.deques[t].fcl.stash.jobs.len() == 0
    &&& c.stash.khl.jobs.len() == 0
    &&& c.stash.fcl.jobs.len() == 0
    &&& c.mailbox.len() == 0
}

/// Worker `me` reaches the deque at tier position `t` of position `v`.
pub open spec fn reaches(a: Arena, me: int, v: int, t: int) -> bool {
    t == 3 || (a.ccx_size > 0 && (me / 2 == v / 2 || (me / a.ccx_size == v / a.ccx_size && t >= 1)))
}

/// `job` is the first job of the oldest slot that position `v` has published
/// in the active or the dormant half of its deque at tier position `t`.
pub open spec fn oldest_published(a: Arena, v: int, t: int, job: JobRef) -> bool {
    let d = a.ctxs[v].deques[t];
    ||| d.khl.published.len() > 0 && job.data == d.khl.published[0].jobs[0].data && job.entry
        == d.khl.published[0].jobs[0].entry
    ||| d.fcl.published.len() > 0 && job.data == d.fcl.published[0].jobs[0].data && job.entry
        == d.fcl.published[0].jobs[0].entry
}

/// The position of a peer's deque among the peer's sources.
proof fn lemma_peer_source_at(a: Arena, me: int, v: usize, t: int) -> (i: int)
    requires
        0 <= me,
        0 <= a.ccx_size,
        0 <= t < 4,
        reaches(a, me, v as int, t),
    ensures
        0 <= i < peer_sources(me, v, a.ccx_size).len(),
        peer_sources(me, v, a.ccx_size)[i] == WorkSource::Peer(v, tier_at(t)->Some_0),
{
    if a.ccx_size > 0 {
        crate::deque_tier::law_reach(me, v as int, a.ccx_size, t);
    }
    let d = tier_idx(distance_spec(me, v as int, a.ccx_size));
    assert(t >= d);
    t - d
}

proof fn lemma_nothing_local(a: Arena, me: int, i: int)
    requires
        arena_shape(a),
        0 <= me < a.total(),
        holds_nothing(a.ctxs[me]),
        a.injector.len() == 0,
        0 <= i < search_local(a.mailbox_ever_used).len(),
    ensures
        source_job(a, me, search_local(a.mailbox_ever_used)[i]) is None,
        !(search_local(a.mailbox_ever_used)[i] is Peer),
{
    let c = a.ctxs[me];
    assert(c.deques[0] == c.deques[0] && c.deques[1] == c.deques[1] && c.deques[2] == c.deques[2]
        && c.deques[3] == c.deques[3]);
}

/// A worker without a job of its own, and with nothing submitted, steals from
/// its last victim before anybody else: wherever that victim has published a
/// job in a deque that the worker reaches, the search comes back with the
/// oldest job of such a deque.
pub proof fn law_last_victim_is_robbed_again(a: Arena, me: int, v: usize, t: int)
    requires
        arena_shape(a),
        0 <= a.ccx_size,
        0 <= me < a.total(),
        v < a.total(),
        v != me,
        a.ctxs[me].last_victim == Some(v),
        holds_nothing(a.ctxs[me]),
        a.injector.len() == 0,
        0 <= t < 4,
        reaches(a, me, v as int, t),
        a.ctxs[v as int].deques[t].front().published.len() > 0,
    ensures
        ({
            let found = walk(a, me, search_order(a, me)).0;
            &&& found is Some
            &&& exists|u: int|
                0 <= u <= t && #[trigger] reaches(a, me, v as int, u) && oldest_published(
                    a,
                    v as int,
                    u,
                    found->Some_0.0,
                )
        }),
{
    let order = search_order(a, me);
    let local = search_local(a.mailbox_ever_used);
    let last = search_last(a, me);
    let from = lemma_peer_source_at(a, me, v, t);
    let k = local.len() + from;
    assert(last == peer_sources(me, v, a.ccx_size));
    assert(order[k] == last[from]);
    lemma_search_order_ok(a, me);
    let first = lemma_walk_finds(a, me, order, k);
    if first < local.len() {
        assert(order[first] == local[first]);
        lemma_nothing_local(a, me, first);
    }
    let d = tier_idx(distance_spec(me, v as int, a.ccx_size));
    let u = d + (first - local.len());
    assert(order[first] == last[first - local.len()]);
    assert(order[first] == WorkSource::Peer(v, tier_at(u)->Some_0));
    if a.ccx_size > 0 {
        crate::deque_tier::law_reach(me, v as int, a.ccx_size, u);
    }
    assert(reaches(a, me, v as int, u));
    assert(oldest_published(a, v as int, u, walk(a, me, order).0->Some_0.0));
}

/// Every search without a local job probes the peer that it rolls, in each of
/// the deques that the worker reaches there: if one of them has a published
/// job, the search finds a job.
pub proof fn law_rolled_peer_is_probed(a: Arena, me: int, t: int)
    requires
        arena_shape(a),
        0 <= a.ccx_size,
        0 <= me < a.total(),
        0 <= t < 4,
        reaches(a, me, search_victim(a, me), t),
        a.ctxs[search_victim(a, me)].deques[t].front().published.len() > 0,
    ensures
        0 <= search_victim(a, me) < a.total(),
        search_victim(a, me) != me,
        walk(a, me, search_order(a, me)).0 is Some,
{
    lemma_victim_in_range(xorshift(seeded(a.ctxs[me].rng)), me, a.total());
    let v = search_victim(a, me) as usize;
    let order = search_order(a, me);
    let local = search_local(a.mailbox_ever_used);
    let last = search_last(a, me);
    let from = lemma_peer_source_at(a, me, v, t);
    let k = local.len() + last.len() + 1 + from;
    assert(order[k] == peer_sources(me, v, a.ccx_size)[from]);
    lemma_search_order_ok(a, me);
    let first = lemma_walk_finds(a, me, order, k);
}

/// A search finds a job whenever every peer has one in its widest deque, and
/// whatever the worker itself or the submitted jobs hold is found first.
pub proof fn law_search_helps(a: Arena, me: int)
    requires
        arena_shape(a),
        0 <= a.ccx_size,
        0 <= me < a.total(),
    ensures
        (forall|v: int|
            #![trigger a.ctxs[v]]
            0 <= v < a.total() && v != me ==> a.ctxs[v].deques[3].front().published.len() > 0)
            ==> walk(a, me, search_order(a, me)).0 is Some,
        a.injector.len() > 0 ==> walk(a, me, search_order(a, me)).0 is Some,
        a.mailbox_ever_used && a.ctxs[me].mailbox.len() > 0 ==> walk(
            a,
            me,
            search_order(a, me),
        ).0 is Some,
        (exists|t: int|
            0 <= t < 4 && (#[trigger] a.ctxs[me].deques[t]).front().published.len() > 0) ==> walk(
            a,
            me,
            search_order(a, me),
        ).0 is Some,
        a.ctxs[me].stash.khl.jobs.len() > 0 || a.ctxs[me].stash.fcl.jobs.len() > 0 ==> walk(
            a,
            me,
            search_order(a, me),
        ).0 is Some,
        walk(a, me, search_order(a, me)).0 matches Some(hit) ==> (hit.1 is Peer ==> a.injector.len()
            == 0 && (a.mailbox_ever_used ==> a.ctxs[me].mailbox.len() == 0)
            && a.ctxs[me].stash.khl.jobs.len() == 0 && a.ctxs[me].stash.fcl.jobs.len() == 0
            && a.ctxs[me].deques[0].front().published.len() == 0
            && a.ctxs[me].deques[1].front().published.len() == 0
            && a.ctxs[me].deques[2].front().published.len() == 0
            && a.ctxs[me].deques[3].front().published.len() == 0),
{
    let order = search_order(a, me);
    let used = a.mailbox_ever_used;
    let local = search_local(used);
    let skip: int = if used { 1 } else { 0 };
    lemma_search_order_ok(a, me);
    assert(local.len() == 6 + skip);
    assert(local[0] == WorkSource::Tier(DequeTier::Public) && local[1] == WorkSource::Stash);
    assert(used ==> local[2] == WorkSource::Mailbox);
    assert(local[2 + skip] == WorkSource::Tier(DequeTier::SmtLocal) && local[3 + skip]
        == WorkSource::Tier(DequeTier::IntraCcx) && local[4 + skip] == WorkSource::Tier(
        DequeTier::CrossCcx,
    ) && local[5 + skip] == WorkSource::Injector);
    assert forall|i: int| 0 <= i < local.len() implies #[trigger] order[i] == local[i] by {}
    if forall|v: int|
        #![trigger a.ctxs[v]]
        0 <= v < a.total() && v != me ==> a.ctxs[v].deques[3].front().published.len() > 0 {
        lemma_victim_in_range(xorshift(seeded(a.ctxs[me].rng)), me, a.total());
        let v = search_victim(a, me);
        assert(a.ctxs[v].deques[3].front().published.len() > 0);
        law_rolled_peer_is_probed(a, me, 3);
    }
    let c = a.ctxs[me];
    if a.injector.len() > 0 {
        let first = lemma_walk_finds(a, me, order, 5 + skip);
    }
    if used && c.mailbox.len() > 0 {
        let first = lemma_walk_finds(a, me, order, 2);
    }
    if c.stash.khl.jobs.len() > 0 || c.stash.fcl.jobs.len() > 0 {
        let first = lemma_walk_finds(a, me, order, 1);
    }
    if exists|t: int| 0 <= t < 4 && (#[trigger] c.deques[t]).front().published.len() > 0 {
        let t = choose|t: int| 0 <= t < 4 && (#[trigger] c.deques[t]).front().published.len() > 0;
        let first = lemma_walk_finds(
            a,
            me,
            order,
            if t == 3 {
                0
            } else {
                2 + skip + t
            },
        );
    }
    if walk(a, me, order).0 is Some {
        let first = lemma_walk_hit(a, me, order);
        if order[first] is Peer {
            if first < local.len() {
                assert(order[first] == local[first]);
            }
            assert(order[0] == local[0] && order[1] == local[1] && order[2] == local[2] && order[3]
                == local[3] && order[4] == local[4] && order[5] == local[5]);
            assert(order[2 + skip] == local[2 + skip] && order[5 + skip] == local[5 + skip]);
        }
    }
}

/// The worker's own newest published job comes before every other source, and
/// a leftover of the last steal before everything but that.
pub proof fn law_own_job_comes_first(a: Arena, me: int)
    requires
        arena_shape(a),
        0 <= me < a.total(),
    ensures
        ({
            let found = walk(a, me, search_order(a, me)).0;
            let d = a.ctxs[me].deques[3].front();
            let left = a.ctxs[me].stash.khl;
            &&& d.stash.jobs.len() == 0 && d.buffered.jobs.len() == 0 && d.published.len() > 0
                ==> found is Some && found->Some_0.0.data == d.published.last().jobs[0].data
                && found->Some_0.0.entry == d.published.last().jobs[0].entry
            &&& a.ctxs[me].deques[3].khl.drained() && a.ctxs[me].deques[3].fcl.drained()
                && left.jobs.len() > 0 ==> found is Some && found->Some_0.0.data
                == left.jobs.last().data && found->Some_0.0.entry == left.jobs.last().entry
        }),
{
    let order = search_order(a, me);
    let local = search_local(a.mailbox_ever_used);
    lemma_search_order_ok(a, me);
    assert(order[0] == local[0] && order[1] == local[1]);
    assert(order[0] == WorkSource::Tier(DequeTier::Public) && order[1] == WorkSource::Stash);
    let d = a.ctxs[me].deques[3];
    if d.front().stash.jobs.len() == 0 && d.front().buffered.jobs.len() == 0
        && d.front().published.len() > 0 {
        lemma_walk_takes_the_first(a, me, order, 0);
    }
    if d.khl.drained() && d.fcl.drained() && a.ctxs[me].stash.khl.jobs.len() > 0 {
        lemma_walk_takes_the_first(a, me, order, 1);
    }
}

/// A successful theft takes the job out of the victim, makes the victim the
/// thief's first choice, counts as a theft, and leaves everybody else alone.
pub proof fn law_theft_is_remembered(a: Arena, me: int, v: usize, t: int, other: int)
    requires
        arena_shape(a),
        0 <= me < a.total(),
        v < a.total(),
        v != me,
        0 <= t < 4,
        a.ctxs[v as int].deques[t].front().published.len() > 0,
        0 <= other < a.total(),
        other != me,
        other != v,
    ensures
        ({
            let b = after_peer_probe(a, me, v, t);
            let before = a.ctxs[v as int].deques[t].front();
            let after = b.ctxs[v as int].deques[t].front();
            &&& b.ctxs[me].last_victim == Some(v)
            &&& after.published == before.published.drop_first()
            &&& after.buffered == before.buffered
            &&& b.ctxs[v as int].stats.times_stolen_from == a.ctxs[v as int].stats.times_stolen_from.wrapping_add(
                1,
            )
            &&& b.ctxs[other] == a.ctxs[other]
            &&& b.injector == a.injector
        }),
{
}

/// A rolled victim is a peer, and any peer may be rolled.
pub proof fn law_every_peer_may_be_rolled(me: int, v: usize, n: int, x: u64)
    requires
        0 <= me < n,
        0 <= v < n,
        v != me,
        2 <= n <= usize::MAX,
    ensures
        victim_of(v as u64, me, n) == v,
        0 <= victim_of(x, me, n) < n,
        victim_of(x, me, n) != me,
{
    vstd::arithmetic::div_mod::lemma_small_mod(v as nat, n as nat);
    lemma_victim_in_range(x, me, n);
}

/// The random states never run dry and never stand still: a state other than
/// zero is followed by another one other than zero, and different states by
/// different ones.
pub proof fn law_random_states_move(x: u64, y: u64)
    ensures
        x != 0 ==> xorshift(x) != 0,
        x != 0 ==> xorshift(x) != x,
        x != y ==> xorshift(x) != xorshift(y),
        seeded(x) != 0,
        x != 0 ==> seeded(x) == x,
{
    let a = x ^ (x << 13u64);
    let b = a ^ (a >> 7u64);
    let c = y ^ (y << 13u64);
    let d = c ^ (c >> 7u64);
    assert(x != y ==> (x ^ (x << 13u64)) != (y ^ (y << 13u64))) by (bit_vector);
    assert(a != c ==> (a ^ (a >> 7u64)) != (c ^ (c >> 7u64))) by (bit_vector);
    assert(b != d ==> (b ^ (b << 17u64)) != (d ^ (d << 17u64))) by (bit_vector);
    assert(x != 0 ==> (x ^ (x << 13u64)) != 0) by (bit_vector);
    assert(a != 0 ==> (a ^ (a >> 7u64)) != 0) by (bit_vector);
    assert(b != 0 ==> (b ^ (b << 17u64)) != 0) by (bit_vector);
    assert(x != 0 ==> ({
        let p = x ^ (x << 13u64);
        let q = p ^ (p >> 7u64);
        (q ^ (q << 17u64)) != x
    })) by (bit_vector);
}

/// A search that gets as far as a random peer leaves another random state
/// behind, so that the next one rolls anew; no search touches the states of
/// others.
pub proof fn law_each_search_rolls_anew(a: Arena, me: int)
    requires
        0 <= me < a.total(),
        a.ctxs[me].rng != 0,
    ensures
        after_probe(a, me, WorkSource::SearchRoll).ctxs[me].rng != a.ctxs[me].rng,
        after_probe(a, me, WorkSource::SearchRoll).ctxs[me].rng != 0,
        a.ctxs[me].probe_rng != 0 ==> after_probe(a, me, WorkSource::LoopRoll).ctxs[me].probe_rng
            != a.ctxs[me].probe_rng,
{
    law_random_states_move(a.ctxs[me].rng, 0);
    law_random_states_move(a.ctxs[me].probe_rng, 0);
}

/// The worker loop of a pool of up to eight positions probes everybody else,
/// that of a larger one four others.
pub proof fn law_loop_probes_four_peers(a: Arena, me: int, k: int)
    requires
        arena_shape(a),
        0 <= me < a.total(),
    ensures
        loop_victims(a, me).len() == if a.total() <= 8 {
            a.total() - 1
        } else {
            4
        },
        loop_victims(a, me).no_duplicates(),
        0 <= k < loop_victims(a, me).len() ==> 0 <= loop_victims(a, me)[k] < a.total()
            && loop_victims(a, me)[k] != me,
{
    law_probes_are_different_peers(a, me);
    let n = a.total();
    let start = victim_of(xorshift(a.ctxs[me].probe_rng), me, n);
    if 0 <= k < loop_victims(a, me).len() {
        lemma_victim_is_peer(start, 0, probe_count(n), me, n, k);
    }
}

/// The sources of one of several peers stand among theirs together.
proof fn lemma_victim_source_at(a: Arena, me: int, victims: Seq<int>, k: int, from: int) -> (i: int)
    requires
        0 <= k < victims.len(),
        0 <= from < peer_sources(me, victims[k] as usize, a.ccx_size).len(),
    ensures
        0 <= i < victims_sources(me, victims, a.ccx_size).len(),
        victims_sources(me, victims, a.ccx_size)[i] == peer_sources(
            me,
            victims[k] as usize,
            a.ccx_size,
        )[from],
    decreases victims.len(),
{
    let head = victims_sources(me, victims.drop_last(), a.ccx_size);
    if k == victims.len() - 1 {
        head.len() + from
    } else {
        lemma_victim_source_at(a, me, victims.drop_last(), k, from)
    }
}

/// A worker goes idle only when there is nothing that it could have run: no
/// job of its own, none submitted, and none published in a deque that it
/// reaches at any of the peers that this round probes.
pub proof fn law_idle_means_nothing_found(a: Arena, me: int, own_shutdown: bool, k: int, t: int)
    requires
        arena_shape(a),
        0 <= a.ccx_size,
        0 <= me < a.total(),
        worker_step(a, me, own_shutdown).0 is Idle,
        0 <= t < 4,
    ensures
        a.injector.len() == 0,
        a.ctxs[me].mailbox.len() == 0,
        a.ctxs[me].stash.khl.jobs.len() == 0,
        a.ctxs[me].stash.fcl.jobs.len() == 0,
        a.ctxs[me].deques[t].front().published.len() == 0,
        a.ctxs[me].deques[t].front().buffered.jobs.len() == 0,
        0 <= k < loop_victims(a, me).len() && reaches(a, me, loop_victims(a, me)[k], t)
            ==> a.ctxs[loop_victims(a, me)[k]].deques[t].front().published.len() == 0,
{
    let order = loop_order(a, me);
    lemma_search_order_ok(a, me);
    assert(order[0] == WorkSource::Stash && order[1] == WorkSource::Mailbox && order[2]
        == WorkSource::Tier(DequeTier::SmtLocal) && order[3] == WorkSource::Tier(
        DequeTier::IntraCcx,
    ) && order[4] == WorkSource::Tier(DequeTier::CrossCcx) && order[5] == WorkSource::Tier(
        DequeTier::Public,
    ) && order[6] == WorkSource::Injector);
    if a.injector.len() > 0 {
        let f = lemma_walk_finds(a, me, order, 6);
    }
    if a.ctxs[me].mailbox.len() > 0 {
        let f = lemma_walk_finds(a, me, order, 1);
    }
    if a.ctxs[me].stash.khl.jobs.len() > 0 || a.ctxs[me].stash.fcl.jobs.len() > 0 {
        let f = lemma_walk_finds(a, me, order, 0);
    }
    let d = a.ctxs[me].deques[t].front();
    if d.published.len() > 0 || d.buffered.jobs.len() > 0 {
        let f = lemma_walk_finds(a, me, order, 2 + t);
    }
    let victims = loop_victims(a, me);
    if 0 <= k < victims.len() && reaches(a, me, victims[k], t)
        && a.ctxs[victims[k]].deques[t].front().published.len() > 0 {
        law_loop_probes_four_peers(a, me, k);
        let v = victims[k] as usize;
        let from = lemma_peer_source_at(a, me, v, t);
        let i = lemma_victim_source_at(a, me, victims, k, from);
        assert(order[8 + i] == victims_sources(me, victims, a.ccx_size)[i]);
        let f = lemma_walk_finds(a, me, order, 8 + i);
    }
}

/// What a worker thread does: it ends when told to or when the arena shuts
/// down; a sibling that nobody asked for waits; any other worker looks for a
/// job.
pub proof fn law_worker_rounds(a: Arena, me: int, own_shutdown: bool)
    requires
        arena_shape(a),
        0 <= me < a.total(),
    ensures
        ({
            let act = worker_step(a, me, own_shutdown).0;
            &&& act is Exit <==> own_shutdown || a.shutdown
            &&& act is WaitForRequest <==> !own_shutdown && !a.shutdown && me >= a.primary_count
                && a.smt_requests == 0
            &&& act matches WorkerAction::Run { job, work_found } ==> work_found == a.ctxs[me].idle
            &&& act matches WorkerAction::Idle { start_looking } ==> start_looking
                != a.ctxs[me].idle && worker_step(a, me, own_shutdown).1.ctxs[me].idle
            &&& act is Run ==> !worker_step(a, me, own_shutdown).1.ctxs[me].idle
        }),
{
    lemma_search_order_ok(a, me);
    lemma_walk_total(a, me, loop_order(a, me));
}

proof fn lemma_walk_total(a: Arena, me: int, order: Seq<WorkSource>)
    requires
        0 <= me < a.total(),
        forall|i: int| 0 <= i < order.len() ==> source_ok(#[trigger] order[i], me, a.total()),
    ensures
        walk(a, me, order).1.total() == a.total(),
    decreases order.len(),
{
    if order.len() > 0 {
        let b = after_probe(a, me, order[0]);
        let rest = order.drop_first();
        assert(source_ok(order[0], me, a.total()));
        assert(b.total() == a.total());
        assert forall|i: int| 0 <= i < rest.len() implies source_ok(
            #[trigger] rest[i],
            me,
            b.total(),
        ) by {
            assert(rest[i] == order[i + 1]);
        }
        lemma_walk_total(b, me, rest);
    }
}

/// The thread outside the pool takes the oldest submitted job first, then the
/// newest of its leftovers, then the oldest published job of a position's
/// widest deque; it finds one whenever every position has one there.
pub proof fn law_helper_finds_work(
    a: Arena,
    rng: u64,
    left: Leftovers,
    res: Option<JobRef>,
    a2: Arena,
    rng2: u64,
    left2: Leftovers,
)
    requires
        a.total() > 0,
        helper_step(a, rng, left, res, a2, rng2, left2),
    ensures
        a.injector.len() > 0 ==> res == Some(a.injector[0]) && a2.injector
            == a.injector.drop_first() && a2.ctxs == a.ctxs && left2 == left,
        a.injector.len() == 0 && left.khl.jobs.len() > 0 ==> res is Some && res->Some_0.data
            == left.khl.jobs.last().data && a2 == a && left2.khl.jobs == left.khl.jobs.drop_last(),
        a.injector.len() == 0 && (forall|v: int|
            #![trigger a.ctxs[v]]
            0 <= v < a.total() ==> a.ctxs[v].deques[3].front().published.len() > 0) ==> res is Some,
        a.injector.len() == 0 ==> rng2 != rng && rng2 != 0,
        a.injector.len() == 0 && left.khl.jobs.len() == 0 && left.fcl.jobs.len() == 0
            && res is Some ==> exists|v: int|
            0 <= v < a.total() && #[trigger] oldest_published(a, v, 3, res->Some_0),
{
    if a.injector.len() == 0 {
        let x = xorshift(seeded(rng));
        let idx = (x as usize) as int % a.total();
        vstd::arithmetic::div_mod::lemma_mod_bound((x as usize) as int, a.total());
        law_random_states_move(rng, 0);
        law_random_states_move(seeded(rng), rng);
        assert(a.ctxs[idx] == a.ctxs[idx]);
        if left.khl.jobs.len() == 0 && left.fcl.jobs.len() == 0 && res is Some {
            assert(oldest_published(a, idx, 3, res->Some_0));
        }
    }
}

/// A push adds its job to the deque of its tier, at the end that the owner
/// pops and thieves reach last; every other deque stays as it is.
pub proof fn law_push_goes_to_its_tier(c: Ctx, t: int, job: JobRef, other: int)
    requires
        c.deques.len() == 4,
        0 <= t < 4,
        0 <= other < 4,
        other != t,
    ensures
        ({
            let after = after_push(c, t, job);
            let d = after.deques[t].front();
            &&& d.published.len() == c.deques[t].front().published.len() + 1
            &&& d.published.drop_last() == c.deques[t].front().published
            &&& d.published.last().jobs.last().data == job.data
            &&& d.published.last().jobs.last().entry == job.entry
            &&& d.published.last().jobs.len() == c.deques[t].front().buffered.jobs.len() + 1
            &&& d.buffered.jobs.len() == 0
            &&& after.deques[other] == c.deques[other]
            &&& after.mailbox == c.mailbox
        }),
{
    assert(after_push(c, t, job).deques[t].front().published.drop_last()
        =~= c.deques[t].front().published);
}

/// A burst push keeps its job back until three are together, and a flush
/// publishes what was kept back.
pub proof fn law_bursts_publish_threes(c: Ctx, t: int, job: JobRef)
    requires
        c.deques.len() == 4,
        0 <= t < 4,
    ensures
        ({
            let before = c.deques[t].front();
            let after = after_burst(c, t, job).deques[t].front();
            let flushed = after_flush(c).deques[t].front();
            &&& before.buffered.jobs.len() < 2 ==> after.published == before.published
                && after.buffered.jobs.len() == before.buffered.jobs.len() + 1
                && after.buffered.jobs.last().data == job.data
            &&& before.buffered.jobs.len() == 2 ==> after.published.len() == before.published.len()
                + 1 && after.published.last().jobs.len() == 3
                && after.published.last().jobs.last().data == job.data && after.buffered.jobs.len()
                == 0
            &&& before.buffered.jobs.len() > 0 ==> flushed.published == before.published.push(
                before.buffered,
            )
            &&& before.buffered.jobs.len() == 0 ==> flushed.published == before.published
            &&& flushed.buffered.jobs.len() == 0
            &&& after_flush(c).burst_pushed == 0
            &&& c.burst_pushed < u32::MAX ==> after_burst(c, t, job).burst_pushed == c.burst_pushed
                + 1
        }),
{
}

/// The peer that is woken next is never the waker, and wakes go round: from
/// anywhere, the next one is the following position, or the one after that
/// where the waker stands in between.
pub proof fn law_wakes_go_round(rotor: int, me: int, n: int)
    requires
        2 <= n,
        0 <= rotor < n,
        0 <= me < n,
    ensures
        0 <= next_peer(rotor, me, n) < n,
        next_peer(rotor, me, n) != me,
        rotor + 1 < n && rotor + 1 != me ==> next_peer(rotor, me, n) == rotor + 1,
        rotor + 1 == n && me != 0 ==> next_peer(rotor, me, n) == 0,
        rotor + 1 == me && me + 1 < n ==> next_peer(rotor, me, n) == me + 1,
{
    lemma_rotate(rotor, 0, n);
    vstd::arithmetic::div_mod::lemma_small_mod(rotor as nat, n as nat);
    let r = (rotor + 1) % n;
    if r == me {
        lemma_rotate(r, 0, n);
        vstd::arithmetic::div_mod::lemma_small_mod(r as nat, n as nat);
    }
}

/// A new arena: the workers, then thirty-two free slots for outside threads,
/// each with four empty deques; workers take 256 slots to a deque, outside
/// slots 64; random states differ from zero; and the named cores are handed
/// out in turn.
pub proof fn law_fresh_arena_layout(
    primary: int,
    siblings: int,
    cpu_set: Option<Seq<usize>>,
    ccx_size: int,
    i: int,
)
    requires
        primary >= 1,
        siblings >= 0,
        0 <= i < primary + siblings + 32,
        primary + siblings + 32 <= usize::MAX,
    ensures
        ({
            let a = fresh_arena(primary, siblings, cpu_set, ccx_size);
            &&& a.total() == primary + siblings + 32
            &&& a.n_workers == primary + siblings
            &&& a.primary_count == primary
            &&& a.claimed.len() == 32 && (forall|k: int| 0 <= k < 32 ==> !#[trigger] a.claimed[k])
            &&& holds_nothing(a.ctxs[i])
            &&& a.ctxs[i].deques.len() == 4
            &&& a.ctxs[i].last_victim is None
            &&& a.ctxs[i].external <==> i >= primary + siblings
            &&& a.ctxs[i].slot_limit == if i < primary + siblings {
                256int
            } else {
                64
            }
            &&& a.injector.len() == 0 && !a.shutdown && a.smt_requests == 0
            &&& cpu_set matches Some(ids) ==> (i < primary + siblings && i < ids.len()
                ==> a.cores[i] == Some(ids[i]))
        }),
{
    if cpu_set is Some && i < cpu_set->Some_0.len() {
        vstd::arithmetic::div_mod::lemma_small_mod(i as nat, cpu_set->Some_0.len());
    }
}

/// Switching the discipline switches every deque and moves no job.
pub proof fn law_switching_moves_nothing(c: Ctx, gating: KGating, t: int)
    requires
        c.deques.len() == 4,
        0 <= t < 4,
    ensures
        retagged_ctx(c, gating).deques[t].khl == c.deques[t].khl,
        retagged_ctx(c, gating).deques[t].fcl == c.deques[t].fcl,
        retagged_ctx(c, gating).deques[t].active == if gating == KGating::CounterOnly {
            ACTIVE_FCL
        } else {
            ACTIVE_KHL
        },
        retagged_ctx(c, gating).deques[t].active != c.deques[t].active ==> retagged_ctx(
            c,
            gating,
        ).deques[t].dirty,
        c.deques[t].dirty ==> retagged_ctx(c, gating).deques[t].dirty,
{
}

/// A waiting sibling leaves when it is asked for, ends when the arena shuts
/// down, and otherwise yields a thousand times, then sleeps a hundred times for
/// a hundred microseconds each, then parks until it is woken.
pub proof fn law_sibling_waits_in_stages(rounds: u32, requests: u32, shutdown: bool)
    ensures
        ({
            let yielding = gate_step(SmtGate::Spinning { rounds }, requests, shutdown).0;
            let sleeping = gate_step(SmtGate::Sleeping { rounds }, requests, shutdown).0;
            &&& rounds < 1000 ==> (yielding is Leave <==> requests > 0) && (yielding is Exit
                <==> requests == 0 && shutdown) && (yielding is Yield <==> requests == 0
                && !shutdown)
            &&& rounds < 100 ==> (sleeping is Leave <==> requests > 0) && (sleeping is Exit
                <==> requests == 0 && shutdown) && (requests == 0 && !shutdown ==> sleeping
                == GateAction::SleepMicros(100))
            &&& rounds >= 100 ==> sleeping is Park
            &&& gate_step(SmtGate::Woken, requests, shutdown).0 is Leave
        }),
{
}

/// A single push is refused exactly where the tier's active deque is full, and
/// then gives the job back and changes no deque; else the job is the newest
/// there, and no other tier changes. It wakes a worker only where that is asked.
pub proof fn law_push_is_refused_when_full(
    before: Arena,
    me: int,
    job: JobRef,
    t: int,
    wake: bool,
    after: Arena,
    res: Result<Option<Wake>, JobRef>,
    u: int,
)
    requires
        arena_shape(before),
        0 <= me < before.total(),
        0 <= t < 4,
        0 <= u < 4,
        u != t,
        pushed_or_refused(before, me, job, t, wake, after, res),
    ensures
        ({
            let d = before.ctxs[me].deques[t].front();
            let e = after.ctxs[me].deques[t].front();
            &&& res is Ok <==> d.published.len() < before.ctxs[me].slot_limit
            &&& res is Ok ==> e.published.drop_last() == d.published
                && e.published.last().jobs.last().data == job.data && (res->Ok_0 is Some ==> wake)
            &&& res is Err ==> res->Err_0 == job && after.ctxs[me].deques
                == before.ctxs[me].deques
            &&& after.ctxs[me].deques[u] == before.ctxs[me].deques[u]
        }),
{
    let d = before.ctxs[me].deques[t].front();
    if d.published.len() < before.ctxs[me].slot_limit {
        let e = after.ctxs[me].deques[t].front();
        assert(e.published.drop_last() =~= d.published);
    }
}

/// Totals of counters add up, part by part, and stop at the largest number.
pub proof fn law_totals_add_up(x: u64, a: Seq<u64>, b: Seq<u64>)
    ensures
        saturating_total(seq![x]) == x,
        saturating_total(a + b) == if saturating_total(a) + saturating_total(b) > u64::MAX {
            u64::MAX as int
        } else {
            saturating_total(a) + saturating_total(b)
        },
    decreases b.len(),
{
    lemma_total_range(a);
    lemma_total_range(b);
    assert(seq![x].drop_last() =~= Seq::<u64>::empty());
    assert(saturating_total(seq![x].drop_last()) == 0);
    if b.len() == 0 {
        assert(a + b =~= a);
    } else {
        assert((a + b).drop_last() =~= a + b.drop_last());
        law_totals_add_up(x, a, b.drop_last());
        lemma_total_range(b.drop_last());
    }
}

proof fn lemma_total_range(a: Seq<u64>)
    ensures
        0 <= saturating_total(a) <= u64::MAX,
    decreases a.len(),
{
    if a.len() > 0 {
        lemma_total_range(a.drop_last());
    }
}

/// The counters of an arena are those of its workers and slots, in order.
pub proof fn law_counters_are_the_workers(a: Arena, i: int)
    requires
        0 <= i < a.ctxs.len(),
    ensures
        single_counts(a).len() == a.ctxs.len(),
        burst_counts(a).len() == a.ctxs.len(),
        single_counts(a)[i] == a.ctxs[i].stats.single_pushes,
        burst_counts(a)[i] == a.ctxs[i].stats.burst_pushes,
{
}

} // verus!
