//! One arena per NUMA node.
//!
//! Work goes to the calling thread's node unless a hint names another. A
//! thread that finds nothing on its own node looks at what was submitted to
//! the others, starting at a different one each time. On a host with one node
//! all of this falls away.

use crate::adaptive_worker::{AdaptiveStash, Leftovers};
use crate::arena::{handed_over, slot_claimed, submit_spin_rounds, HandedOver};
use crate::arena_local::{
    burst_counts, cpu_set_view, fresh_arena, helper_step, host_core_ids, positions, retagged_ctx,
    saturating_total, single_counts, slot_pushed, snapshot_slots, Arena, Ctx, LocalArena,
    SleepState, SmtGuard, Wake, WorkerStats, EXTERNAL_SLOT_COUNT,
};
use crate::job::{compact_of, JobRef};
use crate::job_bag::{
    lemma_exchange_give, lemma_exchange_same, lemma_exchange_take, lemma_union_bags_update,
    union_bags, JobBag,
};
use crate::k_gating::KGating;
use crate::plan::JobPlan;
use crate::text::{decimal, put, put_decimal};
use vstd::prelude::*;

verus! {

/// Node hint that stands for the calling thread's node.
pub const NUMA_NODE_LOCAL: u32 = u32::MAX;

/// What the library needs to know of a host.
#[derive(Debug)]
pub struct HostTopology {
    /// NUMA nodes.
    pub num_nodes: u32,
    /// Node of each logical core.
    pub node_of_cpu: Vec<u32>,
    /// Logical cores per physical core.
    pub smt_threads: usize,
    /// Logical cores per cluster.
    pub ccx_size: usize,
}

/// The arenas.
pub struct NumaArena {
    nodes: Vec<LocalArena>,
    cpu_to_node: Vec<u32>,
    cross_node_rotor: u64,
}

/// What the arenas hold.
#[verifier::ext_equal]
pub struct Numa {
    /// One arena per node.
    pub nodes: Seq<Arena>,
    /// Node of each logical core.
    pub cpu_to_node: Seq<u32>,
    /// Where the next search of the other nodes starts.
    pub rotor: u64,
}

impl Numa {
    /// With another arena on a node.
    pub open spec fn with_node(self, i: int, a: Arena) -> Numa {
        Numa { nodes: self.nodes.update(i, a), ..self }
    }

    /// Every job held on any node.
    pub open spec fn bag(self) -> JobBag {
        union_bags(self.nodes.map_values(|a: Arena| a.bag()))
    }
}

impl View for NumaArena {
    type V = Numa;

    closed spec fn view(&self) -> Numa {
        Numa {
            nodes: self.nodes@.map_values(|a: LocalArena| a@),
            cpu_to_node: self.cpu_to_node@,
            rotor: self.cross_node_rotor,
        }
    }
}

/// Node of a thread that runs on a logical core: unknown cores and nodes
/// beyond the last count as the first and the last.
pub open spec fn node_of_thread(cpu_to_node: Seq<u32>, n_nodes: int, cpu: int) -> int {
    let n = if 0 <= cpu < cpu_to_node.len() {
        cpu_to_node[cpu] as int
    } else {
        0
    };
    if n < n_nodes {
        n
    } else {
        n_nodes - 1
    }
}

/// Node that a hint leads to: the calling thread's without a hint, and where
/// the hinted one does not exist.
pub open spec fn resolved_node(n: Numa, hint: Option<u32>, cpu: int) -> int {
    match hint {
        Some(h) => if h != NUMA_NODE_LOCAL && h < n.nodes.len() {
            h as int
        } else {
            node_of_thread(n.cpu_to_node, n.nodes.len() as int, cpu)
        },
        None => node_of_thread(n.cpu_to_node, n.nodes.len() as int, cpu),
    }
}

/// The logical cores of a node, in order.
pub open spec fn cpus_of(node_of_cpu: Seq<u32>, node: u32, upto: int) -> Seq<usize>
    decreases upto,
{
    if upto <= 0 {
        Seq::empty()
    } else if node_of_cpu[upto - 1] == node {
        cpus_of(node_of_cpu, node, upto - 1).push((upto - 1) as usize)
    } else {
        cpus_of(node_of_cpu, node, upto - 1)
    }
}

/// Workers that always run on a node with `cpus` logical cores.
pub open spec fn primaries(workers_per_node: Option<usize>, cpus: int, smt: int) -> int {
    match workers_per_node {
        Some(n) => n as int,
        None => crate::math::max_int(cpus / smt, 1),
    }
}

/// Workers that run on request on such a node.
pub open spec fn siblings(primary: int, cpus: int, smt: int) -> int {
    if smt > 1 && primary < cpus {
        crate::math::min_int(primary * (smt - 1), usize::MAX as int)
    } else {
        0
    }
}

/// The ids of a node's cores, of those that the host names.
pub open spec fn node_cores(ids: Seq<usize>, cpus: Seq<usize>, upto: int) -> Seq<usize>
    decreases upto,
{
    if upto <= 0 {
        Seq::empty()
    } else if cpus[upto - 1] < ids.len() {
        node_cores(ids, cpus, upto - 1).push(ids[cpus[upto - 1] as int])
    } else {
        node_cores(ids, cpus, upto - 1)
    }
}

/// The cores that a node's workers are spread over, if any are named.
pub open spec fn node_cpu_set(ids: Option<Seq<usize>>, cpus: Seq<usize>) -> Option<Seq<usize>> {
    match ids {
        Some(s) => {
            let c = node_cores(s, cpus, cpus.len() as int);
            if c.len() > 0 {
                Some(c)
            } else {
                None
            }
        },
        None => None,
    }
}

/// A new arena of one node.
pub open spec fn fresh_node(
    node_of_cpu: Seq<u32>,
    smt_threads: int,
    ccx_size: int,
    workers_per_node: Option<usize>,
    ids: Option<Seq<usize>>,
    node: u32,
) -> Arena {
    let cpus = cpus_of(node_of_cpu, node, node_of_cpu.len() as int);
    let smt = crate::math::max_int(smt_threads, 1);
    let primary = primaries(workers_per_node, cpus.len() as int, smt);
    fresh_arena(
        crate::arena_local::at_least_one(primary),
        siblings(primary, cpus.len() as int, smt),
        node_cpu_set(ids, cpus),
        ccx_size,
    )
}

/// Number of nodes of a host, of which there is always one.
pub open spec fn host_nodes(num_nodes: u32) -> int {
    if num_nodes == 0 {
        1
    } else {
        num_nodes as int
    }
}

/// The node that is looked at in place `offset` when node `local` has
/// nothing.
pub open spec fn candidate(local: int, rotor: int, offset: int, n: int) -> int {
    (local + 1 + (rotor + offset) % (n - 1)) % n
}

/// The first place from `offset` on whose node has a submitted job.
pub open spec fn first_waiting(nodes: Seq<Arena>, local: int, rotor: int, offset: int) -> Option<int>
    decreases nodes.len() - 1 - offset,
{
    if offset >= nodes.len() - 1 {
        None
    } else if nodes[candidate(local, rotor, offset, nodes.len() as int)].injector.len() > 0 {
        Some(offset)
    } else {
        first_waiting(nodes, local, rotor, offset + 1)
    }
}

/// The arenas after the siblings were requested on every node.
pub open spec fn smt_acquired(n: Numa) -> Numa {
    Numa {
        nodes: n.nodes.map_values(
            |a: Arena| Arena { smt_requests: a.smt_requests.wrapping_add(1), ..a },
        ),
        ..n
    }
}

/// The arenas after a request for the siblings was closed on every node.
pub open spec fn smt_released(n: Numa) -> Numa {
    Numa {
        nodes: n.nodes.map_values(
            |a: Arena| Arena { smt_requests: a.smt_requests.wrapping_sub(1), ..a },
        ),
        ..n
    }
}

/// Positions that a new request for a node's siblings wakes.
pub open spec fn sibling_wake(a: Arena) -> Seq<usize> {
    if a.smt_requests == 0 {
        positions(a.primary_count, a.total())
    } else {
        Seq::empty()
    }
}

/// An arena whose slot at position `at` was given back.
pub open spec fn slot_released(a: Arena, at: usize) -> Arena {
    Arena { claimed: a.claimed.update(at - a.n_workers, false), ..a }
}

/// Workers on the first `n` nodes.
pub open spec fn workers_on(nodes: Seq<Arena>, n: int) -> int
    decreases n,
{
    if n <= 0 {
        0
    } else {
        workers_on(nodes, n - 1) + nodes[n - 1].n_workers
    }
}

/// Counters of the workers and slots on the first `n` nodes.
pub open spec fn stats_on(nodes: Seq<Arena>, n: int) -> Seq<WorkerStats>
    decreases n,
{
    if n <= 0 {
        Seq::empty()
    } else {
        stats_on(nodes, n - 1) + nodes[n - 1].ctxs.map_values(|c: Ctx| c.stats)
    }
}

proof fn lemma_node_bag(n: Numa, i: int, a: Arena)
    requires
        0 <= i < n.nodes.len(),
    ensures
        n.with_node(i, a).bag().add(n.nodes[i].bag()) == n.bag().add(a.bag()),
{
    let f = |a: Arena| a.bag();
    lemma_union_bags_update(n.nodes.map_values(f), i, a.bag());
    assert(n.nodes.update(i, a).map_values(f) =~= n.nodes.map_values(f).update(i, a.bag()));
}

impl NumaArena {
    /// Representation invariant.
    pub closed spec fn wf(&self) -> bool {
        &&& self.nodes@.len() >= 1
        &&& forall|i: int| 0 <= i < self.nodes@.len() ==> (#[trigger] self.nodes@[i]).wf()
    }

    /// What the invariant says of the contents.
    pub proof fn lemma_shape(&self)
        requires
            self.wf(),
        ensures
            1 <= self@.nodes.len(),
            forall|i: int|
                0 <= i < self@.nodes.len() ==> crate::arena_local::arena_shape(
                    #[trigger] self@.nodes[i],
                ),
    {
        assert forall|i: int| 0 <= i < self@.nodes.len() implies crate::arena_local::arena_shape(
            #[trigger] self@.nodes[i],
        ) by {
            self.nodes@[i].lemma_shape();
        }
    }

    /// Number of nodes.
    pub fn node_count(&self) -> (res: usize)
        ensures
            res == self@.nodes.len(),
    {
        self.nodes.len()
    }

    /// Whether there is one node.
    pub fn is_single_numa(&self) -> (res: bool)
        ensures
            res == (self@.nodes.len() == 1),
    {
        self.nodes.len() == 1
    }

    /// The only node's arena.
    pub fn single_node_arc(&self) -> (res: Option<&LocalArena>)
        ensures
            self@.nodes.len() == 1 ==> (res matches Some(a) && a@ == self@.nodes[0]),
            self@.nodes.len() != 1 ==> res is None,
    {
        if self.nodes.len() == 1 {
            Some(&self.nodes[0])
        } else {
            None
        }
    }

    /// Node of a thread on a logical core.
    pub fn current_thread_node_idx(&self, cpu: usize) -> (res: usize)
        requires
            self.wf(),
        ensures
            res == node_of_thread(self@.cpu_to_node, self@.nodes.len() as int, cpu as int),
            res < self@.nodes.len(),
    {
        let n: u32 = if cpu < self.cpu_to_node.len() {
            self.cpu_to_node[cpu]
        } else {
            0
        };
        if (n as usize) < self.nodes.len() {
            n as usize
        } else {
            self.nodes.len() - 1
        }
    }

    /// Node that a hint leads to.
    pub fn resolve_node_idx(&self, node_hint: Option<u32>, cpu: usize) -> (res: usize)
        requires
            self.wf(),
        ensures
            res == resolved_node(self@, node_hint, cpu as int),
            res < self@.nodes.len(),
    {
        match node_hint {
            Some(n) => {
                if n != NUMA_NODE_LOCAL && (n as usize) < self.nodes.len() {
                    n as usize
                } else {
                    self.current_thread_node_idx(cpu)
                }
            },
            None => self.current_thread_node_idx(cpu),
        }
    }

    /// Arena of the node that a hint leads to.
    pub fn node_arc(&self, node_hint: Option<u32>, cpu: usize) -> (res: &LocalArena)
        requires
            self.wf(),
        ensures
            res.wf(),
            res@ == self@.nodes[resolved_node(self@, node_hint, cpu as int)],
    {
        let i: usize = self.resolve_node_idx(node_hint, cpu);
        &self.nodes[i]
    }

    /// A node's arena, to work on.
    pub fn node_mut(&mut self, i: usize) -> (res: &mut LocalArena)
        requires
            old(self).wf(),
            i < old(self)@.nodes.len(),
        ensures
            res.wf(),
            res@ == old(self)@.nodes[i as int],
            final(self)@ == old(self)@.with_node(i as int, final(res)@),
            final(res).wf() ==> final(self).wf(),
    {
        &mut self.nodes[i]
    }

    proof fn lemma_node_updated(&self, before: NumaArena, i: int)
        requires
            before.wf(),
            0 <= i < before.nodes@.len(),
            self.nodes@ == before.nodes@.update(i, self.nodes@[i]),
            self.nodes@[i].wf(),
            self.cpu_to_node == before.cpu_to_node,
            self.cross_node_rotor == before.cross_node_rotor,
        ensures
            self.wf(),
            self@ == before@.with_node(i, self.nodes@[i]@),
            self@.bag().add(before@.nodes[i].bag()) == before@.bag().add(self@.nodes[i].bag()),
    {
        assert(self@ =~= before@.with_node(i, self.nodes@[i]@));
        assert forall|k: int| 0 <= k < self.nodes@.len() implies (
        #[trigger] self.nodes@[k]).wf() by {
            if k != i {
                assert(self.nodes@[k] == before.nodes@[k]);
            }
        }
        lemma_node_bag(before@, i, self.nodes@[i]@);
    }

    /// Submits a job to the node that a hint leads to.
    pub fn submit(&mut self, job: JobRef, node_hint: Option<u32>, cpu: usize) -> (res: (usize, Wake))
        requires
            old(self).wf(),
            old(self)@.nodes[resolved_node(old(self)@, node_hint, cpu as int)].injector.len()
                < usize::MAX,
        ensures
            final(self).wf(),
            res.0 == resolved_node(old(self)@, node_hint, cpu as int),
            res.1 == (Wake {
                jobs: 1,
                queue_was_empty: old(self)@.nodes[res.0 as int].injector.len() == 0,
            }),
            final(self)@ == old(self)@.with_node(
                res.0 as int,
                (Arena {
                    injector: old(self)@.nodes[res.0 as int].injector.push(job),
                    ..old(self)@.nodes[res.0 as int]
                }),
            ),
            final(self)@.bag() == old(self)@.bag().insert(compact_of(job)),
    {
        let i: usize = self.resolve_node_idx(node_hint, cpu);
        let ghost before = *self;
        let wake = self.nodes[i].submit(job);
        proof {
            self.lemma_node_updated(before, i as int);
            lemma_exchange_give(
                before@.bag(),
                before@.nodes[i as int].bag(),
                self@.bag(),
                self@.nodes[i as int].bag(),
                compact_of(job),
            );
        }
        (i, wake)
    }

    /// Hands a job over from outside the pool: through the node's first free
    /// slot, or by submission where every slot is taken.
    pub fn hand_over(&mut self, node: usize, plan: &JobPlan, job: JobRef) -> (res: HandedOver)
        requires
            old(self).wf(),
            node < old(self)@.nodes.len(),
            old(self)@.nodes[node as int].injector.len() < usize::MAX,
        ensures
            final(self).wf(),
            handed_over(old(self)@, node as int, job, *plan, final(self)@, res),
    {
        let ghost before = *self;
        let ghost a = self@.nodes[node as int];
        proof {
            self.lemma_shape();
        }
        match self.nodes[node].try_claim_external_slot() {
            Some(at) => {
                let ghost mid = *self;
                proof {
                    self.lemma_node_updated(before, node as int);
                    assert(mid@.nodes[node as int] == slot_claimed(a, at));
                    lemma_exchange_same(
                        before@.bag(),
                        a.bag(),
                        mid@.bag(),
                        mid@.nodes[node as int].bag(),
                    );
                    mid.lemma_shape();
                }
                let total: usize = self.nodes[node].total_positions();
                if self.nodes[node].push_to_slot(at, job) {
                    proof {
                        self.lemma_node_updated(mid, node as int);
                        lemma_exchange_give(
                            mid@.bag(),
                            mid@.nodes[node as int].bag(),
                            self@.bag(),
                            self@.nodes[node as int].bag(),
                            compact_of(job),
                        );
                        assert(self@ =~= before@.with_node(
                            node as int,
                            slot_pushed(slot_claimed(a, at), at as int, job),
                        ));
                    }
                    HandedOver::Slot {
                        node,
                        at,
                        wake: Wake {
                            jobs: #[verifier::truncate]
                            (total as u32),
                            queue_was_empty: false,
                        },
                    }
                } else {
                    proof {
                        self.lemma_node_updated(mid, node as int);
                        assert(self@ =~= mid@);
                    }
                    HandedOver::SlotFull { node, at }
                }
            },
            None => {
                let ghost mid = *self;
                proof {
                    self.lemma_node_updated(before, node as int);
                    assert(mid@ =~= before@);
                }
                let wake = self.nodes[node].submit(job);
                proof {
                    self.lemma_node_updated(mid, node as int);
                    lemma_exchange_give(
                        mid@.bag(),
                        a.bag(),
                        self@.bag(),
                        self@.nodes[node as int].bag(),
                        compact_of(job),
                    );
                }
                HandedOver::Submitted { node, wake, spin: submit_spin_rounds(plan) }
            },
        }
    }

    /// Gives an outside slot back.
    pub fn release_slot(&mut self, node: usize, at: usize)
        requires
            old(self).wf(),
            node < old(self)@.nodes.len(),
            old(self)@.nodes[node as int].n_workers <= at < old(self)@.nodes[node as int].total(),
        ensures
            final(self).wf(),
            final(self)@ == old(self)@.with_node(
                node as int,
                slot_released(old(self)@.nodes[node as int], at),
            ),
            final(self)@.bag() == old(self)@.bag(),
    {
        let ghost before = *self;
        self.nodes[node].release_external_slot(at);
        proof {
            self.lemma_node_updated(before, node as int);
            lemma_exchange_same(
                before@.bag(),
                before@.nodes[node as int].bag(),
                self@.bag(),
                self@.nodes[node as int].bag(),
            );
        }
    }

    /// Finds one job for a thread outside the pool: on its own node, else
    /// among the jobs submitted to the other nodes.
    pub fn try_run_one(&mut self, cpu: usize, rng_state: &mut u64, stash: &mut AdaptiveStash) -> (res:
        Option<JobRef>)
        requires
            old(self).wf(),
            old(stash).wf(),
        ensures
            final(self).wf(),
            final(stash).wf(),
            numa_helper_step(
                old(self)@,
                cpu as int,
                *old(rng_state),
                old(stash)@,
                res,
                final(self)@,
                *final(rng_state),
                final(stash)@,
            ),
            res matches Some(j) ==> old(self)@.bag().add(old(stash)@.bag())
                == final(self)@.bag().add(final(stash)@.bag()).insert(compact_of(j)),
            res is None ==> final(self)@.bag() == old(self)@.bag() && final(stash)@ == old(
                stash,
            )@,
    {
        let n: usize = self.nodes.len();
        let local: usize = self.current_thread_node_idx(cpu);
        let ghost before = *self;
        let found = self.nodes[local].try_run_one(rng_state, stash);
        proof {
            self.lemma_node_updated(before, local as int);
            assert(helper_step(
                before@.nodes[local as int],
                *old(rng_state),
                old(stash)@,
                found,
                self@.nodes[local as int],
                *rng_state,
                stash@,
            ));
        }
        let ghost mid = self@;
        if let Some(job) = found {
            proof {
                lemma_take_with_stash(
                    before@.bag(),
                    before@.nodes[local as int].bag(),
                    mid.bag(),
                    mid.nodes[local as int].bag(),
                    old(stash)@.bag(),
                    stash@.bag(),
                    compact_of(job),
                );
                assert(cross_step(
                    before@,
                    local as int,
                    mid.nodes[local as int],
                    found,
                    found,
                    mid,
                ));
            }
            return Some(job);
        }
        proof {
            lemma_exchange_same(
                before@.bag(),
                before@.nodes[local as int].bag(),
                mid.bag(),
                mid.nodes[local as int].bag(),
            );
        }
        if n <= 1 {
            proof {
                assert(cross_step(
                    before@,
                    local as int,
                    mid.nodes[local as int],
                    found,
                    None,
                    mid,
                ));
            }
            return None;
        }
        let rotor: usize = (#[verifier::truncate]
        (self.cross_node_rotor as usize)) % (n - 1);
        self.cross_node_rotor = self.cross_node_rotor.wrapping_add(1);
        let ghost turned = (Numa { rotor: mid.rotor.wrapping_add(1), ..mid });
        proof {
            assert(self@ =~= turned);
            assert(turned.bag() == mid.bag());
        }
        let mut offset: usize = 0;
        while offset < n - 1
            invariant
                self.wf(),
                self@ == turned,
                n == turned.nodes.len(),
                n == before@.nodes.len(),
                n > 1,
                local < n,
                offset <= n - 1,
                rotor == (before@.rotor as usize) as int % (n - 1),
                rotor < n - 1,
                local == node_of_thread(before@.cpu_to_node, before@.nodes.len() as int, cpu as int),
                mid == before@.with_node(local as int, mid.nodes[local as int]),
                turned == (Numa { rotor: mid.rotor.wrapping_add(1), ..mid }),
                turned.bag() == before@.bag(),
                before == *old(self),
                stash@ == old(stash)@,
                stash.wf(),
                found is None,
                helper_step(
                    before@.nodes[local as int],
                    *old(rng_state),
                    old(stash)@,
                    found,
                    mid.nodes[local as int],
                    *rng_state,
                    stash@,
                ),
                first_waiting(turned.nodes, local as int, rotor as int, 0) == first_waiting(
                    turned.nodes,
                    local as int,
                    rotor as int,
                    offset as int,
                ),
            decreases n - 1 - offset,
        {
            let step: usize = if offset < n - 1 - rotor {
                rotor + offset
            } else {
                offset - (n - 1 - rotor)
            };
            let room: usize = n - 1 - local;
            let at: usize = if step < room {
                local + 1 + step
            } else {
                step - room
            };
            proof {
                lemma_candidate(local as int, rotor as int, offset as int, n as int);
            }
            let ghost pre = *self;
            let taken = self.nodes[at].take_submitted();
            proof {
                self.lemma_node_updated(pre, at as int);
            }
            if let Some(job) = taken {
                proof {
                    lemma_exchange_take(
                        turned.bag(),
                        turned.nodes[at as int].bag(),
                        self@.bag(),
                        self@.nodes[at as int].bag(),
                        compact_of(job),
                    );
                    assert(self@.bag().add(stash@.bag()).insert(compact_of(job))
                        =~= before@.bag().add(old(stash)@.bag()));
                    assert(cross_step(
                        before@,
                        local as int,
                        mid.nodes[local as int],
                        found,
                        taken,
                        self@,
                    ));
                }
                return Some(job);
            }
            proof {
                assert(self@ =~= turned);
            }
            offset += 1;
        }
        proof {
            assert(cross_step(
                before@,
                local as int,
                mid.nodes[local as int],
                found,
                None,
                self@,
            ));
        }
        None
    }

    /// Switches the publication discipline of every deque on every node.
    pub fn migrate_all_workers_k_gating(&mut self, gating: KGating)
        requires
            old(self).wf(),
        ensures
            final(self).wf(),
            final(self)@ == (Numa {
                nodes: old(self)@.nodes.map_values(
                    |a: Arena|
                        Arena { ctxs: a.ctxs.map_values(|c: Ctx| retagged_ctx(c, gating)), ..a },
                ),
                ..old(self)@
            }),
            final(self)@.bag() == old(self)@.bag(),
    {
        let ghost f = |a: Arena|
            Arena { ctxs: a.ctxs.map_values(|c: Ctx| retagged_ctx(c, gating)), ..a };
        let mut i: usize = 0;
        while i < self.nodes.len()
            invariant
                self.wf(),
                i <= self@.nodes.len(),
                self@.nodes.len() == old(self)@.nodes.len(),
                self@.cpu_to_node == old(self)@.cpu_to_node,
                self@.rotor == old(self)@.rotor,
                f == (|a: Arena|
                    Arena { ctxs: a.ctxs.map_values(|c: Ctx| retagged_ctx(c, gating)), ..a }),
                forall|k: int|
                    0 <= k < i ==> #[trigger] self@.nodes[k] == f(old(self)@.nodes[k]),
                forall|k: int|
                    i <= k < self@.nodes.len() ==> #[trigger] self@.nodes[k] == old(
                        self,
                    )@.nodes[k],
                self@.bag() == old(self)@.bag(),
            decreases self@.nodes.len() - i,
        {
            let ghost pre = *self;
            self.nodes[i].migrate_all_workers_k_gating(gating);
            proof {
                self.lemma_node_updated(pre, i as int);
                lemma_exchange_same(
                    pre@.bag(),
                    pre@.nodes[i as int].bag(),
                    self@.bag(),
                    self@.nodes[i as int].bag(),
                );
            }
            i += 1;
        }
        proof {
            assert(self@.nodes =~= old(self)@.nodes.map_values(f));
        }
    }

    /// Burst pushes and single pushes of all workers.
    pub fn push_totals(&self) -> (res: (u64, u64))
        requires
            self.wf(),
        ensures
            res.0 == saturating_total(bursts_on(self@.nodes, self@.nodes.len() as int)),
            res.1 == saturating_total(singles_on(self@.nodes, self@.nodes.len() as int)),
    {
        let mut bursts: u64 = 0;
        let mut singles: u64 = 0;
        let mut i: usize = 0;
        while i < self.nodes.len()
            invariant
                self.wf(),
                i <= self@.nodes.len(),
                bursts == saturating_total(bursts_on(self@.nodes, i as int)),
                singles == saturating_total(singles_on(self@.nodes, i as int)),
            decreases self@.nodes.len() - i,
        {
            let (b, s) = self.nodes[i].push_totals();
            proof {
                lemma_saturating_total_add(
                    bursts_on(self@.nodes, i as int),
                    burst_counts(self@.nodes[i as int]),
                );
                lemma_saturating_total_add(
                    singles_on(self@.nodes, i as int),
                    single_counts(self@.nodes[i as int]),
                );
            }
            bursts = bursts.saturating_add(b);
            singles = singles.saturating_add(s);
            i += 1;
        }
        (bursts, singles)
    }

    /// Workers on all nodes.
    pub fn total_workers(&self) -> (res: usize)
        requires
            self.wf(),
            workers_on(self@.nodes, self@.nodes.len() as int) <= usize::MAX,
        ensures
            res == workers_on(self@.nodes, self@.nodes.len() as int),
    {
        let mut total: usize = 0;
        let mut i: usize = 0;
        proof {
            self.lemma_shape();
        }
        while i < self.nodes.len()
            invariant
                self.wf(),
                i <= self@.nodes.len(),
                forall|k: int|
                    0 <= k < self@.nodes.len() ==> crate::arena_local::arena_shape(
                        #[trigger] self@.nodes[k],
                    ),
                total == workers_on(self@.nodes, i as int),
                workers_on(self@.nodes, self@.nodes.len() as int) <= usize::MAX,
            decreases self@.nodes.len() - i,
        {
            proof {
                lemma_workers_on_grows(self@.nodes, i + 1, self@.nodes.len() as int);
            }
            total = total + self.nodes[i].worker_count();
            i += 1;
        }
        total
    }

    /// Counters of all workers and slots, node by node.
    pub fn iter_worker_stats(&self) -> (res: Vec<WorkerStats>)
        requires
            self.wf(),
        ensures
            res@ == stats_on(self@.nodes, self@.nodes.len() as int),
    {
        let mut out: Vec<WorkerStats> = Vec::new();
        let mut i: usize = 0;
        while i < self.nodes.len()
            invariant
                self.wf(),
                i <= self@.nodes.len(),
                out@ == stats_on(self@.nodes, i as int),
            decreases self@.nodes.len() - i,
        {
            let n: usize = self.nodes[i].total_positions();
            let ghost here = self@.nodes[i as int].ctxs.map_values(|c: Ctx| c.stats);
            let mut k: usize = 0;
            proof {
                assert(here.subrange(0, 0) =~= Seq::<WorkerStats>::empty());
                assert(stats_on(self@.nodes, i as int) + here.subrange(0, 0) =~= stats_on(
                    self@.nodes,
                    i as int,
                ));
            }
            while k < n
                invariant
                    self.wf(),
                    i < self@.nodes.len(),
                    n == self@.nodes[i as int].total(),
                    k <= n,
                    here == self@.nodes[i as int].ctxs.map_values(|c: Ctx| c.stats),
                    out@ == stats_on(self@.nodes, i as int) + here.subrange(0, k as int),
                decreases n - k,
            {
                out.push(self.nodes[i].worker_stats(k));
                proof {
                    assert(here.subrange(0, k + 1) =~= here.subrange(0, k as int).push(
                        here[k as int],
                    ));
                    assert(out@ =~= stats_on(self@.nodes, i as int) + here.subrange(0, k + 1));
                }
                k += 1;
            }
            proof {
                assert(here.subrange(0, k as int) =~= here);
            }
            i += 1;
        }
        out
    }

    /// Requests the siblings on every node. Names, for each node, the
    /// positions that are to be woken.
    pub fn acquire_smt(&mut self) -> (res: (Vec<SmtGuard>, Vec<Vec<usize>>))
        requires
            old(self).wf(),
        ensures
            final(self).wf(),
            final(self)@ == smt_acquired(old(self)@),
            final(self)@.bag() == old(self)@.bag(),
            res.0@.len() == old(self)@.nodes.len(),
            res.1@.len() == old(self)@.nodes.len(),
            forall|i: int|
                0 <= i < res.1@.len() ==> (#[trigger] res.1@[i])@ == sibling_wake(
                    old(self)@.nodes[i],
                ),
    {
        let ghost f = |a: Arena| Arena { smt_requests: a.smt_requests.wrapping_add(1), ..a };
        let mut guards: Vec<SmtGuard> = Vec::new();
        let mut wakes: Vec<Vec<usize>> = Vec::new();
        let mut i: usize = 0;
        while i < self.nodes.len()
            invariant
                self.wf(),
                i <= self@.nodes.len(),
                self@.nodes.len() == old(self)@.nodes.len(),
                self@.cpu_to_node == old(self)@.cpu_to_node,
                self@.rotor == old(self)@.rotor,
                f == (|a: Arena| Arena { smt_requests: a.smt_requests.wrapping_add(1), ..a }),
                guards@.len() == i,
                wakes@.len() == i,
                forall|k: int|
                    0 <= k < i ==> (#[trigger] wakes@[k])@ == sibling_wake(old(self)@.nodes[k]),
                forall|k: int|
                    0 <= k < i ==> #[trigger] self@.nodes[k] == f(old(self)@.nodes[k]),
                forall|k: int|
                    i <= k < self@.nodes.len() ==> #[trigger] self@.nodes[k] == old(
                        self,
                    )@.nodes[k],
                self@.bag() == old(self)@.bag(),
            decreases self@.nodes.len() - i,
        {
            let ghost pre = *self;
            let (guard, wake) = self.nodes[i].acquire_smt();
            proof {
                self.lemma_node_updated(pre, i as int);
                lemma_exchange_same(
                    pre@.bag(),
                    pre@.nodes[i as int].bag(),
                    self@.bag(),
                    self@.nodes[i as int].bag(),
                );
            }
            guards.push(guard);
            wakes.push(wake);
            i += 1;
        }
        proof {
            assert(self@.nodes =~= old(self)@.nodes.map_values(f));
        }
        (guards, wakes)
    }

    /// Requests the siblings where there is one node.
    pub fn try_acquire_smt_single(&mut self) -> (res: Option<(SmtGuard, Vec<usize>)>)
        requires
            old(self).wf(),
        ensures
            final(self).wf(),
            final(self)@.bag() == old(self)@.bag(),
            old(self)@.nodes.len() != 1 ==> res is None && final(self)@ == old(self)@,
            old(self)@.nodes.len() == 1 ==> final(self)@ == smt_acquired(old(self)@) && (
            res matches Some(r) && r.1@ == sibling_wake(old(self)@.nodes[0])),
    {
        if self.nodes.len() == 1 {
            let ghost pre = *self;
            let (guard, wake) = self.nodes[0].acquire_smt();
            proof {
                self.lemma_node_updated(pre, 0);
                lemma_exchange_same(
                    pre@.bag(),
                    pre@.nodes[0].bag(),
                    self@.bag(),
                    self@.nodes[0].bag(),
                );
                assert(self@ =~= smt_acquired(pre@));
            }
            Some((guard, wake))
        } else {
            None
        }
    }

    /// Closes a request for the siblings on every node.
    pub fn release_smt(&mut self, guards: Vec<SmtGuard>)
        requires
            old(self).wf(),
            guards@.len() == old(self)@.nodes.len(),
        ensures
            final(self).wf(),
            final(self)@ == smt_released(old(self)@),
            final(self)@.bag() == old(self)@.bag(),
    {
        let ghost f = |a: Arena| Arena { smt_requests: a.smt_requests.wrapping_sub(1), ..a };
        let mut left = guards;
        let mut i: usize = 0;
        while i < self.nodes.len()
            invariant
                self.wf(),
                i <= self@.nodes.len(),
                left@.len() == self@.nodes.len() - i,
                self@.nodes.len() == old(self)@.nodes.len(),
                self@.cpu_to_node == old(self)@.cpu_to_node,
                self@.rotor == old(self)@.rotor,
                f == (|a: Arena| Arena { smt_requests: a.smt_requests.wrapping_sub(1), ..a }),
                forall|k: int|
                    0 <= k < i ==> #[trigger] self@.nodes[k] == f(old(self)@.nodes[k]),
                forall|k: int|
                    i <= k < self@.nodes.len() ==> #[trigger] self@.nodes[k] == old(
                        self,
                    )@.nodes[k],
                self@.bag() == old(self)@.bag(),
            decreases self@.nodes.len() - i,
        {
            let ghost pre = *self;
            if let Some(guard) = left.pop() {
                self.nodes[i].release_smt(guard);
                proof {
                    self.lemma_node_updated(pre, i as int);
                    lemma_exchange_same(
                        pre@.bag(),
                        pre@.nodes[i as int].bag(),
                        self@.bag(),
                        self@.nodes[i as int].bag(),
                    );
                }
            }
            i += 1;
        }
        proof {
            assert(self@.nodes =~= old(self)@.nodes.map_values(f));
        }
    }

    /// Text of the state of every node.
    pub fn debug_snapshot(&self, sleep: &Vec<SleepState>) -> (res: String)
        requires
            self.wf(),
            sleep@.len() == self@.nodes.len(),
        ensures
            res@ == snapshot_nodes(self@.nodes, sleep@, self@.nodes.len() as int),
    {
        let mut out = String::new();
        let mut i: usize = 0;
        while i < self.nodes.len()
            invariant
                self.wf(),
                i <= self@.nodes.len(),
                sleep@.len() == self@.nodes.len(),
                out@ == snapshot_nodes(self@.nodes, sleep@, i as int),
            decreases self@.nodes.len() - i,
        {
            put(&mut out, "node ");
            put_decimal(&mut out, i as u64);
            put(&mut out, ":\n");
            let text = self.nodes[i].debug_snapshot(&sleep[i]);
            put(&mut out, text.as_str());
            proof {
                assert(out@ =~= snapshot_nodes(self@.nodes, sleep@, i + 1));
            }
            i += 1;
        }
        out
    }

    /// The arenas of a host: as many workers per node as asked for, else one
    /// per physical core; a sibling for each further logical core. With `pin`
    /// the workers are spread over their node's cores.
    pub fn new(topo: &HostTopology, workers_per_node: Option<usize>, pin: bool) -> (res: NumaArena)
        requires
            topo.num_nodes <= usize::MAX,
            forall|node: u32|
                (node < host_nodes(topo.num_nodes)) ==> #[trigger] node_fits(
                    topo.node_of_cpu@,
                    topo.smt_threads as int,
                    workers_per_node,
                    node,
                ),
        ensures
            res.wf(),
            exists|ids: Option<Seq<usize>>|
                (!pin ==> ids is None) && res@ == #[trigger] fresh_numa(
                    topo.num_nodes,
                    topo.node_of_cpu@,
                    topo.smt_threads as int,
                    topo.ccx_size as int,
                    workers_per_node,
                    ids,
                ),
    {
        let ids: Option<Vec<usize>> = if pin {
            host_core_ids()
        } else {
            None
        };
        NumaArena::with_core_ids(topo, workers_per_node, ids)
    }

    /// The arenas of a host whose core ids are known.
    pub fn with_core_ids(
        topo: &HostTopology,
        workers_per_node: Option<usize>,
        ids: Option<Vec<usize>>,
    ) -> (res: NumaArena)
        requires
            topo.num_nodes <= usize::MAX,
            forall|node: u32|
                (node < host_nodes(topo.num_nodes)) ==> #[trigger] node_fits(
                    topo.node_of_cpu@,
                    topo.smt_threads as int,
                    workers_per_node,
                    node,
                ),
        ensures
            res.wf(),
            res@ == fresh_numa(
                topo.num_nodes,
                topo.node_of_cpu@,
                topo.smt_threads as int,
                topo.ccx_size as int,
                workers_per_node,
                cpu_set_view(ids),
            ),
    {
        let n: u32 = if topo.num_nodes == 0 { 1 } else { topo.num_nodes };
        let ghost noc = topo.node_of_cpu@;
        let ghost idv = cpu_set_view(ids);
        let mut nodes: Vec<LocalArena> = Vec::new();
        let mut node: u32 = 0;
        while node < n
            invariant
                node <= n,
                n == host_nodes(topo.num_nodes),
                noc == topo.node_of_cpu@,
                idv == cpu_set_view(ids),
                nodes@.len() == node,
                forall|node: u32|
                    (node < host_nodes(topo.num_nodes)) ==> #[trigger] node_fits(
                        topo.node_of_cpu@,
                        topo.smt_threads as int,
                        workers_per_node,
                        node,
                    ),
                forall|k: int|
                    0 <= k < node ==> (#[trigger] nodes@[k]).wf() && nodes@[k]@ == fresh_node(
                        noc,
                        topo.smt_threads as int,
                        topo.ccx_size as int,
                        workers_per_node,
                        idv,
                        k as u32,
                    ),
            decreases n - node,
        {
            let cpus = cpus_in_node(&topo.node_of_cpu, node);
            let smt: usize = if topo.smt_threads < 1 { 1 } else { topo.smt_threads };
            let phys: usize = if cpus.len() / smt < 1 { 1 } else { cpus.len() / smt };
            let primary: usize = match workers_per_node {
                Some(w) => w,
                None => phys,
            };
            let extension: usize = if smt > 1 && primary < cpus.len() {
                match primary.checked_mul(smt - 1) {
                    Some(e) => e,
                    None => usize::MAX,
                }
            } else {
                0
            };
            let cpu_set: Option<Vec<usize>> = match &ids {
                Some(list) => {
                    let named = cores_named(list, &cpus);
                    if named.len() > 0 {
                        Some(named)
                    } else {
                        None
                    }
                },
                None => None,
            };
            proof {
                assert(node_fits(
                    topo.node_of_cpu@,
                    topo.smt_threads as int,
                    workers_per_node,
                    node,
                ));
                assert(cpu_set_view(cpu_set) == node_cpu_set(idv, cpus@));
            }
            let arena = LocalArena::with_smt_extension(primary, extension, cpu_set, topo.ccx_size);
            nodes.push(arena);
            node += 1;
        }
        let mut cpu_to_node: Vec<u32> = Vec::new();
        let mut i: usize = 0;
        while i < topo.node_of_cpu.len()
            invariant
                i <= topo.node_of_cpu@.len(),
                cpu_to_node@ == topo.node_of_cpu@.subrange(0, i as int),
            decreases topo.node_of_cpu@.len() - i,
        {
            cpu_to_node.push(topo.node_of_cpu[i]);
            i += 1;
            proof {
                assert(cpu_to_node@ =~= topo.node_of_cpu@.subrange(0, i as int));
            }
        }
        let res = NumaArena { nodes, cpu_to_node, cross_node_rotor: 0 };
        proof {
            assert(cpu_to_node@ =~= topo.node_of_cpu@);
            assert(res@ =~= fresh_numa(
                topo.num_nodes,
                noc,
                topo.smt_threads as int,
                topo.ccx_size as int,
                workers_per_node,
                idv,
            ));
        }
        res
    }
}

/// A host's arenas are small enough to be numbered.
pub open spec fn node_fits(
    node_of_cpu: Seq<u32>,
    smt_threads: int,
    workers_per_node: Option<usize>,
    node: u32,
) -> bool {
    let cpus = cpus_of(node_of_cpu, node, node_of_cpu.len() as int).len() as int;
    let smt = crate::math::max_int(smt_threads, 1);
    let primary = primaries(workers_per_node, cpus, smt);
    primary + siblings(primary, cpus, smt) <= usize::MAX - EXTERNAL_SLOT_COUNT - 1
}

/// The arenas of a host, all unused.
pub open spec fn fresh_numa(
    num_nodes: u32,
    node_of_cpu: Seq<u32>,
    smt_threads: int,
    ccx_size: int,
    workers_per_node: Option<usize>,
    ids: Option<Seq<usize>>,
) -> Numa {
    Numa {
        nodes: Seq::new(
            host_nodes(num_nodes) as nat,
            |k: int|
                fresh_node(node_of_cpu, smt_threads, ccx_size, workers_per_node, ids, k as u32),
        ),
        cpu_to_node: node_of_cpu,
        rotor: 0,
    }
}

/// The logical cores of a node, in order.
pub fn cpus_in_node(node_of_cpu: &Vec<u32>, node: u32) -> (res: Vec<usize>)
    ensures
        res@ == cpus_of(node_of_cpu@, node, node_of_cpu@.len() as int),
        forall|i: int| 0 <= i < res@.len() ==> #[trigger] res@[i] < node_of_cpu@.len(),
{
    let mut out: Vec<usize> = Vec::new();
    let mut i: usize = 0;
    while i < node_of_cpu.len()
        invariant
            i <= node_of_cpu@.len(),
            out@ == cpus_of(node_of_cpu@, node, i as int),
            forall|k: int| 0 <= k < out@.len() ==> #[trigger] out@[k] < i,
        decreases node_of_cpu@.len() - i,
    {
        if node_of_cpu[i] == node {
            out.push(i);
        }
        i += 1;
    }
    out
}

fn cores_named(ids: &Vec<usize>, cpus: &Vec<usize>) -> (res: Vec<usize>)
    ensures
        res@ == node_cores(ids@, cpus@, cpus@.len() as int),
{
    let mut out: Vec<usize> = Vec::new();
    let mut i: usize = 0;
    while i < cpus.len()
        invariant
            i <= cpus@.len(),
            out@ == node_cores(ids@, cpus@, i as int),
        decreases cpus@.len() - i,
    {
        if cpus[i] < ids.len() {
            out.push(ids[cpus[i]]);
        }
        i += 1;
    }
    out
}

/// Burst counters of the first `n` nodes.
pub open spec fn bursts_on(nodes: Seq<Arena>, n: int) -> Seq<u64>
    decreases n,
{
    if n <= 0 {
        Seq::empty()
    } else {
        bursts_on(nodes, n - 1) + burst_counts(nodes[n - 1])
    }
}

/// Single-push counters of the first `n` nodes.
pub open spec fn singles_on(nodes: Seq<Arena>, n: int) -> Seq<u64>
    decreases n,
{
    if n <= 0 {
        Seq::empty()
    } else {
        singles_on(nodes, n - 1) + single_counts(nodes[n - 1])
    }
}

proof fn lemma_saturating_total_add(a: Seq<u64>, b: Seq<u64>)
    ensures
        saturating_total(a + b) == crate::math::min_int(
            saturating_total(a) + saturating_total(b),
            u64::MAX as int,
        ),
        0 <= saturating_total(a) <= u64::MAX,
        0 <= saturating_total(b) <= u64::MAX,
    decreases a.len() + b.len(),
{
    if b.len() == 0 {
        assert(a + b =~= a);
        if a.len() > 0 {
            lemma_saturating_total_add(a.drop_last(), b);
        }
    } else {
        lemma_saturating_total_add(a, b.drop_last());
        assert((a + b).drop_last() =~= a + b.drop_last());
        assert((a + b).last() == b.last());
    }
}

proof fn lemma_workers_on_grows(nodes: Seq<Arena>, i: int, n: int)
    requires
        0 <= i <= n <= nodes.len(),
        forall|k: int|
            0 <= k < nodes.len() ==> crate::arena_local::arena_shape(#[trigger] nodes[k]),
    ensures
        workers_on(nodes, i) <= workers_on(nodes, n),
    decreases n - i,
{
    if i < n {
        lemma_workers_on_grows(nodes, i, n - 1);
        assert(crate::arena_local::arena_shape(nodes[n - 1]));
    }
}

/// Text of the first `n` nodes.
pub open spec fn snapshot_nodes(nodes: Seq<Arena>, sleep: Seq<SleepState>, n: int) -> Seq<char>
    decreases n,
{
    if n <= 0 {
        Seq::empty()
    } else {
        snapshot_nodes(nodes, sleep, n - 1) + "node "@ + decimal((n - 1) as nat) + ":\n"@
            + snapshot_slots(nodes[n - 1], sleep[n - 1], EXTERNAL_SLOT_COUNT as int)
    }
}

/// Outcome of a search beyond the thread's own node: nothing to do where the
/// own node had a job or is the only one, else the first submitted job in the
/// order of the rotation.
pub open spec fn cross_step(
    n: Numa,
    local: int,
    mid: Arena,
    found: Option<JobRef>,
    res: Option<JobRef>,
    n2: Numa,
) -> bool {
    let m = n.with_node(local, mid);
    let count = n.nodes.len() as int;
    if found is Some || count <= 1 {
        res == found && n2 == m
    } else {
        let rotor = (n.rotor as usize) as int % (count - 1);
        let turned = (Numa { rotor: n.rotor.wrapping_add(1), ..m });
        match first_waiting(m.nodes, local, rotor, 0) {
            Some(offset) => {
                let at = candidate(local, rotor, offset, count);
                &&& res == Some(m.nodes[at].injector.first())
                &&& n2 == turned.with_node(
                    at,
                    (Arena { injector: m.nodes[at].injector.drop_first(), ..m.nodes[at] }),
                )
            },
            None => res is None && n2 == turned,
        }
    }
}

/// Outcome of one search by a thread outside the pool: first its own node,
/// then what was submitted to the others.
pub open spec fn numa_helper_step(
    n: Numa,
    cpu: int,
    rng: u64,
    left: Leftovers,
    res: Option<JobRef>,
    n2: Numa,
    rng2: u64,
    left2: Leftovers,
) -> bool {
    let local = node_of_thread(n.cpu_to_node, n.nodes.len() as int, cpu);
    exists|mid: Arena, found: Option<JobRef>|
        helper_step(n.nodes[local], rng, left, found, mid, rng2, left2) && #[trigger] cross_step(
            n,
            local,
            mid,
            found,
            res,
            n2,
        )
}

proof fn lemma_take_with_stash(
    big: JobBag,
    small: JobBag,
    big2: JobBag,
    small2: JobBag,
    stash: JobBag,
    stash2: JobBag,
    j: crate::job::CompactJobRef,
)
    requires
        big2.add(small) == big.add(small2),
        small.add(stash) == small2.add(stash2).insert(j),
    ensures
        big.add(stash) == big2.add(stash2).insert(j),
{
    assert forall|x: crate::job::CompactJobRef|
        big.add(stash).count(x) == big2.add(stash2).insert(j).count(x) by {
        assert(big2.add(small).count(x) == big2.count(x) + small.count(x));
        assert(big.add(small2).count(x) == big.count(x) + small2.count(x));
        assert(small.add(stash).count(x) == small.count(x) + stash.count(x));
        assert(small2.add(stash2).insert(j).count(x) == small2.count(x) + stash2.count(x) + (
        if x == j {
            1nat
        } else {
            0nat
        }));
    }
    assert(big.add(stash) =~= big2.add(stash2).insert(j));
}

proof fn lemma_candidate(local: int, rotor: int, offset: int, n: int)
    requires
        n > 1,
        0 <= local < n,
        0 <= rotor < n - 1,
        0 <= offset < n - 1,
    ensures
        ({
            let step = if offset < n - 1 - rotor {
                rotor + offset
            } else {
                offset - (n - 1 - rotor)
            };
            &&& 0 <= step < n - 1
            &&& (rotor + offset) % (n - 1) == step
            &&& candidate(local, rotor, offset, n) == if step < n - 1 - local {
                local + 1 + step
            } else {
                step - (n - 1 - local)
            }
        }),
{
    let m = n - 1;
    let s = rotor + offset;
    if s < m {
        vstd::arithmetic::div_mod::lemma_small_mod(s as nat, m as nat);
    } else {
        vstd::arithmetic::div_mod::lemma_mod_add_multiples_vanish(s - m, m);
        vstd::arithmetic::div_mod::lemma_small_mod((s - m) as nat, m as nat);
    }
    let step = s % m;
    let t = local + 1 + step;
    if t < n {
        vstd::arithmetic::div_mod::lemma_small_mod(t as nat, n as nat);
    } else {
        vstd::arithmetic::div_mod::lemma_mod_add_multiples_vanish(t - n, n);
        vstd::arithmetic::div_mod::lemma_small_mod((t - n) as nat, n as nat);
    }
}

/// The rotation looks at every other node and never at the thread's own:
/// place `offset` holds another node, and each other node has its place.
pub proof fn law_rotation_covers_other_nodes(local: int, rotor: int, other: int, n: int) -> (place: int)
    requires
        n > 1,
        0 <= local < n,
        0 <= other < n,
        other != local,
        0 <= rotor < n - 1,
    ensures
        0 <= place < n - 1,
        candidate(local, rotor, place, n) == other,
        forall|offset: int|
            0 <= offset < n - 1 ==> #[trigger] candidate(local, rotor, offset, n) != local,
{
    let step = if other > local {
        other - local - 1
    } else {
        other + (n - 1 - local)
    };
    let place = if step >= rotor {
        step - rotor
    } else {
        step + (n - 1 - rotor)
    };
    lemma_candidate(local, rotor, place, n);
    assert forall|offset: int| 0 <= offset < n - 1 implies #[trigger] candidate(
        local,
        rotor,
        offset,
        n,
    ) != local by {
        lemma_candidate(local, rotor, offset, n);
    }
    place
}

proof fn lemma_first_waiting_none(nodes: Seq<Arena>, local: int, rotor: int, from: int, offset: int)
    requires
        0 <= from <= offset < nodes.len() - 1,
        first_waiting(nodes, local, rotor, from) is None,
    ensures
        nodes[candidate(local, rotor, offset, nodes.len() as int)].injector.len() == 0,
    decreases offset - from,
{
    if from < offset {
        lemma_first_waiting_none(nodes, local, rotor, from + 1, offset);
    }
}

/// A search that comes back empty from the other nodes has missed nothing:
/// no other node had a submitted job.
pub proof fn law_no_submitted_job_is_missed(nodes: Seq<Arena>, local: int, rotor: int, other: int)
    requires
        nodes.len() > 1,
        0 <= local < nodes.len(),
        0 <= other < nodes.len(),
        other != local,
        0 <= rotor < nodes.len() - 1,
        first_waiting(nodes, local, rotor, 0) is None,
    ensures
        nodes[other].injector.len() == 0,
{
    let place = law_rotation_covers_other_nodes(local, rotor, other, nodes.len() as int);
    lemma_first_waiting_none(nodes, local, rotor, 0, place);
}

/// The logical cores of a node are those that the host places there, each
/// once, in ascending order.
pub proof fn law_cores_of_a_node(node_of_cpu: Seq<u32>, node: u32, cpu: usize, i: int, j: int)
    requires
        node_of_cpu.len() <= usize::MAX,
    ensures
        ({
            let cpus = cpus_of(node_of_cpu, node, node_of_cpu.len() as int);
            &&& cpus.contains(cpu) <==> cpu < node_of_cpu.len() && node_of_cpu[cpu as int] == node
            &&& 0 <= i < j < cpus.len() ==> cpus[i] < cpus[j]
        }),
{
    lemma_cpus_of(node_of_cpu, node, node_of_cpu.len() as int, cpu, i, j);
}

proof fn lemma_cpus_of(node_of_cpu: Seq<u32>, node: u32, upto: int, cpu: usize, i: int, j: int)
    requires
        0 <= upto <= node_of_cpu.len() <= usize::MAX,
    ensures
        ({
            let cpus = cpus_of(node_of_cpu, node, upto);
            &&& cpus.contains(cpu) <==> cpu < upto && node_of_cpu[cpu as int] == node
            &&& 0 <= i < j < cpus.len() ==> cpus[i] < cpus[j]
            &&& 0 <= i < cpus.len() ==> cpus[i] < upto
            &&& cpus.len() <= upto
        }),
    decreases upto,
{
    if upto > 0 {
        let before = cpus_of(node_of_cpu, node, upto - 1);
        let cpus = cpus_of(node_of_cpu, node, upto);
        lemma_cpus_of(node_of_cpu, node, upto - 1, cpu, i, j);
        if node_of_cpu[upto - 1] == node {
            let last = (upto - 1) as usize;
            assert(cpus == before.push(last));
            assert(cpus[before.len() as int] == last);
            if before.contains(cpu) {
                let k = choose|k: int| 0 <= k < before.len() && before[k] == cpu;
                assert(cpus[k] == cpu);
            }
            if cpus.contains(cpu) && cpu != last {
                let k = choose|k: int| 0 <= k < cpus.len() && cpus[k] == cpu;
                assert(before[k] == cpu);
            }
            if 0 <= i < before.len() {
                assert(cpus[i] == before[i]);
            }
            if 0 <= j < before.len() {
                assert(cpus[j] == before[j]);
            }
        }
    }
}

/// A host has one arena for each of its nodes, and one where it names none;
/// every arena knows the host's cluster size.
pub proof fn law_one_arena_per_node(
    num_nodes: u32,
    node_of_cpu: Seq<u32>,
    smt_threads: int,
    ccx_size: int,
    workers: Option<usize>,
    ids: Option<Seq<usize>>,
    node: int,
)
    requires
        0 <= node < num_nodes,
    ensures
        ({
            let n = fresh_numa(num_nodes, node_of_cpu, smt_threads, ccx_size, workers, ids);
            &&& n.nodes.len() == num_nodes
            &&& n.nodes[node].ccx_size == ccx_size
            &&& n.cpu_to_node == node_of_cpu
        }),
        fresh_numa(0, node_of_cpu, smt_threads, ccx_size, workers, ids).nodes.len() == 1,
{
}

/// Without a stated count, a node has one worker for each physical core that
/// its `c` logical cores make up at `s` threads each, and at least one; the
/// remaining threads of those cores become siblings. A stated count is taken
/// as it is, but for none, which makes one worker.
pub proof fn law_workers_match_the_cores(
    num_nodes: u32,
    node_of_cpu: Seq<u32>,
    smt_threads: int,
    ccx_size: int,
    workers: Option<usize>,
    ids: Option<Seq<usize>>,
    node: int,
)
    requires
        0 <= node < num_nodes,
        1 <= smt_threads,
        node_of_cpu.len() * smt_threads <= usize::MAX,
        workers matches Some(w) ==> w * smt_threads <= usize::MAX,
    ensures
        ({
            let a = fresh_numa(
                num_nodes,
                node_of_cpu,
                smt_threads,
                ccx_size,
                workers,
                ids,
            ).nodes[node];
            let c = cpus_of(node_of_cpu, node as u32, node_of_cpu.len() as int).len() as int;
            let s = smt_threads;
            let p = a.primary_count;
            &&& workers is None && c >= s ==> p * s <= c < (p + 1) * s
            &&& workers is None && c < s ==> p == 1
            &&& workers matches Some(w) ==> p == if w == 0 {
                1
            } else {
                w as int
            }
            &&& s == 1 ==> a.n_workers == p
            &&& p >= c && workers != Some(0usize) ==> a.n_workers == p
            &&& s > 1 && p < c && workers != Some(0usize) ==> a.n_workers == p * s
            &&& a.total() == a.n_workers + 32
        }),
{
    let cpus = cpus_of(node_of_cpu, node as u32, node_of_cpu.len() as int);
    let c = cpus.len() as int;
    let s = smt_threads;
    assert(node_of_cpu.len() <= usize::MAX) by (nonlinear_arith)
        requires
            node_of_cpu.len() * s <= usize::MAX,
            1 <= s,
    ;
    lemma_cpus_of(node_of_cpu, node as u32, node_of_cpu.len() as int, 0, 0, 0);
    let q = c / s;
    vstd::arithmetic::div_mod::lemma_fundamental_div_mod(c, s);
    assert(q * s <= c < (q + 1) * s && 0 <= q <= c) by (nonlinear_arith)
        requires
            c == s * q + c % s,
            0 <= c % s < s,
            0 <= c,
            1 <= s,
            q == c / s,
    ;
    if c >= s {
        assert(q >= 1) by (nonlinear_arith)
            requires
                c < (q + 1) * s,
                c >= s,
                1 <= s,
        ;
    } else if q >= 1 {
        assert(q * s >= s) by (nonlinear_arith)
            requires
                q >= 1,
                1 <= s,
        ;
    }
    let p = primaries(workers, c, s);
    assert(p * (s - 1) == p * s - p) by (nonlinear_arith);
    if workers is None && p < c {
        assert(p * s <= c * s <= node_of_cpu.len() * s) by (nonlinear_arith)
            requires
                p < c <= node_of_cpu.len(),
                1 <= s,
        ;
    }
}

/// A worker is pinned to a core of its own node, taken from the host's list;
/// the node's named cores are handed out in turn, and nobody is pinned where
/// none is named.
pub proof fn law_workers_are_pinned_to_their_node(
    num_nodes: u32,
    node_of_cpu: Seq<u32>,
    smt_threads: int,
    ccx_size: int,
    workers: Option<usize>,
    ids: Option<Seq<usize>>,
    node: int,
    i: int,
)
    requires
        0 <= node < num_nodes,
        node_of_cpu.len() <= usize::MAX,
        0 <= i < fresh_numa(
            num_nodes,
            node_of_cpu,
            smt_threads,
            ccx_size,
            workers,
            ids,
        ).nodes[node].cores.len(),
    ensures
        ({
            let a = fresh_numa(
                num_nodes,
                node_of_cpu,
                smt_threads,
                ccx_size,
                workers,
                ids,
            ).nodes[node];
            &&& a.cores.len() == a.n_workers
            &&& ids is None ==> a.cores[i] is None
            &&& ids matches Some(list) ==> (a.cores[i] is Some <==> exists|cpu: int|
                0 <= cpu < node_of_cpu.len() && #[trigger] node_of_cpu[cpu] == node && cpu
                    < list.len())
            &&& a.cores[i] matches Some(core) ==> (ids matches Some(list) && exists|cpu: int|
                0 <= cpu < node_of_cpu.len() && #[trigger] node_of_cpu[cpu] == node && cpu
                    < list.len() && core == list[cpu])
        }),
{
    let a = fresh_numa(num_nodes, node_of_cpu, smt_threads, ccx_size, workers, ids).nodes[node];
    let cpus = cpus_of(node_of_cpu, node as u32, node_of_cpu.len() as int);
    if ids is Some {
        let list = ids->Some_0;
        let named = node_cores(list, cpus, cpus.len() as int);
        if a.cores[i] is Some {
            let m = named.len() as int;
            vstd::arithmetic::div_mod::lemma_mod_bound(i, m);
            let k = lemma_named(list, cpus, cpus.len() as int, i % m);
            let cpu = cpus[k] as int;
            law_cores_of_a_node(node_of_cpu, node as u32, cpus[k], 0, 0);
            assert(cpus.contains(cpus[k]));
            assert(node_of_cpu[cpu] == node && cpu < list.len() && a.cores[i] == Some(list[cpu]));
        }
        if exists|cpu: int|
            0 <= cpu < node_of_cpu.len() && #[trigger] node_of_cpu[cpu] == node && cpu
                < list.len() {
            let cpu = choose|cpu: int|
                0 <= cpu < node_of_cpu.len() && #[trigger] node_of_cpu[cpu] == node && cpu
                    < list.len();
            law_cores_of_a_node(node_of_cpu, node as u32, cpu as usize, 0, 0);
            let k = choose|k: int| 0 <= k < cpus.len() && cpus[k] == cpu as usize;
            lemma_naming_nonempty(list, cpus, cpus.len() as int, k);
        }
    }
}

/// Every named core is that of one of the node's logical cores.
proof fn lemma_named(ids: Seq<usize>, cpus: Seq<usize>, upto: int, i: int) -> (k: int)
    requires
        0 <= upto <= cpus.len(),
        0 <= i < node_cores(ids, cpus, upto).len(),
    ensures
        0 <= k < upto,
        cpus[k] < ids.len(),
        node_cores(ids, cpus, upto)[i] == ids[cpus[k] as int],
    decreases upto,
{
    let before = node_cores(ids, cpus, upto - 1);
    if cpus[upto - 1] < ids.len() && i == before.len() {
        upto - 1
    } else {
        lemma_named(ids, cpus, upto - 1, i)
    }
}

proof fn lemma_naming_nonempty(ids: Seq<usize>, cpus: Seq<usize>, upto: int, k: int)
    requires
        0 <= k < upto <= cpus.len(),
        cpus[k] < ids.len(),
    ensures
        node_cores(ids, cpus, upto).len() > 0,
    decreases upto,
{
    if k < upto - 1 {
        lemma_naming_nonempty(ids, cpus, upto - 1, k);
    }
}

/// Neighbouring workers of a node are pinned to neighbouring named cores: with
/// a list that names every logical core by its own number, worker `i` gets the
/// node's core number `i`, and after the last one the turn starts again.
pub proof fn law_cores_are_handed_out_in_turn(
    num_nodes: u32,
    node_of_cpu: Seq<u32>,
    smt_threads: int,
    ccx_size: int,
    workers: Option<usize>,
    ids: Seq<usize>,
    node: int,
    i: int,
)
    requires
        0 <= node < num_nodes,
        ids.len() == node_of_cpu.len(),
        node_of_cpu.len() <= usize::MAX,
        forall|k: int| 0 <= k < ids.len() ==> #[trigger] ids[k] == k,
        0 <= i < fresh_numa(
            num_nodes,
            node_of_cpu,
            smt_threads,
            ccx_size,
            workers,
            Some(ids),
        ).nodes[node].cores.len(),
        cpus_of(node_of_cpu, node as u32, node_of_cpu.len() as int).len() > 0,
    ensures
        ({
            let a = fresh_numa(
                num_nodes,
                node_of_cpu,
                smt_threads,
                ccx_size,
                workers,
                Some(ids),
            ).nodes[node];
            let cpus = cpus_of(node_of_cpu, node as u32, node_of_cpu.len() as int);
            &&& i < cpus.len() ==> a.cores[i] == Some(cpus[i])
            &&& i >= cpus.len() ==> a.cores[i] == a.cores[i - cpus.len()]
        }),
{
    let cpus = cpus_of(node_of_cpu, node as u32, node_of_cpu.len() as int);
    let m = cpus.len() as int;
    assert forall|k: int| 0 <= k < m implies #[trigger] cpus[k] < ids.len() by {
        law_cores_of_a_node(node_of_cpu, node as u32, cpus[k], 0, 0);
        assert(cpus.contains(cpus[k]));
    }
    lemma_all_named(ids, cpus, m);
    assert(node_cores(ids, cpus, m) =~= cpus);
    if i < m {
        vstd::arithmetic::div_mod::lemma_small_mod(i as nat, m as nat);
    } else {
        vstd::arithmetic::div_mod::lemma_mod_sub_multiples_vanish(i, m);
    }
}

proof fn lemma_all_named(ids: Seq<usize>, cpus: Seq<usize>, upto: int)
    requires
        0 <= upto <= cpus.len(),
        forall|k: int| 0 <= k < ids.len() ==> #[trigger] ids[k] == k,
        forall|k: int| 0 <= k < upto ==> #[trigger] cpus[k] < ids.len(),
    ensures
        node_cores(ids, cpus, upto) == cpus.take(upto),
    decreases upto,
{
    if upto > 0 {
        lemma_all_named(ids, cpus, upto - 1);
        assert(cpus.take(upto) =~= cpus.take(upto - 1).push(cpus[upto - 1]));
    } else {
        assert(cpus.take(0) =~= Seq::<usize>::empty());
    }
}

/// A hint that names a node leads there. Without one, with the local hint, or
/// with one that names no node, the job goes to the node of the core that the
/// caller runs on; unknown cores count as of the first node, and nodes beyond
/// the last as the last.
pub proof fn law_jobs_go_where_the_hint_says(n: Numa, hint: u32, cpu: int)
    requires
        n.nodes.len() > 0,
    ensures
        hint < n.nodes.len() && hint != u32::MAX ==> resolved_node(n, Some(hint), cpu) == hint,
        hint >= n.nodes.len() || hint == u32::MAX ==> resolved_node(n, Some(hint), cpu)
            == resolved_node(n, None, cpu),
        0 <= cpu < n.cpu_to_node.len() && n.cpu_to_node[cpu] < n.nodes.len() ==> resolved_node(
            n,
            None,
            cpu,
        ) == n.cpu_to_node[cpu],
        0 <= cpu < n.cpu_to_node.len() && n.cpu_to_node[cpu] >= n.nodes.len() ==> resolved_node(
            n,
            None,
            cpu,
        ) == n.nodes.len() - 1,
        cpu >= n.cpu_to_node.len() ==> resolved_node(n, None, cpu) == 0,
{
}

/// A search by an outside thread that finds nothing on its own node comes back
/// with the oldest submitted job of another node, wherever there is one, and
/// takes that job alone.
pub proof fn law_search_reaches_other_nodes(
    n: Numa,
    local: int,
    mid: Arena,
    res: Option<JobRef>,
    n2: Numa,
    other: int,
)
    requires
        n.nodes.len() > 1,
        0 <= local < n.nodes.len(),
        0 <= other < n.nodes.len(),
        other != local,
        n.nodes[other].injector.len() > 0,
        cross_step(n, local, mid, None, res, n2),
    ensures
        exists|at: int|
            0 <= at < n.nodes.len() && at != local && #[trigger] n.nodes[at].injector.len() > 0
                && res == Some(n.nodes[at].injector[0]) && n2.nodes[at].injector
                == n.nodes[at].injector.drop_first() && (forall|k: int|
                0 <= k < n.nodes.len() && k != at && k != local ==> #[trigger] n2.nodes[k]
                    == n.nodes[k]) && n2.nodes[local] == mid,
        n2.nodes.len() == n.nodes.len(),
{
    let count = n.nodes.len() as int;
    let m = n.with_node(local, mid);
    let rotor = (n.rotor as usize) as int % (count - 1);
    vstd::arithmetic::div_mod::lemma_mod_bound((n.rotor as usize) as int, count - 1);
    let place = law_rotation_covers_other_nodes(local, rotor, other, count);
    assert(m.nodes[other] == n.nodes[other]);
    match first_waiting(m.nodes, local, rotor, 0) {
        Some(offset) => {
            lemma_first_waiting_some(m.nodes, local, rotor, 0, offset);
            lemma_candidate(local, rotor, offset, count);
            let at = candidate(local, rotor, offset, count);
            assert(m.nodes[at] == n.nodes[at]);
            assert(n.nodes[at].injector.len() > 0);
        },
        None => {
            law_no_submitted_job_is_missed(m.nodes, local, rotor, other);
        },
    }
}

proof fn lemma_first_waiting_some(nodes: Seq<Arena>, local: int, rotor: int, from: int, offset: int)
    requires
        0 <= from,
        first_waiting(nodes, local, rotor, from) == Some(offset),
    ensures
        from <= offset < nodes.len() - 1,
        nodes[candidate(local, rotor, offset, nodes.len() as int)].injector.len() > 0,
    decreases nodes.len() - 1 - from,
{
    if nodes[candidate(local, rotor, from, nodes.len() as int)].injector.len() == 0 {
        lemma_first_waiting_some(nodes, local, rotor, from + 1, offset);
    }
}

/// Searches take turns: one that finds nothing starts at another node than the
/// search before it, where there are at least two others.
pub proof fn law_searches_start_at_different_nodes(local: int, rotor: int, n: int)
    requires
        n > 2,
        0 <= local < n,
        0 <= rotor,
    ensures
        candidate(local, rotor % (n - 1), 0, n) != candidate(local, (rotor + 1) % (n - 1), 0, n),
{
    let m = n - 1;
    let r = rotor % m;
    let q = (rotor + 1) % m;
    vstd::arithmetic::div_mod::lemma_mod_bound(rotor, m);
    vstd::arithmetic::div_mod::lemma_mod_bound(rotor + 1, m);
    if r == q {
        crate::math::lemma_slots_distinct(rotor, rotor + 1, m);
    }
    lemma_candidate(local, r, 0, n);
    lemma_candidate(local, q, 0, n);
}

/// The workers of all nodes are the sum over the nodes, and every node has at
/// least one.
pub proof fn law_workers_add_up(nodes: Seq<Arena>, a: Arena)
    ensures
        workers_on(nodes.push(a), (nodes.len() + 1) as int) == workers_on(nodes, nodes.len() as int)
            + a.n_workers,
        workers_on(Seq::empty(), 0) == 0,
{
    lemma_workers_prefix(nodes, a, nodes.len() as int);
}

proof fn lemma_workers_prefix(nodes: Seq<Arena>, a: Arena, n: int)
    requires
        0 <= n <= nodes.len(),
    ensures
        workers_on(nodes.push(a), n) == workers_on(nodes, n),
    decreases n,
{
    if n > 0 {
        lemma_workers_prefix(nodes, a, n - 1);
    }
}

/// Requesting and releasing the siblings leaves every node as it was, and a
/// request reaches every node.
pub proof fn law_sibling_requests_reach_every_node(n: Numa, i: int)
    requires
        0 <= i < n.nodes.len(),
        n.nodes[i].smt_requests < u32::MAX,
    ensures
        smt_acquired(n).nodes.len() == n.nodes.len(),
        smt_acquired(n).nodes[i].smt_requests == n.nodes[i].smt_requests + 1,
        smt_acquired(n).nodes[i].ctxs == n.nodes[i].ctxs,
        smt_released(smt_acquired(n)).nodes[i] == n.nodes[i],
{
    assert(smt_released(smt_acquired(n)).nodes[i] =~= n.nodes[i]);
}

/// The first request for a node's siblings wakes every sibling; later ones
/// wake nobody.
pub proof fn law_first_request_wakes_the_siblings(a: Arena, i: usize)
    requires
        0 <= a.primary_count <= a.total() <= usize::MAX,
    ensures
        a.smt_requests == 0 ==> (sibling_wake(a).contains(i) <==> a.primary_count <= i
            < a.total()),
        a.smt_requests > 0 ==> sibling_wake(a).len() == 0,
{
    if a.smt_requests == 0 {
        let w = sibling_wake(a);
        if a.primary_count <= i < a.total() {
            assert(w[i - a.primary_count] == i);
        }
    }
}

/// An outside helper that comes back with nothing leaves no submitted job
/// behind on any node: neither on its own, nor on another.
pub proof fn law_empty_handed_helper_missed_nothing(
    n: Numa,
    cpu: int,
    rng: u64,
    left: Leftovers,
    n2: Numa,
    rng2: u64,
    left2: Leftovers,
    node: int,
)
    requires
        n.nodes.len() > 0,
        0 <= node < n.nodes.len(),
        numa_helper_step(n, cpu, rng, left, None, n2, rng2, left2),
    ensures
        n.nodes[node].injector.len() == 0,
        left.khl.jobs.len() == 0,
        left.fcl.jobs.len() == 0,
{
    let count = n.nodes.len() as int;
    let local = node_of_thread(n.cpu_to_node, count, cpu);
    let (mid, found) = choose|mid: Arena, found: Option<JobRef>|
        helper_step(n.nodes[local], rng, left, found, mid, rng2, left2) && #[trigger] cross_step(
            n,
            local,
            mid,
            found,
            None,
            n2,
        );
    assert(found is None);
    if node != local && n.nodes[node].injector.len() > 0 {
        law_search_reaches_other_nodes(n, local, mid, None, n2, node);
    }
}

/// The push totals of a host are those of its nodes, each counted once.
pub proof fn law_push_totals_add_up(nodes: Seq<Arena>, k: int)
    requires
        0 < k <= nodes.len(),
    ensures
        singles_on(nodes, k) == singles_on(nodes, k - 1) + single_counts(nodes[k - 1]),
        bursts_on(nodes, k) == bursts_on(nodes, k - 1) + burst_counts(nodes[k - 1]),
        singles_on(nodes, k).len() == singles_on(nodes, k - 1).len() + nodes[k - 1].ctxs.len(),
        stats_on(nodes, k).len() == stats_on(nodes, k - 1).len() + nodes[k - 1].ctxs.len(),
        forall|i: int|
            0 <= i < nodes[k - 1].ctxs.len() ==> stats_on(nodes, k)[stats_on(nodes, k - 1).len()
                + i] == #[trigger] nodes[k - 1].ctxs[i].stats,
{
}

} // verus!
