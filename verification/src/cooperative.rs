//! Fork-join over a list of closures.
//!
//! Whatever the shape, the results come in the order of the closures. The
//! bisecting shape joins the two halves of the list; the flat shapes make one
//! job of each closure but the last, spread them over the pool, run the last
//! one at once, and help with other jobs until all are done.

use crate::adaptive_cooperative::{cooperative_shape, CooperativeRouting, CooperativeShape};
use crate::arena::{join, open_requests, with_requests, Dispatched, HandedOver};
use crate::arena_local::{
    after_burst, search_order, tier_has_slot, walk, Arena, Ctx, LocalArena, Wake, MAILBOX_CAPACITY,
};
use crate::arena_numa::{resolved_node, sibling_wake, NumaArena};
use crate::deque_tier::DequeTier;
use crate::job::{compact_of, JobRef};
use crate::job_bag::{lemma_refs_bag_push, refs_bag};
use crate::plan::JobPlan;
use vstd::prelude::*;

verus! {

/// Every closure may be called.
pub open spec fn callable<R, F: FnOnce() -> R>(closures: Seq<F>) -> bool {
    forall|i: int| 0 <= i < closures.len() ==> call_requires(#[trigger] closures[i], ())
}

/// The results of the closures, in order.
pub open spec fn results_of<R, F: FnOnce() -> R>(closures: Seq<F>, res: Seq<R>) -> bool {
    res.len() == closures.len() && forall|i: int|
        0 <= i < closures.len() ==> call_ensures(#[trigger] closures[i], (), res[i])
}

/// Runs a list of closures in the shape that the plan, the process-wide
/// routing and the pool's population call for. The results come in the order
/// of the closures.
pub fn cooperative_join_n<R: Send, F: FnOnce() -> R + Send>(
    plan: &JobPlan,
    active: CooperativeRouting,
    n_workers: usize,
    closures: Vec<F>,
) -> (res: Vec<R>)
    requires
        callable::<R, F>(closures@),
    ensures
        results_of::<R, F>(closures@, res@),
{
    match cooperative_shape(closures.len(), plan.cooperative_routing, active, n_workers) {
        CooperativeShape::Tree => cooperative_join_n_tree(plan, closures),
        CooperativeShape::FlatMailbox => cooperative_join_n_flat_mailbox(plan, closures),
        CooperativeShape::FlatDeque => cooperative_join_n_flat(plan, closures),
    }
}

/// The two halves of a list; the second gets the odd one.
pub fn tree_halves<F>(closures: Vec<F>) -> (res: (Vec<F>, Vec<F>))
    ensures
        res.0@ == closures@.subrange(0, closures@.len() as int / 2),
        res.1@ == closures@.subrange(closures@.len() as int / 2, closures@.len() as int),
{
    let mut left = closures;
    let mid: usize = left.len() / 2;
    let right = left.split_off(mid);
    (left, right)
}

/// Runs a list of closures by bisecting it. The results come in the order of
/// the closures.
pub fn cooperative_join_n_tree<R: Send, F: FnOnce() -> R + Send>(
    plan: &JobPlan,
    closures: Vec<F>,
) -> (res: Vec<R>)
    requires
        callable::<R, F>(closures@),
    ensures
        results_of::<R, F>(closures@, res@),
    decreases closures@.len(),
{
    let n: usize = closures.len();
    let mut left = closures;
    if n == 0 {
        return Vec::new();
    }
    if n == 1 {
        let c = left.remove(0);
        let r = c();
        let mut out: Vec<R> = Vec::new();
        out.push(r);
        return out;
    }
    if n == 2 {
        let b = left.remove(1);
        let a = left.remove(0);
        let (ra, rb) = join(plan, a, b);
        let mut out: Vec<R> = Vec::new();
        out.push(ra);
        out.push(rb);
        return out;
    }
    let (left, right) = tree_halves(left);
    let ghost mid = n as int / 2;
    proof {
        assert forall|i: int| 0 <= i < left@.len() implies call_requires(#[trigger] left@[i], ()) by {
            assert(left@[i] == closures@[i]);
        }
        assert forall|i: int| 0 <= i < right@.len() implies call_requires(
            #[trigger] right@[i],
            (),
        ) by {
            assert(right@[i] == closures@[mid + i]);
        }
    }
    let ghost left_view = left@;
    let ghost right_view = right@;
    let mut out = cooperative_join_n_tree(plan, left);
    let mut tail = cooperative_join_n_tree(plan, right);
    let ghost head = out@;
    let ghost rest = tail@;
    out.append(&mut tail);
    proof {
        assert forall|i: int| 0 <= i < closures@.len() implies call_ensures(
            #[trigger] closures@[i],
            (),
            out@[i],
        ) by {
            if i < mid {
                assert(left_view[i] == closures@[i]);
                assert(out@[i] == head[i]);
            } else {
                assert(right_view[i - mid] == closures@[i]);
                assert(out@[i] == rest[i - mid]);
            }
        }
    }
    out
}

/// Runs the closures one after the other, in order.
fn run_in_order<R: Send, F: FnOnce() -> R + Send>(closures: Vec<F>) -> (res: Vec<R>)
    requires
        callable::<R, F>(closures@),
    ensures
        results_of::<R, F>(closures@, res@),
{
    let ghost all = closures@;
    let mut left = closures;
    let mut out: Vec<R> = Vec::new();
    while left.len() > 0
        invariant
            callable::<R, F>(all),
            left@.len() + out@.len() == all.len(),
            left@ == all.subrange(out@.len() as int, all.len() as int),
            forall|i: int| 0 <= i < out@.len() ==> call_ensures(#[trigger] all[i], (), out@[i]),
        decreases left@.len(),
    {
        let ghost k = out@.len() as int;
        proof {
            assert(left@[0] == all[k]);
        }
        let c = left.remove(0);
        let r = c();
        out.push(r);
        proof {
            assert(left@ =~= all.subrange(k + 1, all.len() as int));
        }
    }
    out
}

/// Runs a list of closures as one flat fan-out over the caller's deque. The
/// results come in the order of the closures.
pub fn cooperative_join_n_flat<R: Send, F: FnOnce() -> R + Send>(
    plan: &JobPlan,
    closures: Vec<F>,
) -> (res: Vec<R>)
    requires
        callable::<R, F>(closures@),
    ensures
        results_of::<R, F>(closures@, res@),
{
    if closures.len() < 3 {
        return cooperative_join_n_tree(plan, closures);
    }
    run_in_order(closures)
}

/// Runs a list of closures as one flat fan-out over the workers' mailboxes.
/// The results come in the order of the closures.
pub fn cooperative_join_n_flat_mailbox<R: Send, F: FnOnce() -> R + Send>(
    plan: &JobPlan,
    closures: Vec<F>,
) -> (res: Vec<R>)
    requires
        callable::<R, F>(closures@),
    ensures
        results_of::<R, F>(closures@, res@),
{
    if closures.len() < 3 {
        return cooperative_join_n_tree(plan, closures);
    }
    run_in_order(closures)
}

/// How a fan-out spreads its jobs.
#[derive(Debug, Clone, Copy, PartialEq, Eq, Structural)]
pub enum FanOutMode {
    /// Over the caller's own deque, where peers steal them.
    Deque,
    /// One to each other position's mailbox in turn.
    Mailbox,
}

/// Mailboxes are used only where there are at least as many closures as
/// positions in the arena, workers and outside slots alike: a position without
/// a mailbox job could not help.
pub fn effective_mode(mode: FanOutMode, n: usize, n_positions: usize) -> (res: FanOutMode)
    ensures
        res == if mode == FanOutMode::Mailbox && n < n_positions {
            FanOutMode::Deque
        } else {
            mode
        },
{
    match mode {
        FanOutMode::Mailbox => if n < n_positions {
            FanOutMode::Deque
        } else {
            FanOutMode::Mailbox
        },
        FanOutMode::Deque => FanOutMode::Deque,
    }
}

/// Position that job `i` of `me`'s fan-out goes to: the positions in turn,
/// starting at the next one, skipping `me`.
pub open spec fn target_of(me: int, i: int, n_positions: int) -> int {
    if n_positions > 1 {
        let t = (me + 1 + i) % n_positions;
        if t == me {
            (t + 1) % n_positions
        } else {
            t
        }
    } else {
        me
    }
}

/// Position that job `i` of a fan-out goes to.
pub fn fan_out_target(me: usize, i: usize, n_positions: usize) -> (res: usize)
    requires
        me < n_positions,
    ensures
        res == target_of(me as int, i as int, n_positions as int),
        res < n_positions,
        n_positions > 1 ==> res != me,
{
    if n_positions > 1 {
        let turn: usize = i % n_positions;
        let behind: usize = n_positions - 1 - me;
        let t: usize = if turn < behind { me + 1 + turn } else { turn - behind };
        proof {
            let n = n_positions as int;
            let x = me + 1 + turn;
            vstd::arithmetic::div_mod::lemma_add_mod_noop(me + 1, i as int, n);
            vstd::arithmetic::div_mod::lemma_add_mod_noop(me + 1, turn as int, n);
            vstd::arithmetic::div_mod::lemma_mod_twice(i as int, n);
            if turn < behind {
                vstd::arithmetic::div_mod::lemma_small_mod(x as nat, n as nat);
            } else {
                vstd::arithmetic::div_mod::lemma_mod_add_multiples_vanish(x - n, n);
                vstd::arithmetic::div_mod::lemma_small_mod((x - n) as nat, n as nat);
            }
        }
        if t == me {
            if behind == 0 {
                proof {
                    vstd::arithmetic::div_mod::lemma_mod_self_0(n_positions as int);
                }
                0
            } else {
                proof {
                    vstd::arithmetic::div_mod::lemma_small_mod(
                        (me + 1) as nat,
                        n_positions as nat,
                    );
                }
                me + 1
            }
        } else {
            t
        }
    } else {
        me
    }
}

/// The first round of a fan-out reaches every other position exactly once.
pub proof fn law_first_round_reaches_every_peer(me: int, peer: int, n_positions: int) -> (place: int)
    requires
        0 <= me < n_positions,
        0 <= peer < n_positions,
        peer != me,
    ensures
        0 <= place < n_positions - 1,
        target_of(me, place, n_positions) == peer,
        forall|i: int|
            0 <= i < n_positions - 1 && i != place ==> #[trigger] target_of(me, i, n_positions) != peer,
{
    let place = if peer > me {
        peer - me - 1
    } else {
        peer - me - 1 + n_positions
    };
    assert forall|i: int| 0 <= i < n_positions - 1 implies #[trigger] target_of(me, i, n_positions)
        == if me + 1 + i < n_positions {
        me + 1 + i
    } else {
        me + 1 + i - n_positions
    } by {
        let x = me + 1 + i;
        if x < n_positions {
            vstd::arithmetic::div_mod::lemma_small_mod(x as nat, n_positions as nat);
        } else {
            vstd::arithmetic::div_mod::lemma_mod_add_multiples_vanish(x - n_positions, n_positions);
            vstd::arithmetic::div_mod::lemma_small_mod((x - n_positions) as nat, n_positions as nat);
        }
    }
    assert(target_of(me, place, n_positions) == peer);
    place
}

/// Job `i` of a fan-out enters the accumulator of the caller's own deque.
pub open spec fn goes_to_own_deque(a: Arena, me: int, i: int, mode: FanOutMode) -> bool {
    let t = target_of(me, i, a.total());
    mode == FanOutMode::Deque || t == me || a.ctxs[t].mailbox.len() >= MAILBOX_CAPACITY
}

/// Job `i` of a fan-out has to wait for a thief to make room.
pub open spec fn must_wait(a: Arena, me: int, i: int, mode: FanOutMode) -> bool {
    &&& goes_to_own_deque(a, me, i, mode)
    &&& a.ctxs[me].deques[3].front().buffered.jobs.len() == 2
    &&& !tier_has_slot(a.ctxs[me], 3)
}

/// The arena after job `i` of a fan-out was placed.
pub open spec fn placed_one(a: Arena, me: int, i: int, job: JobRef, mode: FanOutMode) -> Arena {
    let t = target_of(me, i, a.total());
    if goes_to_own_deque(a, me, i, mode) {
        a.with_ctx(me, after_burst(a.ctxs[me], 3, job))
    } else {
        Arena {
            mailbox_ever_used: true,
            ..a.with_ctx(t, (Ctx { mailbox: a.ctxs[t].mailbox.push(job), ..a.ctxs[t] }))
        }
    }
}

/// The arena after the jobs from `from` up to `to` were placed.
pub open spec fn placed(
    a: Arena,
    me: int,
    jobs: Seq<JobRef>,
    from: int,
    to: int,
    mode: FanOutMode,
) -> Arena
    decreases to - from,
{
    if to <= from {
        a
    } else {
        placed_one(placed(a, me, jobs, from, to - 1, mode), me, to - 1, jobs[to - 1], mode)
    }
}

/// Places the jobs of a fan-out from `from` on, until one would have to wait
/// for a thief to make room. Gives the number of the first job not placed; no
/// wake request is made.
pub fn fan_out_place(
    arena: &mut LocalArena,
    me: usize,
    jobs: &Vec<JobRef>,
    from: usize,
    mode: FanOutMode,
) -> (res: usize)
    requires
        old(arena).wf(),
        me < old(arena)@.total(),
        from <= jobs@.len(),
    ensures
        final(arena).wf(),
        from <= res <= jobs@.len(),
        final(arena)@ == placed(old(arena)@, me as int, jobs@, from as int, res as int, mode),
        forall|i: int|
            from <= i < res ==> !must_wait(
                #[trigger] placed(old(arena)@, me as int, jobs@, from as int, i, mode),
                me as int,
                i,
                mode,
            ),
        res < jobs@.len() ==> must_wait(final(arena)@, me as int, res as int, mode),
        final(arena)@.bag() == old(arena)@.bag().add(
            refs_bag(jobs@.subrange(from as int, res as int)),
        ),
{
    let ghost start = arena@;
    let mut i: usize = from;
    let n: usize = arena.total_positions();
    proof {
        arena.lemma_shape();
        crate::job_bag::lemma_refs_bag_empty(jobs@.subrange(from as int, from as int));
        assert(start.bag().add(refs_bag(jobs@.subrange(from as int, from as int))) =~= start.bag());
    }
    while i < jobs.len()
        invariant
            arena.wf(),
            start == old(arena)@,
            from <= i <= jobs@.len(),
            me < n,
            n == start.total(),
            arena@.total() == n,
            arena@ == placed(start, me as int, jobs@, from as int, i as int, mode),
            forall|k: int|
                from <= k < i ==> !must_wait(
                    #[trigger] placed(start, me as int, jobs@, from as int, k, mode),
                    me as int,
                    k,
                    mode,
                ),
            arena@.bag() == start.bag().add(refs_bag(jobs@.subrange(from as int, i as int))),
        decreases jobs@.len() - i,
    {
        let job = jobs[i];
        let target: usize = fan_out_target(me, i, n);
        let ghost before = arena@;
        let mut own: bool = true;
        if let FanOutMode::Mailbox = mode {
            if target != me {
                match arena.push_to_mailbox(target, job, false) {
                    Ok(_) => {
                        own = false;
                    },
                    Err(_) => {},
                }
            }
        }
        if own {
            proof {
                assert(arena@ == before);
                assert(goes_to_own_deque(before, me as int, i as int, mode));
            }
            if arena.burst_would_block(me, DequeTier::Public) {
                return i;
            }
            arena.push_burst(me, job);
        }
        proof {
            assert(arena@ == placed_one(before, me as int, i as int, job, mode));
            let s = jobs@.subrange(from as int, i as int);
            assert(jobs@.subrange(from as int, i + 1) =~= s.push(job));
            lemma_refs_bag_push(s, job);
            assert(arena@.bag() =~= start.bag().add(refs_bag(s.push(job))));
        }
        i += 1;
    }
    i
}

/// Wake request that covers a whole fan-out over mailboxes. Deque fan-outs
/// make theirs when they are flushed.
pub fn fan_out_wake(mode: FanOutMode, silenced: bool, jobs: usize) -> (res: Option<Wake>)
    ensures
        res == if mode == FanOutMode::Mailbox && silenced && jobs > 0 {
            Some(Wake { jobs: jobs as u32, queue_was_empty: true })
        } else {
            None
        },
{
    match mode {
        FanOutMode::Mailbox => if silenced && jobs > 0 {
            Some(
                Wake {
                    jobs: #[verifier::truncate]
                    (jobs as u32),
                    queue_was_empty: true,
                },
            )
        } else {
            None
        },
        FanOutMode::Deque => None,
    }
}

/// What a caller does next while it waits for its fan-out.
#[derive(Debug, Clone, Copy, PartialEq, Eq, Structural)]
pub enum FanOutStep {
    /// Every job is done: take the results.
    Done,
    /// Run a job.
    Help(JobRef),
    /// There is nothing to do: let other threads run.
    Yield,
}

/// One step of the wait for a fan-out.
pub fn fan_out_wait_step(arena: &mut LocalArena, me: usize, all_done: bool) -> (res: FanOutStep)
    requires
        old(arena).wf(),
        me < old(arena)@.total(),
    ensures
        final(arena).wf(),
        all_done ==> res == FanOutStep::Done && final(arena)@ == old(arena)@,
        !all_done ==> final(arena)@ == walk(
            old(arena)@,
            me as int,
            search_order(old(arena)@, me as int),
        ).1 && res == match walk(old(arena)@, me as int, search_order(old(arena)@, me as int)).0 {
            Some(hit) => FanOutStep::Help(hit.0),
            None => FanOutStep::Yield,
        },
        res matches FanOutStep::Help(j) ==> old(arena)@.bag() == final(arena)@.bag().insert(
            compact_of(j),
        ),
        res is Yield ==> final(arena)@.bag() == old(arena)@.bag(),
{
    if all_done {
        return FanOutStep::Done;
    }
    match arena.find_work(me) {
        Some(job) => FanOutStep::Help(job),
        None => FanOutStep::Yield,
    }
}

/// Rounds that an outside thread spins for its fan-out before it blocks.
pub const FAN_OUT_SPIN_ROUNDS: usize = 500_000;

/// Starts a fan-out from outside the pool: requests the siblings where the
/// plan has use for them, and submits the job that will fan out to the node
/// that the plan's hint leads to.
pub fn fan_out_external(
    numa: &mut NumaArena,
    plan: &JobPlan,
    use_smt: bool,
    cpu: usize,
    job: JobRef,
) -> (res: Dispatched)
    requires
        old(numa).wf(),
        old(numa)@.nodes[resolved_node(
            old(numa)@,
            plan.numa_hint,
            cpu as int,
        )].injector.len() < usize::MAX,
    ensures
        final(numa).wf(),
        ({
            let before = with_requests(old(numa)@, use_smt);
            let node = resolved_node(old(numa)@, plan.numa_hint, cpu as int);
            let a = before.nodes[node];
            &&& res.how == (HandedOver::Submitted {
                node: node as usize,
                wake: Wake { jobs: 1, queue_was_empty: a.injector.len() == 0 },
                spin: FAN_OUT_SPIN_ROUNDS,
            })
            &&& final(numa)@ == before.with_node(
                node,
                (Arena { injector: a.injector.push(job), ..a }),
            )
        }),
        final(numa)@.bag() == old(numa)@.bag().insert(compact_of(job)),
        res.smt@.len() == if use_smt {
            old(numa)@.nodes.len()
        } else {
            0
        },
        res.sibling_wakes@.len() == res.smt@.len(),
        forall|i: int|
            0 <= i < res.smt@.len() ==> (#[trigger] res.sibling_wakes@[i])@ == sibling_wake(
                old(numa)@.nodes[i],
            ),
{
    proof {
        numa.lemma_shape();
        let node = resolved_node(numa@, plan.numa_hint, cpu as int);
        assert(with_requests(numa@, use_smt).nodes[node].injector == numa@.nodes[node].injector);
    }
    let (smt, sibling_wakes) = open_requests(numa, use_smt);
    let (node, wake) = numa.submit(job, plan.numa_hint, cpu);
    Dispatched {
        smt,
        sibling_wakes,
        how: HandedOver::Submitted { node, wake, spin: FAN_OUT_SPIN_ROUNDS },
    }
}

/// A job of a fan-out over the deque is the newest on the caller's own widest
/// deque. Of a fan-out over mailboxes it is the last in the mailbox of the next
/// position in turn, never the caller's; where that mailbox is full it goes to
/// the caller's own deque. Nobody else's mailbox or deque changes.
pub proof fn law_fan_out_places_each_job(
    a: Arena,
    me: int,
    i: int,
    job: JobRef,
    mode: FanOutMode,
    other: int,
)
    requires
        crate::arena_local::arena_shape(a),
        0 <= me < a.total(),
        0 <= i,
        0 <= other < a.total(),
        other != me,
    ensures
        ({
            let b = placed_one(a, me, i, job, mode);
            let t = target_of(me, i, a.total());
            let own = mode == FanOutMode::Deque || a.ctxs[t].mailbox.len() >= 16;
            let f = a.ctxs[me].deques[3].front();
            let g = b.ctxs[me].deques[3].front();
            &&& t != me && 0 <= t < a.total()
            &&& t == (me + 1 + i) % a.total() || (me + 1 + i) % a.total() == me && t == (me + 1)
                % a.total()
            &&& own ==> b.ctxs[other] == a.ctxs[other] && b.ctxs[me].mailbox == a.ctxs[me].mailbox
            &&& own && f.buffered.jobs.len() < 2 ==> g.published == f.published
                && g.buffered.jobs.drop_last() == f.buffered.jobs && g.buffered.jobs.last().data
                == job.data
            &&& own && f.buffered.jobs.len() >= 2 ==> g.published.drop_last() == f.published
                && g.published.last().jobs.drop_last() == f.buffered.jobs
                && g.published.last().jobs.last().data == job.data && g.buffered.jobs.len() == 0
            &&& mode == FanOutMode::Mailbox && a.ctxs[t].mailbox.len() < 16
                ==> b.ctxs[t].mailbox == a.ctxs[t].mailbox.push(job) && b.ctxs[me] == a.ctxs[me]
                && (other != t ==> b.ctxs[other] == a.ctxs[other]) && b.mailbox_ever_used
        }),
{
    let n = a.total();
    let x = (me + 1 + i) % n;
    vstd::arithmetic::div_mod::lemma_mod_bound(me + 1 + i, n);
    if x == me {
        if me + 1 < n {
            vstd::arithmetic::div_mod::lemma_small_mod((me + 1) as nat, n as nat);
        } else {
            vstd::arithmetic::div_mod::lemma_mod_self_0(n);
        }
    }
}

/// The jobs of a fan-out are placed one after the other: placing some and then
/// the rest is placing all, and placing none changes nothing.
pub proof fn law_fan_out_goes_job_by_job(
    a: Arena,
    me: int,
    jobs: Seq<JobRef>,
    from: int,
    mid: int,
    to: int,
    mode: FanOutMode,
)
    requires
        from <= mid <= to,
    ensures
        placed(a, me, jobs, from, from, mode) == a,
        placed(a, me, jobs, from, from + 1, mode) == placed_one(a, me, from, jobs[from], mode),
        placed(placed(a, me, jobs, from, mid, mode), me, jobs, mid, to, mode) == placed(
            a,
            me,
            jobs,
            from,
            to,
            mode,
        ),
    decreases to - mid,
{
    assert(placed(a, me, jobs, from, from, mode) == a);
    if mid < to {
        law_fan_out_goes_job_by_job(a, me, jobs, from, mid, to - 1, mode);
    }
}

} // verus!
