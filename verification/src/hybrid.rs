//! Dispatch over the processor and a backend.
//!
//! Two closures can run side by side, one on each; of two equal
//! implementations the one that a call site has measured to be faster can be
//! chosen; a divisible batch can be split in the measured proportion; and
//! items can flow through a processor stage, a backend stage and another
//! processor stage with short queues in between.

use crate::backend::{Backend, BackendRegistry};
use crate::call_site::{
    ewma_if, placement_choice, size_bucket, split_recorded, split_share, bump32, CallSiteState,
    Placement, Site,
};
use crate::flynnel_ring::{FlynnelRing, PopResult, PushResult};
use crate::math::{clamp_int, rounded_slot_count};
use crate::plan::JobPlan;
use vstd::prelude::*;

verus! {

/// The backend that a plan runs on: the hinted one where it is registered,
/// else the processor.
pub fn pick_backend(plan: &JobPlan, registry: &BackendRegistry) -> (res: Backend)
    ensures
        res == match plan.backend_hint {
            Some(b) => if registry.has(b) {
                b
            } else {
                Backend::Cpu
            },
            None => Backend::Cpu,
        },
{
    match plan.backend_hint {
        Some(b) => if registry.is_registered(b) {
            b
        } else {
            Backend::Cpu
        },
        None => Backend::Cpu,
    }
}

/// Runs both halves and gives the processor's result, then the backend's.
/// Without a backend both run on the calling thread.
pub fn join_hybrid<RA, RB, A, B>(_plan: &JobPlan, cpu_work: A, gpu_work: B) -> (res: (RA, RB)) where
    A: FnOnce() -> RA,
    B: FnOnce() -> RB + Send,
    RB: Send,

    requires
        call_requires(cpu_work, ()),
        call_requires(gpu_work, ()),
    ensures
        call_ensures(cpu_work, (), res.0),
        call_ensures(gpu_work, (), res.1),
{
    let gpu = gpu_work();
    let cpu = cpu_work();
    (cpu, gpu)
}

/// A site after a dispatch was placed and the sides that ran were timed.
pub open spec fn placed_and_timed(s: Site, batch: u32, cpu_ns: Option<u64>, backend_ns: Option<u64>) -> Site {
    let b = size_bucket(batch as int);
    Site {
        place_calls: s.place_calls.update(b, bump32(s.place_calls[b])),
        cpu_ns: s.cpu_ns.update(b, ewma_if(s.cpu_ns[b], cpu_ns)),
        backend_ns: s.backend_ns.update(b, ewma_if(s.backend_ns[b], backend_ns)),
        ..s
    }
}

/// The closure for the processor ran and gave `r` in `ns`.
pub open spec fn ran<R, F: FnOnce() -> (R, u64)>(f: F, r: R, ns: u64) -> bool {
    call_ensures(f, (), (r, ns))
}

/// Outcome of a learned placement: on one side, with that side timed, or on
/// both, with both timed and the processor's result kept.
pub open spec fn auto_outcome<R, C: FnOnce() -> (R, u64), G: FnOnce() -> (R, u64)>(
    s: Site,
    batch: u32,
    cpu_impl: C,
    gpu_impl: G,
    r: R,
    placement: Placement,
    after: Site,
) -> bool {
    &&& placement == placement_choice(s, batch)
    &&& placement is Cpu ==> exists|ns: u64|
        #[trigger] ran(cpu_impl, r, ns) && after == placed_and_timed(s, batch, Some(ns), None)
    &&& placement is Backend ==> exists|ns: u64|
        #[trigger] ran(gpu_impl, r, ns) && after == placed_and_timed(s, batch, None, Some(ns))
    &&& placement is Race ==> exists|cpu_ns: u64, other: R, gpu_ns: u64|
        #[trigger] ran(cpu_impl, r, cpu_ns) && #[trigger] ran(gpu_impl, other, gpu_ns) && after
            == placed_and_timed(s, batch, Some(cpu_ns), Some(gpu_ns))
}

/// Runs one of two implementations of the same computation, as the call site
/// has measured them, or both to measure them. Each closure gives its result
/// and the nanoseconds that it took.
pub fn hybrid_auto<R, C, G>(site: &mut CallSiteState, plan: &JobPlan, cpu_impl: C, gpu_impl: G) -> (res: (
    R,
    Placement,
)) where C: FnOnce() -> (R, u64), G: FnOnce() -> (R, u64) + Send, R: Send
    requires
        call_requires(cpu_impl, ()),
        call_requires(gpu_impl, ()),
    ensures
        auto_outcome(
            old(site)@,
            plan.batch_size,
            cpu_impl,
            gpu_impl,
            res.0,
            res.1,
            final(site)@,
        ),
{
    let batch: u32 = plan.batch_size;
    let ghost start = site@;
    match site.choose_placement(batch) {
        Placement::Cpu => {
            let (r, ns) = cpu_impl();
            site.record_placement(batch, Some(ns), None);
            proof {
                assert(ran(cpu_impl, r, ns));
                assert(site@ =~= placed_and_timed(start, batch, Some(ns), None));
                assert(auto_outcome(start, batch, cpu_impl, gpu_impl, r, Placement::Cpu, site@));
            }
            (r, Placement::Cpu)
        },
        Placement::Backend => {
            let (r, ns) = gpu_impl();
            site.record_placement(batch, None, Some(ns));
            proof {
                assert(ran(gpu_impl, r, ns));
                assert(site@ =~= placed_and_timed(start, batch, None, Some(ns)));
                assert(auto_outcome(start, batch, cpu_impl, gpu_impl, r, Placement::Backend, site@));
            }
            (r, Placement::Backend)
        },
        Placement::Race => {
            let ((cpu_r, cpu_ns), (other, gpu_ns)) = join_hybrid(plan, cpu_impl, gpu_impl);
            site.record_placement(batch, Some(cpu_ns), Some(gpu_ns));
            proof {
                assert(ran(cpu_impl, cpu_r, cpu_ns));
                assert(ran(gpu_impl, other, gpu_ns));
                assert(site@ =~= placed_and_timed(start, batch, Some(cpu_ns), Some(gpu_ns)));
                assert(auto_outcome(start, batch, cpu_impl, gpu_impl, cpu_r, Placement::Race, site@));
            }
            (cpu_r, Placement::Race)
        },
    }
}

/// What a split dispatch measured.
#[derive(Debug, Clone, Copy, PartialEq, Eq, Structural)]
pub struct SplitReport {
    /// Items on the processor.
    pub cpu_items: usize,
    /// Items on the backend.
    pub backend_items: usize,
    /// The processor's nanoseconds.
    pub cpu_ns: u64,
    /// The backend's nanoseconds.
    pub backend_ns: u64,
    /// The processor's share in thousandths.
    pub cpu_share_per_mille: u32,
}

/// Items that go to the processor: its share, but at least one item for each
/// side where there are two.
pub open spec fn split_point(n: int, share: int) -> int {
    if n > 1 {
        clamp_int(n * share / 1000, 1, n - 1)
    } else {
        clamp_int(n * share / 1000, 0, n)
    }
}

/// Items that go to the processor.
pub fn split_at_share(n: usize, share: u32) -> (res: usize)
    ensures
        res == split_point(n as int, share as int),
        res <= n,
        n > 1 ==> 1 <= res < n,
{
    proof {
        assert(0 <= n * share <= u64::MAX * u32::MAX) by (nonlinear_arith)
            requires
                0 <= n <= u64::MAX,
                0 <= share <= u32::MAX,
        ;
    }
    let wide: u128 = (n as u128) * (share as u128) / 1000;
    let margin: usize = if n > 1 { 1 } else { 0 };
    let top: usize = n - margin;
    if wide < margin as u128 {
        margin
    } else if wide > top as u128 {
        top
    } else {
        wide as usize
    }
}

/// The processor gets its share of the items, rounded down, except that with
/// two or more items neither side is left without one; a single item goes to
/// the processor only where the whole of it is the processor's share.
pub proof fn law_split_point_follows_the_share(n: int, share: int)
    requires
        0 <= n,
        0 <= share <= 1000,
    ensures
        ({
            let m = split_point(n, share);
            &&& 0 <= m <= n
            &&& n >= 2 ==> 1 <= m <= n - 1
            &&& 1 < m < n - 1 ==> 1000 * m <= n * share < 1000 * (m + 1)
            &&& m == 1 && n > 2 ==> n * share < 2000
            &&& m == n - 1 && n > 2 ==> n * share >= 1000 * (n - 1)
            &&& n == 1 ==> (m == 1 <==> share == 1000)
        }),
{
    let x = n * share;
    assert(0 <= x <= 1000 * n) by (nonlinear_arith)
        requires
            x == n * share,
            0 <= n,
            0 <= share <= 1000,
    ;
    if n == 1 {
        assert(x == share);
    }
}

/// A closure turned a part of the items into another part in `ns`. An empty
/// part is left alone.
pub open spec fn turned<T, F: FnOnce(Vec<T>) -> (Vec<T>, u64)>(
    f: F,
    part: Seq<T>,
    out: Seq<T>,
    ns: u64,
) -> bool {
    if part.len() == 0 {
        out.len() == 0 && ns == 0
    } else {
        exists|v: Vec<T>, w: Vec<T>|
            v@ == part && w@ == out && #[trigger] call_ensures(f, (v,), (w, ns))
    }
}

/// A closure may be called on a part of the items, and keeps their number.
pub open spec fn may_turn<T, F: FnOnce(Vec<T>) -> (Vec<T>, u64)>(f: F, part: Seq<T>) -> bool {
    &&& forall|v: Vec<T>| v@ == part ==> #[trigger] call_requires(f, (v,))
    &&& forall|v: Vec<T>, w: Vec<T>, ns: u64|
        v@ == part && #[trigger] call_ensures(f, (v,), (w, ns)) ==> w@.len() == part.len()
}

/// Splits a batch between the processor and the backend in the proportion
/// that the call site has measured, and records what each side took.
pub fn hybrid_auto_split<T, CF, GF>(
    site: &mut CallSiteState,
    items: Vec<T>,
    cpu_fn: CF,
    gpu_fn: GF,
) -> (res: (Vec<T>, SplitReport)) where
    CF: FnOnce(Vec<T>) -> (Vec<T>, u64),
    GF: FnOnce(Vec<T>) -> (Vec<T>, u64) + Send,
    T: Send,

    requires
        ({
            let mid = split_point(items@.len() as int, split_share(old(site)@));
            &&& may_turn(cpu_fn, items@.subrange(0, mid))
            &&& may_turn(gpu_fn, items@.subrange(mid, items@.len() as int))
        }),
    ensures
        ({
            let n = items@.len() as int;
            let mid = split_point(n, split_share(old(site)@));
            let r = res.1;
            &&& res.0@.len() == n
            &&& r.cpu_items == mid
            &&& r.backend_items == n - mid
            &&& r.cpu_share_per_mille == split_share(old(site)@)
            &&& exists|head: Seq<T>, tail: Seq<T>|
                res.0@ == #[trigger] (head + tail) && turned(
                    cpu_fn,
                    items@.subrange(0, mid),
                    head,
                    r.cpu_ns,
                ) && turned(gpu_fn, items@.subrange(mid, n), tail, r.backend_ns)
            &&& final(site)@ == split_recorded(old(site)@, mid, r.cpu_ns, n - mid, r.backend_ns)
        }),
{
    let ghost all = items@;
    let n: usize = items.len();
    let share: u32 = site.split_cpu_share_per_mille();
    let mid: usize = split_at_share(n, share);
    let mut cpu_part = items;
    let backend_part = cpu_part.split_off(mid);
    proof {
        assert(cpu_part@ =~= all.subrange(0, mid as int));
        assert(backend_part@ =~= all.subrange(mid as int, n as int));
    }
    let cpu_items: usize = cpu_part.len();
    let backend_items: usize = backend_part.len();
    let ghost cpu_in = cpu_part;
    let ghost gpu_in = backend_part;
    let (mut tail, backend_ns): (Vec<T>, u64) = if backend_items > 0 {
        gpu_fn(backend_part)
    } else {
        (Vec::new(), 0)
    };
    let (mut head, cpu_ns): (Vec<T>, u64) = if cpu_items > 0 {
        cpu_fn(cpu_part)
    } else {
        (Vec::new(), 0)
    };
    proof {
        if backend_items > 0 {
            assert(call_ensures(gpu_fn, (gpu_in,), (tail, backend_ns)));
        }
        if cpu_items > 0 {
            assert(call_ensures(cpu_fn, (cpu_in,), (head, cpu_ns)));
        }
        assert(turned(cpu_fn, all.subrange(0, mid as int), head@, cpu_ns));
        assert(turned(gpu_fn, all.subrange(mid as int, n as int), tail@, backend_ns));
    }
    let ghost head_view = head@;
    let ghost tail_view = tail@;
    site.record_split(cpu_items, cpu_ns, backend_items, backend_ns);
    head.append(&mut tail);
    proof {
        assert(head@ =~= head_view + tail_view);
    }
    (
        head,
        SplitReport { cpu_items, backend_items, cpu_ns, backend_ns, cpu_share_per_mille: share },
    )
}

/// Capacity of the queues between the stages of a pipeline.
pub const PIPELINE_DEPTH: usize = 2;

/// What a pipeline does next.
#[derive(Debug, Clone, Copy, PartialEq, Eq, Structural)]
pub enum Stage {
    /// First stage on the next input.
    Pre,
    /// Backend stage on the oldest item of the first queue.
    Backend,
    /// Last stage on the oldest item of the second queue.
    Post,
    /// Collect the oldest result.
    Collect,
    /// Everything has been collected.
    Done,
}

/// The next step of a pipeline: the earliest stage that has an item and room
/// to put its result.
pub open spec fn stage_choice(inputs: int, first: int, second: int, third: int) -> Stage {
    if inputs > 0 && first < PIPELINE_DEPTH {
        Stage::Pre
    } else if first > 0 && second < PIPELINE_DEPTH {
        Stage::Backend
    } else if second > 0 && third < PIPELINE_DEPTH {
        Stage::Post
    } else if third > 0 {
        Stage::Collect
    } else {
        Stage::Done
    }
}

/// The next step of a pipeline with so many items waiting at each place.
pub fn next_stage(inputs: usize, first: usize, second: usize, third: usize) -> (res: Stage)
    ensures
        res == stage_choice(inputs as int, first as int, second as int, third as int),
{
    if inputs > 0 && first < PIPELINE_DEPTH {
        Stage::Pre
    } else if first > 0 && second < PIPELINE_DEPTH {
        Stage::Backend
    } else if second > 0 && third < PIPELINE_DEPTH {
        Stage::Post
    } else if third > 0 {
        Stage::Collect
    } else {
        Stage::Done
    }
}

/// A pipeline stops only when nothing is left anywhere in it.
pub proof fn law_pipeline_drains(inputs: int, first: int, second: int, third: int)
    requires
        0 <= inputs,
        0 <= first <= PIPELINE_DEPTH,
        0 <= second <= PIPELINE_DEPTH,
        0 <= third <= PIPELINE_DEPTH,
    ensures
        stage_choice(inputs, first, second, third) is Done <==> inputs == 0 && first == 0 && second
            == 0 && third == 0,
{
}

/// `b` is what the backend stage makes of input `x`.
pub open spec fn through_two<I, A, B, F1: Fn(I) -> A, F2: Fn(A) -> B>(f: F1, g: F2, x: I, b: B) -> bool {
    exists|a: A| call_ensures(f, (x,), a) && #[trigger] call_ensures(g, (a,), b)
}

/// `r` is what all three stages make of input `x`.
pub open spec fn through_three<I, A, B, R, F1: Fn(I) -> A, F2: Fn(A) -> B, F3: Fn(B) -> R>(
    f: F1,
    g: F2,
    h: F3,
    x: I,
    r: R,
) -> bool {
    exists|b: B| through_two(f, g, x, b) && #[trigger] call_ensures(h, (b,), r)
}

/// The stages may be called on whatever reaches them.
pub open spec fn stages_fit<I, A, B, R, F1: Fn(I) -> A, F2: Fn(A) -> B, F3: Fn(B) -> R>(
    inputs: Seq<I>,
    f: F1,
    g: F2,
    h: F3,
) -> bool {
    &&& forall|i: int| 0 <= i < inputs.len() ==> call_requires(f, (#[trigger] inputs[i],))
    &&& forall|i: int, a: A|
        0 <= i < inputs.len() && #[trigger] call_ensures(f, (inputs[i],), a) ==> call_requires(
            g,
            (a,),
        )
    &&& forall|i: int, b: B|
        0 <= i < inputs.len() && #[trigger] through_two(f, g, inputs[i], b) ==> call_requires(
            h,
            (b,),
        )
}

/// Runs every input through three stages with queues of two items in between.
/// The results come in the order of the inputs.
pub fn hybrid_pipeline<I, F1, F2, F3, A, B, R>(
    _plan: &JobPlan,
    inputs: Vec<I>,
    pre_cpu: F1,
    gpu: F2,
    post_cpu: F3,
) -> (res: Vec<R>) where
    F1: Fn(I) -> A,
    F2: Fn(A) -> B,
    F3: Fn(B) -> R,

    requires
        stages_fit(inputs@, pre_cpu, gpu, post_cpu),
    ensures
        res@.len() == inputs@.len(),
        forall|i: int|
            0 <= i < inputs@.len() ==> through_three(
                pre_cpu,
                gpu,
                post_cpu,
                #[trigger] inputs@[i],
                res@[i],
            ),
{
    let ghost all = inputs@;
    let mut left = inputs;
    let mut ab: FlynnelRing<A> = FlynnelRing::new(PIPELINE_DEPTH);
    let mut bc: FlynnelRing<B> = FlynnelRing::new(PIPELINE_DEPTH);
    let mut out: FlynnelRing<R> = FlynnelRing::new(PIPELINE_DEPTH);
    let mut results: Vec<R> = Vec::new();
    proof {
        lemma_depth_is_two(ab.slot_count());
        lemma_depth_is_two(bc.slot_count());
        lemma_depth_is_two(out.slot_count());
        assert(all.subrange(0, all.len() as int) =~= all);
    }
    loop
        invariant_except_break
            ab.wf(),
            bc.wf(),
            out.wf(),
            ab.slot_count() == 2,
            bc.slot_count() == 2,
            out.slot_count() == 2,
            ab@.len() <= 2,
            bc@.len() <= 2,
            out@.len() <= 2,
            stages_fit(all, pre_cpu, gpu, post_cpu),
            results@.len() + out@.len() + bc@.len() + ab@.len() + left@.len() == all.len(),
            left@ == all.subrange(all.len() - left@.len(), all.len() as int),
            forall|i: int|
                0 <= i < results@.len() ==> through_three(
                    pre_cpu,
                    gpu,
                    post_cpu,
                    #[trigger] all[i],
                    results@[i],
                ),
            forall|i: int|
                0 <= i < out@.len() ==> through_three(
                    pre_cpu,
                    gpu,
                    post_cpu,
                    all[results@.len() + i],
                    #[trigger] out@[i],
                ),
            forall|i: int|
                0 <= i < bc@.len() ==> through_two(
                    pre_cpu,
                    gpu,
                    all[results@.len() + out@.len() + i],
                    #[trigger] bc@[i],
                ),
            forall|i: int|
                0 <= i < ab@.len() ==> call_ensures(
                    pre_cpu,
                    (all[results@.len() + out@.len() + bc@.len() + i],),
                    #[trigger] ab@[i],
                ),
        ensures
            results@.len() == all.len(),
            forall|i: int|
                0 <= i < results@.len() ==> through_three(
                    pre_cpu,
                    gpu,
                    post_cpu,
                    #[trigger] all[i],
                    results@[i],
                ),
        decreases 4 * left@.len() + 3 * ab@.len() + 2 * bc@.len() + out@.len(),
    {
        let stage = next_stage(left.len(), ab.len(), bc.len(), out.len());
        let ghost r = results@.len() as int;
        let ghost o = out@.len() as int;
        let ghost b = bc@.len() as int;
        let ghost a = ab@.len() as int;
        match stage {
            Stage::Pre => {
                let ghost k = all.len() - left@.len();
                proof {
                    assert(left@[0] == all[k]);
                    assert(k == r + o + b + a);
                }
                let x = left.remove(0);
                let y = pre_cpu(x);
                let ghost before = ab@;
                match ab.push(y) {
                    PushResult::Pushed => {},
                    PushResult::Full(_) => {},
                }
                proof {
                    assert(left@ =~= all.subrange(all.len() - left@.len(), all.len() as int));
                    assert forall|i: int| 0 <= i < ab@.len() implies call_ensures(
                        pre_cpu,
                        (all[r + o + b + i],),
                        #[trigger] ab@[i],
                    ) by {
                        if i < a {
                            assert(ab@[i] == before[i]);
                        }
                    }
                }
            },
            Stage::Backend => {
                let ghost before = ab@;
                match ab.pop() {
                    PopResult::Popped(x) => {
                        proof {
                            assert(before[0] == x);
                            assert(call_ensures(pre_cpu, (all[r + o + b + 0],), before[0]));
                        }
                        let y = gpu(x);
                        let ghost old_bc = bc@;
                        match bc.push(y) {
                            PushResult::Pushed => {},
                            PushResult::Full(_) => {},
                        }
                        proof {
                            assert(through_two(pre_cpu, gpu, all[r + o + b], y));
                            assert forall|i: int| 0 <= i < bc@.len() implies through_two(
                                pre_cpu,
                                gpu,
                                all[r + o + i],
                                #[trigger] bc@[i],
                            ) by {
                                if i < b {
                                    assert(bc@[i] == old_bc[i]);
                                }
                            }
                            assert forall|i: int| 0 <= i < ab@.len() implies call_ensures(
                                pre_cpu,
                                (all[r + o + (b + 1) + i],),
                                #[trigger] ab@[i],
                            ) by {
                                assert(ab@[i] == before[i + 1]);
                            }
                        }
                    },
                    PopResult::Empty => {},
                }
            },
            Stage::Post => {
                let ghost before = bc@;
                match bc.pop() {
                    PopResult::Popped(x) => {
                        proof {
                            assert(before[0] == x);
                            assert(through_two(pre_cpu, gpu, all[r + o + 0], before[0]));
                        }
                        let y = post_cpu(x);
                        let ghost old_out = out@;
                        match out.push(y) {
                            PushResult::Pushed => {},
                            PushResult::Full(_) => {},
                        }
                        proof {
                            assert(through_three(pre_cpu, gpu, post_cpu, all[r + o], y));
                            assert forall|i: int| 0 <= i < out@.len() implies through_three(
                                pre_cpu,
                                gpu,
                                post_cpu,
                                all[r + i],
                                #[trigger] out@[i],
                            ) by {
                                if i < o {
                                    assert(out@[i] == old_out[i]);
                                }
                            }
                            assert forall|i: int| 0 <= i < bc@.len() implies through_two(
                                pre_cpu,
                                gpu,
                                all[r + (o + 1) + i],
                                #[trigger] bc@[i],
                            ) by {
                                assert(bc@[i] == before[i + 1]);
                            }
                        }
                    },
                    PopResult::Empty => {},
                }
            },
            Stage::Collect => {
                let ghost before = out@;
                match out.pop() {
                    PopResult::Popped(x) => {
                        proof {
                            assert(before[0] == x);
                            assert(through_three(
                                pre_cpu,
                                gpu,
                                post_cpu,
                                all[r + 0],
                                before[0],
                            ));
                        }
                        results.push(x);
                        proof {
                            assert forall|i: int| 0 <= i < out@.len() implies through_three(
                                pre_cpu,
                                gpu,
                                post_cpu,
                                all[(r + 1) + i],
                                #[trigger] out@[i],
                            ) by {
                                assert(out@[i] == before[i + 1]);
                            }
                        }
                    },
                    PopResult::Empty => {},
                }
            },
            Stage::Done => {
                proof {
                    law_pipeline_drains(
                        left@.len() as int,
                        ab@.len() as int,
                        bc@.len() as int,
                        out@.len() as int,
                    );
                }
                break;
            },
        }
    }
    results
}

proof fn lemma_depth_is_two(c: int)
    requires
        rounded_slot_count(2, c),
    ensures
        c == 2,
{
    vstd::arithmetic::power2::lemma2_to64();
    assert(crate::math::is_slot_count(2)) by {
        assert(2 == vstd::arithmetic::power2::pow2(1));
    }
    crate::math::rounded_slot_count_unique(2, c, 2);
}

/// A step of a pipeline never overfills a queue and never takes from an empty
/// one, an earlier stage goes first wherever it can, and a pipeline is done
/// exactly when nothing is left in it.
pub proof fn law_stages_respect_their_queues(inputs: int, first: int, second: int, third: int)
    ensures
        stage_choice(inputs, first, second, third) is Pre <==> inputs > 0 && first < 2,
        stage_choice(inputs, first, second, third) is Backend ==> first > 0 && second < 2,
        stage_choice(inputs, first, second, third) is Post ==> second > 0 && third < 2,
        stage_choice(inputs, first, second, third) is Collect ==> third > 0,
        first > 0 && second < 2 && !(inputs > 0 && first < 2) ==> stage_choice(
            inputs,
            first,
            second,
            third,
        ) is Backend,
        second > 0 && third < 2 && !(inputs > 0 && first < 2) && !(first > 0 && second < 2)
            ==> stage_choice(inputs, first, second, third) is Post,
        third >= 2 && !(inputs > 0 && first < 2) && !(first > 0 && second < 2) ==> stage_choice(
            inputs,
            first,
            second,
            third,
        ) is Collect,
        inputs >= 0 && first >= 0 && second >= 0 && third >= 0 ==> (stage_choice(
            inputs,
            first,
            second,
            third,
        ) is Done <==> inputs == 0 && first == 0 && second == 0 && third == 0),
{
}

/// A placement is learned from: the call is counted, a side that ran has its
/// average for that size moved an eighth of the way to its time, a side that
/// did not run keeps it, and other sizes keep theirs.
pub proof fn law_placement_is_learned(
    s: Site,
    batch: u32,
    cpu_ns: Option<u64>,
    backend_ns: Option<u64>,
    other: int,
)
    requires
        s.cpu_ns.len() == s.backend_ns.len(),
        s.cpu_ns.len() == s.place_calls.len(),
        0 <= size_bucket(batch as int) < s.cpu_ns.len(),
        0 <= other < s.cpu_ns.len(),
        other != size_bucket(batch as int),
    ensures
        ({
            let b = size_bucket(batch as int);
            let after = placed_and_timed(s, batch, cpu_ns, backend_ns);
            &&& cpu_ns is None ==> after.cpu_ns == s.cpu_ns
            &&& backend_ns is None ==> after.backend_ns == s.backend_ns
            &&& cpu_ns is Some && s.cpu_ns[b] == 0 && cpu_ns->Some_0 > 0 ==> after.cpu_ns[b]
                == cpu_ns->Some_0
            &&& backend_ns is Some && s.backend_ns[b] == 0 && backend_ns->Some_0 > 0
                ==> after.backend_ns[b] == backend_ns->Some_0
            &&& cpu_ns is Some && s.cpu_ns[b] > 0 ==> 7 * s.cpu_ns[b] + cpu_ns->Some_0 - 7 <= 8
                * after.cpu_ns[b] <= 7 * s.cpu_ns[b] + cpu_ns->Some_0 + 7
            &&& backend_ns is Some && s.backend_ns[b] > 0 ==> 7 * s.backend_ns[b]
                + backend_ns->Some_0 - 7 <= 8 * after.backend_ns[b] <= 7 * s.backend_ns[b]
                + backend_ns->Some_0 + 7
            &&& s.place_calls[b] < u32::MAX ==> after.place_calls[b] == s.place_calls[b] + 1
            &&& after.cpu_ns[other] == s.cpu_ns[other] && after.backend_ns[other]
                == s.backend_ns[other] && after.place_calls[other] == s.place_calls[other]
        }),
{
    let b = size_bucket(batch as int);
    if let Some(ns) = cpu_ns {
        crate::call_site::law_average_moves_an_eighth(s.cpu_ns[b], ns);
    } else {
        assert(s.cpu_ns.update(b, s.cpu_ns[b]) =~= s.cpu_ns);
    }
    if let Some(ns) = backend_ns {
        crate::call_site::law_average_moves_an_eighth(s.backend_ns[b], ns);
    } else {
        assert(s.backend_ns.update(b, s.backend_ns[b]) =~= s.backend_ns);
    }
}

/// A part of a batch that is turned keeps its number of items. Items there are
/// went through the closure, all in one call; without items there is no time.
pub proof fn law_parts_go_through_their_closure<T, F: FnOnce(Vec<T>) -> (Vec<T>, u64)>(
    f: F,
    part: Seq<T>,
    out: Seq<T>,
    ns: u64,
)
    requires
        may_turn(f, part),
        turned(f, part, out, ns),
    ensures
        out.len() == part.len(),
        part.len() == 0 ==> ns == 0,
        part.len() > 0 ==> exists|v: Vec<T>, w: Vec<T>|
            v@ == part && w@ == out && #[trigger] call_ensures(f, (v,), (w, ns)),
{
}

} // verus!
