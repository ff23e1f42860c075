use flynnel::adaptive_worker::AdaptiveStash;
use flynnel::arena::{
    dispatch_trace_snapshot, dispatch_trace_wait_snapshot, external_dispatch, external_finish,
    inline_join_context, join, join_context, join_default, join_route, join_wait_step,
    push_with_tier_hint, slot_wait_step, DispatchTrace, HandedOver, JoinRoute, JoinStep, SlotAction,
    SlotWait,
};
use flynnel::arena_local::{
    pick_victim, smt_gate_step, DispatchScope, GateAction, LocalArena, SleepState, SmtGate,
    WorkerAction, EXTERNAL_SLOT_COUNT,
};
use flynnel::arena_numa::{cpus_in_node, HostTopology, NumaArena};
use flynnel::deque_tier::DequeTier;
use flynnel::foundation::Variant;
use flynnel::job::{JobRef, NUMA_HINT_ANY};
use flynnel::k_gating::KGating;
use flynnel::plan::{HwClass, JobPlan};
use flynnel::settings::{is_off, is_on, pick_worker_count_per_node, pin_disabled};
use std::sync::atomic::{AtomicU32, Ordering};
use std::sync::Arc;

#[test]
fn inline_join_returns_both_results() {
    let plan = JobPlan::new(2, 1);
    let (ra, rb) = join(&plan, || 10u32, || 20u32);
    assert_eq!(ra, 10);
    assert_eq!(rb, 20);
}

#[test]
fn inline_join_runs_a_before_b_when_serial() {
    let order = Arc::new(AtomicU32::new(0));
    let order_a = Arc::clone(&order);
    let order_b = Arc::clone(&order);
    let plan = JobPlan::new(2, 1);
    let (ra, rb) = join(
        &plan,
        move || order_a.fetch_add(10, Ordering::SeqCst),
        move || order_b.fetch_add(20, Ordering::SeqCst),
    );
    assert_eq!(ra, 0);
    assert_eq!(rb, 10);
    assert_eq!(order.load(Ordering::SeqCst), 30);
}

#[test]
fn join_default_builds_plan_and_runs() {
    let (ra, rb) = join_default(8, 1024, || 1u32, || 2u32);
    assert_eq!((ra, rb), (1, 2));
}

#[test]
fn join_with_each_tier_band_dispatches_correctly() {
    for k in [2u8, 6, 9, 13] {
        let plan = JobPlan::new(k, 1024)
            .with_hw_class(HwClass::Scalar)
            .with_variant(Variant::Faithful);
        let (ra, rb) = join(&plan, || k as u32, || (k as u32) << 1);
        assert_eq!(ra, k as u32);
        assert_eq!(rb, (k as u32) << 1);
    }
}

#[test]
fn join_with_numa_hint_does_not_crash_single_node_host() {
    let plan = JobPlan::new(6, 1024).with_numa_hint(0);
    let (ra, rb) = join(&plan, || 1u32, || 2u32);
    assert_eq!((ra, rb), (1, 2));
}

#[test]
fn closures_learn_that_nobody_stole_them() {
    assert_eq!(inline_join_context(|s| s, |s| !s), (false, true));
    let small = JobPlan::new(4, 16);
    assert_eq!(join_context(&small, |s| s, |s| s), (false, false));
}

#[test]
fn a_join_from_outside_is_injected() {
    let plan = JobPlan::new(5, 16);
    assert_eq!(join_context(&plan, |injected| injected, |stolen| stolen), (true, false));
}

#[test]
fn low_tiers_stay_inline() {
    assert_eq!(join_route(&JobPlan::new(2, 1)), JoinRoute::Inline);
    assert_eq!(join_route(&JobPlan::new(8, 1024)), JoinRoute::Pool);
}

fn job(data: usize) -> JobRef {
    JobRef::new(data, 1, 2, NUMA_HINT_ANY, 0)
}

/// Steps every worker in turn until none finds anything; gives what ran.
fn drain(arena: &mut LocalArena) -> Vec<usize> {
    let n = arena.worker_count();
    let mut ran = vec![];
    let mut quiet = 0;
    while quiet < 200 {
        let mut any = false;
        for me in 0..n {
            if let WorkerAction::Run { job, .. } = arena.worker_loop_step(me, false) {
                ran.push(job.data);
                any = true;
            }
        }
        quiet = if any { 0 } else { quiet + 1 };
    }
    ran.sort();
    ran
}

#[test]
fn external_slots_preallocated_and_indexed() {
    let mut arena = LocalArena::with_smt_extension(2, 0, None, 8);
    for i in 0..EXTERNAL_SLOT_COUNT {
        assert!(!arena.is_claimed(i), "slot {i} unclaimed at init");
    }
    assert_eq!(arena.total_positions(), arena.worker_count() + EXTERNAL_SLOT_COUNT);
    for i in 0..EXTERNAL_SLOT_COUNT {
        assert!(arena.is_external(2 + i));
        assert_eq!(
            arena.try_claim_external_slot(),
            Some(2 + i),
            "slot {i} indexed at workers.len() + i"
        );
    }
    assert_eq!(arena.try_claim_external_slot(), None);
}

#[test]
fn external_slot_claim_release_lifecycle() {
    let mut arena = LocalArena::with_smt_extension(1, 0, None, 8);
    let slot_idx = arena.try_claim_external_slot().expect("first claim must succeed");
    assert_eq!(slot_idx, 1, "first claim takes slot 0 at index n=1");
    assert!(arena.is_claimed(0), "slot 0 marked claimed");
    arena.release_external_slot(slot_idx);
    assert!(!arena.is_claimed(0), "slot 0 released on guard drop");
}

#[test]
fn new_arena_spawns_workers() {
    let a = LocalArena::new(4, true, 8);
    assert_eq!(a.worker_count(), 4);
}

#[test]
fn new_arena_with_zero_workers_clamps_to_one() {
    let a = LocalArena::new(0, false, 8);
    assert_eq!(a.worker_count(), 1);
}

#[test]
fn pinned_workers_get_the_cores_of_the_host() {
    let ids: Vec<usize> = core_affinity::get_core_ids()
        .unwrap_or_default()
        .into_iter()
        .map(|c| c.id)
        .collect();
    let pinned = LocalArena::new(2, true, 8);
    if ids.is_empty() {
        assert_eq!(pinned.assigned_core(0), None);
    } else {
        assert_eq!(pinned.assigned_core(0), Some(ids[0]));
        assert_eq!(pinned.assigned_core(1), Some(ids[1 % ids.len()]));
    }
    let free = LocalArena::new(2, false, 8);
    assert_eq!(free.assigned_core(0), None);
}

#[test]
fn submit_one_job_runs_to_completion() {
    let mut arena = LocalArena::new(2, false, 8);
    arena.submit(job(1));
    assert_eq!(arena.injector_len(), 1);
    assert_eq!(drain(&mut arena), vec![1]);
    assert_eq!(arena.injector_len(), 0);
}

#[test]
fn submit_many_jobs_all_run_exactly_once() {
    const N: usize = 256;
    let mut arena = LocalArena::new(4, false, 8);
    for i in 0..N {
        arena.submit(job(i));
    }
    assert_eq!(drain(&mut arena), (0..N).collect::<Vec<_>>());
}

#[test]
fn pick_victim_never_returns_self() {
    let mut state: u64 = 0x1234_5678_9ABC_DEF0;
    for _ in 0..1000 {
        let v = pick_victim(&mut state, 3, 8);
        assert_ne!(v, 3, "victim must not be self");
        assert!(v < 8, "victim must be in range");
    }
}

#[test]
fn pick_victim_distributes_across_n_minus_one_peers() {
    let mut state: u64 = 0x9E37_79B9_7F4A_7C15;
    let mut hits = [0u32; 8];
    let self_idx = 0;
    for _ in 0..1000 {
        let v = pick_victim(&mut state, self_idx, 8);
        hits[v] += 1;
    }
    assert_eq!(hits[self_idx], 0, "self never picked");
    for (i, &h) in hits.iter().enumerate() {
        if i != self_idx {
            assert!(h > 50, "peer {i} got only {h} hits / 1000");
        }
    }
}

#[test]
fn mailbox_push_from_worker_routes_to_target_worker() {
    const N: usize = 8;
    let mut arena = LocalArena::new(2, false, 8);
    for i in 0..N {
        assert!(arena.push_to_mailbox(1, job(i), true).is_ok());
    }
    // The target serves its mailbox in the order of arrival.
    for i in 0..N {
        match arena.worker_loop_step(1, false) {
            WorkerAction::Run { job, .. } => assert_eq!(job.data, i),
            other => panic!("expected Run, got {other:?}"),
        }
    }
    assert!(arena.mailbox_is_empty(1));
}

#[test]
fn push_tier_smt_local_is_drained_by_owner_or_sibling() {
    const N: usize = 8;
    let mut arena = LocalArena::new(2, false, 8);
    for i in 0..N {
        assert!(
            arena.try_push_tier(0, job(i), DequeTier::SmtLocal, true).is_ok(),
            "test deque has room"
        );
    }
    // Worker 1 is the sibling of worker 0.
    let mut ran = vec![];
    for _ in 0..2000 {
        if let WorkerAction::Run { job, .. } = arena.worker_loop_step(1, false) {
            ran.push(job.data);
        }
    }
    ran.sort();
    assert_eq!(ran, (0..N).collect::<Vec<_>>());
}

#[test]
fn arena_drop_joins_workers_cleanly() {
    let mut arena = LocalArena::new(4, false, 8);
    arena.begin_shutdown();
    assert!(arena.is_shutdown());
    for me in 0..4 {
        assert!(matches!(arena.worker_loop_step(me, false), WorkerAction::Exit { .. }));
    }
}

#[test]
fn a_sibling_waits_until_it_is_asked_for() {
    let mut arena = LocalArena::with_smt_extension(2, 2, None, 8);
    assert_eq!(arena.primary_count(), 2);
    assert_eq!(arena.smt_extension_count(), 2);
    arena.submit(job(1));
    assert_eq!(arena.worker_loop_step(3, false), WorkerAction::WaitForRequest);
    let (guard, woken) = arena.acquire_smt();
    assert_eq!(woken[..2], [2, 3]);
    assert!(matches!(arena.worker_loop_step(3, false), WorkerAction::Run { .. }));
    arena.release_smt(guard);
    assert_eq!(arena.smt_requests(), 0);
    assert_eq!(arena.worker_loop_step(3, false), WorkerAction::WaitForRequest);
}

#[test]
fn the_gate_ends_in_a_park() {
    let mut gate = SmtGate::Spinning { rounds: 0 };
    let mut yields = 0;
    let mut sleeps = 0;
    loop {
        let (action, next) = smt_gate_step(gate, 0, false);
        gate = next;
        match action {
            GateAction::Yield => yields += 1,
            GateAction::SleepMicros(us) => {
                assert_eq!(us, 100);
                sleeps += 1;
            }
            GateAction::Park => break,
            other => panic!("unexpected {other:?}"),
        }
    }
    assert_eq!((yields, sleeps), (1000, 100));
    assert_eq!(smt_gate_step(SmtGate::Spinning { rounds: 0 }, 1, false).0, GateAction::Leave);
    assert_eq!(smt_gate_step(SmtGate::Spinning { rounds: 0 }, 0, true).0, GateAction::Exit);
}

#[test]
fn an_idle_worker_starts_looking_once() {
    let mut arena = LocalArena::new(2, false, 8);
    assert_eq!(arena.worker_loop_step(0, false), WorkerAction::Idle { start_looking: true });
    assert_eq!(arena.worker_loop_step(0, false), WorkerAction::Idle { start_looking: false });
    arena.submit(job(1));
    match arena.worker_loop_step(0, false) {
        WorkerAction::Run { work_found, .. } => assert!(work_found),
        other => panic!("expected Run, got {other:?}"),
    }
}

#[test]
fn find_work_prefers_the_own_deques() {
    let mut arena = LocalArena::new(2, false, 8);
    arena.submit(job(1));
    assert!(arena.try_push(0, job(2), false).is_ok());
    assert_eq!(arena.find_work(0).map(|j| j.data), Some(2));
    assert_eq!(arena.find_work(0).map(|j| j.data), Some(1));
    assert_eq!(arena.find_work(0), None);
}

#[test]
fn a_burst_becomes_visible_with_the_flush() {
    let mut arena = LocalArena::new(2, false, 8);
    arena.push_burst(0, job(1));
    assert!(arena.nothing_to_steal(0, DequeTier::Public));
    assert!(!arena.burst_would_block(0, DequeTier::Public));
    assert!(!arena.flush_would_block(0));
    let wake = arena.flush_all(0, true).expect("a burst was pushed");
    assert_eq!(wake.jobs, 1);
    assert!(!arena.nothing_to_steal(0, DequeTier::Public));
    arena.push_tier_burst(0, job(2), DequeTier::SmtLocal);
    assert!(arena.flush_all(0, false).is_none());
    assert_eq!(arena.push_totals(), (2, 0));
    assert_eq!(drain(&mut arena), vec![1, 2]);
}

#[test]
fn a_full_mailbox_hands_the_job_back() {
    let mut arena = LocalArena::new(2, false, 8);
    let mut sent = 0;
    loop {
        match arena.push_to_mailbox(1, job(sent), true) {
            Ok(_) => sent += 1,
            Err(back) => {
                assert_eq!(back.data, sent);
                break;
            }
        }
    }
    assert!(sent > 0);
    assert_eq!(drain(&mut arena).len(), sent);
}

#[test]
fn jobs_survive_a_change_of_gating() {
    let mut arena = LocalArena::new(2, false, 8);
    for i in 0..6 {
        assert!(arena.try_push(0, job(i), false).is_ok());
    }
    arena.migrate_all_workers_k_gating(KGating::CounterOnly);
    for i in 6..9 {
        assert!(arena.try_push(0, job(i), false).is_ok());
    }
    arena.migrate_all_workers_k_gating(KGating::PerSlot);
    assert_eq!(drain(&mut arena), (0..9).collect::<Vec<_>>());
}

#[test]
fn an_outside_slot_is_stolen_from() {
    let mut arena = LocalArena::new(2, false, 8);
    let at = arena.try_claim_external_slot().unwrap();
    assert!(arena.push_to_slot(at, job(5)));
    let mut rng = 0x9E37_79B9_7F4A_7C15;
    let mut stash = AdaptiveStash::empty();
    assert_eq!(arena.try_run_one(&mut rng, &mut stash).map(|j| j.data), None);
    assert_eq!(drain(&mut arena), vec![5]);
    arena.release_external_slot(at);
}

#[test]
fn peers_are_woken_but_not_the_caller() {
    let mut arena = LocalArena::new(3, false, 8);
    let woken = arena.wake_all_peers(1);
    assert_eq!(woken[..2], [0, 2]);
    assert_eq!(woken.len(), arena.total_positions() - 1);
    let a = arena.wake_one_peer(1).unwrap();
    assert_ne!(a, 1);
}

#[test]
fn a_scope_restores_the_flag() {
    let mut cell = true;
    let outer = DispatchScope::new(&mut cell, false);
    assert!(!cell);
    assert!(DispatchScope::new_if_change(&mut cell, false).is_none());
    let inner = DispatchScope::new_if_change(&mut cell, true).unwrap();
    assert!(cell);
    inner.close(&mut cell);
    assert!(!cell);
    outer.close(&mut cell);
    assert!(cell);
}

#[test]
fn a_snapshot_names_every_worker() {
    let arena = LocalArena::new(2, false, 8);
    let sleep = SleepState { sleeping: 0, inactive: 0, jec: 0, blocked: vec![None, Some(true)] };
    let text = arena.debug_snapshot(&sleep);
    assert!(!text.is_empty());
}

#[test]
fn an_unstolen_half_comes_back_to_its_join() {
    let mut arena = LocalArena::new(2, false, 8);
    let plan = JobPlan::new(6, 16);
    assert!(push_with_tier_hint(&mut arena, 0, job(9), &plan, true).is_ok());
    assert_eq!(join_wait_step(&mut arena, 0, 9, false), JoinStep::RunOwn);
    assert_eq!(join_wait_step(&mut arena, 0, 9, true), JoinStep::Done);
    arena.submit(job(4));
    assert_eq!(join_wait_step(&mut arena, 0, 9, false), JoinStep::Help(job(4)));
    assert_eq!(join_wait_step(&mut arena, 0, 9, false), JoinStep::Yield);
}

#[test]
fn a_trace_is_read_once() {
    let mut trace = DispatchTrace::new();
    trace.record_join(10, 5);
    trace.record_steal(2);
    trace.record_idle(3);
    assert_eq!(dispatch_trace_snapshot(&mut trace), (1, 10, 5));
    assert_eq!(dispatch_trace_wait_snapshot(&mut trace), (2, 3));
    assert_eq!(dispatch_trace_snapshot(&mut trace), (0, 0, 0));
}

#[test]
fn a_slot_waiter_checks_again_before_it_parks() {
    // The job is never done, every mark succeeds.
    let mut state = SlotWait::Poll { spun: 0 };
    let mut answer = false;
    let mut actions = vec![];
    for _ in 0..5000 {
        let (next, action) = slot_wait_step(state, answer);
        state = next;
        answer = matches!(action, SlotAction::MarkSleepy | SlotAction::MarkAsleep);
        if actions.last() != Some(&action) {
            actions.push(action);
        }
        if action == SlotAction::Park {
            break;
        }
    }
    assert_eq!(
        actions,
        vec![
            SlotAction::SpinAndCheck,
            SlotAction::MarkSleepy,
            SlotAction::Check,
            SlotAction::MarkAsleep,
            SlotAction::Park
        ]
    );
}

fn one_node(cpus: usize) -> HostTopology {
    HostTopology { num_nodes: 1, node_of_cpu: vec![0; cpus], smt_threads: 1, ccx_size: 8 }
}

fn two_nodes() -> HostTopology {
    HostTopology { num_nodes: 2, node_of_cpu: vec![0, 0, 1, 1], smt_threads: 1, ccx_size: 8 }
}

#[test]
fn numa_arena_collapses_to_single_arena_on_single_numa_host() {
    let topo = one_node(4);
    let a = NumaArena::new(&topo, Some(4), true);
    assert_eq!(a.node_count(), topo.num_nodes as usize);
    assert!(a.total_workers() >= 1);
    assert!(a.is_single_numa());
    assert!(a.single_node_arc().is_some());
}

#[test]
fn numa_arena_submit_runs_job() {
    let mut arena = NumaArena::new(&one_node(2), Some(2), false);
    arena.submit(job(1), None, 0);
    assert_eq!(drain(arena.node_mut(0)), vec![1]);
}

#[test]
fn numa_arena_submit_many_completes() {
    const N: usize = 128;
    let mut arena = NumaArena::new(&one_node(2), Some(2), false);
    for i in 0..N {
        arena.submit(job(i), None, 0);
    }
    assert_eq!(drain(arena.node_mut(0)), (0..N).collect::<Vec<_>>());
}

#[test]
fn numa_arena_node_hint_oob_clamps_to_local() {
    let mut arena = NumaArena::new(&two_nodes(), Some(2), false);
    let (node, _) = arena.submit(job(1), Some(99), 2);
    assert_eq!(node, 1);
    assert_eq!(drain(arena.node_mut(1)), vec![1]);
}

#[test]
fn numa_arena_try_run_one_returns_false_when_empty() {
    let mut arena = NumaArena::new(&one_node(2), Some(2), false);
    let mut rng = 0x9E37_79B9_7F4A_7C15;
    let mut stash = AdaptiveStash::empty();
    assert!(
        arena.try_run_one(0, &mut rng, &mut stash).is_none(),
        "try_run_one must return false when no work pending"
    );
}

#[test]
fn work_of_another_node_is_found() {
    let mut arena = NumaArena::new(&two_nodes(), Some(1), false);
    arena.submit(job(3), Some(1), 0);
    let mut rng = 0x9E37_79B9_7F4A_7C15;
    let mut stash = AdaptiveStash::empty();
    assert_eq!(arena.try_run_one(0, &mut rng, &mut stash).map(|j| j.data), Some(3));
}

#[test]
fn cpus_are_listed_per_node() {
    assert_eq!(cpus_in_node(&vec![0, 1, 0, 1, 1], 1), vec![1, 3, 4]);
    assert_eq!(cpus_in_node(&vec![0, 1], 7), Vec::<usize>::new());
}

#[test]
fn a_dispatch_gives_back_what_it_took() {
    let mut arena = NumaArena::new(&one_node(2), Some(2), false);
    let plan = JobPlan::new(8, 64).with_smt();
    let d = external_dispatch(&mut arena, &plan, true, 0, job(6));
    match d.how {
        HandedOver::Slot { node, at, .. } => {
            assert_eq!((node, at), (0, arena.node_mut(0).worker_count()));
        }
        other => panic!("expected a slot, got {other:?}"),
    }
    assert_eq!(arena.node_mut(0).smt_requests(), 1);
    assert_eq!(drain(arena.node_mut(0)), vec![6]);
    external_finish(&mut arena, d);
    assert_eq!(arena.node_mut(0).smt_requests(), 0);
    assert!(!arena.node_mut(0).is_claimed(0));
}

#[test]
fn settings_are_read_loosely() {
    assert!(is_on("1") && is_on("ON") && is_on("true"));
    assert!(is_off("0") && is_off("Off"));
    assert!(!is_on("maybe"));
    assert!(pin_disabled(Some("off")));
    assert!(pin_disabled(None));
    assert!(!pin_disabled(Some("True")));
    assert_eq!(pick_worker_count_per_node(Some("6"), None, None, 16), Some(6));
}
