use flynnel::adaptive_profile::{ProfileState, WorkloadClass};
use flynnel::arena::{fork, join_wait_step, submit_spin_rounds, JoinStep};
use flynnel::arena_local::{LocalArena, WorkerAction};
use flynnel::arena_numa::{HostTopology, NumaArena, NUMA_NODE_LOCAL};
use flynnel::call_site::{CallSiteState, Placement, PolicyArm};
use flynnel::chase_lev_local::{new_chase_lev, Steal};
use flynnel::cooperative::{fan_out_external, tree_halves, FAN_OUT_SPIN_ROUNDS};
use flynnel::deque_tier::DequeTier;
use flynnel::dispatch::AdaptiveDispatcher;
use flynnel::dual_deque::DualDeque;
use flynnel::flynnel_ring::{FlynnelRing, PopResult, PushResult};
use flynnel::flynnel_ring_composed::{
    new_composed_mpmc, new_composed_mpsc, ComposedPopResult, GridPopResult,
};
use flynnel::hybrid::{next_stage, split_at_share, Stage, PIPELINE_DEPTH};
use flynnel::job::{JobRef, NUMA_HINT_ANY};
use flynnel::k_gating::KGating;
use flynnel::plan::JobPlan;

fn job(data: usize) -> JobRef {
    JobRef::new(data, 1, 2, NUMA_HINT_ANY, 0)
}

fn host(nodes: u32, cpus_per_node: usize) -> HostTopology {
    let mut node_of_cpu = vec![];
    for n in 0..nodes {
        node_of_cpu.extend(vec![n; cpus_per_node]);
    }
    HostTopology { num_nodes: nodes, node_of_cpu, smt_threads: 1, ccx_size: 8 }
}

#[test]
fn blocking_ring_calls_keep_the_order() {
    let mut r = FlynnelRing::<u32>::new(4);
    r.push_blocking(1);
    r.push_blocking(2);
    assert_eq!(r.pop_blocking(), 1);
    assert!(matches!(r.push(3), PushResult::Pushed));
    assert!(matches!(r.pop(), PopResult::Popped(2)));
    assert_eq!(r.pop_blocking(), 3);
    assert!(r.is_empty());
}

#[test]
fn composed_rings_know_their_sizes() {
    let c = new_composed_mpsc::<u32>(3, 4);
    assert_eq!(c.consumer.ring_count(), 3);
    let g = new_composed_mpmc::<u32>(2, 5, 4);
    assert_eq!(g.producers[0].consumer_count(), 5);
    assert_eq!(g.consumers[0].producer_count(), 2);
}

#[test]
fn a_busy_producer_does_not_starve_the_others() {
    let mut c = new_composed_mpsc::<u32>(2, 8);
    for i in 0..8 {
        assert!(c.producers[0].push_composed(c.consumer.ring_mut(0), i).is_ok());
    }
    assert!(c.producers[1].push_composed(c.consumer.ring_mut(1), 99).is_ok());
    let first: Vec<u32> = (0..2)
        .map(|_| match c.consumer.pop() {
            ComposedPopResult::Popped(v) => v,
            ComposedPopResult::Empty => panic!("an item is waiting"),
        })
        .collect();
    assert!(first.contains(&99));
}

#[test]
fn a_grid_gives_every_item_once() {
    let mut g = new_composed_mpmc::<u32>(4, 4, 8);
    let mut sent = 0u64;
    for p in 0..4usize {
        for i in 0..8u32 {
            let v = p as u32 * 100 + i;
            assert!(g.producers[p].push(&mut g.consumers, v).is_ok());
            sent += u64::from(v);
        }
    }
    let mut got = 0u64;
    let mut n = 0;
    for c in &mut g.consumers {
        while let GridPopResult::Popped(v) = c.pop() {
            got += u64::from(v);
            n += 1;
        }
    }
    assert_eq!((n, got), (32, sent));
}

#[test]
fn the_newest_leaves_at_the_bottom_and_the_oldest_at_the_top() {
    let (mut w, s) = new_chase_lev::<u32>(4);
    for i in 1..4 {
        w.push(i).unwrap();
    }
    assert_eq!(s.steal(&mut w), Steal::Success(1));
    assert_eq!(w.pop(), Steal::Success(3));
    assert_eq!(w.len(), 1);
    assert_eq!(s.steal(&mut w), Steal::Success(2));
    assert_eq!(w.pop(), Steal::Empty);
}

#[test]
fn a_fork_goes_to_an_idle_sibling_position() {
    let plan = JobPlan::new(6, 16).with_mailbox_routing(true);
    let mut arena = LocalArena::new(3, false, 8);
    assert!(fork(&mut arena, 0, job(1), &plan, true).is_ok());
    assert!(!arena.mailbox_is_empty(1));
    // The last of three workers is paired with the first outside slot.
    assert!(fork(&mut arena, 2, job(2), &plan, true).is_ok());
    assert!(!arena.mailbox_is_empty(3));
    assert!(arena.nothing_to_steal(2, DequeTier::Public));
    // A sibling that has mail gets no more.
    assert!(fork(&mut arena, 2, job(3), &plan, true).is_ok());
    assert!(!arena.nothing_to_steal(2, DequeTier::Public));
}

#[test]
fn a_fork_is_given_back_by_a_full_deque() {
    let mut arena = LocalArena::new(2, false, 8);
    let plan = JobPlan::new(6, 16).with_deque_tier_hint(DequeTier::SmtLocal);
    let mut pushed = 0;
    let back = loop {
        match fork(&mut arena, 0, job(pushed), &plan, true) {
            Ok(_) => pushed += 1,
            Err(j) => break j,
        }
    };
    assert_eq!(back.data, pushed);
    assert!(pushed > 0);
    assert_eq!(arena.worker_stats(0).push_refusals, 1);
    assert_eq!(join_wait_step(&mut arena, 0, pushed - 1, false), JoinStep::RunOwn);
}

#[test]
fn a_fan_out_from_outside_is_submitted() {
    let mut numa = NumaArena::new(&host(2, 2), Some(2), false);
    let plan = JobPlan::new(8, 64).with_numa_hint(1).with_smt();
    let d = fan_out_external(&mut numa, &plan, true, 0, job(8));
    match d.how {
        flynnel::arena::HandedOver::Submitted { node, wake, spin } => {
            assert_eq!(node, 1);
            assert_eq!(wake.jobs, 1);
            assert!(wake.queue_was_empty);
            assert_eq!(spin, FAN_OUT_SPIN_ROUNDS);
        }
        other => panic!("expected a submission, got {other:?}"),
    }
    assert_eq!(d.smt.len(), 2);
    assert_eq!(numa.node_mut(1).injector_len(), 1);
    assert_eq!(numa.node_mut(0).injector_len(), 0);
    assert_eq!(numa.node_mut(0).take_submitted(), None);
    assert_eq!(numa.node_mut(1).take_submitted(), Some(job(8)));
}

#[test]
fn hints_lead_to_nodes() {
    let numa = NumaArena::new(&host(2, 2), Some(1), false);
    assert_eq!(numa.resolve_node_idx(Some(1), 0), 1);
    assert_eq!(numa.resolve_node_idx(None, 3), 1);
    assert_eq!(numa.resolve_node_idx(Some(NUMA_NODE_LOCAL), 2), 1);
    assert_eq!(numa.current_thread_node_idx(99), 0);
    assert_eq!(numa.node_arc(Some(1), 0).worker_count(), 1);
    assert_eq!(numa.iter_worker_stats().len(), numa.node_count() * (1 + 32));
    assert!(!numa.is_single_numa());
}

#[test]
fn a_dispatcher_moves_the_gating_of_every_worker() {
    let mut numa = NumaArena::new(&host(1, 2), Some(2), false);
    let d = AdaptiveDispatcher::new(2);
    assert!(numa.node_mut(0).try_push(0, job(1), false).is_ok());
    d.migrate_k_gating(&mut numa, KGating::CounterOnly);
    assert!(numa.node_mut(0).try_push(0, job(2), false).is_ok());
    let mut ran = vec![];
    for _ in 0..500 {
        if let WorkerAction::Run { job, .. } = numa.node_mut(0).worker_loop_step(0, false) {
            ran.push(job.data);
        }
    }
    ran.sort();
    assert_eq!(ran, vec![1, 2]);
}

#[test]
fn a_mailbox_fan_out_of_a_dispatcher_keeps_the_order() {
    let state = ProfileState::new();
    let d = AdaptiveDispatcher::new(4);
    let closures: Vec<Box<dyn FnOnce() -> u32 + Send>> =
        (0..6u32).map(|i| Box::new(move || i * i) as _).collect();
    assert_eq!(d.execute_cooperative_mailbox(&state, closures), vec![0, 1, 4, 9, 16, 25]);
}

#[test]
fn halves_keep_the_order() {
    let (a, b) = tree_halves(vec![1, 2, 3, 4, 5]);
    assert_eq!((a, b), (vec![1, 2], vec![3, 4, 5]));
    let (a, b) = tree_halves(Vec::<u8>::new());
    assert!(a.is_empty() && b.is_empty());
}

#[test]
fn a_shared_deque_shows_what_it_holds() {
    let mut dq = DualDeque::create("d".to_string(), "l".to_string(), 4, 8, 16);
    assert_eq!(dq.mmf_deque_path(), "d");
    assert_eq!(dq.mmf_latches_path(), "l");
    assert!(dq.mmf_deque().is_empty());
    let a = dq.push_marshal(1, b"x").unwrap();
    let b = dq.push_marshal(2, b"y").unwrap();
    assert_ne!(a, b);
    assert_eq!(dq.mmf_deque().len(), 2);
}

#[test]
fn every_sixteenth_choice_tries_the_slower_policy() {
    let mut s = CallSiteState::new();
    for _ in 0..4 {
        s.record_arm(PolicyArm::Default, 100);
        s.record_arm(PolicyArm::Alternative, 900);
    }
    let tried = (0..32)
        .filter(|_| s.choose_arm(true) == PolicyArm::Alternative)
        .count();
    assert_eq!(tried, 2);
}

#[test]
fn every_thirty_second_placement_races_again() {
    let mut s = CallSiteState::new();
    s.record_placement(64, Some(900), Some(100));
    let mut races = 0;
    for _ in 0..64 {
        match s.choose_placement(64) {
            Placement::Race => races += 1,
            p => assert_eq!(p, Placement::Backend),
        }
    }
    assert_eq!(races, 2);
}

#[test]
fn an_average_moves_by_an_eighth() {
    let mut s = CallSiteState::new();
    s.record_arm(PolicyArm::Default, 800);
    s.record_arm(PolicyArm::Default, 1600);
    assert_eq!(s.arm_ewmas().0, 900);
    s.record_arm(PolicyArm::Alternative, 0);
    assert_eq!(s.arm_ewmas().1, 1);
}

#[test]
fn sizes_share_a_bucket_up_to_the_next_power_of_two() {
    let mut s = CallSiteState::new();
    s.record_placement(64, Some(5), None);
    assert_eq!(s.placement_ewmas(127), (5, 0));
    assert_eq!(s.placement_ewmas(128), (0, 0));
    assert_eq!(s.placement_ewmas(63), (0, 0));
    s.record_placement(0, Some(3), None);
    assert_eq!(s.placement_ewmas(1), (3, 0));
}

#[test]
fn the_faster_side_gets_more_items_within_limits() {
    let mut s = CallSiteState::new();
    s.record_split(10, 10, 10, 1_000_000);
    assert_eq!(s.split_cpu_share_per_mille(), 950);
    let mut s = CallSiteState::new();
    s.record_split(10, 1_000_000, 10, 10);
    assert_eq!(s.split_cpu_share_per_mille(), 50);
    assert_eq!(split_at_share(10, 950), 9);
    assert_eq!(split_at_share(1, 500), 0);
}

#[test]
fn a_pipeline_moves_the_last_stage_first() {
    assert_eq!(PIPELINE_DEPTH, 2);
    let mut counts = (3usize, 0usize, 0usize, 0usize);
    let mut steps = 0;
    loop {
        match next_stage(counts.0, counts.1, counts.2, counts.3) {
            Stage::Pre => {
                counts.0 -= 1;
                counts.1 += 1;
            }
            Stage::Backend => {
                counts.1 -= 1;
                counts.2 += 1;
            }
            Stage::Post => {
                counts.2 -= 1;
                counts.3 += 1;
            }
            Stage::Collect => counts.3 -= 1,
            Stage::Done => break,
        }
        assert!(counts.1 <= 2 && counts.2 <= 2 && counts.3 <= 2);
        steps += 1;
        assert!(steps < 100);
    }
    assert_eq!(counts, (0, 0, 0, 0));
}

#[test]
fn two_windows_of_the_same_class_move_a_site() {
    let t = flynnel::adaptive_profile::ClassThresholds::new_defaults();
    let mut s = CallSiteState::new();
    s.record_batch_site_only(&t, 16 * 100, 0, 16);
    assert_eq!(s.learned_class(), Some(WorkloadClass::PortBound));
    let ns = 1024u64;
    s.record_batch_site_only(&t, 16 * ns, 16 * 16, 16);
    assert_eq!(s.learned_class(), Some(WorkloadClass::PortBound));
    s.record_batch_site_only(&t, 16 * ns, 16 * 16, 16);
    assert_eq!(s.learned_class(), Some(WorkloadClass::Streaming));
}

#[test]
fn plans_carry_what_they_are_given() {
    let p = JobPlan::new(3, 9).with_estimated_per_item_ns(7);
    assert_eq!(p.estimated_per_item_ns, Some(7));
    let j = p.job(5, 6);
    assert_eq!((j.data, j.entry, j.k_outer), (5, 6, 3));
    assert!(submit_spin_rounds(&p) > 0);
}
