use flynnel::adaptive_backend::{migrate_backend, ActiveBackend};
use flynnel::adaptive_cooperative::CooperativeRouting;
use flynnel::adaptive_profile::{ProfileState, WorkloadClass};
use flynnel::arena_local::LocalArena;
use flynnel::backend::{Backend, BackendRegistry};
use flynnel::bg_calibration::spawn_calibration;
use flynnel::bg_zero::{allocate_and_first_touch, page_size_bytes, prepare};
use flynnel::call_site::{CallSiteState, Placement};
use flynnel::cooperative::{
    cooperative_join_n, cooperative_join_n_flat, cooperative_join_n_flat_mailbox, effective_mode,
    fan_out_place, fan_out_target, fan_out_wait_step, fan_out_wake, FanOutMode, FanOutStep,
};
use flynnel::dispatch::AdaptiveDispatcher;
use flynnel::dispatch_profile::DispatchProfile;
use flynnel::dual_deque::{DualDeque, LocalPop, PushMarshalError, StealAny};
use flynnel::foundation::Variant;
use flynnel::hybrid::{
    hybrid_auto, hybrid_auto_split, hybrid_pipeline, join_hybrid, next_stage, pick_backend,
    split_at_share, Stage,
};
use flynnel::idempotent::{run_idempotent, IdempotentJob};
use flynnel::io_pool::IoPool;
use flynnel::job::{JobRef, NUMA_HINT_ANY};
use flynnel::plan::JobPlan;
use flynnel::workload_shape::WorkloadShape;
use std::sync::atomic::{AtomicU32, Ordering};
use std::sync::Arc;

fn plan() -> JobPlan {
    JobPlan::new(8, 1)
}

type Boxed<R> = Box<dyn FnOnce() -> R + Send>;

fn tree<R: Send>(p: &JobPlan, closures: Vec<Boxed<R>>) -> Vec<R> {
    cooperative_join_n(p, CooperativeRouting::Auto, 64, closures)
}

#[test]
fn tree_empty_input_returns_empty_vec() {
    let p = plan();
    let v: Vec<Boxed<u32>> = Vec::new();
    let results = tree(&p, v);
    assert!(results.is_empty());
}

#[test]
fn tree_one_closure_runs_inline() {
    let p = plan();
    let closures: Vec<Boxed<u32>> = vec![Box::new(|| 42)];
    let results = tree(&p, closures);
    assert_eq!(results, vec![42]);
}

#[test]
fn tree_two_closures_route_through_join() {
    let p = plan();
    let closures: Vec<Boxed<u32>> = vec![Box::new(|| 10), Box::new(|| 20)];
    let results = tree(&p, closures);
    assert_eq!(results, vec![10, 20]);
}

#[test]
fn tree_three_closures_preserve_caller_order() {
    let p = plan();
    let closures: Vec<Boxed<u32>> = vec![Box::new(|| 1), Box::new(|| 2), Box::new(|| 3)];
    let results = tree(&p, closures);
    assert_eq!(results, vec![1, 2, 3]);
}

#[test]
fn tree_eight_closures_balanced_tree() {
    let p = plan();
    let closures: Vec<Boxed<u32>> = (0..8u32).map(|i| Box::new(move || i * 10) as _).collect();
    let results = tree(&p, closures);
    assert_eq!(results, vec![0, 10, 20, 30, 40, 50, 60, 70]);
}

#[test]
fn tree_sixteen_closures() {
    let p = plan();
    let closures: Vec<Boxed<u32>> = (0..16u32).map(|i| Box::new(move || i) as _).collect();
    let results = tree(&p, closures);
    let expected: Vec<u32> = (0..16u32).collect();
    assert_eq!(results, expected);
}

#[test]
fn every_shape_keeps_the_callers_order() {
    for routing in [
        CooperativeRouting::ForceTree,
        CooperativeRouting::ForceMailbox,
        CooperativeRouting::ForceDeque,
    ] {
        let p = plan().with_cooperative_routing(routing);
        let closures: Vec<Boxed<u32>> = (0..9u32).map(|i| Box::new(move || i) as _).collect();
        let results = cooperative_join_n(&p, CooperativeRouting::Auto, 4, closures);
        assert_eq!(results, (0..9u32).collect::<Vec<_>>());
    }
    let closures: Vec<Boxed<u32>> = (0..5u32).map(|i| Box::new(move || i) as _).collect();
    assert_eq!(cooperative_join_n_flat_mailbox(&plan(), closures), vec![0, 1, 2, 3, 4]);
}

#[test]
fn flat_empty_input_returns_empty_vec() {
    let p = plan();
    let v: Vec<Boxed<u32>> = Vec::new();
    let results = cooperative_join_n_flat(&p, v);
    assert!(results.is_empty());
}

#[test]
fn flat_one_closure_runs_inline() {
    let p = plan();
    let closures: Vec<Boxed<u32>> = vec![Box::new(|| 42)];
    let results = cooperative_join_n_flat(&p, closures);
    assert_eq!(results, vec![42]);
}

#[test]
fn flat_two_closures_route_through_join() {
    let p = plan();
    let closures: Vec<Boxed<u32>> = vec![Box::new(|| 10), Box::new(|| 20)];
    let results = cooperative_join_n_flat(&p, closures);
    assert_eq!(results, vec![10, 20]);
}

#[test]
fn flat_three_closures_preserve_caller_order() {
    let p = plan();
    let closures: Vec<Boxed<u32>> = vec![Box::new(|| 1), Box::new(|| 2), Box::new(|| 3)];
    let results = cooperative_join_n_flat(&p, closures);
    assert_eq!(results, vec![1, 2, 3]);
}

#[test]
fn flat_twelve_closures_match_xeon_simc_shape() {
    let p = plan();
    let closures: Vec<Boxed<u64>> = (0..12u64)
        .map(|i| {
            Box::new(move || {
                let mut v: u64 = i.wrapping_mul(0x9E37_79B9_7F4A_7C15) | 1;
                for _ in 0..200_000u64 {
                    v = v.wrapping_mul(0x9E37_79B9_7F4A_7C15);
                    v ^= v >> 31;
                }
                v
            }) as _
        })
        .collect();
    let results = cooperative_join_n_flat(&p, closures);
    assert_eq!(results.len(), 12);
    for (i, v) in results.iter().enumerate() {
        assert_ne!(*v, 0, "closure {i} produced zero, body did not run");
    }
}

#[test]
fn flat_sixteen_closures_full_fan_out() {
    let p = plan();
    let closures: Vec<Boxed<u32>> = (0..16u32).map(|i| Box::new(move || i) as _).collect();
    let results = cooperative_join_n_flat(&p, closures);
    let expected: Vec<u32> = (0..16u32).collect();
    assert_eq!(results, expected);
}

#[test]
fn flat_results_in_caller_order_invariant_of_execution_thread() {
    let p = plan();
    let exec_order = Arc::new(AtomicU32::new(0));
    let closures: Vec<Boxed<(u32, u32)>> = (0..8u32)
        .map(|i| {
            let order = Arc::clone(&exec_order);
            Box::new(move || {
                let run_idx = order.fetch_add(1, Ordering::SeqCst);
                (i, run_idx)
            }) as _
        })
        .collect();
    let results = cooperative_join_n_flat(&p, closures);
    let caller_indices: Vec<u32> = results.iter().map(|(i, _)| *i).collect();
    assert_eq!(caller_indices, vec![0, 1, 2, 3, 4, 5, 6, 7]);
}

#[test]
fn flat_closures_return_different_types_via_boxed_trait_object() {
    let p = plan();
    let closures: Vec<Boxed<String>> = vec![
        Box::new(|| "alpha".to_string()),
        Box::new(|| "beta".to_string()),
        Box::new(|| "gamma".to_string()),
        Box::new(|| "delta".to_string()),
    ];
    let results = cooperative_join_n_flat(&p, closures);
    assert_eq!(
        results,
        vec![
            "alpha".to_string(),
            "beta".to_string(),
            "gamma".to_string(),
            "delta".to_string(),
        ]
    );
}

#[test]
fn nested_tree_inside_flat_composes() {
    let p = plan();
    let mut outer: Vec<Boxed<Vec<u32>>> = Vec::with_capacity(4);
    for o in 0..4u32 {
        let p_inner = p;
        outer.push(Box::new(move || {
            let inner: Vec<Boxed<u32>> =
                (0..3u32).map(|i| Box::new(move || o * 100 + i) as _).collect();
            tree(&p_inner, inner)
        }));
    }
    let results = cooperative_join_n_flat(&p, outer);
    let flat: Vec<u32> = results.into_iter().flatten().collect();
    assert_eq!(flat, vec![0, 1, 2, 100, 101, 102, 200, 201, 202, 300, 301, 302]);
}

fn job(data: usize) -> JobRef {
    JobRef::new(data, 1, 8, NUMA_HINT_ANY, 0)
}

#[test]
fn a_mailbox_fan_out_reaches_every_peer() {
    assert_eq!(effective_mode(FanOutMode::Mailbox, 3, 4), FanOutMode::Deque);
    assert_eq!(effective_mode(FanOutMode::Mailbox, 4, 4), FanOutMode::Mailbox);
    let mut arena = LocalArena::new(4, false, 8);
    let total = arena.total_positions();
    assert_eq!(total, 36);
    let jobs: Vec<JobRef> = (0..total - 1).map(job).collect();
    let placed = fan_out_place(&mut arena, 1, &jobs, 0, FanOutMode::Mailbox);
    assert_eq!(placed, jobs.len());
    for peer in 0..total {
        assert_eq!(arena.mailbox_is_empty(peer), peer == 1, "position {peer}");
    }
    assert_eq!(fan_out_target(1, 2, total), 4);
    assert_eq!(fan_out_target(1, 34, total), 0);
    assert_eq!(fan_out_target(1, 35, total), 2);
    assert_eq!(fan_out_target(usize::MAX - 1, usize::MAX, usize::MAX), 0);
    for i in 0..32 {
        assert_ne!(fan_out_target(1, i, 4), 1);
        assert!(fan_out_target(1, i, 4) < 4);
    }
    assert!(fan_out_wake(FanOutMode::Deque, true, 4).is_none());
    assert_eq!(fan_out_wait_step(&mut arena, 1, true), FanOutStep::Done);
}

#[test]
fn default_dispatcher_constructs() {
    let d = AdaptiveDispatcher::new(8);
    assert_eq!(d.k_outer, 4);
    assert!(!d.use_smt);
    assert_eq!(d.variant, Variant::Faithful);
}

#[test]
fn builder_chains() {
    let d = AdaptiveDispatcher::new(8)
        .with_shape(WorkloadShape::ProducerFast { burst: 32 })
        .with_variant(Variant::Fast)
        .with_k_outer(8)
        .with_smt();
    assert_eq!(d.k_outer, 8);
    assert!(d.use_smt);
    assert_eq!(d.variant, Variant::Fast);
    assert!(matches!(d.shape, WorkloadShape::ProducerFast { burst: 32 }));
}

#[test]
fn execute_streaming_runs_inline() {
    let d = AdaptiveDispatcher::new(8).with_shape(WorkloadShape::Streaming);
    let r = d.execute_streaming(|| 42u32);
    assert_eq!(r, 42);
}

#[test]
fn execute_cooperative_round_trips_caller_order() {
    let state = ProfileState::new();
    let d = AdaptiveDispatcher::new(8).with_shape(WorkloadShape::ProducerFast { burst: 8 });
    let closures: Vec<Boxed<u32>> = (0..8u32).map(|i| Box::new(move || i) as _).collect();
    let results = d.execute_cooperative(&state, closures);
    assert_eq!(results, (0..8u32).collect::<Vec<_>>());
}

#[test]
fn execute_for_each_in_place_updates_items() {
    let d = AdaptiveDispatcher::new(8)
        .with_shape(WorkloadShape::WorkSteal { n_consumers: 4, batch_size: 64 });
    let mut items: Vec<u32> = (0..256).collect();
    d.execute_for_each(&mut items, |slice| {
        for x in slice.iter_mut() {
            *x = x.wrapping_mul(2);
        }
    });
    for (i, x) in items.iter().enumerate() {
        assert_eq!(*x, (i as u32).wrapping_mul(2));
    }
}

#[test]
fn an_explicit_class_decides_the_profile_of_the_plan() {
    let mut state = ProfileState::new();
    let d = AdaptiveDispatcher::new(8).with_workload_class(WorkloadClass::LatencyBound);
    d.migrate_dispatch_profile(&mut state, DispatchProfile::Streaming);
    assert_eq!(d.active_dispatch_profile(&state), DispatchProfile::Streaming);
    assert_eq!(d.build_plan(&state, 64).profile, DispatchProfile::LatencyBound);
    let free = AdaptiveDispatcher::new(8);
    assert_eq!(free.build_plan(&state, 64).profile, DispatchProfile::Streaming);
}

#[test]
fn indexed_work_runs_once_per_index() {
    let d = AdaptiveDispatcher::new(8);
    let mut active = ActiveBackend::new();
    let registry = BackendRegistry::new();
    let hits: Vec<AtomicU32> = (0..10).map(|_| AtomicU32::new(0)).collect();
    let fell_back = d.execute_indexed(&active, &registry, 10, |i| {
        hits[i as usize].fetch_add(1, Ordering::SeqCst);
    });
    assert!(!fell_back);
    assert!(hits.iter().all(|h| h.load(Ordering::SeqCst) == 1));
    migrate_backend(&mut active, Backend::Custom(9));
    assert!(d.execute_indexed(&active, &registry, 0, |_| {}));
}

fn dual() -> DualDeque {
    DualDeque::create("d.bin".to_string(), "l.bin".to_string(), 4, 4, 32)
}

#[test]
fn push_local_pops_in_heap_via_pop_local() {
    let mut dq = dual();
    assert!(dq.push_local(job(42)));
    match dq.pop_local() {
        LocalPop::InHeap(jr) => assert_eq!(jr.data, 42),
        other => panic!("expected InHeap, got {other:?}"),
    }
    assert!(matches!(dq.pop_local(), LocalPop::Empty));
}

#[test]
fn push_marshal_pops_mmf_via_pop_local() {
    let mut dq = dual();
    let payload = b"hello";
    let latch_off = dq.push_marshal(0xDEAD_BEEF, payload).expect("push_marshal");
    match dq.pop_local() {
        LocalPop::Mmf(slot) => {
            assert_eq!(slot.closure_id, 0xDEAD_BEEF);
            assert_eq!(slot.latch_offset, latch_off);
            assert_eq!(slot.args, payload);
        }
        other => panic!("expected Mmf, got {other:?}"),
    }
    assert!(matches!(dq.pop_local(), LocalPop::Empty));
}

#[test]
fn pop_local_prefers_mmf_when_both_have_work() {
    let mut dq = dual();
    assert!(dq.push_local(job(1)));
    dq.push_marshal(0xCAFE, b"mmf-first").expect("push_marshal");
    match dq.pop_local() {
        LocalPop::Mmf(slot) => assert_eq!(slot.closure_id, 0xCAFE),
        other => panic!("expected Mmf first, got {other:?}"),
    }
    match dq.pop_local() {
        LocalPop::InHeap(jr) => assert_eq!(jr.data, 1),
        other => panic!("expected InHeap second, got {other:?}"),
    }
}

#[test]
fn steal_any_prefers_mmf_when_both_have_work() {
    let mut dq = dual();
    let stealer = dq.in_heap_stealer();
    assert!(dq.push_local(job(1)));
    dq.push_marshal(0xFAFA, b"mmf-first-steal").expect("push_marshal");
    assert_eq!(dq.total_observed_size(), 2);
    match dq.steal_any(&stealer) {
        StealAny::Mmf(slot) => assert_eq!(slot.closure_id, 0xFAFA),
        other => panic!("expected Mmf first via steal, got {other:?}"),
    }
    let mut got_in_heap = false;
    for _ in 0..16 {
        match dq.steal_any(&stealer) {
            StealAny::InHeap(jr) => {
                assert_eq!(jr.data, 1);
                got_in_heap = true;
                break;
            }
            StealAny::Empty => break,
            StealAny::Retry => continue,
            other => panic!("unexpected: {other:?}"),
        }
    }
    assert!(got_in_heap, "should have stolen the in-heap job after the mmf job");
}

#[test]
fn push_marshal_oversize_rejected() {
    let mut dq = dual();
    let big = vec![0u8; 33];
    let err = dq.push_marshal(0, &big).expect_err("expected oversize");
    assert_eq!(err, PushMarshalError::PayloadTooLarge);
}

#[test]
fn a_full_shared_deque_refuses() {
    let mut dq = dual();
    for i in 0..4 {
        assert!(dq.push_marshal(i, b"x").is_ok());
    }
    assert_eq!(dq.push_marshal(9, b"x"), Err(PushMarshalError::Full));
    assert_eq!(dq.steal_marshal().unwrap().closure_id, 0);
    assert_eq!(dq.pop_marshal().unwrap().closure_id, 3);
}

#[test]
fn hybrid_returns_both_results_in_caller_order() {
    let plan = JobPlan::new(8, 64).with_backend(Backend::Custom(424242));
    let (a, b) = join_hybrid(&plan, || 7u32, || 11u32);
    assert_eq!(a, 7);
    assert_eq!(b, 11);
}

#[test]
fn hybrid_runs_both_halves_to_completion() {
    let plan = JobPlan::new(8, 64).with_backend(Backend::Custom(424242));
    let cpu_seen = Arc::new(AtomicU32::new(0));
    let gpu_seen = Arc::new(AtomicU32::new(0));
    let c = Arc::clone(&cpu_seen);
    let g = Arc::clone(&gpu_seen);
    let (cr, gr) = join_hybrid(
        &plan,
        move || {
            c.store(1, Ordering::SeqCst);
            100u32
        },
        move || {
            g.store(1, Ordering::SeqCst);
            200u32
        },
    );
    assert_eq!(cr, 100);
    assert_eq!(gr, 200);
    assert_eq!(cpu_seen.load(Ordering::SeqCst), 1);
    assert_eq!(gpu_seen.load(Ordering::SeqCst), 1);
}

#[test]
fn hybrid_with_no_hint_falls_back_to_cpu_backend() {
    let plan = JobPlan::new(8, 64);
    let (a, b) = join_hybrid(&plan, || 1u32 + 2, || 3u32 + 4);
    assert_eq!(a, 3);
    assert_eq!(b, 7);
    assert_eq!(pick_backend(&plan, &BackendRegistry::new()), Backend::Cpu);
}

#[test]
fn hybrid_with_unregistered_hint_falls_back_to_cpu() {
    let plan = JobPlan::new(8, 64).with_backend(Backend::Custom(987_654_321));
    let (a, b) = join_hybrid(&plan, || "left", || "right");
    assert_eq!(a, "left");
    assert_eq!(b, "right");
    assert_eq!(pick_backend(&plan, &BackendRegistry::new()), Backend::Cpu);
    let mut registry = BackendRegistry::new();
    registry.register_backend(Backend::Custom(987_654_321));
    assert_eq!(pick_backend(&plan, &registry), Backend::Custom(987_654_321));
}

#[test]
fn pipeline_emits_results_in_order() {
    let plan = JobPlan::new(8, 64);
    let out = hybrid_pipeline(
        &plan,
        (0..8i32).collect(),
        |seed: i32| seed * 2,
        |a: i32| a + 100,
        |b: i32| b - 50,
    );
    let expected: Vec<i32> = (0..8).map(|i| i * 2 + 50).collect();
    assert_eq!(out, expected);
}

#[test]
fn pipeline_handles_empty_input() {
    let plan = JobPlan::new(8, 64);
    let out: Vec<u32> =
        hybrid_pipeline(&plan, Vec::<u32>::new(), |x: u32| x, |x: u32| x, |x: u32| x);
    assert!(out.is_empty());
    assert_eq!(next_stage(0, 0, 0, 0), Stage::Done);
}

#[test]
fn a_cold_site_races_and_then_follows_the_faster_side() {
    let mut site = CallSiteState::new();
    let plan = JobPlan::new(8, 4096);
    let (_, first) = hybrid_auto(&mut site, &plan, || (1u32, 10), || (2u32, 1000));
    assert_eq!(first, Placement::Race);
    let (r, next) = hybrid_auto(&mut site, &plan, || (1u32, 10), || (2u32, 1000));
    assert_eq!((r, next), (1, Placement::Cpu));
}

#[test]
fn a_split_keeps_every_item_in_place() {
    let mut site = CallSiteState::new();
    assert_eq!(split_at_share(1000, 500), 500);
    let items: Vec<u32> = (0..100).collect();
    let double = |v: Vec<u32>| -> (Vec<u32>, u64) {
        (v.into_iter().map(|x| x * 2).collect(), 100)
    };
    let (out, report) = hybrid_auto_split(&mut site, items, double, double);
    assert_eq!(out, (0..100).map(|x| x * 2).collect::<Vec<u32>>());
    assert_eq!(report.cpu_items + report.backend_items, 100);
}

struct Sum<'a>(&'a [u32]);

impl<'a> IdempotentJob for Sum<'a> {
    type Output = u64;
    fn run(&self, start: usize, end: usize) -> u64 {
        self.0[start..end].iter().map(|&x| x as u64).sum()
    }
}

#[test]
fn idempotent_run_returns_same_value_across_calls() {
    let data: Vec<u32> = (0..1000).collect();
    let job = Sum(&data);
    let a = run_idempotent(&job, 0, 1000);
    let b = run_idempotent(&job, 0, 1000);
    let c = run_idempotent(&job, 0, 1000);
    assert_eq!(a, b);
    assert_eq!(b, c);
    let expected: u64 = (0..1000u64).sum();
    assert_eq!(a, expected);
}

#[test]
fn idempotent_run_partial_range() {
    let data: Vec<u32> = (0..100).collect();
    let job = Sum(&data);
    let total: u64 = run_idempotent(&job, 0, 100);
    let lo: u64 = run_idempotent(&job, 0, 50);
    let hi: u64 = run_idempotent(&job, 50, 100);
    assert_eq!(lo + hi, total);
}

#[test]
fn spawn_calibration_with_disabled_pool_is_noop() {
    let counter = Arc::new(AtomicU32::new(0));
    let c = Arc::clone(&counter);
    let mut pool: IoPool<Box<dyn FnOnce() + Send>> = IoPool::new(false);
    spawn_calibration(
        &mut pool,
        vec![Box::new(move || {
            c.fetch_add(1, Ordering::Relaxed);
        })],
    );
    assert!(pool.take().is_none());
    assert_eq!(counter.load(Ordering::Relaxed), 0);
}

#[test]
fn calibration_jobs_run_in_order() {
    let mut pool: IoPool<fn()> = IoPool::new(true);
    spawn_calibration(&mut pool, vec![|| {}, || {}]);
    assert_eq!(pool.len(), 2);
    assert!(pool.take().is_some());
    assert_eq!(pool.len(), 1);
}

#[test]
fn prepare_returns_zero_filled_buffer_inline() {
    let mut handle = prepare(8192, false);
    assert!(handle.is_ready(), "inline path must be ready immediately");
    let buf = handle.wait().expect("buffer must be present");
    assert_eq!(buf.len(), 8192);
    assert!(buf.iter().all(|&b| b == 0), "buffer must be zero-filled");
}

#[test]
fn prepare_zero_size_succeeds() {
    let mut handle = prepare(0, false);
    let buf = handle.wait().expect("zero-size buffer is still a buffer");
    assert!(buf.is_empty());
}

#[test]
fn prepare_small_buffer_below_page_size() {
    let mut handle = prepare(128, false);
    let buf = handle.wait().unwrap();
    assert_eq!(buf.len(), 128);
    assert!(buf.iter().all(|&b| b == 0));
}

#[test]
fn prepare_large_multi_page_buffer() {
    let mut handle = prepare(10 * 1024 * 1024, false);
    let buf = handle.wait().unwrap();
    assert_eq!(buf.len(), 10 * 1024 * 1024);
    for &offset in &[0usize, 4096, 1_048_576, 9_999_999] {
        assert_eq!(buf[offset], 0, "byte at offset {} must be zero", offset);
    }
}

#[test]
fn handle_wait_returns_none_on_double_wait() {
    let mut handle = prepare(1024, false);
    assert!(handle.wait().is_some());
    assert!(handle.wait().is_none(), "buffer must be taken by the first wait");
}

#[test]
fn a_background_buffer_is_ready_when_completed() {
    let mut handle = prepare(1024, true);
    assert!(!handle.is_ready());
    handle.complete();
    assert!(handle.is_ready());
    assert_eq!(handle.wait().map(|b| b.len()), Some(1024));
}

#[test]
fn page_size_estimate_is_reasonable() {
    let p = page_size_bytes();
    assert!(p.is_power_of_two());
    assert!((4096..=65536).contains(&p));
}

#[test]
fn first_touch_does_not_corrupt_buffer() {
    let buf = allocate_and_first_touch(16 * 4096);
    for (i, &b) in buf.iter().enumerate() {
        assert_eq!(b, 0, "first-touch must not corrupt byte {i}");
    }
}
