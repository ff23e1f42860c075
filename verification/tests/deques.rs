use flynnel::chase_lev_local::{new_chase_lev, Steal};
use flynnel::deque::{steal_retry, steal_retry_batch, ArenaDeque};
use flynnel::deque_tier::{peer_distance, thief_may_steal, DequeTier, N_TIERS};
use flynnel::fcl_local::new_fcl;
use flynnel::fcl_worker::{steal_via_stash, FclStash, FclSteal2, FclWorker};
use flynnel::job::{CompactJobRef, JobRef, NUMA_HINT_ANY};
use std::sync::atomic::{AtomicUsize, Ordering};

#[derive(Debug)]
struct DropCount<'a>(&'a AtomicUsize);

impl Drop for DropCount<'_> {
    fn drop(&mut self) {
        self.0.fetch_add(1, Ordering::Relaxed);
    }
}

#[test]
fn push_then_pop_is_lifo() {
    let (mut w, _s) = new_chase_lev::<u32>(8);
    w.push(1).unwrap();
    w.push(2).unwrap();
    w.push(3).unwrap();
    assert_eq!(w.pop(), Steal::Success(3));
    assert_eq!(w.pop(), Steal::Success(2));
    assert_eq!(w.pop(), Steal::Success(1));
    assert_eq!(w.pop(), Steal::Empty);
}

#[test]
fn steal_drains_fifo() {
    let (mut w, s) = new_chase_lev::<u32>(8);
    w.push(1).unwrap();
    w.push(2).unwrap();
    w.push(3).unwrap();
    assert_eq!(s.steal(&mut w), Steal::Success(1));
    assert_eq!(s.steal(&mut w), Steal::Success(2));
    assert_eq!(s.steal(&mut w), Steal::Success(3));
    assert_eq!(s.steal(&mut w), Steal::Empty);
}

#[test]
fn chase_lev_local_capacity_rounds_to_power_of_two() {
    let (w, _s) = new_chase_lev::<u32>(5);
    assert_eq!(w.capacity(), 8);
    let (w2, _s2) = new_chase_lev::<u32>(0);
    assert_eq!(w2.capacity(), 2);
}

#[test]
fn push_full_returns_err() {
    let (mut w, _s) = new_chase_lev::<u32>(2);
    w.push(1).unwrap();
    w.push(2).unwrap();
    let err = w.push(3).unwrap_err();
    assert_eq!(err, 3, "push must return the rejected item back");
}

#[test]
fn chase_lev_local_empty_pop_returns_empty() {
    let (mut w, _s) = new_chase_lev::<u32>(4);
    assert_eq!(w.pop(), Steal::Empty);
}

#[test]
fn empty_steal_returns_empty() {
    let (mut w, s) = new_chase_lev::<u32>(4);
    assert_eq!(s.steal(&mut w), Steal::Empty);
}

#[test]
fn prefetch_for_steal_is_safe_on_empty() {
    let (w, s) = new_chase_lev::<u32>(4);
    s.prefetch_for_steal(&w);
    s.prefetch_for_steal(&w);
}

#[test]
fn prefetch_does_not_disturb_state() {
    let (mut w, s) = new_chase_lev::<u32>(8);
    w.push(1).unwrap();
    w.push(2).unwrap();
    let was_empty_before = w.is_empty();
    for _ in 0..16 {
        s.prefetch_for_steal(&w);
    }
    assert_eq!(was_empty_before, w.is_empty());
    assert_eq!(s.steal(&mut w), Steal::Success(1));
    assert_eq!(s.steal(&mut w), Steal::Success(2));
    assert_eq!(s.steal(&mut w), Steal::Empty);
}

#[test]
fn stealer_clone_shares_state() {
    let (mut w, s1) = new_chase_lev::<u32>(8);
    let s2 = s1.clone();
    w.push(10).unwrap();
    w.push(20).unwrap();
    assert_eq!(s1.steal(&mut w), Steal::Success(10));
    assert_eq!(s2.steal(&mut w), Steal::Success(20));
    assert_eq!(s1.steal(&mut w), Steal::Empty);
    assert_eq!(s2.steal(&mut w), Steal::Empty);
}

#[test]
fn stealer_from_worker_is_same_deque() {
    let (mut w, _s_orig) = new_chase_lev::<u32>(8);
    let s = w.stealer();
    w.push(42).unwrap();
    assert_eq!(s.steal(&mut w), Steal::Success(42));
}

#[test]
fn chase_lev_local_drop_runs_destructors_for_unclaimed_slots() {
    let count = AtomicUsize::new(0);
    {
        let (mut w, _s) = new_chase_lev::<DropCount<'_>>(4);
        w.push(DropCount(&count)).unwrap();
        w.push(DropCount(&count)).unwrap();
        w.push(DropCount(&count)).unwrap();
    }
    assert_eq!(
        count.load(Ordering::Relaxed),
        3,
        "unclaimed slots must run their destructors when the deque drops"
    );
}

#[test]
fn drop_does_not_double_drop_after_pop() {
    let count = AtomicUsize::new(0);
    {
        let (mut w, _s) = new_chase_lev::<DropCount<'_>>(4);
        w.push(DropCount(&count)).unwrap();
        w.push(DropCount(&count)).unwrap();
        match w.pop() {
            Steal::Success(d) => drop(d),
            other => panic!("expected Success, got {other:?}"),
        }
        assert_eq!(count.load(Ordering::Relaxed), 1, "pop's drop should run");
    }
    assert_eq!(
        count.load(Ordering::Relaxed),
        2,
        "exactly one extra drop should run when deque is dropped with 1 unclaimed slot"
    );
}

#[test]
fn wraparound_across_capacity_boundary_preserves_ordering() {
    let (mut w, s) = new_chase_lev::<u32>(4);
    w.push(0).unwrap();
    w.push(1).unwrap();
    assert_eq!(w.pop(), Steal::Success(1));
    assert_eq!(s.steal(&mut w), Steal::Success(0));
    w.push(10).unwrap();
    w.push(11).unwrap();
    w.push(12).unwrap();
    w.push(13).unwrap();
    assert_eq!(s.steal(&mut w), Steal::Success(10));
    assert_eq!(s.steal(&mut w), Steal::Success(11));
    assert_eq!(w.pop(), Steal::Success(13));
    assert_eq!(w.pop(), Steal::Success(12));
    assert_eq!(w.pop(), Steal::Empty);
}

#[test]
fn every_item_leaves_once_from_either_end() {
    let (mut w, s) = new_chase_lev::<u32>(64);
    let n = 5_000u32;
    let mut sum = 0usize;
    let mut consumed = 0u32;
    let mut i = 0u32;
    while i < n {
        match w.push(i) {
            Ok(()) => i += 1,
            Err(_) => {
                let taken = if i % 3 == 0 { w.pop() } else { s.steal(&mut w) };
                if let Steal::Success(v) = taken {
                    consumed += 1;
                    sum += v as usize;
                }
            }
        }
    }
    while let Steal::Success(v) = w.pop() {
        consumed += 1;
        sum += v as usize;
    }
    assert_eq!(sum, (0..n as usize).sum());
    assert_eq!(consumed, n);
}

fn job(data: usize) -> JobRef {
    JobRef::new(data, 1, 2, NUMA_HINT_ANY, 0)
}

#[test]
fn new_deque_is_empty() {
    let mut d = ArenaDeque::new_lifo();
    assert!(d.is_empty());
    assert!(d.pop().is_none());
}

#[test]
fn push_then_pop_returns_same_job() {
    let mut d = ArenaDeque::new_lifo();
    let r = job(7);
    let id_k = r.k_outer;
    d.push(r);
    assert!(!d.is_empty());
    let popped = d.pop().expect("pop after push must return job");
    assert_eq!(popped.k_outer, id_k);
    assert_eq!(popped.data, 7);
}

#[test]
fn pop_is_lifo_on_owner_end() {
    let mut d = ArenaDeque::new_lifo();
    d.push(job(1));
    d.push(job(2));
    d.push(job(3));
    assert_eq!(d.pop().unwrap().data, 3);
    assert_eq!(d.pop().unwrap().data, 2);
    assert_eq!(d.pop().unwrap().data, 1);
    assert!(d.pop().is_none());
}

#[test]
fn steal_retry_returns_none_on_empty() {
    let mut d = ArenaDeque::new_lifo();
    let s = d.stealer();
    assert!(steal_retry(&s, d.worker_mut()).is_none());
}

#[test]
fn steal_retry_takes_the_oldest() {
    let mut d = ArenaDeque::new_lifo();
    let (dest, _) = new_chase_lev::<JobRef>(4);
    let s = d.stealer();
    d.push(job(1));
    d.push(job(2));
    assert_eq!(steal_retry(&s, d.worker_mut()).unwrap().data, 1);
    assert_eq!(steal_retry_batch(&s, d.worker_mut(), &dest).unwrap().data, 2);
    assert!(d.is_empty());
}

#[test]
fn idx_round_trip_for_all_four_variants() {
    for t in DequeTier::all() {
        assert_eq!(DequeTier::from_idx(t.idx()), Some(t));
    }
}

#[test]
fn from_idx_rejects_out_of_range() {
    assert!(DequeTier::from_idx(N_TIERS).is_none());
    assert!(DequeTier::from_idx(99).is_none());
}

#[test]
fn all_returns_distance_order() {
    let order = DequeTier::all();
    for w in order.windows(2) {
        assert!((w[0] as u8) < (w[1] as u8), "tier order must be ascending");
    }
}

#[test]
fn default_is_public_for_steal_compatibility() {
    assert_eq!(DequeTier::default(), DequeTier::Public);
}

#[test]
fn peer_distance_smt_siblings_adjacent_indices() {
    assert_eq!(peer_distance(0, 1, 8), DequeTier::SmtLocal);
    assert_eq!(peer_distance(2, 3, 8), DequeTier::SmtLocal);
    assert_eq!(peer_distance(7, 6, 8), DequeTier::SmtLocal);
}

#[test]
fn peer_distance_intra_ccx_non_siblings() {
    assert_eq!(peer_distance(0, 2, 8), DequeTier::IntraCcx);
    assert_eq!(peer_distance(0, 6, 8), DequeTier::IntraCcx);
}

#[test]
fn peer_distance_cross_ccx_returns_public() {
    assert_eq!(peer_distance(0, 8, 8), DequeTier::Public);
    assert_eq!(peer_distance(3, 11, 8), DequeTier::Public);
}

#[test]
fn peer_distance_zero_ccx_size_returns_public() {
    assert_eq!(peer_distance(0, 1, 0), DequeTier::Public);
    assert_eq!(peer_distance(5, 99, 0), DequeTier::Public);
}

#[test]
fn thief_may_steal_distance_zero_can_take_all_tiers() {
    for tier in DequeTier::all() {
        assert!(
            thief_may_steal(DequeTier::SmtLocal, tier),
            "SMT-sibling thief must reach {tier:?}"
        );
    }
}

#[test]
fn thief_may_steal_distance_three_only_public() {
    assert!(!thief_may_steal(DequeTier::Public, DequeTier::SmtLocal));
    assert!(!thief_may_steal(DequeTier::Public, DequeTier::IntraCcx));
    assert!(!thief_may_steal(DequeTier::Public, DequeTier::CrossCcx));
    assert!(thief_may_steal(DequeTier::Public, DequeTier::Public));
}

#[test]
fn thief_may_steal_distance_one_blocks_smt_local_only() {
    assert!(!thief_may_steal(DequeTier::IntraCcx, DequeTier::SmtLocal));
    assert!(thief_may_steal(DequeTier::IntraCcx, DequeTier::IntraCcx));
    assert!(thief_may_steal(DequeTier::IntraCcx, DequeTier::CrossCcx));
    assert!(thief_may_steal(DequeTier::IntraCcx, DequeTier::Public));
}

#[test]
fn compact_jobref_is_two_words() {
    assert_eq!(
        core::mem::size_of::<CompactJobRef>(),
        16,
        "CompactJobRef must be 16 bytes"
    );
}

#[test]
fn push_single_then_flush_then_steal() {
    let (mut deque, stealer) = new_fcl(4);
    deque.push(job(7));
    assert!(matches!(stealer.steal(&mut deque), Steal::Empty));
    deque.flush();
    match stealer.steal(&mut deque) {
        Steal::Success(s) => {
            assert_eq!(s.n_items, 1);
            let ran = s.execute_all_lifo();
            assert_eq!(ran.len(), 1);
            assert_eq!(ran[0].data, 7);
        }
        other => panic!("expected Success, got {other:?}"),
    }
}

#[test]
fn buffer_fills_to_3_then_auto_flushes() {
    let (mut deque, stealer) = new_fcl(4);
    deque.push(job(1));
    deque.push(job(2));
    assert!(matches!(stealer.steal(&mut deque), Steal::Empty));
    deque.push(job(3));
    match stealer.steal(&mut deque) {
        Steal::Success(s) => {
            assert_eq!(s.n_items, 3);
            let ran: Vec<usize> = s.execute_all_lifo().iter().map(|j| j.data).collect();
            assert_eq!(ran, vec![3, 2, 1]);
        }
        other => panic!("expected Success, got {other:?}"),
    }
}

#[test]
fn owner_pop_drains_accumulator_first_lifo() {
    let (mut deque, _stealer) = new_fcl(4);
    deque.push(job(10));
    deque.push(job(20));
    match deque.pop() {
        Some(slot) => {
            assert_eq!(slot.n_items, 2);
            let ran: Vec<usize> = slot.execute_all_lifo().iter().map(|j| j.data).collect();
            assert_eq!(ran, vec![20, 10]);
        }
        None => panic!("expected Some(slot)"),
    }
    assert!(deque.pop().is_none());
}

#[test]
fn batched_push_then_steal_round_trip() {
    let (mut deque, stealer) = new_fcl(8);
    for i in 0..9 {
        deque.push(job(i));
    }
    let mut executed = 0;
    for _ in 0..3 {
        match stealer.steal(&mut deque) {
            Steal::Success(s) => {
                assert_eq!(s.n_items, 3);
                executed += s.n_items as usize;
                assert_eq!(s.execute_all_lifo().len(), 3);
            }
            other => panic!("expected Success, got {other:?}"),
        }
    }
    assert_eq!(executed, 9);
    assert!(matches!(stealer.steal(&mut deque), Steal::Empty));
}

#[test]
fn pop_serves_three_from_one_inner_burst() {
    let (mut w, _s) = FclWorker::new(4);
    w.push_burst(job(1));
    w.push_burst(job(2));
    w.push_burst(job(3));
    let p1 = w.pop().expect("first pop");
    let p2 = w.pop().expect("second pop");
    let p3 = w.pop().expect("third pop");
    let mut ran = vec![p1.data, p2.data, p3.data];
    ran.sort();
    assert_eq!(ran, vec![1, 2, 3]);
    assert!(w.pop().is_none());
}

#[test]
fn pending_counts_the_accumulator() {
    let (mut w, _s) = FclWorker::new(4);
    assert_eq!(w.pending_items(), 0);
    w.push_burst(job(1));
    assert_eq!(w.pending_items(), 1);
    w.push_burst(job(2));
    assert_eq!(w.pending_items(), 2);
    w.push_burst(job(3));
    assert_eq!(w.pending_items(), 0);
    assert_eq!(w.published_len(), 1);
}

#[test]
fn push_always_flushes_for_join_pattern() {
    let (mut w, s) = FclWorker::new(4);
    let mut stash = FclStash::empty();
    w.push(job(7));
    assert_eq!(w.published_len(), 1);
    assert_eq!(w.pending_items(), 0);
    match steal_via_stash(&s, &mut w, &mut stash) {
        FclSteal2::Success(j) => assert_eq!(j.data, 7),
        other => panic!("expected Success, got {other:?}"),
    }
    assert!(stash.is_empty());
}

#[test]
fn a_stolen_line_is_served_from_the_stash() {
    let (mut w, s) = FclWorker::new(4);
    let mut stash = FclStash::empty();
    for i in 1..4 {
        w.push_burst(job(i));
    }
    let mut seen = vec![];
    match steal_via_stash(&s, &mut w, &mut stash) {
        FclSteal2::Success(j) => seen.push(j.data),
        other => panic!("expected Success, got {other:?}"),
    }
    while let Some(j) = stash.drain_one() {
        seen.push(j.data);
    }
    assert_eq!(seen.len(), 3);
    seen.sort();
    assert_eq!(seen, vec![1, 2, 3]);
    assert!(w.pop().is_none());
}

#[test]
fn a_full_deque_hands_the_job_back() {
    let (mut w, _s) = FclWorker::new(2);
    assert!(w.try_push(job(1)).is_ok());
    assert!(w.try_push(job(2)).is_ok());
    assert!(!w.slot_free());
    assert_eq!(w.try_push(job(3)), Err(job(3)));
}
