use flynnel::flynnel_ring::{slot_verdict, FlynnelRing, PopResult, PushResult, SlotVerdict};
use flynnel::flynnel_ring_composed::{
    new_composed_mpmc, new_composed_mpsc, ComposedPopResult, ComposedPushResult, GridPopResult,
    GridPushResult,
};
use flynnel::flynnel_ring_mpsc::{new_mpsc, MpscPopResult, MpscPushResult};
use flynnel::flynnel_ring_spsc::{new_spsc, SpscPopResult, SpscPushResult};
use std::sync::atomic::{AtomicUsize, Ordering};

struct DropCount<'a>(&'a AtomicUsize);

impl Drop for DropCount<'_> {
    fn drop(&mut self) {
        self.0.fetch_add(1, Ordering::Relaxed);
    }
}

#[test]
fn push_pop_single_threaded() {
    let mut r = FlynnelRing::<u32>::new(8);
    assert!(matches!(r.push(1), PushResult::Pushed));
    assert!(matches!(r.push(2), PushResult::Pushed));
    assert!(matches!(r.push(3), PushResult::Pushed));
    assert!(matches!(r.pop(), PopResult::Popped(1)));
    assert!(matches!(r.pop(), PopResult::Popped(2)));
    assert!(matches!(r.pop(), PopResult::Popped(3)));
    assert!(matches!(r.pop(), PopResult::Empty));
}

#[test]
fn flynnel_ring_capacity_rounds_to_power_of_two() {
    let r = FlynnelRing::<u32>::new(5);
    assert_eq!(r.capacity(), 8);
    let r0 = FlynnelRing::<u32>::new(0);
    assert_eq!(r0.capacity(), 2);
}

#[test]
fn flynnel_ring_full_returns_item_back() {
    let mut r = FlynnelRing::<u32>::new(2);
    assert!(matches!(r.push(1), PushResult::Pushed));
    assert!(matches!(r.push(2), PushResult::Pushed));
    match r.push(3) {
        PushResult::Full(v) => assert_eq!(v, 3),
        _ => panic!("expected Full"),
    }
}

#[test]
fn flynnel_ring_empty_pop_returns_empty() {
    let mut r = FlynnelRing::<u32>::new(4);
    assert!(matches!(r.pop(), PopResult::Empty));
}

#[test]
fn flynnel_ring_drop_runs_destructors_for_unclaimed_slots() {
    let count = AtomicUsize::new(0);
    {
        let mut r = FlynnelRing::<DropCount<'_>>::new(4);
        assert!(matches!(r.push(DropCount(&count)), PushResult::Pushed));
        assert!(matches!(r.push(DropCount(&count)), PushResult::Pushed));
        assert!(matches!(r.push(DropCount(&count)), PushResult::Pushed));
    }
    assert_eq!(count.load(Ordering::Relaxed), 3);
}

#[test]
fn a_ring_keeps_order_over_many_laps() {
    let mut r = FlynnelRing::<u32>::new(4);
    let mut next_in = 0u32;
    let mut next_out = 0u32;
    for lap in 0..100u32 {
        for _ in 0..(lap % 4 + 1) {
            if let PushResult::Pushed = r.push(next_in) {
                next_in += 1;
            }
        }
        for _ in 0..(lap % 3 + 1) {
            if let PopResult::Popped(v) = r.pop() {
                assert_eq!(v, next_out);
                next_out += 1;
            }
        }
        assert_eq!(r.len(), (next_in - next_out) as usize);
    }
}

#[test]
fn a_slot_is_claimed_only_at_its_own_turn() {
    assert_eq!(slot_verdict(7, 7), SlotVerdict::Claim);
    assert_eq!(slot_verdict(6, 7), SlotVerdict::Blocked);
    assert_eq!(slot_verdict(8, 7), SlotVerdict::Reload);
    assert_eq!(slot_verdict(u64::MAX, 0), SlotVerdict::Blocked);
}

#[test]
fn push_pop_round_trip_single_producer() {
    let mut composed = new_composed_mpsc::<u32>(1, 8);
    let p = &composed.producers[0];
    let c = &mut composed.consumer;
    assert!(matches!(p.push_composed(c.ring_mut(0), 1), ComposedPushResult::Pushed));
    assert!(matches!(p.push_composed(c.ring_mut(0), 2), ComposedPushResult::Pushed));
    assert!(matches!(c.pop(), ComposedPopResult::Popped(1)));
    assert!(matches!(c.pop(), ComposedPopResult::Popped(2)));
    assert!(matches!(c.pop(), ComposedPopResult::Empty));
}

#[test]
fn round_robin_drains_fairly() {
    let mut composed = new_composed_mpsc::<u32>(3, 8);
    let p0 = &composed.producers[0];
    let p1 = &composed.producers[1];
    let p2 = &composed.producers[2];
    let c = &mut composed.consumer;
    assert!(p0.push_composed(c.ring_mut(0), 100).is_ok());
    assert!(p1.push_composed(c.ring_mut(1), 200).is_ok());
    assert!(p2.push_composed(c.ring_mut(2), 300).is_ok());
    assert!(matches!(c.pop(), ComposedPopResult::Popped(100)));
    assert!(matches!(c.pop(), ComposedPopResult::Popped(200)));
    assert!(matches!(c.pop(), ComposedPopResult::Popped(300)));
    assert!(matches!(c.pop(), ComposedPopResult::Empty));
}

#[test]
fn two_producers_take_turns() {
    let mut composed = new_composed_mpsc::<u32>(2, 8);
    let c = &mut composed.consumer;
    for (who, items) in [(0, [1, 2]), (1, [10, 20])] {
        for item in items {
            assert!(composed.producers[who].push_composed(c.ring_mut(who), item).is_ok());
        }
    }
    for expected in [1, 10, 2, 20] {
        assert_eq!(c.pop(), ComposedPopResult::Popped(expected));
    }
    assert_eq!(c.pop(), ComposedPopResult::Empty);
}

#[test]
fn per_producer_fifo_preserved() {
    let mut composed = new_composed_mpsc::<(u32, u32)>(2, 8);
    let p0 = &composed.producers[0];
    let p1 = &composed.producers[1];
    let c = &mut composed.consumer;
    for i in 0..3 {
        p0.push_composed(c.ring_mut(0), (0, i)).ok();
    }
    for i in 0..3 {
        p1.push_composed(c.ring_mut(1), (1, i)).ok();
    }
    let mut from_p0 = Vec::new();
    let mut from_p1 = Vec::new();
    while let ComposedPopResult::Popped((pid, val)) = c.pop() {
        match pid {
            0 => from_p0.push(val),
            1 => from_p1.push(val),
            _ => panic!("unexpected pid {pid}"),
        }
    }
    assert_eq!(from_p0, vec![0, 1, 2], "producer 0 FIFO broken");
    assert_eq!(from_p1, vec![0, 1, 2], "producer 1 FIFO broken");
}

#[test]
fn flynnel_ring_composed_full_returns_item_back() {
    let mut composed = new_composed_mpsc::<u32>(2, 2);
    let p0 = &composed.producers[0];
    let c = &mut composed.consumer;
    assert!(matches!(p0.push_composed(c.ring_mut(0), 1), ComposedPushResult::Pushed));
    assert!(matches!(p0.push_composed(c.ring_mut(0), 2), ComposedPushResult::Pushed));
    match p0.push_composed(c.ring_mut(0), 3) {
        ComposedPushResult::Full(v) => assert_eq!(v, 3),
        _ => panic!("expected Full"),
    }
}

#[test]
fn mpmc_grid_single_pair_round_trip() {
    let mut grid = new_composed_mpmc::<u32>(1, 1, 8);
    assert!(matches!(
        grid.producers[0].push(&mut grid.consumers, 42),
        GridPushResult::Pushed
    ));
    assert!(matches!(grid.consumers[0].pop(), GridPopResult::Popped(42)));
    assert!(matches!(grid.consumers[0].pop(), GridPopResult::Empty));
}

#[test]
fn mpmc_grid_producer_round_robins_across_consumers() {
    let mut grid = new_composed_mpmc::<u32>(1, 3, 4);
    let p = &mut grid.producers[0];
    p.push(&mut grid.consumers, 10).ok();
    p.push(&mut grid.consumers, 20).ok();
    p.push(&mut grid.consumers, 30).ok();
    assert!(matches!(grid.consumers[0].pop(), GridPopResult::Popped(10)));
    assert!(matches!(grid.consumers[1].pop(), GridPopResult::Popped(20)));
    assert!(matches!(grid.consumers[2].pop(), GridPopResult::Popped(30)));
    assert!(matches!(grid.consumers[0].pop(), GridPopResult::Empty));
}

#[test]
fn mpmc_grid_consumer_round_robins_across_producers() {
    let mut grid = new_composed_mpmc::<u32>(3, 1, 4);
    grid.producers[0].push(&mut grid.consumers, 100).ok();
    grid.producers[1].push(&mut grid.consumers, 200).ok();
    grid.producers[2].push(&mut grid.consumers, 300).ok();
    let c = &mut grid.consumers[0];
    assert!(matches!(c.pop(), GridPopResult::Popped(100)));
    assert!(matches!(c.pop(), GridPopResult::Popped(200)));
    assert!(matches!(c.pop(), GridPopResult::Popped(300)));
    assert!(matches!(c.pop(), GridPopResult::Empty));
}

#[test]
fn mpmc_grid_full_returns_item_back() {
    let mut grid = new_composed_mpmc::<u32>(1, 1, 2);
    let p = &mut grid.producers[0];
    assert!(p.push(&mut grid.consumers, 1).is_ok());
    assert!(p.push(&mut grid.consumers, 2).is_ok());
    match p.push(&mut grid.consumers, 3) {
        GridPushResult::Full(v) => assert_eq!(v, 3),
        _ => panic!("expected Full"),
    }
}

#[test]
fn a_full_consumer_is_passed_over() {
    let mut grid = new_composed_mpmc::<u32>(1, 2, 2);
    let p = &mut grid.producers[0];
    for i in 0..4 {
        assert!(p.push(&mut grid.consumers, i).is_ok());
    }
    assert!(matches!(grid.consumers[1].pop(), GridPopResult::Popped(1)));
    // The first consumer is full, the second has room.
    assert!(p.push(&mut grid.consumers, 9).is_ok());
    assert!(matches!(grid.consumers[1].pop(), GridPopResult::Popped(3)));
    assert!(matches!(grid.consumers[1].pop(), GridPopResult::Popped(9)));
}

#[test]
fn flynnel_ring_mpsc_push_pop_single_thread() {
    let (p, mut c) = new_mpsc::<u32>(8);
    assert!(matches!(p.push(&mut c, 1), MpscPushResult::Pushed));
    assert!(matches!(p.push(&mut c, 2), MpscPushResult::Pushed));
    assert!(matches!(p.push(&mut c, 3), MpscPushResult::Pushed));
    assert!(matches!(c.pop(), MpscPopResult::Popped(1)));
    assert!(matches!(c.pop(), MpscPopResult::Popped(2)));
    assert!(matches!(c.pop(), MpscPopResult::Popped(3)));
    assert!(matches!(c.pop(), MpscPopResult::Empty));
}

#[test]
fn flynnel_ring_mpsc_full_returns_item_back() {
    let (p, mut c) = new_mpsc::<u32>(2);
    assert!(matches!(p.push(&mut c, 1), MpscPushResult::Pushed));
    assert!(matches!(p.push(&mut c, 2), MpscPushResult::Pushed));
    match p.push(&mut c, 3) {
        MpscPushResult::Full(v) => assert_eq!(v, 3),
        _ => panic!("expected Full"),
    }
}

#[test]
fn flynnel_ring_mpsc_drop_runs_destructors_for_unclaimed_slots() {
    let count = AtomicUsize::new(0);
    {
        let (p, mut c) = new_mpsc::<DropCount<'_>>(4);
        assert!(matches!(p.push(&mut c, DropCount(&count)), MpscPushResult::Pushed));
        assert!(matches!(p.push(&mut c, DropCount(&count)), MpscPushResult::Pushed));
        assert!(matches!(p.push(&mut c, DropCount(&count)), MpscPushResult::Pushed));
    }
    assert_eq!(count.load(Ordering::Relaxed), 3);
}

#[test]
fn flynnel_ring_spsc_push_pop_single_thread() {
    let (p, mut c) = new_spsc::<u32>(8);
    assert!(matches!(p.push(&mut c, 1), SpscPushResult::Pushed));
    assert!(matches!(p.push(&mut c, 2), SpscPushResult::Pushed));
    assert!(matches!(p.push(&mut c, 3), SpscPushResult::Pushed));
    assert!(matches!(c.pop(), SpscPopResult::Popped(1)));
    assert!(matches!(c.pop(), SpscPopResult::Popped(2)));
    assert!(matches!(c.pop(), SpscPopResult::Popped(3)));
    assert!(matches!(c.pop(), SpscPopResult::Empty));
}

#[test]
fn flynnel_ring_spsc_full_returns_item_back() {
    let (p, mut c) = new_spsc::<u32>(2);
    assert!(matches!(p.push(&mut c, 1), SpscPushResult::Pushed));
    assert!(matches!(p.push(&mut c, 2), SpscPushResult::Pushed));
    match p.push(&mut c, 3) {
        SpscPushResult::Full(v) => assert_eq!(v, 3),
        _ => panic!("expected Full"),
    }
}

#[test]
fn flynnel_ring_spsc_drop_runs_destructors_for_unclaimed_slots() {
    let count = AtomicUsize::new(0);
    {
        let (p, mut c) = new_spsc::<DropCount<'_>>(4);
        assert!(matches!(p.push(&mut c, DropCount(&count)), SpscPushResult::Pushed));
        assert!(matches!(p.push(&mut c, DropCount(&count)), SpscPushResult::Pushed));
        assert!(matches!(p.push(&mut c, DropCount(&count)), SpscPushResult::Pushed));
    }
    assert_eq!(count.load(Ordering::Relaxed), 3);
}

#[test]
fn flynnel_ring_spsc_capacity_rounds_to_power_of_two() {
    let (p, mut c) = new_spsc::<u32>(5);
    for i in 0..8 {
        assert!(
            matches!(p.push(&mut c, i), SpscPushResult::Pushed),
            "should fit 8 items (5 rounded to 8)"
        );
    }
    match p.push(&mut c, 99) {
        SpscPushResult::Full(_) => {}
        _ => panic!("9th push should be Full"),
    }
}
