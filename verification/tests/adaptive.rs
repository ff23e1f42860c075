use flynnel::adaptive_backend::{
    active_backend_id, decode_backend, encode_backend, migrate_backend, resolve_active_backend,
    ActiveBackend,
};
use flynnel::adaptive_cooperative::{
    active_cooperative_routing, cooperative_shape, migrate_cooperative_routing, ActiveCooperative,
    CooperativeRouting, CooperativeShape,
};
use flynnel::adaptive_variant_routing::{
    active_variant_routing, cpuid_default_routing, migrate_variant_routing,
    pick_variant_for_profile, ActiveVariant, BisectVariant, VariantRouting, Vendor,
    COMPUTE_BATCH_LARGE_N,
};
use flynnel::adaptive_worker::{new_adaptive, steal_via_stash, AdaptiveStash, AdaptiveSteal2};
use flynnel::backend::{Backend, BackendRegistry};
use flynnel::dispatch_profile::DispatchProfile;
use flynnel::job::JobRef;
use flynnel::k_gating::KGating;

#[test]
fn encode_decode_round_trip_all_variants() {
    let cases = [
        Backend::Cpu,
        Backend::Cuda { device_id: 0 },
        Backend::Cuda { device_id: 7 },
        Backend::Rocm { device_id: 1 },
        Backend::Metal { device_id: 2 },
        Backend::Tpu { device_id: 3 },
        Backend::Ane,
        Backend::Wasm { device_id: 4 },
        Backend::SharedMemoryWorker { backend_id: 5 },
        Backend::Custom(12345),
    ];
    for b in cases {
        let tag = encode_backend(b);
        let back = decode_backend(tag);
        assert_eq!(b, back, "round trip failed for {b:?} (tag={tag:#x})");
    }
}

#[test]
fn a_tag_keeps_the_low_24_bits_of_an_id() {
    let tag = encode_backend(Backend::Cuda { device_id: 0x0100_0005 });
    assert_eq!(decode_backend(tag), Backend::Cuda { device_id: 5 });
}

#[test]
fn default_active_is_cpu() {
    let active = ActiveBackend::new();
    assert_eq!(active_backend_id(&active), Backend::Cpu);
}

#[test]
fn migrate_changes_active() {
    let mut active = ActiveBackend::new();
    migrate_backend(&mut active, Backend::Cuda { device_id: 0 });
    assert_eq!(active_backend_id(&active), Backend::Cuda { device_id: 0 });
    migrate_backend(&mut active, Backend::Tpu { device_id: 3 });
    assert_eq!(active_backend_id(&active), Backend::Tpu { device_id: 3 });
    migrate_backend(&mut active, Backend::Cpu);
    assert_eq!(active_backend_id(&active), Backend::Cpu);
}

#[test]
fn resolve_falls_back_to_cpu_when_target_unregistered() {
    let mut active = ActiveBackend::new();
    let registry = BackendRegistry::new();
    migrate_backend(&mut active, Backend::Custom(0x00ABCDEF));
    let (resolved, fell_back) = resolve_active_backend(&active, &registry);
    assert!(fell_back, "should fall back to CPU when Custom unregistered");
    assert_eq!(resolved, Backend::Cpu);
}

#[test]
fn resolve_returns_active_when_registered() {
    let active = ActiveBackend::new();
    let registry = BackendRegistry::new();
    let (resolved, fell_back) = resolve_active_backend(&active, &registry);
    assert!(!fell_back);
    assert_eq!(resolved, Backend::Cpu);
}

#[test]
fn a_registered_backend_is_resolved() {
    let mut active = ActiveBackend::new();
    let mut registry = BackendRegistry::new();
    registry.register_backend(Backend::Cuda { device_id: 1 });
    assert!(registry.is_registered(Backend::Cuda { device_id: 1 }));
    assert!(!registry.is_registered(Backend::Cuda { device_id: 2 }));
    migrate_backend(&mut active, Backend::Cuda { device_id: 1 });
    let (resolved, fell_back) = resolve_active_backend(&active, &registry);
    assert!(!fell_back);
    assert_eq!(resolved, Backend::Cuda { device_id: 1 });
}

#[test]
fn default_active_routing_is_auto() {
    let active = ActiveCooperative::new();
    assert_eq!(active_cooperative_routing(&active), CooperativeRouting::Auto);
}

#[test]
fn adaptive_cooperative_migration_changes_active_routing() {
    let mut active = ActiveCooperative::new();

    migrate_cooperative_routing(&mut active, CooperativeRouting::ForceTree);
    assert_eq!(active_cooperative_routing(&active), CooperativeRouting::ForceTree);

    migrate_cooperative_routing(&mut active, CooperativeRouting::ForceMailbox);
    assert_eq!(active_cooperative_routing(&active), CooperativeRouting::ForceMailbox);

    migrate_cooperative_routing(&mut active, CooperativeRouting::ForceDeque);
    assert_eq!(active_cooperative_routing(&active), CooperativeRouting::ForceDeque);

    migrate_cooperative_routing(&mut active, CooperativeRouting::Auto);
    assert_eq!(active_cooperative_routing(&active), CooperativeRouting::Auto);
}

#[test]
fn default_routing_value_is_auto() {
    assert_eq!(CooperativeRouting::default(), CooperativeRouting::Auto);
}

#[test]
fn the_plan_decides_before_the_process_and_the_process_before_the_size() {
    let auto = CooperativeRouting::Auto;
    assert_eq!(
        cooperative_shape(4, CooperativeRouting::ForceDeque, CooperativeRouting::ForceTree, 8),
        CooperativeShape::FlatDeque
    );
    assert_eq!(
        cooperative_shape(4, auto, CooperativeRouting::ForceMailbox, 8),
        CooperativeShape::FlatMailbox
    );
    assert_eq!(cooperative_shape(7, auto, auto, 8), CooperativeShape::Tree);
    assert_eq!(cooperative_shape(8, auto, auto, 8), CooperativeShape::FlatMailbox);
}

#[test]
fn default_active_routing_resolves_from_cpuid() {
    for vendor in [Vendor::Amd, Vendor::Intel] {
        let active = ActiveVariant::new();
        assert_eq!(active_variant_routing(&active, vendor), cpuid_default_routing(vendor));
    }
}

#[test]
fn adaptive_variant_routing_migration_changes_active_routing() {
    let vendor = Vendor::Amd;
    let mut active = ActiveVariant::new();
    migrate_variant_routing(&mut active, VariantRouting::Default);
    assert_eq!(active_variant_routing(&active, vendor), VariantRouting::Default);
    migrate_variant_routing(&mut active, VariantRouting::ComputeBatchAdaptive);
    assert_eq!(active_variant_routing(&active, vendor), VariantRouting::ComputeBatchAdaptive);
    migrate_variant_routing(&mut active, VariantRouting::Auto);
    assert_eq!(active_variant_routing(&active, vendor), cpuid_default_routing(vendor));
}

#[test]
fn pick_variant_force_default_returns_none() {
    let v = Vendor::Amd;
    let mut active = ActiveVariant::new();
    migrate_variant_routing(&mut active, VariantRouting::Default);
    assert_eq!(pick_variant_for_profile(&active, v, DispatchProfile::PortBound, 10_000), None);
    assert_eq!(pick_variant_for_profile(&active, v, DispatchProfile::PortBound, 100_000), None);
    assert_eq!(pick_variant_for_profile(&active, v, DispatchProfile::LatencyBound, 100_000), None);
}

#[test]
fn pick_variant_amd_compute_picks_by_batch_size() {
    let v = Vendor::Intel;
    let mut active = ActiveVariant::new();
    migrate_variant_routing(&mut active, VariantRouting::ComputeBatchAdaptive);
    assert_eq!(
        pick_variant_for_profile(&active, v, DispatchProfile::PortBound, 10_000),
        Some(BisectVariant::RayonStyleReplenish)
    );
    assert_eq!(
        pick_variant_for_profile(&active, v, DispatchProfile::PortBound, COMPUTE_BATCH_LARGE_N),
        Some(BisectVariant::ProducerMaxLenWorkers)
    );
    assert_eq!(
        pick_variant_for_profile(&active, v, DispatchProfile::PortBound, 100_000),
        Some(BisectVariant::ProducerMaxLenWorkers)
    );
    assert_eq!(pick_variant_for_profile(&active, v, DispatchProfile::LatencyBound, 100_000), None);
    assert_eq!(pick_variant_for_profile(&active, v, DispatchProfile::MemoryBound, 100_000), None);
}

#[test]
fn cpuid_default_matches_host_vendor() {
    for vendor in [Vendor::Amd, Vendor::Intel] {
        let expected = match vendor {
            Vendor::Amd => VariantRouting::ComputeBatchAdaptive,
            _ => VariantRouting::Default,
        };
        assert_eq!(cpuid_default_routing(vendor), expected);
    }
}

fn job(data: usize) -> JobRef {
    JobRef::new(data, 1, 4, 0, 0)
}

#[test]
fn default_starts_on_khl() {
    let (w, _s) = new_adaptive(4, KGating::PerSlot);
    assert_eq!(w.active_gating(), KGating::PerSlot);
}

#[test]
fn explicit_counter_only_starts_on_fcl() {
    let (w, _s) = new_adaptive(4, KGating::CounterOnly);
    assert_eq!(w.active_gating(), KGating::CounterOnly);
}

#[test]
fn migrate_flips_active_tag() {
    let (mut w, _s) = new_adaptive(4, KGating::PerSlot);
    assert_eq!(w.active_gating(), KGating::PerSlot);
    w.migrate_to(KGating::CounterOnly);
    assert_eq!(w.active_gating(), KGating::CounterOnly);
    w.migrate_to(KGating::PerSlot);
    assert_eq!(w.active_gating(), KGating::PerSlot);
}

#[test]
fn push_pop_round_trip_on_khl() {
    let (mut w, _s) = new_adaptive(4, KGating::PerSlot);
    let values = [0u32, 42];
    w.push(job(1));
    let popped = w.pop().expect("pop returns the pushed item");
    assert_eq!(popped, job(1));
    assert_eq!(values[popped.data], 42);
}

#[test]
fn push_pop_round_trip_on_fcl() {
    let (mut w, _s) = new_adaptive(4, KGating::CounterOnly);
    let values = [0u32, 99];
    w.push(job(1));
    let popped = w.pop().expect("pop returns the pushed item");
    assert_eq!(popped, job(1));
    assert_eq!(values[popped.data], 99);
}

#[test]
fn pending_follows_the_active_accumulator() {
    let (mut w, _s) = new_adaptive(4, KGating::CounterOnly);
    w.push_burst(job(1));
    w.push_burst(job(2));
    assert_eq!(w.pending_items(), 2);
    let (mut w, _s) = new_adaptive(4, KGating::PerSlot);
    w.push_burst(job(1));
    assert_eq!(w.pending_items(), 1);
}

#[test]
fn migration_preserves_orphan_items() {
    let (mut w, _s) = new_adaptive(4, KGating::PerSlot);
    w.push(job(1));
    w.migrate_to(KGating::CounterOnly);
    w.push(job(2));
    let p1 = w.pop().expect("first pop from active Fcl");
    let p2 = w.pop().expect("second pop from dormant KHL");
    assert_eq!((p1.data, p2.data), (2, 1));
    assert!(w.pop().is_none());
}

#[test]
fn stealer_observes_migration() {
    let (mut w, s) = new_adaptive(4, KGating::PerSlot);
    let mut stash = AdaptiveStash::empty();
    w.push(job(5));
    match steal_via_stash(&s, &mut w, &mut stash) {
        AdaptiveSteal2::Success(jr) => assert_eq!(jr.data, 5),
        _ => panic!("expected Success"),
    }
}

#[test]
fn a_dormant_backing_stays_visible_until_it_is_empty() {
    let (mut w, s) = new_adaptive(4, KGating::PerSlot);
    let mut stash = AdaptiveStash::empty();
    w.push(job(1));
    w.push(job(2));
    w.migrate_to(KGating::CounterOnly);
    assert!(!w.is_empty());
    let mut seen = vec![];
    while let AdaptiveSteal2::Success(j) = steal_via_stash(&s, &mut w, &mut stash) {
        seen.push(j.data);
    }
    while let Some(j) = stash.drain_one() {
        seen.push(j.data);
    }
    seen.sort();
    assert_eq!(seen, vec![1, 2]);
    assert!(w.pop().is_none());
}
