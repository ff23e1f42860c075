use flynnel::adaptive_profile::{
    active_dispatch_profile, active_workload_class, calibrate_class_thresholds_into,
    class_bucket_distance, class_tag_decode, class_tag_encode, classify_observed,
    infer_class_static, infer_class_static_with_shape, leaf_cv2, migrate_dispatch_profile,
    migrate_workload_class, reset_auto_classify_state, spawn_class_threshold_calibration,
    CalibrationProbes, ClassThresholds, LeafShape, ProfileState, WorkloadClass,
    AUTO_MIGRATION_HYSTERESIS,
};
use flynnel::dispatch_profile::DispatchProfile;
use flynnel::io_pool::IoPool;
use flynnel::split_observer::{leaf_cv_squared_per_mille, record_leaf_batch};

fn probes(join_ns: u64, reduce: u64, off: u64, on: u64) -> CalibrationProbes {
    CalibrationProbes {
        join_samples: vec![join_ns; 64],
        reduce_cycles: vec![reduce; 16],
        smt_off_ns: off,
        smt_on_ns: on,
    }
}

#[test]
fn threshold_calibration_installs_clamped_values() {
    for p in [probes(0, 0, 0, 0), probes(700, 900, 100, 90), probes(1 << 40, 1 << 40, 1, 1 << 30)] {
        let mut local = ClassThresholds::new_defaults();
        let report = calibrate_class_thresholds_into(&mut local, &p);
        assert!(
            (25..=200).contains(&report.fine_grain_ns),
            "fine_grain_ns {} outside clamp band",
            report.fine_grain_ns
        );
        assert!(
            (5_000..=200_000).contains(&report.trivial_reduce_cycles),
            "trivial_reduce_cycles {} outside clamp band",
            report.trivial_reduce_cycles
        );
        assert!(
            (1_000..=4_000).contains(&report.memory_latency_ns),
            "memory_latency_ns {} outside clamp band",
            report.memory_latency_ns
        );
        assert_eq!(local.fine_grain_ns, report.fine_grain_ns);
        assert_eq!(local.trivial_reduce_cycles, report.trivial_reduce_cycles);
        assert_eq!(local.memory_latency_ns, report.memory_latency_ns);
    }
}

#[test]
fn workload_class_maps_to_dispatch_profile() {
    assert_eq!(WorkloadClass::FineGrain.to_dispatch_profile(), DispatchProfile::PortBound);
    assert_eq!(WorkloadClass::PortBound.to_dispatch_profile(), DispatchProfile::PortBound);
    assert_eq!(WorkloadClass::LatencyBound.to_dispatch_profile(), DispatchProfile::LatencyBound);
    assert_eq!(WorkloadClass::MemoryBound.to_dispatch_profile(), DispatchProfile::MemoryBound);
    assert_eq!(WorkloadClass::Streaming.to_dispatch_profile(), DispatchProfile::Streaming);
}

#[test]
fn migration_changes_active_profile() {
    let mut s = ProfileState::new();
    let initial = active_dispatch_profile(&s);
    assert!(
        matches!(initial, DispatchProfile::PortBound),
        "default expected PortBound, got {initial:?}"
    );

    migrate_dispatch_profile(&mut s, DispatchProfile::LatencyBound);
    assert_eq!(active_dispatch_profile(&s), DispatchProfile::LatencyBound);

    migrate_dispatch_profile(&mut s, DispatchProfile::MemoryBound);
    assert_eq!(active_dispatch_profile(&s), DispatchProfile::MemoryBound);

    migrate_dispatch_profile(&mut s, DispatchProfile::Streaming);
    assert_eq!(active_dispatch_profile(&s), DispatchProfile::Streaming);

    migrate_dispatch_profile(&mut s, DispatchProfile::PortBound);
    assert_eq!(active_dispatch_profile(&s), DispatchProfile::PortBound);
}

fn observed(mean_ns: u64, cv2: u64) -> WorkloadClass {
    classify_observed(&ClassThresholds::new_defaults(), mean_ns, cv2)
}

#[test]
fn classifier_picks_fine_grain_for_tiny_leaves() {
    assert_eq!(observed(10, 0), WorkloadClass::FineGrain);
    assert_eq!(observed(49, 1000), WorkloadClass::FineGrain);
}

#[test]
fn classifier_picks_port_bound_for_medium_leaves() {
    assert_eq!(observed(100, 10), WorkloadClass::PortBound);
    assert_eq!(observed(499, 5000), WorkloadClass::PortBound);
}

#[test]
fn classifier_picks_streaming_for_heavy_uniform_leaves() {
    assert_eq!(observed(500, 0), WorkloadClass::Streaming);
    assert_eq!(observed(10_000, 49), WorkloadClass::Streaming);
}

#[test]
fn classifier_picks_memory_bound_for_heavy_moderate_variance() {
    assert_eq!(observed(500, 100), WorkloadClass::MemoryBound);
    assert_eq!(observed(2000, 499), WorkloadClass::MemoryBound);
}

#[test]
fn classifier_picks_latency_bound_for_heavy_high_variance() {
    assert_eq!(observed(500, 500), WorkloadClass::LatencyBound);
    assert_eq!(observed(5000, 10_000), WorkloadClass::LatencyBound);
}

fn inferred(k_outer: u8, batch: u32, hint: Option<u32>) -> WorkloadClass {
    infer_class_static(&ClassThresholds::new_defaults(), k_outer, batch, hint)
}

#[test]
fn static_classifier_picks_streaming_for_big_byte_scan() {
    assert_eq!(inferred(6, 16 * 1024 * 1024, Some(1)), WorkloadClass::Streaming);
}

#[test]
fn static_classifier_picks_streaming_for_big_image() {
    assert_eq!(inferred(6, 2048 * 2048, Some(10)), WorkloadClass::Streaming);
}

#[test]
fn static_classifier_picks_port_bound_for_medium_per_item() {
    assert_eq!(inferred(6, 100 * 1024, Some(100)), WorkloadClass::PortBound);
}

#[test]
fn static_classifier_picks_memory_bound_for_heavy_per_item() {
    assert_eq!(inferred(6, 1024, Some(600)), WorkloadClass::MemoryBound);
}

#[test]
fn static_classifier_picks_fine_grain_for_tiny_total() {
    assert_eq!(inferred(6, 100, Some(10)), WorkloadClass::FineGrain);
}

#[test]
fn static_classifier_picks_latency_for_high_precision_tier() {
    assert_eq!(inferred(12, 1024, None), WorkloadClass::LatencyBound);
}

#[test]
fn static_classifier_picks_streaming_for_low_tier_large_batch() {
    assert_eq!(inferred(2, 100_000, None), WorkloadClass::Streaming);
}

#[test]
fn static_classifier_falls_back_to_port_bound_when_unsure() {
    assert_eq!(inferred(6, 1024, None), WorkloadClass::PortBound);
}

#[test]
fn static_classifier_follows_the_estimate() {
    assert_eq!(inferred(6, 10, Some(100)), WorkloadClass::PortBound);
    assert_eq!(inferred(6, 10, Some(600)), WorkloadClass::MemoryBound);
    assert_eq!(inferred(6, 1, Some(1_999)), WorkloadClass::MemoryBound);
    assert_eq!(inferred(6, 1, Some(2_000)), WorkloadClass::LatencyBound);
    assert_eq!(inferred(6, 65_535, Some(49)), WorkloadClass::FineGrain);
    assert_eq!(inferred(6, 65_536, Some(49)), WorkloadClass::Streaming);
    assert_eq!(inferred(6, u32::MAX, Some(0)), WorkloadClass::FineGrain);
}

#[test]
fn small_batches_without_an_estimate_are_port_bound() {
    assert_eq!(inferred(5, 16, None), WorkloadClass::PortBound);
    assert_eq!(inferred(3, 16_383, None), WorkloadClass::PortBound);
    assert_eq!(inferred(3, 16_384, None), WorkloadClass::Streaming);
    assert_eq!(inferred(7, 16, None), WorkloadClass::LatencyBound);
}

#[test]
fn a_declared_shape_wins_over_the_static_guess() {
    let t = ClassThresholds::new_defaults();
    assert_eq!(
        infer_class_static_with_shape(&t, 6, 100, Some(10), LeafShape::Streaming),
        WorkloadClass::Streaming
    );
    assert_eq!(
        infer_class_static_with_shape(&t, 6, 1, Some(5_000), LeafShape::Gather),
        WorkloadClass::MemoryBound
    );
    assert_eq!(
        infer_class_static_with_shape(&t, 12, 1024, None, LeafShape::PortCompute),
        WorkloadClass::PortBound
    );
    assert_eq!(
        infer_class_static_with_shape(&t, 12, 1024, None, LeafShape::Unknown),
        WorkloadClass::LatencyBound
    );
}

#[test]
fn auto_classify_migrates_after_hysteresis() {
    let mut s = ProfileState::new();
    reset_auto_classify_state(&mut s);
    migrate_dispatch_profile(&mut s, DispatchProfile::PortBound);
    assert_eq!(active_workload_class(&s), WorkloadClass::PortBound);

    let sample_ns: u64 = 1000;
    let count: u64 = 64;
    let scaled = sample_ns >> 8;
    let sumsq = scaled.saturating_mul(scaled).saturating_mul(count);
    for _ in 0..AUTO_MIGRATION_HYSTERESIS {
        record_leaf_batch(&mut s, sample_ns * count, sumsq, count);
    }
    assert_eq!(
        active_workload_class(&s),
        WorkloadClass::Streaming,
        "auto-classifier did not migrate after {} consecutive Streaming observations",
        AUTO_MIGRATION_HYSTERESIS,
    );
}

#[test]
fn auto_classify_does_not_migrate_on_a_single_outlier() {
    let mut s = ProfileState::new();
    reset_auto_classify_state(&mut s);
    migrate_dispatch_profile(&mut s, DispatchProfile::PortBound);

    let sample_ns: u64 = 1000;
    let count: u64 = 64;
    let scaled = sample_ns >> 8;
    let sumsq = scaled.saturating_mul(scaled).saturating_mul(count);
    record_leaf_batch(&mut s, sample_ns * count, sumsq, count);
    assert_eq!(
        active_workload_class(&s),
        WorkloadClass::PortBound,
        "auto-classifier migrated on a single observation; hysteresis broken",
    );
}

#[test]
fn workload_class_migration_propagates() {
    let mut s = ProfileState::new();
    migrate_workload_class(&mut s, WorkloadClass::LatencyBound);
    assert_eq!(active_dispatch_profile(&s), DispatchProfile::LatencyBound);
    assert_eq!(active_workload_class(&s), WorkloadClass::LatencyBound);

    migrate_workload_class(&mut s, WorkloadClass::MemoryBound);
    assert_eq!(active_dispatch_profile(&s), DispatchProfile::MemoryBound);
    assert_eq!(active_workload_class(&s), WorkloadClass::MemoryBound);
}

#[test]
fn class_tags_read_back() {
    for c in [
        WorkloadClass::FineGrain,
        WorkloadClass::PortBound,
        WorkloadClass::LatencyBound,
        WorkloadClass::MemoryBound,
        WorkloadClass::Streaming,
    ] {
        assert_eq!(class_tag_decode(class_tag_encode(c)), Some(c));
        assert_eq!(class_bucket_distance(c, c), 0);
    }
    assert_eq!(class_tag_decode(200), None);
}

#[test]
fn equal_leaves_have_no_spread() {
    // 64 leaves of 1024 ns: the scaled square of each is 16.
    assert_eq!(leaf_cv2(64 * 1024, 64 * 16, 64), 0);
    let mut s = ProfileState::new();
    assert_eq!(leaf_cv_squared_per_mille(&s.leaves), None);
    record_leaf_batch(&mut s, 64 * 1024, 64 * 16, 64);
    assert_eq!(leaf_cv_squared_per_mille(&s.leaves), Some(0));
}

#[test]
fn a_disabled_pool_takes_no_calibration() {
    let mut off = IoPool::new(false);
    spawn_class_threshold_calibration(&mut off, || {});
    assert_eq!(off.len(), 0);
    let mut on = IoPool::new(true);
    spawn_class_threshold_calibration(&mut on, || {});
    assert_eq!(on.len(), 1);
}
