use flynnel::calibration_store::{
    calibration_dir, fnv1a_64, now_unix_s, sample_spread_per_mille, table_path, AccelCalibration,
    AccelKind, CalibrationStore, CpuCalibration, HostStamp, LeaseLook, StoreError, WaveCostRecord,
    ACCEL_DOORBELL_OK, ACCEL_SYS_ATOMICS_OK, ACCEL_TIMED_LOCK_OK, FILE_SIZE, LAYOUT_VERSION,
    PROVISIONAL_SPREAD_PER_MILLE,
};
use flynnel::seqlock::{copy_is_whole, may_copy};

fn stamp(primary: u32, total: u32) -> HostStamp {
    HostStamp {
        vendor: "TestVendor".to_string(),
        cpuid_signature: 0x000A_0671,
        arch: "test-arch",
        os: "test-os",
        primary_workers: primary,
        total_workers: total,
        layout_version: LAYOUT_VERSION,
    }
}

fn sample_cpu() -> CpuCalibration {
    CpuCalibration {
        dispatch_cost_ns: 1_000,
        collapse_threshold_ns: 70_000,
        jec_wake_threshold_ns: 40_000,
        measured_unix_s: now_unix_s(Some(1_700_000_000)),
        spread_per_mille: 41,
        samples: 9,
    }
}

fn create(s: &HostStamp) -> CalibrationStore {
    CalibrationStore::open_or_create(&vec![], s).expect("create")
}

#[test]
fn a_fresh_table_offers_a_record_nothing_will_use() {
    let store = create(&stamp(12, 24));
    let (cpu, accel) = store.read().expect("a fresh table reads back");
    assert_eq!(cpu.samples, 0, "nothing has been measured into it");
    assert!(!cpu.is_trustworthy(), "so a caller must measure rather than take this");
    assert!(accel.is_empty(), "and it describes no devices");
}

#[test]
fn a_published_record_reads_back_whole() {
    let mut store = create(&stamp(12, 24));
    let cpu = sample_cpu();
    let accel = vec![AccelCalibration::new(
        AccelKind::GpuPeer,
        0,
        89,
        46,
        2_505_000,
        12_282,
        ACCEL_DOORBELL_OK | ACCEL_TIMED_LOCK_OK,
        3_000,
        3_400,
        3_700,
        1_970,
        120,
        19_700,
        41_000,
    )];
    let w = store.try_acquire_writer(1).expect("no other writer");
    w.beat(&mut store);
    w.publish(&mut store, &cpu, &accel);
    w.release(&mut store);
    let (got_cpu, got_accel) = store.read().expect("a published record reads back");
    assert_eq!(got_cpu, cpu, "the CPU record survives the round trip");
    assert_eq!(got_accel.len(), 1, "one device was published");
    assert_eq!(got_accel[0], accel[0], "the device record survives too");
    assert!(got_cpu.is_trustworthy(), "41 per mille is a quiet host");
    assert!(
        got_accel[0].is_trustworthy(),
        "a round trip of 3000/3400/3700 is a device nothing else is resident on"
    );
    assert!(
        got_accel[0].has(ACCEL_DOORBELL_OK) && got_accel[0].has(ACCEL_TIMED_LOCK_OK),
        "the capability bits survive the round trip"
    );
    assert!(
        !got_accel[0].has(ACCEL_SYS_ATOMICS_OK),
        "a bit that was not set does not read as set"
    );
}

#[test]
fn a_device_timed_under_load_is_not_trustworthy() {
    let quiet = AccelCalibration::new(
        AccelKind::GpuPeer, 0, 89, 46, 2_505_000, 12_282,
        ACCEL_DOORBELL_OK, 3_000, 3_400, 3_700, 1_970, 120, 19_700, 41_000,
    );
    let loaded = AccelCalibration::new(
        AccelKind::GpuPeer, 0, 89, 46, 2_505_000, 12_282,
        ACCEL_DOORBELL_OK, 3_000, 3_400, 9_400, 4_820, 120, 48_200, 41_000,
    );
    assert!(quiet.is_trustworthy(), "a tight distribution describes the device");
    assert!(
        !loaded.is_trustworthy(),
        "a p99 nearly three times the minimum describes what else was running"
    );
    assert!(
        !AccelCalibration::default().is_trustworthy(),
        "an empty slot describes no device at all"
    );
}

#[test]
fn wave_costs_ride_the_device_record_through_a_round_trip() {
    let mut store = create(&stamp(12, 24));
    let wave = WaveCostRecord {
        width: 32,
        barrier_ns: 2_100,
        fixed_ns: 180_000,
        segment_ps: 450,
        copy_ps_per_id: 1_900,
        skew_ns: 490_000,
        rebalance_fixed_ns: 5_200,
        generation_ns: 1_800,
    };
    let device = AccelCalibration::new(
        AccelKind::GpuPeer, 0, 120, 48, 2_505_000, 12_227,
        ACCEL_DOORBELL_OK, 3_000, 3_400, 3_700, 1_970, 120, 19_700, 41_000,
    );
    assert_eq!(device.wave(), None, "a device record starts with no wave costs");
    let carried = device.with_wave(wave);
    let w = store.try_acquire_writer(1).expect("no other writer");
    w.publish(&mut store, &sample_cpu(), &vec![carried]);
    w.release(&mut store);
    let (_cpu, accel) = store.read().expect("a published record reads back");
    assert_eq!(accel[0].wave(), Some(wave), "the wave costs survive the round trip");
    assert_eq!(accel[0].rtt_median_ns, 3_400, "and leave the device timings as they were");
}

#[test]
fn a_second_process_reads_what_the_first_published() {
    let s = stamp(12, 24);
    let cpu = sample_cpu();
    let bytes = {
        let mut store = create(&s);
        let w = store.try_acquire_writer(1).expect("no other writer");
        w.publish(&mut store, &cpu, &vec![]);
        w.release(&mut store);
        store.to_bytes()
    };
    let reopened = CalibrationStore::open_or_create(&bytes, &s).expect("attach");
    let (got, accel) = reopened.read().expect("the record persists across handles");
    assert_eq!(got, cpu, "a later attach reads the published record");
    assert!(accel.is_empty(), "no devices were published");
}

#[test]
fn a_different_stamp_is_a_different_table() {
    let dir = "/tmp/cal";
    let a = stamp(12, 24);
    let b = stamp(8, 16);
    assert_ne!(a.hash(), b.hash(), "core counts change the stamp");
    assert_ne!(
        table_path(dir, &a),
        table_path(dir, &b),
        "a different stamp names a different file, so neither reads the other's numbers"
    );
}

#[test]
fn a_table_of_another_host_or_layout_is_refused() {
    let a = stamp(12, 24);
    let bytes = create(&a).to_bytes();
    assert_eq!(bytes.len(), FILE_SIZE);
    assert_eq!(
        CalibrationStore::open_or_create(&bytes, &stamp(8, 16)).unwrap_err(),
        StoreError::StampMismatch
    );
    let mut other = bytes.clone();
    other[0] ^= 0xff;
    assert_eq!(
        CalibrationStore::open_or_create(&other, &a).unwrap_err(),
        StoreError::LayoutMismatch
    );
}

#[test]
fn the_lease_releases_on_drop_and_is_retakeable() {
    let mut store = create(&stamp(12, 24));
    let w = store.try_acquire_writer(1).expect("free lease");
    w.release(&mut store);
    let _again = store
        .try_acquire_writer(1)
        .expect("a dropped guard leaves the lease free");
}

#[test]
fn a_beating_writer_keeps_the_lease() {
    let mut store = create(&stamp(12, 24));
    let w = store.try_acquire_writer(1).expect("free lease");
    w.beat(&mut store);
    let look = store.lease_look(2);
    assert!(matches!(look, LeaseLook::Held { holder: 1, .. }));
    w.beat(&mut store);
    assert_eq!(store.lease_decide(2, look).unwrap_err(), StoreError::WriterActive);
}

#[test]
fn a_writer_that_stopped_beating_is_replaced() {
    let mut store = create(&stamp(12, 24));
    let dead = store.try_acquire_writer(1).expect("free lease");
    dead.beat(&mut store);
    let look = store.lease_look(2);
    let taken = store.lease_decide(2, look).expect("the holder is quiet");
    assert!(taken.is_some());
    assert_eq!(dead.release(&mut store), Some(2), "the new holder keeps the lease");
    assert!(matches!(store.lease_look(3), LeaseLook::Held { holder: 2, .. }));
}

#[test]
fn a_holder_that_died_before_its_first_beat_is_replaced() {
    let mut store = create(&stamp(12, 24));
    let dead = store.try_acquire_writer(1).expect("free lease");
    let w = store.try_acquire_writer(2).expect("the holder does not beat");
    assert_eq!(dead.release(&mut store), Some(2));
    assert_eq!(w.release(&mut store), None);
}

#[test]
fn a_table_without_a_magic_is_still_being_laid_out() {
    let s = stamp(12, 24);
    let mut bytes = create(&s).to_bytes();
    for b in &mut bytes[..8] {
        *b = 0;
    }
    assert_eq!(
        CalibrationStore::open_or_create(&bytes, &s).unwrap_err(),
        StoreError::LayingOut
    );
}

#[test]
fn the_stamp_text_shows_every_count() {
    assert_eq!(
        stamp(12, 24).canonical(),
        "vendor=TestVendor;sig=0x000a0671;arch=test-arch;os=test-os;primary=12;total=24;v=4"
    );
    assert_ne!(stamp(1, 224).canonical(), stamp(12, 24).canonical());
}

#[test]
fn the_provisional_threshold_separates_a_quiet_host_from_a_loaded_one() {
    assert!(
        sample_spread_per_mille(&vec![68_200, 69_600, 71_000]) < PROVISIONAL_SPREAD_PER_MILLE,
        "a four percent spread is a host whose numbers describe the machine"
    );
    assert!(
        sample_spread_per_mille(&vec![42_400, 55_000, 68_600]) > PROVISIONAL_SPREAD_PER_MILLE,
        "a forty-eight percent spread is a host describing its load"
    );
}

#[test]
fn a_loaded_measurement_is_not_trustworthy() {
    let mut cpu = sample_cpu();
    cpu.spread_per_mille = PROVISIONAL_SPREAD_PER_MILLE + 1;
    assert!(
        !cpu.is_trustworthy(),
        "a record measured under load must not stand as the host's calibration"
    );
}

#[test]
fn the_hash_is_fnv1a() {
    assert_eq!(fnv1a_64(b""), 0xcbf2_9ce4_8422_2325);
    assert_eq!(fnv1a_64(b"a"), 0xaf63_dc4c_8601_ec8c);
    assert_eq!(fnv1a_64(b"foobar"), 0x8594_4171_f739_67e8);
}

#[test]
fn the_directory_setting_comes_first() {
    assert_eq!(calibration_dir(Some("/a"), Some("/b"), Some("/c")), Some("/a".to_string()));
    assert_eq!(calibration_dir(None, None, None), None);
}

#[test]
fn a_clock_before_the_epoch_reads_as_zero() {
    assert_eq!(now_unix_s(None), 0);
    assert_eq!(now_unix_s(Some(7)), 7);
}

#[test]
fn a_copy_is_taken_only_between_writes() {
    assert!(may_copy(4));
    assert!(!may_copy(5));
    assert!(copy_is_whole(4, 4));
    assert!(!copy_is_whole(4, 6));
}
