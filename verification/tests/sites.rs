use flynnel::adaptive_profile::{ClassThresholds, ProfileState, WorkloadClass};
use flynnel::call_site::{CallSiteState, Placement, PolicyArm, SiteRef, SiteRegistry};

fn t() -> ClassThresholds {
    ClassThresholds::new_defaults()
}

#[test]
fn caller_site_is_distinct_per_call_site_and_stable_per_site() {
    let mut reg = SiteRegistry::new();
    let a = reg.site_for_location(11);
    let b = reg.site_for_location(22);
    assert_ne!(a, b, "distinct call sites must get distinct states");
    let mut repeats = Vec::new();
    for _ in 0..3 {
        repeats.push(reg.site_for_location(33));
    }
    assert_eq!(repeats[0], repeats[1]);
    assert_eq!(repeats[1], repeats[2]);
    assert_ne!(repeats[0], a);
    assert_ne!(repeats[0], b);
    assert!(reg.registry_len() >= 3, "registry materialises one state per site");
}

#[test]
fn fresh_site_is_unclassified() {
    let s = CallSiteState::new();
    assert_eq!(s.learned_class(), None);
    assert_eq!(s.cv2_per_mille(), None);
    assert_eq!(s.leaf_count(), 0);
}

#[test]
fn site_classifies_uniform_streaming_leaves() {
    let mut s = CallSiteState::new();
    for _ in 0..4 {
        let per = 1_000_000u64;
        let scaled = per >> 8;
        s.record_batch_site_only(&t(), per * 16, scaled * scaled * 16, 16);
    }
    assert_eq!(s.learned_class(), Some(WorkloadClass::Streaming));
}

#[test]
fn two_sites_classify_independently() {
    let mut light = CallSiteState::new();
    let mut heavy = CallSiteState::new();
    for _ in 0..4 {
        let l = 20u64;
        light.record_batch_site_only(&t(), l * 16, 0, 16);
        let h = 1_000_000u64;
        let hs = h >> 8;
        heavy.record_batch_site_only(&t(), h * 16, hs * hs * 16, 16);
    }
    assert_eq!(light.learned_class(), Some(WorkloadClass::FineGrain));
    assert_eq!(heavy.learned_class(), Some(WorkloadClass::Streaming));
}

#[test]
fn cv2_reflects_site_spread() {
    let mut uniform = CallSiteState::new();
    let mut spread = CallSiteState::new();
    let per = 10_000u64;
    let scaled = per >> 8;
    uniform.record_batch_site_only(&t(), per * 8, scaled * scaled * 8, 8);
    let a = 1_000u64;
    let b = 100_000u64;
    let asc = a >> 8;
    let bsc = b >> 8;
    spread.record_batch_site_only(&t(), a * 4 + b * 4, asc * asc * 4 + bsc * bsc * 4, 8);
    assert!(uniform.cv2_per_mille().unwrap() < 20);
    assert!(spread.cv2_per_mille().unwrap() >= 500);
}

#[test]
fn policy_arm_explores_then_adopts_faster_arm() {
    let mut s = CallSiteState::new();
    for _ in 0..4 {
        s.record_arm(PolicyArm::Default, 1_000_000);
        s.record_arm(PolicyArm::Alternative, 100_000);
    }
    let mut alt = 0;
    for _ in 0..12 {
        if s.choose_arm(true) == PolicyArm::Alternative {
            alt += 1;
        }
    }
    assert!(alt >= 10, "faster arm must dominate; got {alt}/12");
    assert_eq!(s.choose_arm(false), PolicyArm::Default);
}

#[test]
fn placement_races_cold_then_picks_faster_side() {
    let mut s = CallSiteState::new();
    let batch = 4096u32;
    assert_eq!(s.choose_placement(batch), Placement::Race);
    s.record_placement(batch, Some(50_000), Some(5_000_000));
    let mut cpu = 0;
    for _ in 0..8 {
        if s.choose_placement(batch) == Placement::Cpu {
            cpu += 1;
        }
    }
    assert!(cpu >= 7, "CPU side must dominate; got {cpu}/8");
    assert_eq!(s.choose_placement(2), Placement::Race);
}

#[test]
fn split_share_tracks_throughput_ratio() {
    let mut s = CallSiteState::new();
    assert_eq!(s.split_cpu_share_per_mille(), 500);
    s.record_split(1000, 10_000, 1000, 30_000);
    let share = s.split_cpu_share_per_mille();
    assert!((700..=800).contains(&share), "share {share}");
}

#[test]
fn site_ref_identity_semantics() {
    assert_eq!(SiteRef::new(0), SiteRef::new(0));
    assert_ne!(SiteRef::new(0), SiteRef::new(1));
}

#[test]
fn a_site_is_reached_through_its_reference() {
    let mut reg = SiteRegistry::new();
    let a = reg.site_for_location(1);
    let b = reg.site_for_location(2);
    a.get_mut(&mut reg).record_split(1000, 10_000, 1000, 30_000);
    assert_ne!(a.get(&reg).split_cpu_share_per_mille(), 500);
    assert_eq!(b.get(&reg).split_cpu_share_per_mille(), 500);
}

#[test]
fn a_batch_counts_for_its_site_and_for_the_process() {
    let mut s = CallSiteState::new();
    let mut process = ProfileState::new();
    s.record_batch(&mut process, 16_000, 144, 16);
    assert_eq!(s.leaf_count(), 16);
    assert_eq!(process.leaves.count, 16);
    assert_eq!(process.leaves.sum_ns, 16_000);
}

#[test]
fn the_first_measurement_of_an_arm_stands() {
    let mut s = CallSiteState::new();
    s.record_arm(PolicyArm::Default, 800);
    assert_eq!(s.arm_ewmas(), (800, 0));
    s.record_placement(64, Some(10), None);
    assert_eq!(s.placement_ewmas(64), (10, 0));
}

#[test]
fn split_shares_are_kept_per_size() {
    let mut s = CallSiteState::new();
    s.record_split_for(1 << 20, 1000, 10_000, 1000, 30_000);
    assert!(s.split_cpu_share_per_mille_for(1 << 20) > 700);
}

#[test]
fn reduce_cost_is_averaged_after_enough_samples() {
    let mut s = CallSiteState::new();
    assert_eq!(s.reduce_cost_avg_cycles(), None);
    let mut n = 0;
    while s.reduce_cost_wants_sample() {
        s.record_reduce_cost_sample(100);
        n += 1;
    }
    assert!(n > 0);
    assert_eq!(s.reduce_cost_avg_cycles(), Some(100));
}
