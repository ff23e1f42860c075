//! Workload classes, the classifiers that choose among them, and the
//! process-wide profile that follows what the leaves of past dispatches cost.
//!
//! The profile is read once per dispatch and switched by one store. An
//! observer classifies each window of leaf times and switches the profile
//! when two windows in a row agree, or at once when a large window is far off.

use crate::dispatch_profile::DispatchProfile;
use crate::math::{
    ascending, clamp_int, clamp_u64, max_int, median, min_int, sat64, saturating_product, sort_ascending,
};
use crate::io_pool::IoPool;
use vstd::prelude::*;

verus! {

/// What kind of work the leaves of a dispatch do.
#[derive(Debug, Clone, Copy, PartialEq, Eq, Hash, Structural)]
pub enum WorkloadClass {
    /// Leaves so cheap that dispatching them dominates.
    FineGrain,
    /// Leaves limited by execution ports.
    PortBound,
    /// Leaves limited by dependency chains.
    LatencyBound,
    /// Leaves limited by irregular memory access.
    MemoryBound,
    /// Leaves limited by sequential memory bandwidth.
    Streaming,
}

/// The profile that a class is dispatched under.
pub open spec fn class_profile(c: WorkloadClass) -> DispatchProfile {
    match c {
        WorkloadClass::FineGrain => DispatchProfile::PortBound,
        WorkloadClass::PortBound => DispatchProfile::PortBound,
        WorkloadClass::LatencyBound => DispatchProfile::LatencyBound,
        WorkloadClass::MemoryBound => DispatchProfile::MemoryBound,
        WorkloadClass::Streaming => DispatchProfile::Streaming,
    }
}

/// The class that a profile stands for.
pub open spec fn profile_class(p: DispatchProfile) -> WorkloadClass {
    match p {
        DispatchProfile::LatencyBound => WorkloadClass::LatencyBound,
        DispatchProfile::PortBound => WorkloadClass::PortBound,
        DispatchProfile::MemoryBound => WorkloadClass::MemoryBound,
        DispatchProfile::Streaming => WorkloadClass::Streaming,
        DispatchProfile::Unspecified => WorkloadClass::PortBound,
    }
}

impl WorkloadClass {
    /// The profile that this class is dispatched under.
    pub fn to_dispatch_profile(self) -> (res: DispatchProfile)
        ensures
            res == class_profile(self),
    {
        match self {
            WorkloadClass::FineGrain => DispatchProfile::PortBound,
            WorkloadClass::PortBound => DispatchProfile::PortBound,
            WorkloadClass::LatencyBound => DispatchProfile::LatencyBound,
            WorkloadClass::MemoryBound => DispatchProfile::MemoryBound,
            WorkloadClass::Streaming => DispatchProfile::Streaming,
        }
    }
}

/// What a caller knows of the shape of its leaves.
#[derive(Debug, Clone, Copy, PartialEq, Eq, Hash, Structural)]
pub enum LeafShape {
    /// Port-bound computation.
    PortCompute,
    /// Computation in long dependency chains.
    LatencyCompute,
    /// Sequential streaming.
    Streaming,
    /// Irregular memory access.
    Gather,
    /// Nothing known.
    Unknown,
}

/// The class that a known shape fixes.
pub open spec fn shape_class(s: LeafShape) -> Option<WorkloadClass> {
    match s {
        LeafShape::PortCompute => Some(WorkloadClass::PortBound),
        LeafShape::LatencyCompute => Some(WorkloadClass::LatencyBound),
        LeafShape::Streaming => Some(WorkloadClass::Streaming),
        LeafShape::Gather => Some(WorkloadClass::MemoryBound),
        LeafShape::Unknown => None,
    }
}

impl LeafShape {
    /// The class that a known shape fixes.
    pub fn to_workload_class(self) -> (res: Option<WorkloadClass>)
        ensures
            res == shape_class(self),
    {
        match self {
            LeafShape::PortCompute => Some(WorkloadClass::PortBound),
            LeafShape::LatencyCompute => Some(WorkloadClass::LatencyBound),
            LeafShape::Streaming => Some(WorkloadClass::Streaming),
            LeafShape::Gather => Some(WorkloadClass::MemoryBound),
            LeafShape::Unknown => None,
        }
    }
}

/// Tag of the latency-bound class.
pub const TAG_LATENCY_BOUND: u8 = 0;

/// Tag of the port-bound class.
pub const TAG_PORT_BOUND: u8 = 1;

/// Tag of the memory-bound class.
pub const TAG_MEMORY_BOUND: u8 = 2;

/// Tag of the unstated class.
pub const TAG_UNSPECIFIED: u8 = 3;

/// Tag of the streaming class.
pub const TAG_STREAMING: u8 = 4;

/// Tag of the fine-grained class.
pub const TAG_FINE_GRAIN: u8 = 5;

/// Boundaries of the classifiers.
#[derive(Debug, Clone, Copy, PartialEq, Eq, Structural)]
pub struct ClassThresholds {
    /// Nanoseconds per item below which work is fine-grained.
    pub fine_grain_ns: u64,
    /// Nanoseconds per item from which work is heavy.
    pub port_heavy_ns: u64,
    /// Nanoseconds per item from which heavy work counts as latency-bound
    /// before anything has been observed.
    pub memory_latency_ns: u64,
    /// Squared coefficient of variation, in thousandths, below which leaves
    /// are uniform.
    pub cv2_low_per_mille: u64,
    /// Squared coefficient of variation, in thousandths, from which leaves
    /// are irregular.
    pub cv2_high_per_mille: u64,
    /// Cycles up to which a merge counts as trivial.
    pub trivial_reduce_cycles: u64,
}

/// The boundaries before any calibration.
pub open spec fn default_thresholds() -> ClassThresholds {
    ClassThresholds {
        fine_grain_ns: 50,
        port_heavy_ns: 500,
        memory_latency_ns: 2000,
        cv2_low_per_mille: 50,
        cv2_high_per_mille: 500,
        trivial_reduce_cycles: 30_000,
    }
}

impl ClassThresholds {
    /// The boundaries before any calibration.
    pub fn new_defaults() -> (res: ClassThresholds)
        ensures
            res == default_thresholds(),
    {
        ClassThresholds {
            fine_grain_ns: 50,
            port_heavy_ns: 500,
            memory_latency_ns: 2000,
            cv2_low_per_mille: 50,
            cv2_high_per_mille: 500,
            trivial_reduce_cycles: 30_000,
        }
    }
}

/// Running totals over the leaves of past dispatches. The sums wrap.
#[derive(Debug, Clone, Copy, PartialEq, Eq, Structural)]
pub struct LeafStats {
    /// Leaves.
    pub count: u64,
    /// Their nanoseconds.
    pub sum_ns: u64,
    /// Their squared nanoseconds, each leaf's time scaled down by 256 first.
    pub sumsq_scaled: u64,
}

/// No leaves.
pub open spec fn no_leaves() -> LeafStats {
    LeafStats { count: 0, sum_ns: 0, sumsq_scaled: 0 }
}

/// The observer: the class of the last window, how many windows in a row had
/// it, and the totals where the last window ended.
#[derive(Debug, Clone, Copy, PartialEq, Eq, Structural)]
pub struct AutoClassify {
    /// Tag of the last window's class.
    pub pending_tag: u8,
    /// Windows in a row with that class. Wraps.
    pub pending_run: u32,
    /// Totals where the last window ended.
    pub last: LeafStats,
}

/// An observer that has seen nothing.
pub open spec fn fresh_observer() -> AutoClassify {
    AutoClassify { pending_tag: TAG_PORT_BOUND, pending_run: 0, last: no_leaves() }
}

/// The process-wide profile with everything that moves it.
#[derive(Debug, Clone, Copy, PartialEq, Eq, Structural)]
pub struct ProfileState {
    /// Tag of the active profile.
    pub active_tag: u8,
    /// The classifiers' boundaries.
    pub thresholds: ClassThresholds,
    /// The observer.
    pub auto: AutoClassify,
    /// Totals over all leaves.
    pub leaves: LeafStats,
}

/// Profile of a tag; unknown tags state none.
pub open spec fn tagged_profile(tag: u8) -> DispatchProfile {
    if tag == TAG_LATENCY_BOUND {
        DispatchProfile::LatencyBound
    } else if tag == TAG_PORT_BOUND {
        DispatchProfile::PortBound
    } else if tag == TAG_MEMORY_BOUND {
        DispatchProfile::MemoryBound
    } else if tag == TAG_STREAMING {
        DispatchProfile::Streaming
    } else {
        DispatchProfile::Unspecified
    }
}

/// Tag of a profile.
pub open spec fn profile_tag(p: DispatchProfile) -> u8 {
    match p {
        DispatchProfile::LatencyBound => TAG_LATENCY_BOUND,
        DispatchProfile::PortBound => TAG_PORT_BOUND,
        DispatchProfile::MemoryBound => TAG_MEMORY_BOUND,
        DispatchProfile::Streaming => TAG_STREAMING,
        DispatchProfile::Unspecified => TAG_UNSPECIFIED,
    }
}

impl ProfileState {
    /// The active profile.
    pub open spec fn profile(&self) -> DispatchProfile {
        tagged_profile(self.active_tag)
    }

    /// A process that has dispatched nothing: port-bound, default boundaries.
    pub fn new() -> (res: ProfileState)
        ensures
            res == (ProfileState {
                active_tag: profile_tag(DispatchProfile::PortBound),
                thresholds: default_thresholds(),
                auto: fresh_observer(),
                leaves: no_leaves(),
            }),
    {
        ProfileState {
            active_tag: TAG_PORT_BOUND,
            thresholds: ClassThresholds::new_defaults(),
            auto: AutoClassify {
                pending_tag: TAG_PORT_BOUND,
                pending_run: 0,
                last: LeafStats { count: 0, sum_ns: 0, sumsq_scaled: 0 },
            },
            leaves: LeafStats { count: 0, sum_ns: 0, sumsq_scaled: 0 },
        }
    }
}

/// The active profile.
pub fn active_dispatch_profile(state: &ProfileState) -> (res: DispatchProfile)
    ensures
        res == state.profile(),
{
    match state.active_tag {
        TAG_LATENCY_BOUND => DispatchProfile::LatencyBound,
        TAG_PORT_BOUND => DispatchProfile::PortBound,
        TAG_MEMORY_BOUND => DispatchProfile::MemoryBound,
        TAG_STREAMING => DispatchProfile::Streaming,
        _ => DispatchProfile::Unspecified,
    }
}

/// Makes a profile the active one.
pub fn migrate_dispatch_profile(state: &mut ProfileState, profile: DispatchProfile)
    ensures
        *final(state) == (ProfileState { active_tag: profile_tag(profile), ..*old(state) }),
        final(state).profile() == profile,
{
    state.active_tag = match profile {
        DispatchProfile::LatencyBound => TAG_LATENCY_BOUND,
        DispatchProfile::PortBound => TAG_PORT_BOUND,
        DispatchProfile::MemoryBound => TAG_MEMORY_BOUND,
        DispatchProfile::Streaming => TAG_STREAMING,
        DispatchProfile::Unspecified => TAG_UNSPECIFIED,
    };
}

/// Makes a class's profile the active one.
pub fn migrate_workload_class(state: &mut ProfileState, class: WorkloadClass)
    ensures
        *final(state) == (ProfileState {
            active_tag: profile_tag(class_profile(class)),
            ..*old(state)
        }),
        final(state).profile() == class_profile(class),
{
    migrate_dispatch_profile(state, class.to_dispatch_profile());
}

/// The class that the active profile stands for.
pub fn active_workload_class(state: &ProfileState) -> (res: WorkloadClass)
    ensures
        res == profile_class(state.profile()),
{
    match active_dispatch_profile(state) {
        DispatchProfile::LatencyBound => WorkloadClass::LatencyBound,
        DispatchProfile::PortBound => WorkloadClass::PortBound,
        DispatchProfile::MemoryBound => WorkloadClass::MemoryBound,
        DispatchProfile::Streaming => WorkloadClass::Streaming,
        DispatchProfile::Unspecified => WorkloadClass::PortBound,
    }
}

/// Migrating to a class makes that class the active one; the fine-grained
/// class has no profile of its own and becomes port-bound.
pub proof fn law_class_migration_propagates(class: WorkloadClass)
    ensures
        profile_class(class_profile(class)) == if class == WorkloadClass::FineGrain {
            WorkloadClass::PortBound
        } else {
            class
        },
        tagged_profile(profile_tag(class_profile(class))) == class_profile(class),
{
}

/// The boundaries in effect.
pub fn class_thresholds(state: &ProfileState) -> (res: &ClassThresholds)
    ensures
        *res == state.thresholds,
{
    &state.thresholds
}

/// What the calibration probes measured.
#[derive(Debug)]
pub struct CalibrationProbes {
    /// Nanoseconds of each empty join.
    pub join_samples: Vec<u64>,
    /// Cycles of each reference merge.
    pub reduce_cycles: Vec<u64>,
    /// Nanoseconds of the dependency-chain run with the siblings parked.
    pub smt_off_ns: u64,
    /// Nanoseconds of the same run with the siblings active.
    pub smt_on_ns: u64,
}

/// What a calibration measured and installed.
#[derive(Debug, Clone, Copy, PartialEq, Eq, Structural)]
pub struct ThresholdCalibration {
    /// Nanoseconds of an empty join.
    pub join_ns: u64,
    /// Installed fine-grain boundary.
    pub fine_grain_ns: u64,
    /// Cycles of the reference merge.
    pub trivial_reduce_measured_cycles: u64,
    /// Installed trivial-merge boundary.
    pub trivial_reduce_cycles: u64,
    /// Time with siblings over time without, in thousandths.
    pub smt_ratio_per_mille: u64,
    /// Installed latency boundary.
    pub memory_latency_ns: u64,
}

/// The least of a sequence of cycle counts, each at least one.
pub open spec fn least_cycles(s: Seq<u64>) -> int
    decreases s.len(),
{
    if s.len() == 0 {
        u64::MAX as int
    } else {
        min_int(least_cycles(s.drop_last()), max_int(s.last() as int, 1))
    }
}

/// A latency boundary after a sibling ratio: a quarter microsecond earlier
/// where siblings save five percent, as much later where they cost it.
pub open spec fn nudged_latency(current: int, ratio: int) -> int {
    let nudged = if ratio <= 950 {
        max_int(current - 250, 0)
    } else if ratio >= 1050 {
        sat64(current + 250)
    } else {
        current
    };
    clamp_int(nudged, 1_000, 4_000)
}

/// What a calibration from the given measurements reports.
pub open spec fn calibration_spec(
    join_samples: Seq<u64>,
    reduce_cycles: Seq<u64>,
    smt_off_ns: int,
    smt_on_ns: int,
    current_latency: int,
) -> ThresholdCalibration {
    let join_ns = max_int(median(join_samples) as int, 1);
    let cycles = least_cycles(reduce_cycles);
    let ratio = sat64(max_int(smt_on_ns, 1) * 1000) / max_int(smt_off_ns, 1);
    ThresholdCalibration {
        join_ns: join_ns as u64,
        fine_grain_ns: clamp_int(join_ns / 256, 25, 200) as u64,
        trivial_reduce_measured_cycles: cycles as u64,
        trivial_reduce_cycles: clamp_int(sat64(cycles * 8), 5_000, 200_000) as u64,
        smt_ratio_per_mille: ratio as u64,
        memory_latency_ns: nudged_latency(current_latency, ratio) as u64,
    }
}

/// Boundaries after a calibration.
pub open spec fn calibrated(t: ClassThresholds, c: ThresholdCalibration) -> ClassThresholds {
    ClassThresholds {
        fine_grain_ns: c.fine_grain_ns,
        memory_latency_ns: c.memory_latency_ns,
        trivial_reduce_cycles: c.trivial_reduce_cycles,
        ..t
    }
}

proof fn lemma_least_cycles_range(s: Seq<u64>)
    ensures
        1 <= least_cycles(s) <= u64::MAX,
    decreases s.len(),
{
    if s.len() > 0 {
        lemma_least_cycles_range(s.drop_last());
    }
}

/// Derives boundaries from measurements and installs them in `target`.
pub fn calibrate_class_thresholds_into(
    target: &mut ClassThresholds,
    probes: &CalibrationProbes,
) -> (res: ThresholdCalibration)
    requires
        probes.join_samples@.len() > 0,
    ensures
        res == calibration_spec(
            probes.join_samples@,
            probes.reduce_cycles@,
            probes.smt_off_ns as int,
            probes.smt_on_ns as int,
            old(target).memory_latency_ns as int,
        ),
        *final(target) == calibrated(*old(target), res),
        25 <= res.fine_grain_ns <= 200,
        5_000 <= res.trivial_reduce_cycles <= 200_000,
        1_000 <= res.memory_latency_ns <= 4_000,
{
    let sorted = sort_ascending(&probes.join_samples);
    let middle: u64 = sorted[sorted.len() / 2];
    let join_ns: u64 = if middle < 1 { 1 } else { middle };
    let fine_grain_ns: u64 = clamp_u64(join_ns / 256, 25, 200);
    target.fine_grain_ns = fine_grain_ns;

    let mut best_cycles: u64 = u64::MAX;
    let mut i: usize = 0;
    proof {
        assert(probes.reduce_cycles@.subrange(0, 0).len() == 0);
    }
    while i < probes.reduce_cycles.len()
        invariant
            i <= probes.reduce_cycles@.len(),
            best_cycles == least_cycles(probes.reduce_cycles@.subrange(0, i as int)),
        decreases probes.reduce_cycles@.len() - i,
    {
        let dt: u64 = if probes.reduce_cycles[i] < 1 { 1 } else { probes.reduce_cycles[i] };
        if dt < best_cycles {
            best_cycles = dt;
        }
        proof {
            assert(probes.reduce_cycles@.subrange(0, i + 1).drop_last()
                =~= probes.reduce_cycles@.subrange(0, i as int));
        }
        i += 1;
    }
    proof {
        assert(probes.reduce_cycles@.subrange(0, i as int) =~= probes.reduce_cycles@);
        lemma_least_cycles_range(probes.reduce_cycles@);
    }
    let trivial_reduce_cycles: u64 = clamp_u64(saturating_product(best_cycles, 8), 5_000, 200_000);
    target.trivial_reduce_cycles = trivial_reduce_cycles;

    let off_ns: u64 = if probes.smt_off_ns < 1 { 1 } else { probes.smt_off_ns };
    let on_ns: u64 = if probes.smt_on_ns < 1 { 1 } else { probes.smt_on_ns };
    let smt_ratio_per_mille: u64 = saturating_product(on_ns, 1000) / off_ns;
    let current: u64 = target.memory_latency_ns;
    let nudged: u64 = if smt_ratio_per_mille <= 950 {
        current.saturating_sub(250)
    } else if smt_ratio_per_mille >= 1050 {
        current.saturating_add(250)
    } else {
        current
    };
    let memory_latency_ns: u64 = clamp_u64(nudged, 1_000, 4_000);
    target.memory_latency_ns = memory_latency_ns;
    ThresholdCalibration {
        join_ns,
        fine_grain_ns,
        trivial_reduce_measured_cycles: best_cycles,
        trivial_reduce_cycles,
        smt_ratio_per_mille,
        memory_latency_ns,
    }
}

/// Derives the process's boundaries from measurements and installs them.
pub fn calibrate_class_thresholds(state: &mut ProfileState, probes: &CalibrationProbes) -> (res:
    ThresholdCalibration)
    requires
        probes.join_samples@.len() > 0,
    ensures
        res == calibration_spec(
            probes.join_samples@,
            probes.reduce_cycles@,
            probes.smt_off_ns as int,
            probes.smt_on_ns as int,
            old(state).thresholds.memory_latency_ns as int,
        ),
        *final(state) == (ProfileState {
            thresholds: calibrated(old(state).thresholds, res),
            ..*old(state)
        }),
{
    calibrate_class_thresholds_into(&mut state.thresholds, probes)
}

/// Class of a leaf-time distribution.
pub open spec fn observed_class(t: ClassThresholds, mean_ns: int, cv2: int) -> WorkloadClass {
    if mean_ns < t.fine_grain_ns {
        WorkloadClass::FineGrain
    } else if mean_ns < t.port_heavy_ns {
        WorkloadClass::PortBound
    } else if cv2 < t.cv2_low_per_mille {
        WorkloadClass::Streaming
    } else if cv2 < t.cv2_high_per_mille {
        WorkloadClass::MemoryBound
    } else {
        WorkloadClass::LatencyBound
    }
}

/// Class of a leaf-time distribution: by the mean where leaves are light,
/// else by the spread.
pub fn classify_observed(t: &ClassThresholds, mean_ns: u64, cv2_per_mille: u64) -> (res:
    WorkloadClass)
    ensures
        res == observed_class(*t, mean_ns as int, cv2_per_mille as int),
{
    if mean_ns < t.fine_grain_ns {
        return WorkloadClass::FineGrain;
    }
    if mean_ns < t.port_heavy_ns {
        return WorkloadClass::PortBound;
    }
    if cv2_per_mille < t.cv2_low_per_mille {
        WorkloadClass::Streaming
    } else if cv2_per_mille < t.cv2_high_per_mille {
        WorkloadClass::MemoryBound
    } else {
        WorkloadClass::LatencyBound
    }
}

/// Items from which light work counts as streaming.
pub const STREAMING_BATCH: u32 = 65_536;

/// Total nanoseconds below which spreading work does not pay.
pub const BREAKEVEN_NS: u64 = 50_000;

/// Class of a dispatch before anything has been observed, from the caller's
/// estimate of an item's cost. Items too light to be worth a dispatch each
/// stream where there are very many of them.
pub open spec fn hinted_class(t: ClassThresholds, batch_size: int, ns: int) -> WorkloadClass {
    if ns >= t.memory_latency_ns {
        WorkloadClass::LatencyBound
    } else if ns >= t.port_heavy_ns {
        WorkloadClass::MemoryBound
    } else if ns >= t.fine_grain_ns {
        WorkloadClass::PortBound
    } else if batch_size >= STREAMING_BATCH && ns * batch_size >= BREAKEVEN_NS {
        WorkloadClass::Streaming
    } else {
        WorkloadClass::FineGrain
    }
}

/// Class of a dispatch of which only tier and size are known.
pub open spec fn unhinted_class(k_outer: int, batch_size: int) -> WorkloadClass {
    if k_outer >= 7 {
        WorkloadClass::LatencyBound
    } else if k_outer <= 3 && batch_size >= 16384 {
        WorkloadClass::Streaming
    } else {
        WorkloadClass::PortBound
    }
}

/// Class of a dispatch before anything has been observed. A known shape
/// decides; without one the caller's estimate does, and without that tier and
/// size.
pub open spec fn static_class(
    t: ClassThresholds,
    k_outer: int,
    batch_size: int,
    estimated_per_item_ns: Option<u32>,
    shape: LeafShape,
) -> WorkloadClass {
    match (shape_class(shape), estimated_per_item_ns) {
        (Some(class), _) => class,
        (None, Some(ns)) => hinted_class(t, batch_size, ns as int),
        (None, None) => unhinted_class(k_outer, batch_size),
    }
}

/// Class of a dispatch before anything has been observed, with no shape
/// known.
pub fn infer_class_static(
    t: &ClassThresholds,
    k_outer: u8,
    batch_size: u32,
    estimated_per_item_ns: Option<u32>,
) -> (res: WorkloadClass)
    ensures
        res == static_class(
            *t,
            k_outer as int,
            batch_size as int,
            estimated_per_item_ns,
            LeafShape::Unknown,
        ),
{
    infer_class_static_with_shape(
        t,
        k_outer,
        batch_size,
        estimated_per_item_ns,
        LeafShape::Unknown,
    )
}

/// Class of a dispatch before anything has been observed.
pub fn infer_class_static_with_shape(
    t: &ClassThresholds,
    k_outer: u8,
    batch_size: u32,
    estimated_per_item_ns: Option<u32>,
    shape: LeafShape,
) -> (res: WorkloadClass)
    ensures
        res == static_class(
            *t,
            k_outer as int,
            batch_size as int,
            estimated_per_item_ns,
            shape,
        ),
{
    if let Some(class) = shape.to_workload_class() {
        return class;
    }
    if let Some(ns) = estimated_per_item_ns {
        if (ns as u64) >= t.memory_latency_ns {
            return WorkloadClass::LatencyBound;
        }
        if (ns as u64) >= t.port_heavy_ns {
            return WorkloadClass::MemoryBound;
        }
        if (ns as u64) >= t.fine_grain_ns {
            return WorkloadClass::PortBound;
        }
        let total_ns: u64 = saturating_product(ns as u64, batch_size as u64);
        if batch_size >= STREAMING_BATCH && total_ns >= BREAKEVEN_NS {
            return WorkloadClass::Streaming;
        }
        return WorkloadClass::FineGrain;
    }
    if k_outer >= 7 {
        return WorkloadClass::LatencyBound;
    }
    if k_outer <= 3 && batch_size >= 16384 {
        return WorkloadClass::Streaming;
    }
    WorkloadClass::PortBound
}

/// Windows in a row that must agree before the class moves to its neighbour.
pub const AUTO_MIGRATION_HYSTERESIS: u32 = 2;

/// Leaves in a window from which a far-off class is adopted at once.
pub const FAST_ADAPT_LEAVES: u64 = 64;

/// Leaves below which a window is left open.
pub const MIN_WINDOW_LEAVES: u64 = 4;

/// Place of a class on the way from light to heavy.
pub open spec fn class_bucket(c: WorkloadClass) -> int {
    match c {
        WorkloadClass::FineGrain => 0,
        WorkloadClass::PortBound => 1,
        WorkloadClass::Streaming => 2,
        WorkloadClass::MemoryBound => 2,
        WorkloadClass::LatencyBound => 3,
    }
}

/// How far two classes are apart.
pub open spec fn bucket_distance(a: WorkloadClass, b: WorkloadClass) -> int {
    max_int(class_bucket(a) - class_bucket(b), class_bucket(b) - class_bucket(a))
}

fn bucket_index(class: WorkloadClass) -> (res: u8)
    ensures
        res == class_bucket(class),
{
    match class {
        WorkloadClass::FineGrain => 0,
        WorkloadClass::PortBound => 1,
        WorkloadClass::Streaming => 2,
        WorkloadClass::MemoryBound => 2,
        WorkloadClass::LatencyBound => 3,
    }
}

/// How far two classes are apart.
pub fn class_bucket_distance(a: WorkloadClass, b: WorkloadClass) -> (res: u8)
    ensures
        res == bucket_distance(a, b),
{
    let x: u8 = bucket_index(a);
    let y: u8 = bucket_index(b);
    if x >= y {
        x - y
    } else {
        y - x
    }
}

/// Tag of a class.
pub open spec fn class_tag(c: WorkloadClass) -> u8 {
    match c {
        WorkloadClass::FineGrain => TAG_FINE_GRAIN,
        WorkloadClass::PortBound => TAG_PORT_BOUND,
        WorkloadClass::LatencyBound => TAG_LATENCY_BOUND,
        WorkloadClass::MemoryBound => TAG_MEMORY_BOUND,
        WorkloadClass::Streaming => TAG_STREAMING,
    }
}

/// Class of a tag; other numbers stand for none.
pub open spec fn tagged_class(tag: u8) -> Option<WorkloadClass> {
    if tag == TAG_LATENCY_BOUND {
        Some(WorkloadClass::LatencyBound)
    } else if tag == TAG_PORT_BOUND {
        Some(WorkloadClass::PortBound)
    } else if tag == TAG_MEMORY_BOUND {
        Some(WorkloadClass::MemoryBound)
    } else if tag == TAG_STREAMING {
        Some(WorkloadClass::Streaming)
    } else if tag == TAG_FINE_GRAIN {
        Some(WorkloadClass::FineGrain)
    } else {
        None
    }
}

/// Tag of a class.
pub fn class_tag_encode(class: WorkloadClass) -> (res: u8)
    ensures
        res == class_tag(class),
{
    match class {
        WorkloadClass::FineGrain => TAG_FINE_GRAIN,
        WorkloadClass::PortBound => TAG_PORT_BOUND,
        WorkloadClass::LatencyBound => TAG_LATENCY_BOUND,
        WorkloadClass::MemoryBound => TAG_MEMORY_BOUND,
        WorkloadClass::Streaming => TAG_STREAMING,
    }
}

/// Class of a tag, if it is one.
pub fn class_tag_decode(tag: u8) -> (res: Option<WorkloadClass>)
    ensures
        res == tagged_class(tag),
{
    match tag {
        TAG_LATENCY_BOUND => Some(WorkloadClass::LatencyBound),
        TAG_PORT_BOUND => Some(WorkloadClass::PortBound),
        TAG_MEMORY_BOUND => Some(WorkloadClass::MemoryBound),
        TAG_STREAMING => Some(WorkloadClass::Streaming),
        TAG_FINE_GRAIN => Some(WorkloadClass::FineGrain),
        _ => None,
    }
}

/// A tag stands for a class exactly when it is that class's tag.
pub proof fn law_class_tags(tag: u8, class: WorkloadClass)
    ensures
        tagged_class(tag) == Some(class) <==> tag == class_tag(class),
{
}

/// Squared coefficient of variation, in thousandths, of `n` leaves with the
/// given totals; zero where their mean is under 256 nanoseconds.
pub open spec fn cv2_spec(sum: int, sumsq: int, n: int) -> int {
    let scaled_mean = (sum / 256) / n;
    if scaled_mean == 0 {
        0
    } else {
        let mean_sq = sat64(scaled_mean * scaled_mean);
        let variance = max_int(sumsq / n - mean_sq, 0);
        sat64(variance * 1000) / max_int(mean_sq, 1)
    }
}

/// Squared coefficient of variation, in thousandths, of `n` leaves with the
/// given totals.
pub fn leaf_cv2(sum_ns: u64, sumsq_scaled: u64, n: u64) -> (res: u64)
    requires
        n > 0,
    ensures
        res == cv2_spec(sum_ns as int, sumsq_scaled as int, n as int),
{
    let scaled_mean: u64 = (sum_ns / 256) / n;
    if scaled_mean == 0 {
        0
    } else {
        let sumsq_per_n: u64 = sumsq_scaled / n;
        let mean_sq: u64 = saturating_product(scaled_mean, scaled_mean);
        let variance: u64 = sumsq_per_n.saturating_sub(mean_sq);
        let divisor: u64 = if mean_sq < 1 { 1 } else { mean_sq };
        saturating_product(variance, 1000) / divisor
    }
}

/// The leaves that came after `last`; zero where a total went back.
pub open spec fn window(now: LeafStats, last: LeafStats) -> LeafStats {
    LeafStats {
        count: max_int(now.count - last.count, 0) as u64,
        sum_ns: max_int(now.sum_ns - last.sum_ns, 0) as u64,
        sumsq_scaled: max_int(now.sumsq_scaled - last.sumsq_scaled, 0) as u64,
    }
}

/// Class of a window's leaves.
pub open spec fn window_class(t: ClassThresholds, w: LeafStats) -> WorkloadClass {
    observed_class(
        t,
        w.sum_ns as int / w.count as int,
        cv2_spec(w.sum_ns as int, w.sumsq_scaled as int, w.count as int),
    )
}

/// The leaves that came after `last`.
pub fn window_since(now: LeafStats, last: LeafStats) -> (res: LeafStats)
    ensures
        res == window(now, last),
{
    LeafStats {
        count: now.count.saturating_sub(last.count),
        sum_ns: now.sum_ns.saturating_sub(last.sum_ns),
        sumsq_scaled: now.sumsq_scaled.saturating_sub(last.sumsq_scaled),
    }
}

/// Class of a window's leaves.
pub fn classify_window(t: &ClassThresholds, w: LeafStats) -> (res: WorkloadClass)
    requires
        w.count > 0,
    ensures
        res == window_class(*t, w),
{
    let cv2: u64 = leaf_cv2(w.sum_ns, w.sumsq_scaled, w.count);
    classify_observed(t, w.sum_ns / w.count, cv2)
}

/// A window is large enough, and its class far enough from the active one,
/// to be adopted at once.
pub open spec fn adopts_at_once(active: WorkloadClass, seen: WorkloadClass, leaves: u64) -> bool {
    active != seen && bucket_distance(active, seen) >= 2 && leaves >= FAST_ADAPT_LEAVES
}

/// The state after one look at the leaves.
pub open spec fn ticked(s: ProfileState) -> ProfileState {
    let w = window(s.leaves, s.auto.last);
    let seen = window_class(s.thresholds, w);
    let active = profile_class(s.profile());
    let agrees = s.auto.pending_tag == class_tag(seen);
    if w.count < MIN_WINDOW_LEAVES {
        s
    } else if adopts_at_once(active, seen, w.count) {
        ProfileState {
            active_tag: profile_tag(class_profile(seen)),
            auto: AutoClassify { pending_tag: class_tag(seen), pending_run: 0, last: s.leaves },
            ..s
        }
    } else if agrees {
        ProfileState {
            active_tag: if s.auto.pending_run + 1 >= AUTO_MIGRATION_HYSTERESIS && active != seen {
                profile_tag(class_profile(seen))
            } else {
                s.active_tag
            },
            auto: AutoClassify {
                pending_run: ((s.auto.pending_run + 1) % 0x1_0000_0000) as u32,
                last: s.leaves,
                ..s.auto
            },
            ..s
        }
    } else {
        ProfileState {
            auto: AutoClassify { pending_tag: class_tag(seen), pending_run: 1, last: s.leaves },
            ..s
        }
    }
}

/// One look of the observer at the leaves since its last one.
pub fn tick_auto_classify(state: &mut ProfileState)
    ensures
        *final(state) == ticked(*old(state)),
{
    let w = window_since(state.leaves, state.auto.last);
    if w.count < MIN_WINDOW_LEAVES {
        return;
    }
    state.auto.last = state.leaves;
    let seen = classify_window(&state.thresholds, w);
    let seen_tag: u8 = class_tag_encode(seen);
    let active = active_workload_class(state);
    if active != seen && class_bucket_distance(active, seen) >= 2 && w.count
        >= FAST_ADAPT_LEAVES {
        migrate_workload_class(state, seen);
        state.auto.pending_tag = seen_tag;
        state.auto.pending_run = 0;
        return;
    }
    if state.auto.pending_tag == seen_tag {
        let prior: u32 = state.auto.pending_run;
        state.auto.pending_run = prior.wrapping_add(1);
        if prior.saturating_add(1) >= AUTO_MIGRATION_HYSTERESIS && active != seen {
            migrate_workload_class(state, seen);
        }
    } else {
        state.auto.pending_tag = seen_tag;
        state.auto.pending_run = 1;
    }
}

/// Forgets what the observer has seen; its next window starts at the first
/// leaf.
pub fn reset_auto_classify_state(state: &mut ProfileState)
    ensures
        *final(state) == (ProfileState { auto: fresh_observer(), ..*old(state) }),
{
    state.auto.pending_tag = TAG_PORT_BOUND;
    state.auto.pending_run = 0;
    state.auto.last = LeafStats { count: 0, sum_ns: 0, sumsq_scaled: 0 };
}

/// A look moves the profile only to that of the window's class.
pub proof fn law_tick_moves_to_what_was_seen(s: ProfileState)
    ensures
        ticked(s).profile() == s.profile() || ticked(s).profile() == class_profile(
            window_class(s.thresholds, window(s.leaves, s.auto.last)),
        ),
        ticked(s).thresholds == s.thresholds,
        ticked(s).leaves == s.leaves,
{
}

/// One window whose class differs from the window before it does not move
/// the profile, unless it is adopted at once.
pub proof fn law_single_outlier_is_ignored(s: ProfileState)
    requires
        ({
            let w = window(s.leaves, s.auto.last);
            let seen = window_class(s.thresholds, w);
            &&& s.auto.pending_tag != class_tag(seen)
            &&& !adopts_at_once(profile_class(s.profile()), seen, w.count)
        }),
    ensures
        ticked(s).profile() == s.profile(),
{
}

/// Two windows in a row of the same class, each large enough to count, make
/// that class's profile active.
pub proof fn law_two_windows_migrate(s: ProfileState, more: LeafStats)
    requires
        ({
            let w1 = window(s.leaves, s.auto.last);
            let s1 = ticked(s);
            let w2 = window(more, s1.auto.last);
            &&& w1.count >= MIN_WINDOW_LEAVES
            &&& w2.count >= MIN_WINDOW_LEAVES
            &&& window_class(s.thresholds, w1) == window_class(s.thresholds, w2)
        }),
    ensures
        ({
            let s1 = ticked(s);
            let s2 = ticked(ProfileState { leaves: more, ..s1 });
            let seen = window_class(s.thresholds, window(s.leaves, s.auto.last));
            profile_class(s2.profile()) == seen || s2.profile() == class_profile(seen)
        }),
{
}

/// A quotient by its two bounds.
proof fn lemma_quotient_is(x: int, d: int, q: int)
    requires
        0 < d,
        q * d <= x < (q + 1) * d,
    ensures
        x / d == q,
{
    assert(d * q == q * d && (q + 1) * d == q * d + d) by (nonlinear_arith);
    vstd::arithmetic::div_mod::lemma_fundamental_div_mod_converse(x, d, q, x - q * d);
}

proof fn lemma_quotient_bounds(x: int, d: int)
    requires
        0 <= x,
        0 < d,
    ensures
        (x / d) * d <= x < (x / d + 1) * d,
        0 <= x / d,
{
    vstd::arithmetic::div_mod::lemma_fundamental_div_mod(x, d);
    let q = x / d;
    assert(q * d <= x < (q + 1) * d && q >= 0) by (nonlinear_arith)
        requires
            x == d * q + x % d,
            0 <= x % d < d,
            0 <= x,
            0 < d,
            q == x / d,
    ;
}

proof fn lemma_square_positive(m: int)
    requires
        m > 0,
    ensures
        m * m >= 1,
{
    assert(m * m >= 1) by (nonlinear_arith)
        requires
            m > 0,
    ;
}

/// The spread of `n` leaves is their variance over the square of their mean,
/// in thousandths, rounded down. The mean `m` is that of the leaf times in
/// units of 256 nanoseconds, and `msq` the mean of their squares. Leaves whose
/// mean is less than a unit, and leaves whose mean square is no more than the
/// square of the mean, have no spread.
pub proof fn law_spread_is_variance_over_squared_mean(sum: int, sumsq: int, n: int, m: int, msq: int)
    requires
        0 < n,
        0 <= m,
        0 <= msq,
        (256 * n) * m <= sum < (256 * n) * (m + 1),
        n * msq <= sumsq < n * (msq + 1),
        m * m <= u64::MAX,
        1000 * msq <= u64::MAX,
    ensures
        ({
            let r = cv2_spec(sum, sumsq, n);
            &&& m == 0 ==> r == 0
            &&& m > 0 && msq <= m * m ==> r == 0
            &&& m > 0 && msq > m * m ==> r * (m * m) <= 1000 * (msq - m * m) < (r + 1) * (m * m)
        }),
{
    assert(m * (256 * n) == (256 * n) * m && (m + 1) * (256 * n) == (256 * n) * (m + 1))
        by (nonlinear_arith);
    lemma_quotient_is(sum, 256 * n, m);
    assert(msq * n == n * msq && (msq + 1) * n == n * (msq + 1)) by (nonlinear_arith);
    lemma_quotient_is(sumsq, n, msq);
    assert(sum >= 0) by (nonlinear_arith)
        requires
            (256 * n) * m <= sum,
            0 < n,
            0 <= m,
    ;
    vstd::arithmetic::div_mod::lemma_div_denominator(sum, 256, n);
    assert((sum / 256) / n == m);
    if m > 0 {
        lemma_square_positive(m);
        if msq > m * m {
            lemma_quotient_bounds((msq - m * m) * 1000, m * m);
        } else {
            assert(cv2_spec(sum, sumsq, n) == 0int / (m * m));
            vstd::arithmetic::div_mod::lemma_div_of0(m * m);
        }
    }
}

/// Leaves that all take `f` times as long have the same spread.
pub proof fn law_spread_ignores_the_unit_of_time(n: int, m: int, msq: int, f: int)
    requires
        0 < n,
        0 < m,
        0 <= msq,
        0 < f,
        (m * f) * (m * f) <= u64::MAX,
        1000 * (msq * (f * f)) <= u64::MAX,
    ensures
        cv2_spec((256 * n) * (m * f), n * (msq * (f * f)), n) == cv2_spec(
            (256 * n) * m,
            n * msq,
            n,
        ),
{
    let g = f * f;
    let d = m * m;
    let v = msq - d;
    lemma_square_positive(f);
    lemma_square_positive(m);
    assert((m * f) * (m * f) == d * g) by (nonlinear_arith)
        requires
            g == f * f,
            d == m * m,
    ;
    assert(d <= d * g && msq <= msq * g) by (nonlinear_arith)
        requires
            d >= 1,
            msq >= 0,
            g >= 1,
    ;
    assert(m * f > 0 && msq * g >= 0) by (nonlinear_arith)
        requires
            m > 0,
            f > 0,
            g >= 1,
            msq >= 0,
    ;
    assert((256 * n) * m < (256 * n) * (m + 1) && (256 * n) * (m * f) < (256 * n) * (m * f + 1) && n
        * msq < n * (msq + 1) && n * (msq * g) < n * (msq * g + 1)) by (nonlinear_arith)
        requires
            0 < n,
    ;
    law_spread_is_variance_over_squared_mean((256 * n) * m, n * msq, n, m, msq);
    law_spread_is_variance_over_squared_mean(
        (256 * n) * (m * f),
        n * (msq * g),
        n,
        m * f,
        msq * g,
    );
    assert(msq * g - d * g == v * g) by (nonlinear_arith)
        requires
            v == msq - d,
    ;
    let r = cv2_spec((256 * n) * m, n * msq, n);
    let s = cv2_spec((256 * n) * (m * f), n * (msq * g), n);
    if v > 0 {
        assert(v * g > 0) by (nonlinear_arith)
            requires
                v > 0,
                g >= 1,
        ;
        assert(r == s) by (nonlinear_arith)
            requires
                r * d <= 1000 * v < (r + 1) * d,
                s * (d * g) <= 1000 * (v * g) < (s + 1) * (d * g),
                d >= 1,
                g >= 1,
        ;
    } else {
        assert(v * g <= 0) by (nonlinear_arith)
            requires
                v <= 0,
                g >= 1,
        ;
    }
}

/// Where each observed class begins and ends.
pub proof fn law_observed_boundaries(t: ClassThresholds, mean_ns: int, cv2: int)
    ensures
        ({
            let c = observed_class(t, mean_ns, cv2);
            let heavy = mean_ns >= t.fine_grain_ns && mean_ns >= t.port_heavy_ns;
            &&& c == WorkloadClass::FineGrain <==> mean_ns < t.fine_grain_ns
            &&& c == WorkloadClass::PortBound <==> t.fine_grain_ns <= mean_ns < t.port_heavy_ns
            &&& c == WorkloadClass::Streaming <==> heavy && cv2 < t.cv2_low_per_mille
            &&& c == WorkloadClass::MemoryBound <==> heavy && t.cv2_low_per_mille <= cv2
                < t.cv2_high_per_mille
            &&& c == WorkloadClass::LatencyBound <==> heavy && cv2 >= t.cv2_low_per_mille && cv2
                >= t.cv2_high_per_mille
        }),
{
}

/// A window's class is that of its mean and its spread, the mean being its
/// nanoseconds over its leaves, rounded down.
pub proof fn law_window_class_is_of_mean_and_spread(t: ClassThresholds, w: LeafStats, mean: int)
    requires
        0 < w.count,
        mean * w.count <= w.sum_ns < (mean + 1) * w.count,
    ensures
        window_class(t, w) == observed_class(
            t,
            mean,
            cv2_spec(w.sum_ns as int, w.sumsq_scaled as int, w.count as int),
        ),
{
    lemma_quotient_is(w.sum_ns as int, w.count as int, mean);
}

/// Slower leaves of the same spread are never classed as lighter work, and of
/// heavy leaves those with more spread are never classed as more regular.
pub proof fn law_heavier_leaves_are_not_lighter(
    t: ClassThresholds,
    mean1: int,
    mean2: int,
    cv2: int,
    more: int,
)
    requires
        mean1 <= mean2,
        cv2 <= more,
    ensures
        class_bucket(observed_class(t, mean1, cv2)) <= class_bucket(
            observed_class(t, mean2, cv2),
        ),
        class_bucket(observed_class(t, mean1, cv2)) <= class_bucket(
            observed_class(t, mean1, more),
        ),
{
}

/// Classes lie on one way from light to heavy: fine-grained, port-bound, the
/// two limited by memory side by side, latency-bound; one step each.
pub proof fn law_class_distances(a: WorkloadClass, b: WorkloadClass, c: WorkloadClass)
    ensures
        bucket_distance(a, a) == 0,
        bucket_distance(a, b) == bucket_distance(b, a),
        bucket_distance(a, c) <= bucket_distance(a, b) + bucket_distance(b, c),
        bucket_distance(WorkloadClass::FineGrain, a) + bucket_distance(
            a,
            WorkloadClass::LatencyBound,
        ) == 3,
        bucket_distance(WorkloadClass::FineGrain, WorkloadClass::PortBound) == 1,
        bucket_distance(WorkloadClass::PortBound, WorkloadClass::Streaming) == 1,
        bucket_distance(WorkloadClass::Streaming, WorkloadClass::MemoryBound) == 0,
        bucket_distance(WorkloadClass::MemoryBound, WorkloadClass::LatencyBound) == 1,
{
}

/// A caller's estimate decides by the boundaries alone; light items of a very
/// large batch that is worth spreading stream instead.
pub proof fn law_estimate_boundaries(t: ClassThresholds, k_outer: int, batch: int, ns: u32)
    requires
        0 <= batch,
        t.fine_grain_ns <= t.port_heavy_ns <= t.memory_latency_ns,
    ensures
        ({
            let c = static_class(t, k_outer, batch, Some(ns), LeafShape::Unknown);
            &&& c == WorkloadClass::LatencyBound <==> ns >= t.memory_latency_ns
            &&& c == WorkloadClass::MemoryBound <==> t.port_heavy_ns <= ns < t.memory_latency_ns
            &&& c == WorkloadClass::PortBound <==> t.fine_grain_ns <= ns < t.port_heavy_ns
            &&& c == WorkloadClass::Streaming <==> ns < t.fine_grain_ns && batch >= 65_536 && ns
                * batch >= 50_000
            &&& c == WorkloadClass::FineGrain <==> ns < t.fine_grain_ns && !(batch >= 65_536 && ns
                * batch >= 50_000)
        }),
{
}

/// Without an estimate, large operands are latency-bound, small operands in
/// large batches stream, and the rest is port-bound; and a known shape decides
/// whatever else is known.
pub proof fn law_shape_and_size_decide(
    t: ClassThresholds,
    u: ClassThresholds,
    k_outer: int,
    batch: int,
    ns: Option<u32>,
    shape: LeafShape,
)
    ensures
        ({
            let c = static_class(t, k_outer, batch, None, LeafShape::Unknown);
            &&& c == WorkloadClass::LatencyBound <==> k_outer >= 7
            &&& c == WorkloadClass::Streaming <==> k_outer <= 3 && batch >= 16_384
            &&& c == WorkloadClass::PortBound <==> k_outer < 7 && !(k_outer <= 3 && batch
                >= 16_384)
        }),
        shape != LeafShape::Unknown ==> static_class(t, k_outer, batch, ns, shape) == static_class(
            u,
            0,
            0,
            None,
            shape,
        ),
        static_class(t, k_outer, batch, ns, LeafShape::PortCompute) == WorkloadClass::PortBound,
        static_class(t, k_outer, batch, ns, LeafShape::LatencyCompute)
            == WorkloadClass::LatencyBound,
        static_class(t, k_outer, batch, ns, LeafShape::Streaming) == WorkloadClass::Streaming,
        static_class(t, k_outer, batch, ns, LeafShape::Gather) == WorkloadClass::MemoryBound,
{
}

/// The cost of a join is the middle one of the samples: the samples can be put
/// in ascending order, and it stands in their middle. At least one nanosecond
/// is charged.
pub proof fn law_join_cost_is_the_middle_sample(
    joins: Seq<u64>,
    merges: Seq<u64>,
    off: int,
    on: int,
    current: int,
    ordered: Seq<u64>,
)
    requires
        joins.len() > 0,
        ordered.to_multiset() == joins.to_multiset(),
        forall|i: int, j: int|
            0 <= i <= j < ordered.len() ==> #[trigger] ordered[i] <= #[trigger] ordered[j],
    ensures
        ({
            let middle = ordered[joins.len() as int / 2];
            calibration_spec(joins, merges, off, on, current).join_ns == if middle == 0 {
                1
            } else {
                middle
            }
        }),
{
    let leq = |a: u64, b: u64| a <= b;
    crate::math::lemma_leq_total();
    joins.lemma_sort_by_ensures(leq);
    assert(vstd::relations::sorted_by(ordered, leq));
    vstd::seq_lib::lemma_sorted_unique(ordered, ascending(joins), leq);
}

/// Work is fine-grained below a two-hundred-fifty-sixth of a join's cost, kept
/// between 25 and 200 nanoseconds.
pub proof fn law_fine_grain_follows_the_join(
    joins: Seq<u64>,
    merges: Seq<u64>,
    off: int,
    on: int,
    current: int,
)
    ensures
        ({
            let c = calibration_spec(joins, merges, off, on, current);
            &&& 25 <= c.fine_grain_ns <= 200
            &&& 25 < c.fine_grain_ns < 200 ==> 256 * c.fine_grain_ns <= c.join_ns < 256 * (
            c.fine_grain_ns + 1)
            &&& c.fine_grain_ns == 25 ==> c.join_ns < 256 * 26
            &&& c.fine_grain_ns == 200 ==> c.join_ns >= 256 * 200
        }),
{
}

/// A merge is trivial up to eight times the fastest measured one, kept between
/// 5000 and 200000 cycles. The fastest is one of the measurements and none is
/// faster; a measurement of zero counts as one.
pub proof fn law_trivial_merge_follows_the_fastest(
    joins: Seq<u64>,
    merges: Seq<u64>,
    off: int,
    on: int,
    current: int,
    i: int,
)
    requires
        0 <= i < merges.len(),
    ensures
        ({
            let c = calibration_spec(joins, merges, off, on, current);
            let best = c.trivial_reduce_measured_cycles;
            &&& 1 <= best
            &&& best <= merges[i] || best == 1
            &&& exists|k: int|
                0 <= k < merges.len() && (best == #[trigger] merges[k] || (best == 1 && merges[k]
                    == 0))
            &&& 5_000 <= c.trivial_reduce_cycles <= 200_000
            &&& 5_000 <= 8 * best <= 200_000 ==> c.trivial_reduce_cycles == 8 * best
            &&& 8 * best < 5_000 ==> c.trivial_reduce_cycles == 5_000
            &&& 8 * best > 200_000 ==> c.trivial_reduce_cycles == 200_000
        }),
{
    lemma_least_cycles_range(merges);
    lemma_least_is_least(merges, i);
    let k = lemma_least_is_measured(merges);
    assert(0 <= k < merges.len() && (least_cycles(merges) == merges[k] || (least_cycles(merges) == 1
        && merges[k] == 0)));
}

proof fn lemma_least_is_least(s: Seq<u64>, i: int)
    requires
        0 <= i < s.len(),
    ensures
        least_cycles(s) <= max_int(s[i] as int, 1),
    decreases s.len(),
{
    if i < s.len() - 1 {
        lemma_least_is_least(s.drop_last(), i);
    }
}

proof fn lemma_least_is_measured(s: Seq<u64>) -> (k: int)
    requires
        s.len() > 0,
    ensures
        0 <= k < s.len(),
        least_cycles(s) == max_int(s[k] as int, 1),
    decreases s.len(),
{
    let last = s.len() - 1;
    if s.len() == 1 {
        assert(least_cycles(s.drop_last()) == u64::MAX);
        last
    } else {
        let k = lemma_least_is_measured(s.drop_last());
        if least_cycles(s) == max_int(s.last() as int, 1) {
            last
        } else {
            k
        }
    }
}

/// The latency boundary comes a quarter microsecond earlier where siblings
/// save five percent or more of the time, a quarter microsecond later where
/// they cost as much, and stays in between; always from one to four
/// microseconds. The reported ratio is the time with siblings over the time
/// without, in thousandths, rounded down.
pub proof fn law_latency_follows_the_siblings(
    joins: Seq<u64>,
    merges: Seq<u64>,
    off: int,
    on: int,
    current: int,
)
    requires
        0 < off <= u64::MAX,
        0 < on,
        on * 1000 <= u64::MAX,
        1_000 <= current <= 4_000,
    ensures
        ({
            let c = calibration_spec(joins, merges, off, on, current);
            &&& c.smt_ratio_per_mille * off <= 1000 * on < (c.smt_ratio_per_mille + 1) * off
            &&& 100 * on <= 95 * off && current >= 1_250 ==> c.memory_latency_ns == current - 250
            &&& 100 * on <= 95 * off && current < 1_250 ==> c.memory_latency_ns == 1_000
            &&& 100 * on >= 105 * off && current <= 3_750 ==> c.memory_latency_ns == current + 250
            &&& 100 * on >= 105 * off && current > 3_750 ==> c.memory_latency_ns == 4_000
            &&& 951 * off <= 1000 * on < 1050 * off ==> c.memory_latency_ns == current
        }),
{
    let x = on * 1000;
    let r = x / off;
    lemma_quotient_bounds(x, off);
    assert(r <= u64::MAX) by (nonlinear_arith)
        requires
            r * off <= x,
            x <= u64::MAX,
            off >= 1,
            r >= 0,
    ;
    if 100 * on <= 95 * off {
        assert(r <= 950) by (nonlinear_arith)
            requires
                r * off <= x,
                x <= 950 * off,
                off > 0,
        ;
    }
    if 100 * on >= 105 * off {
        assert(r >= 1050) by (nonlinear_arith)
            requires
                x < (r + 1) * off,
                x >= 1050 * off,
                off > 0,
        ;
    }
    if 951 * off <= 1000 * on < 1050 * off {
        assert(951 <= r < 1050) by (nonlinear_arith)
            requires
                r * off <= x < (r + 1) * off,
                951 * off <= x < 1050 * off,
                off > 0,
        ;
    }
}

/// A calibration installs the boundaries that it reports, and no others.
pub proof fn law_calibration_installs_what_it_reports(t: ClassThresholds, c: ThresholdCalibration)
    ensures
        calibrated(t, c).fine_grain_ns == c.fine_grain_ns,
        calibrated(t, c).memory_latency_ns == c.memory_latency_ns,
        calibrated(t, c).trivial_reduce_cycles == c.trivial_reduce_cycles,
        calibrated(t, c).port_heavy_ns == t.port_heavy_ns,
        calibrated(t, c).cv2_low_per_mille == t.cv2_low_per_mille,
        calibrated(t, c).cv2_high_per_mille == t.cv2_high_per_mille,
{
}

/// A look at fewer than four new leaves changes nothing; any other closes the
/// window where the totals stand.
pub proof fn law_small_window_stays_open(s: ProfileState)
    ensures
        s.leaves.count < s.auto.last.count + 4 ==> ticked(s) == s,
        s.leaves.count >= s.auto.last.count + 4 ==> ticked(s).auto.last == s.leaves
            && ticked(s).auto.pending_tag == class_tag(
            window_class(s.thresholds, window(s.leaves, s.auto.last)),
        ),
{
}

/// A window of sixty-four leaves or more whose class is two or more steps from
/// the active one moves the profile at once.
pub proof fn law_far_off_window_moves_at_once(s: ProfileState)
    requires
        s.leaves.count >= s.auto.last.count + 64,
        bucket_distance(
            profile_class(s.profile()),
            window_class(s.thresholds, window(s.leaves, s.auto.last)),
        ) >= 2,
    ensures
        ticked(s).profile() == class_profile(
            window_class(s.thresholds, window(s.leaves, s.auto.last)),
        ),
{
}

/// Queues a job that calibrates the thresholds; does nothing where the pool is
/// disabled.
pub fn spawn_class_threshold_calibration<F: FnOnce() + Send>(pool: &mut IoPool<F>, calibrate: F)
    ensures
        final(pool).takes_jobs() == old(pool).takes_jobs(),
        final(pool).waiting() == if old(pool).takes_jobs() {
            old(pool).waiting().push(calibrate)
        } else {
            old(pool).waiting()
        },
{
    pool.submit(calibrate);
}

} // verus!
