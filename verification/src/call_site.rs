//! What one call site has learned about its dispatches.
//!
//! A site holds its own workload class, learned from its own leaves; timed
//! averages of two execution policies; per batch-size averages of running on
//! the processor and on a backend; the share in which to split a batch
//! between the two; and the cost of merging partial results. Averages give
//! each new sample an eighth; zero stands for "not measured".

use crate::adaptive_profile::{
    adopts_at_once, class_bucket_distance, class_tag_decode, class_tag_encode, classify_window,
    no_leaves, tagged_class, window, window_class, window_since, ClassThresholds, LeafStats,
    ProfileState, WorkloadClass, FAST_ADAPT_LEAVES, MIN_WINDOW_LEAVES,
};
use crate::math::{clamp_int, clamp_u64, max_int, sat64, saturating_product};
use crate::split_observer::{
    add_leaves, as_int, crosses_quantum, known_cv2, leaf_cv_squared_per_mille, leaves_added,
    record_leaf_batch, recorded,
};
use std::collections::HashMap;
use vstd::arithmetic::div_mod::lemma_fundamental_div_mod;
use vstd::arithmetic::power2::{lemma2_to64, lemma_pow2_adds, pow2};
use vstd::prelude::*;

verus! {

/// Windows in a row that must agree before a site's class moves to its
/// neighbour.
pub const SITE_MIGRATION_HYSTERESIS: u32 = 2;

/// Every how many choices the policy that looks slower is tried.
pub const ARM_TRIAL_CADENCE: u32 = 16;

/// Samples that each policy needs before they are compared.
pub const ARM_MIN_SAMPLES: u32 = 3;

/// Every how many calls a batch size is measured on both sides again.
pub const PLACEMENT_REPROBE_CADENCE: u32 = 32;

/// Number of batch-size buckets.
pub const PLACEMENT_BUCKETS: usize = 40;

/// Merges that are timed.
pub const REDUCE_COST_MAX_SAMPLES: u32 = 16;

/// Timed merges from which their average is trusted.
pub const REDUCE_COST_MIN_SAMPLES: u32 = 4;

/// Tag of a site that has no class yet.
pub const TAG_UNINIT: u8 = 0xFF;

/// An average after one more sample.
pub open spec fn ewma(average: u64, sample: u64) -> u64 {
    if average == 0 {
        max_int(sample as int, 1) as u64
    } else {
        max_int(sat64(average - average / 8 + sample / 8), 1) as u64
    }
}

/// An average that has a sample never looks unmeasured again, and stays
/// between the samples' range.
pub proof fn law_average_stays_measured(average: u64, sample: u64)
    ensures
        ewma(average, sample) >= 1,
        average > 0 ==> ewma(average, sample) <= max_int(average as int, sample as int) + 1,
{
}

fn ewma_update(average: u64, sample: u64) -> (res: u64)
    ensures
        res == ewma(average, sample),
{
    let next: u64 = if average == 0 {
        sample
    } else {
        (average - average / 8).saturating_add(sample / 8)
    };
    if next < 1 {
        1
    } else {
        next
    }
}

/// An execution policy.
#[derive(Debug, Clone, Copy, PartialEq, Eq, Structural)]
pub enum PolicyArm {
    /// The usual policy.
    Default,
    /// The other policy.
    Alternative,
}

/// Position of a policy in the averages.
pub open spec fn arm_index(arm: PolicyArm) -> int {
    match arm {
        PolicyArm::Default => 0,
        PolicyArm::Alternative => 1,
    }
}

/// The policy that is not `arm`.
pub open spec fn other_arm(arm: PolicyArm) -> PolicyArm {
    match arm {
        PolicyArm::Default => PolicyArm::Alternative,
        PolicyArm::Alternative => PolicyArm::Default,
    }
}

/// Where a dispatch runs.
#[derive(Debug, Clone, Copy, PartialEq, Eq, Structural)]
pub enum Placement {
    /// On the processor.
    Cpu,
    /// On the backend.
    Backend,
    /// On both, to measure them.
    Race,
}

/// What a call site has learned.
#[derive(Debug)]
pub struct CallSiteState {
    active_tag: u8,
    pending_tag: u8,
    pending_run: u32,
    leaves: LeafStats,
    last: LeafStats,
    arm_ewma_ns: [u64; 2],
    arm_samples: [u32; 2],
    arm_calls: u32,
    place_cpu_ns: [u64; 40],
    place_backend_ns: [u64; 40],
    place_calls: [u32; 40],
    split_cpu_ns_per_item: u64,
    split_backend_ns_per_item: u64,
    split_cpu_by_size: [u64; 40],
    split_backend_by_size: [u64; 40],
    reduce_cost_sum_cycles: u64,
    reduce_cost_samples: u32,
}

/// What a call site has learned, as mathematical values.
#[verifier::ext_equal]
pub struct Site {
    /// The class, once there is one.
    pub class: Option<WorkloadClass>,
    /// Class of the last window.
    pub pending: Option<WorkloadClass>,
    /// Windows in a row with that class.
    pub run: u32,
    /// Totals over the site's leaves.
    pub leaves: LeafStats,
    /// Totals where the last window ended.
    pub last: LeafStats,
    /// Average nanoseconds of each policy.
    pub arm_ns: Seq<u64>,
    /// Samples of each policy.
    pub arm_samples: Seq<u32>,
    /// Choices between policies.
    pub arm_calls: u32,
    /// Average nanoseconds on the processor, by size.
    pub cpu_ns: Seq<u64>,
    /// Average nanoseconds on the backend, by size.
    pub backend_ns: Seq<u64>,
    /// Placement decisions, by size.
    pub place_calls: Seq<u32>,
    /// Average nanoseconds per item on the processor.
    pub split_cpu: u64,
    /// Average nanoseconds per item on the backend.
    pub split_backend: u64,
    /// Average nanoseconds per item on the processor, by size.
    pub split_cpu_by_size: Seq<u64>,
    /// Average nanoseconds per item on the backend, by size.
    pub split_backend_by_size: Seq<u64>,
    /// Cycles of the timed merges.
    pub reduce_cycles: u64,
    /// Timed merges.
    pub reduce_samples: u32,
}

/// A site that has seen nothing.
pub open spec fn fresh_site() -> Site {
    Site {
        class: None,
        pending: None,
        run: 0,
        leaves: no_leaves(),
        last: no_leaves(),
        arm_ns: Seq::new(2, |i: int| 0u64),
        arm_samples: Seq::new(2, |i: int| 0u32),
        arm_calls: 0,
        cpu_ns: Seq::new(40, |i: int| 0u64),
        backend_ns: Seq::new(40, |i: int| 0u64),
        place_calls: Seq::new(40, |i: int| 0u32),
        split_cpu: 0,
        split_backend: 0,
        split_cpu_by_size: Seq::new(40, |i: int| 0u64),
        split_backend_by_size: Seq::new(40, |i: int| 0u64),
        reduce_cycles: 0,
        reduce_samples: 0,
    }
}

/// A 32-bit counter after one more.
pub open spec fn bump32(x: u32) -> u32 {
    ((x + 1) % 0x1_0000_0000) as u32
}

/// The site after one look at its leaves: the first class is adopted, a
/// far-off class of a large window too, any other after two windows in a row.
pub open spec fn site_ticked(s: Site, t: ClassThresholds) -> Site {
    let w = window(s.leaves, s.last);
    let seen = window_class(t, w);
    if w.count < MIN_WINDOW_LEAVES {
        s
    } else {
        let next = Site { last: s.leaves, pending: Some(seen), ..s };
        match s.class {
            None => Site { class: Some(seen), run: 0, ..next },
            Some(active) => if active == seen {
                Site { run: 0, ..next }
            } else if adopts_at_once(active, seen, w.count) {
                Site { class: Some(seen), run: 0, ..next }
            } else if s.pending == Some(seen) {
                Site {
                    class: if s.run + 1 >= SITE_MIGRATION_HYSTERESIS {
                        Some(seen)
                    } else {
                        s.class
                    },
                    run: bump32(s.run),
                    ..next
                }
            } else {
                Site { run: 1, ..next }
            },
        }
    }
}

/// The site after a batch of leaves.
pub open spec fn site_recorded(
    s: Site,
    t: ClassThresholds,
    sum_ns: u64,
    sumsq_scaled: u64,
    count: u64,
) -> Site {
    let added = leaves_added(s.leaves, sum_ns, sumsq_scaled, count);
    let with = Site { leaves: added, ..s };
    if crosses_quantum(s.leaves.count, added.count) {
        site_ticked(with, t)
    } else {
        with
    }
}

/// The policy with the lower average; the usual one where they tie.
pub open spec fn faster_arm(s: Site) -> PolicyArm {
    if s.arm_ns[1] < s.arm_ns[0] {
        PolicyArm::Alternative
    } else {
        PolicyArm::Default
    }
}

/// Both policies have enough samples to be compared.
pub open spec fn arms_compared(s: Site) -> bool {
    s.arm_samples[0] >= ARM_MIN_SAMPLES && s.arm_samples[1] >= ARM_MIN_SAMPLES
}

/// The policy that the next dispatch uses.
pub open spec fn arm_choice(s: Site, alternative_allowed: bool) -> PolicyArm {
    if !alternative_allowed {
        PolicyArm::Default
    } else if !arms_compared(s) {
        if s.arm_samples[1] < s.arm_samples[0] {
            PolicyArm::Alternative
        } else {
            PolicyArm::Default
        }
    } else if s.arm_calls % ARM_TRIAL_CADENCE == ARM_TRIAL_CADENCE - 1 {
        other_arm(faster_arm(s))
    } else {
        faster_arm(s)
    }
}

/// Bucket of a batch size: the position of its highest bit.
pub open spec fn size_bucket(batch: int) -> int
    decreases batch,
{
    if batch < 2 {
        0
    } else {
        1 + size_bucket(batch / 2)
    }
}

/// Where the next dispatch of `batch` items runs.
pub open spec fn placement_choice(s: Site, batch: u32) -> Placement {
    let b = size_bucket(batch as int);
    if s.cpu_ns[b] == 0 || s.backend_ns[b] == 0 {
        Placement::Race
    } else if s.place_calls[b] % PLACEMENT_REPROBE_CADENCE == PLACEMENT_REPROBE_CADENCE - 1 {
        Placement::Race
    } else if s.cpu_ns[b] <= s.backend_ns[b] {
        Placement::Cpu
    } else {
        Placement::Backend
    }
}

/// An average after an optional sample.
pub open spec fn ewma_if(average: u64, sample: Option<u64>) -> u64 {
    match sample {
        Some(ns) => ewma(average, ns),
        None => average,
    }
}

/// An average per item after a run of `items` items, if there were any.
pub open spec fn ewma_per_item(average: u64, items: int, ns: u64) -> u64 {
    if items > 0 {
        ewma(average, max_int(ns as int / items, 1) as u64)
    } else {
        average
    }
}

/// The processor's share, in thousandths, of items that cost `cpu` and
/// `backend` nanoseconds on the two sides.
pub open spec fn share_of(cpu: int, backend: int) -> int {
    clamp_int(sat64(backend * 1000) / sat64(cpu + backend), 50, 950)
}

/// The processor's share by the site-wide averages; half until both sides
/// are measured.
pub open spec fn split_share(s: Site) -> int {
    if s.split_cpu == 0 || s.split_backend == 0 {
        500
    } else {
        share_of(s.split_cpu as int, s.split_backend as int)
    }
}

/// The processor's share for a batch size, by that size's averages where
/// both sides are measured.
pub open spec fn split_share_for(s: Site, n: u32) -> int {
    let b = size_bucket(n as int);
    if s.split_cpu_by_size[b] == 0 || s.split_backend_by_size[b] == 0 {
        split_share(s)
    } else {
        share_of(s.split_cpu_by_size[b] as int, s.split_backend_by_size[b] as int)
    }
}

/// The site after a split dispatch.
pub open spec fn split_recorded(
    s: Site,
    cpu_items: int,
    cpu_ns: u64,
    backend_items: int,
    backend_ns: u64,
) -> Site {
    Site {
        split_cpu: ewma_per_item(s.split_cpu, cpu_items, cpu_ns),
        split_backend: ewma_per_item(s.split_backend, backend_items, backend_ns),
        ..s
    }
}

fn per_item(ns: u64, items: usize) -> (res: u64)
    requires
        items > 0,
    ensures
        res == max_int(ns as int / items as int, 1),
{
    let each: u64 = ns / (items as u64);
    if each < 1 {
        1
    } else {
        each
    }
}

fn share(cpu: u64, backend: u64) -> (res: u32)
    requires
        cpu > 0,
        backend > 0,
    ensures
        res == share_of(cpu as int, backend as int),
{
    let total: u64 = cpu.saturating_add(backend);
    let share: u64 = clamp_u64(saturating_product(backend, 1000) / total, 50, 950);
    share as u32
}

impl CallSiteState {
    /// What the site has learned.
    pub closed spec fn view(&self) -> Site {
        Site {
            class: tagged_class(self.active_tag),
            pending: tagged_class(self.pending_tag),
            run: self.pending_run,
            leaves: self.leaves,
            last: self.last,
            arm_ns: self.arm_ewma_ns@,
            arm_samples: self.arm_samples@,
            arm_calls: self.arm_calls,
            cpu_ns: self.place_cpu_ns@,
            backend_ns: self.place_backend_ns@,
            place_calls: self.place_calls@,
            split_cpu: self.split_cpu_ns_per_item,
            split_backend: self.split_backend_ns_per_item,
            split_cpu_by_size: self.split_cpu_by_size@,
            split_backend_by_size: self.split_backend_by_size@,
            reduce_cycles: self.reduce_cost_sum_cycles,
            reduce_samples: self.reduce_cost_samples,
        }
    }

    /// A site that has seen nothing.
    pub fn new() -> (res: CallSiteState)
        ensures
            res@ == fresh_site(),
    {
        CallSiteState {
            active_tag: TAG_UNINIT,
            pending_tag: TAG_UNINIT,
            pending_run: 0,
            leaves: LeafStats { count: 0, sum_ns: 0, sumsq_scaled: 0 },
            last: LeafStats { count: 0, sum_ns: 0, sumsq_scaled: 0 },
            arm_ewma_ns: [0; 2],
            arm_samples: [0; 2],
            arm_calls: 0,
            place_cpu_ns: [0; 40],
            place_backend_ns: [0; 40],
            place_calls: [0; 40],
            split_cpu_ns_per_item: 0,
            split_backend_ns_per_item: 0,
            split_cpu_by_size: [0; 40],
            split_backend_by_size: [0; 40],
            reduce_cost_sum_cycles: 0,
            reduce_cost_samples: 0,
        }
    }

    /// The class that the site has learned, if any.
    pub fn learned_class(&self) -> (res: Option<WorkloadClass>)
        ensures
            res == self@.class,
    {
        class_tag_decode(self.active_tag)
    }

    /// Records a batch of leaves with the process and with the site.
    pub fn record_batch(
        &mut self,
        process: &mut ProfileState,
        sum_ns: u64,
        sumsq_scaled: u64,
        count: u64,
    )
        ensures
            *final(process) == recorded(*old(process), sum_ns, sumsq_scaled, count),
            final(self)@ == site_recorded(
                old(self)@,
                old(process).thresholds,
                sum_ns,
                sumsq_scaled,
                count,
            ),
    {
        record_leaf_batch(process, sum_ns, sumsq_scaled, count);
        self.record_batch_site_only(&process.thresholds, sum_ns, sumsq_scaled, count);
    }

    /// Records a batch of leaves with the site alone.
    pub fn record_batch_site_only(
        &mut self,
        t: &ClassThresholds,
        sum_ns: u64,
        sumsq_scaled: u64,
        count: u64,
    )
        ensures
            final(self)@ == site_recorded(old(self)@, *t, sum_ns, sumsq_scaled, count),
    {
        let crossed = add_leaves(&mut self.leaves, sum_ns, sumsq_scaled, count);
        if crossed {
            self.tick(t);
        }
    }

    /// Squared coefficient of variation of the site's leaves, in thousandths,
    /// once there are four.
    pub fn cv2_per_mille(&self) -> (res: Option<u64>)
        ensures
            as_int(res) == known_cv2(self@.leaves),
    {
        leaf_cv_squared_per_mille(&self.leaves)
    }

    /// Leaves recorded with the site.
    pub fn leaf_count(&self) -> (res: u64)
        ensures
            res == self@.leaves.count,
    {
        self.leaves.count
    }

    /// One look at the leaves since the last one.
    pub fn tick(&mut self, t: &ClassThresholds)
        ensures
            final(self)@ == site_ticked(old(self)@, *t),
    {
        let w = window_since(self.leaves, self.last);
        if w.count < MIN_WINDOW_LEAVES {
            return;
        }
        self.last = self.leaves;
        let seen = classify_window(t, w);
        let seen_tag: u8 = class_tag_encode(seen);
        match class_tag_decode(self.active_tag) {
            None => {
                self.active_tag = seen_tag;
                self.pending_tag = seen_tag;
                self.pending_run = 0;
            },
            Some(active) => {
                if active != seen {
                    if class_bucket_distance(active, seen) >= 2 && w.count >= FAST_ADAPT_LEAVES {
                        self.active_tag = seen_tag;
                        self.pending_tag = seen_tag;
                        self.pending_run = 0;
                        return;
                    }
                    if self.pending_tag == seen_tag {
                        let prior: u32 = self.pending_run;
                        self.pending_run = prior.wrapping_add(1);
                        if prior.saturating_add(1) >= SITE_MIGRATION_HYSTERESIS {
                            self.active_tag = seen_tag;
                        }
                    } else {
                        self.pending_tag = seen_tag;
                        self.pending_run = 1;
                    }
                } else {
                    self.pending_tag = seen_tag;
                    self.pending_run = 0;
                }
            },
        }
    }

    /// Chooses the policy of a dispatch.
    pub fn choose_arm(&mut self, alternative_allowed: bool) -> (res: PolicyArm)
        ensures
            res == arm_choice(old(self)@, alternative_allowed),
            final(self)@ == if alternative_allowed {
                Site { arm_calls: bump32(old(self)@.arm_calls), ..old(self)@ }
            } else {
                old(self)@
            },
    {
        if !alternative_allowed {
            return PolicyArm::Default;
        }
        let calls: u32 = self.arm_calls;
        self.arm_calls = calls.wrapping_add(1);
        let s0: u32 = self.arm_samples[0];
        let s1: u32 = self.arm_samples[1];
        if s0 < ARM_MIN_SAMPLES || s1 < ARM_MIN_SAMPLES {
            return if s1 < s0 {
                PolicyArm::Alternative
            } else {
                PolicyArm::Default
            };
        }
        let best = if self.arm_ewma_ns[1] < self.arm_ewma_ns[0] {
            PolicyArm::Alternative
        } else {
            PolicyArm::Default
        };
        if calls % ARM_TRIAL_CADENCE == ARM_TRIAL_CADENCE - 1 {
            return match best {
                PolicyArm::Default => PolicyArm::Alternative,
                PolicyArm::Alternative => PolicyArm::Default,
            };
        }
        best
    }

    /// Records the time of a dispatch under a policy.
    pub fn record_arm(&mut self, arm: PolicyArm, wall_ns: u64)
        ensures
            final(self)@ == (Site {
                arm_ns: old(self)@.arm_ns.update(
                    arm_index(arm),
                    ewma(old(self)@.arm_ns[arm_index(arm)], wall_ns),
                ),
                arm_samples: old(self)@.arm_samples.update(
                    arm_index(arm),
                    bump32(old(self)@.arm_samples[arm_index(arm)]),
                ),
                ..old(self)@
            }),
    {
        let i: usize = match arm {
            PolicyArm::Default => 0,
            PolicyArm::Alternative => 1,
        };
        self.arm_ewma_ns[i] = ewma_update(self.arm_ewma_ns[i], wall_ns);
        self.arm_samples[i] = self.arm_samples[i].wrapping_add(1);
    }

    /// Average times of the two policies.
    pub fn arm_ewmas(&self) -> (res: (u64, u64))
        ensures
            res == (self@.arm_ns[0], self@.arm_ns[1]),
    {
        (self.arm_ewma_ns[0], self.arm_ewma_ns[1])
    }

    /// Bucket of a batch size.
    fn bucket(batch: u32) -> (res: usize)
        ensures
            res == size_bucket(batch as int),
            res < 40,
    {
        let mut left: u32 = batch;
        let mut b: usize = 0;
        proof {
            lemma_size_bucket(batch as int);
            lemma2_to64();
            if size_bucket(batch as int) >= 33 {
                lemma_pow2_gap(33, size_bucket(batch as int) as nat);
                assert(pow2(33) > u32::MAX) by {
                    lemma_pow2_adds(32, 1);
                }
            }
        }
        while left >= 2
            invariant
                b + size_bucket(left as int) == size_bucket(batch as int),
                size_bucket(batch as int) < 40,
                size_bucket(left as int) >= 0,
            decreases left,
        {
            proof {
                lemma_size_bucket(left as int / 2);
            }
            left = left / 2;
            b = b + 1;
        }
        b
    }

    /// Chooses where a dispatch of `batch` items runs.
    pub fn choose_placement(&mut self, batch: u32) -> (res: Placement)
        ensures
            res == placement_choice(old(self)@, batch),
            final(self)@ == (Site {
                place_calls: old(self)@.place_calls.update(
                    size_bucket(batch as int),
                    bump32(old(self)@.place_calls[size_bucket(batch as int)]),
                ),
                ..old(self)@
            }),
    {
        let b: usize = Self::bucket(batch);
        let calls: u32 = self.place_calls[b];
        self.place_calls[b] = calls.wrapping_add(1);
        let cpu: u64 = self.place_cpu_ns[b];
        let dev: u64 = self.place_backend_ns[b];
        if cpu == 0 || dev == 0 {
            return Placement::Race;
        }
        if calls % PLACEMENT_REPROBE_CADENCE == PLACEMENT_REPROBE_CADENCE - 1 {
            return Placement::Race;
        }
        if cpu <= dev {
            Placement::Cpu
        } else {
            Placement::Backend
        }
    }

    /// Records the times of a dispatch of `batch` items on the sides that ran.
    pub fn record_placement(&mut self, batch: u32, cpu_ns: Option<u64>, backend_ns: Option<u64>)
        ensures
            final(self)@ == (Site {
                cpu_ns: old(self)@.cpu_ns.update(
                    size_bucket(batch as int),
                    ewma_if(old(self)@.cpu_ns[size_bucket(batch as int)], cpu_ns),
                ),
                backend_ns: old(self)@.backend_ns.update(
                    size_bucket(batch as int),
                    ewma_if(old(self)@.backend_ns[size_bucket(batch as int)], backend_ns),
                ),
                ..old(self)@
            }),
    {
        let b: usize = Self::bucket(batch);
        if let Some(ns) = cpu_ns {
            self.place_cpu_ns[b] = ewma_update(self.place_cpu_ns[b], ns);
        }
        if let Some(ns) = backend_ns {
            self.place_backend_ns[b] = ewma_update(self.place_backend_ns[b], ns);
        }
    }

    /// Average times on the two sides for a batch size.
    pub fn placement_ewmas(&self, batch: u32) -> (res: (u64, u64))
        ensures
            res == (
                self@.cpu_ns[size_bucket(batch as int)],
                self@.backend_ns[size_bucket(batch as int)],
            ),
    {
        let b: usize = Self::bucket(batch);
        (self.place_cpu_ns[b], self.place_backend_ns[b])
    }

    /// The processor's share of a divisible batch, in thousandths.
    pub fn split_cpu_share_per_mille(&self) -> (res: u32)
        ensures
            res == split_share(self@),
    {
        let c: u64 = self.split_cpu_ns_per_item;
        let g: u64 = self.split_backend_ns_per_item;
        if c == 0 || g == 0 {
            return 500;
        }
        share(c, g)
    }

    /// Records the two sides' times of a split dispatch.
    pub fn record_split(&mut self, cpu_items: usize, cpu_ns: u64, backend_items: usize, backend_ns: u64)
        ensures
            final(self)@ == split_recorded(
                old(self)@,
                cpu_items as int,
                cpu_ns,
                backend_items as int,
                backend_ns,
            ),
    {
        if cpu_items > 0 {
            self.split_cpu_ns_per_item = ewma_update(
                self.split_cpu_ns_per_item,
                per_item(cpu_ns, cpu_items),
            );
        }
        if backend_items > 0 {
            self.split_backend_ns_per_item = ewma_update(
                self.split_backend_ns_per_item,
                per_item(backend_ns, backend_items),
            );
        }
    }

    /// The processor's share of a divisible batch of `n` items, in
    /// thousandths.
    pub fn split_cpu_share_per_mille_for(&self, n: u32) -> (res: u32)
        ensures
            res == split_share_for(self@, n),
    {
        let b: usize = Self::bucket(n);
        let c: u64 = self.split_cpu_by_size[b];
        let g: u64 = self.split_backend_by_size[b];
        if c == 0 || g == 0 {
            return self.split_cpu_share_per_mille();
        }
        share(c, g)
    }

    /// Records the two sides' times of a split dispatch of `n` items, for its
    /// size and site-wide.
    pub fn record_split_for(
        &mut self,
        n: u32,
        cpu_items: usize,
        cpu_ns: u64,
        backend_items: usize,
        backend_ns: u64,
    )
        ensures
            final(self)@ == (Site {
                split_cpu_by_size: old(self)@.split_cpu_by_size.update(
                    size_bucket(n as int),
                    ewma_per_item(
                        old(self)@.split_cpu_by_size[size_bucket(n as int)],
                        cpu_items as int,
                        cpu_ns,
                    ),
                ),
                split_backend_by_size: old(self)@.split_backend_by_size.update(
                    size_bucket(n as int),
                    ewma_per_item(
                        old(self)@.split_backend_by_size[size_bucket(n as int)],
                        backend_items as int,
                        backend_ns,
                    ),
                ),
                ..split_recorded(
                    old(self)@,
                    cpu_items as int,
                    cpu_ns,
                    backend_items as int,
                    backend_ns,
                )
            }),
    {
        let b: usize = Self::bucket(n);
        if cpu_items > 0 {
            self.split_cpu_by_size[b] = ewma_update(
                self.split_cpu_by_size[b],
                per_item(cpu_ns, cpu_items),
            );
        }
        if backend_items > 0 {
            self.split_backend_by_size[b] = ewma_update(
                self.split_backend_by_size[b],
                per_item(backend_ns, backend_items),
            );
        }
        self.record_split(cpu_items, cpu_ns, backend_items, backend_ns);
    }

    /// Whether another merge is to be timed.
    pub fn reduce_cost_wants_sample(&self) -> (res: bool)
        ensures
            res == (self@.reduce_samples < REDUCE_COST_MAX_SAMPLES),
    {
        self.reduce_cost_samples < REDUCE_COST_MAX_SAMPLES
    }

    /// Records the cycles of a timed merge.
    pub fn record_reduce_cost_sample(&mut self, cycles: u64)
        ensures
            final(self)@ == (Site {
                reduce_cycles: ((old(self)@.reduce_cycles + cycles)
                    % 0x1_0000_0000_0000_0000) as u64,
                reduce_samples: bump32(old(self)@.reduce_samples),
                ..old(self)@
            }),
    {
        self.reduce_cost_sum_cycles = self.reduce_cost_sum_cycles.wrapping_add(cycles);
        self.reduce_cost_samples = self.reduce_cost_samples.wrapping_add(1);
    }

    /// Average cycles of a merge, once four were timed.
    pub fn reduce_cost_avg_cycles(&self) -> (res: Option<u64>)
        ensures
            res == if self@.reduce_samples < REDUCE_COST_MIN_SAMPLES {
                None
            } else {
                Some((self@.reduce_cycles as int / self@.reduce_samples as int) as u64)
            },
    {
        let n: u32 = self.reduce_cost_samples;
        if n < REDUCE_COST_MIN_SAMPLES {
            return None;
        }
        Some(self.reduce_cost_sum_cycles / (n as u64))
    }
}

proof fn lemma_pow2_gap(lo: nat, hi: nat)
    requires
        lo <= hi,
    ensures
        pow2(lo) <= pow2(hi),
    decreases hi - lo,
{
    if lo < hi {
        lemma_pow2_gap(lo, (hi - 1) as nat);
        lemma_pow2_adds((hi - 1) as nat, 1);
        lemma2_to64();
    }
}

proof fn lemma_size_bucket(batch: int)
    requires
        batch >= 0,
    ensures
        size_bucket(batch) >= 0,
        pow2(size_bucket(batch) as nat) <= max_int(batch, 1) < pow2(
            (size_bucket(batch) + 1) as nat,
        ),
    decreases batch,
{
    lemma2_to64();
    if batch >= 2 {
        lemma_size_bucket(batch / 2);
        let b = size_bucket(batch / 2) as nat;
        lemma_pow2_adds(b, 1);
        lemma_pow2_adds(b + 1, 1);
    }
}

/// A batch size lies between its bucket's power of two and the next; an
/// empty batch counts as one item.
pub proof fn law_bucket_covers(batch: u32)
    ensures
        0 <= size_bucket(batch as int) <= 31,
        pow2(size_bucket(batch as int) as nat) <= max_int(batch as int, 1) < pow2(
            (size_bucket(batch as int) + 1) as nat,
        ),
{
    lemma_size_bucket(batch as int);
    lemma2_to64();
    if size_bucket(batch as int) >= 32 {
        lemma_pow2_gap(32, size_bucket(batch as int) as nat);
    }
}

/// Once both policies are compared, of any sixteen choices in a row exactly
/// one tries the policy that looks slower.
pub proof fn law_one_trial_per_cadence(s: Site, k: u32)
    requires
        arms_compared(s),
        k < ARM_TRIAL_CADENCE,
    ensures
        ({
            let later = Site {
                arm_calls: ((s.arm_calls + k) % 0x1_0000_0000) as u32,
                ..s
            };
            arm_choice(later, true) == faster_arm(s) <==> k != (ARM_TRIAL_CADENCE - 1
                - s.arm_calls % ARM_TRIAL_CADENCE)
        }),
{
    let c = (s.arm_calls + k) % 0x1_0000_0000;
    assert(c % 16 == (s.arm_calls + k) % 16);
}

/// Splitting gives each side at least a twentieth, and the faster side at
/// least half, while costs stay where a thousand times their value fits 64
/// bits.
pub proof fn law_faster_side_gets_more(cpu: int, backend: int)
    requires
        0 < cpu,
        0 < backend,
        cpu * 1000 <= u64::MAX,
        backend * 1000 <= u64::MAX,
    ensures
        50 <= share_of(cpu, backend) <= 950,
        cpu <= backend ==> share_of(cpu, backend) >= 500,
        backend <= cpu ==> share_of(cpu, backend) <= 500,
{
    let q = (backend * 1000) / (cpu + backend);
    lemma_fundamental_div_mod(backend * 1000, cpu + backend);
    if cpu <= backend {
        assert(q >= 500) by (nonlinear_arith)
            requires
                q == (backend * 1000) / (cpu + backend),
                0 < cpu <= backend,
        ;
    }
    if backend <= cpu {
        assert(q <= 500) by (nonlinear_arith)
            requires
                q == (backend * 1000) / (cpu + backend),
                0 < backend <= cpu,
        ;
    }
}

/// A later sample moves an average an eighth of the way: seven parts of the
/// average and one of the sample, up to rounding; exactly so where both are
/// multiples of eight. The first sample is taken as it is.
pub proof fn law_average_moves_an_eighth(average: u64, sample: u64)
    ensures
        average == 0 && sample > 0 ==> ewma(average, sample) == sample,
        average == 0 && sample == 0 ==> ewma(average, sample) == 1,
        average > 0 ==> 7 * average + sample - 7 <= 8 * ewma(average, sample) <= 7 * average
            + sample + 7,
        average > 0 && average % 8 == 0 && sample % 8 == 0 ==> 8 * ewma(average, sample) == 7
            * average + sample,
{
}

/// A quotient by its two bounds.
proof fn lemma_quotient(x: int, d: int)
    requires
        0 <= x,
        0 < d,
    ensures
        (x / d) * d <= x < (x / d + 1) * d,
        0 <= x / d,
{
    lemma_fundamental_div_mod(x, d);
    let q = x / d;
    assert(q * d <= x < (q + 1) * d && q >= 0) by (nonlinear_arith)
        requires
            x == d * q + x % d,
            0 <= x % d < d,
            0 <= x,
            0 < d,
            q == x / d,
    ;
}

/// The first split that ran items on a side measures that side's nanoseconds
/// per item, rounded down but at least one; a side without items learns
/// nothing.
pub proof fn law_first_split_measures_each_item(
    s: Site,
    cpu_items: int,
    cpu_ns: u64,
    backend_items: int,
    backend_ns: u64,
)
    requires
        0 <= cpu_items,
        0 <= backend_items,
    ensures
        ({
            let c = split_recorded(s, cpu_items, cpu_ns, backend_items, backend_ns).split_cpu;
            let g = split_recorded(s, cpu_items, cpu_ns, backend_items, backend_ns).split_backend;
            &&& cpu_items == 0 ==> c == s.split_cpu
            &&& backend_items == 0 ==> g == s.split_backend
            &&& s.split_cpu == 0 && 0 < cpu_items <= cpu_ns ==> c * cpu_items <= cpu_ns < (c + 1)
                * cpu_items
            &&& s.split_cpu == 0 && cpu_ns < cpu_items ==> c == 1
            &&& s.split_backend == 0 && 0 < backend_items <= backend_ns ==> g * backend_items
                <= backend_ns < (g + 1) * backend_items
            &&& s.split_backend == 0 && backend_ns < backend_items ==> g == 1
        }),
{
    if cpu_items > 0 {
        lemma_each(cpu_ns as int, cpu_items);
    }
    if backend_items > 0 {
        lemma_each(backend_ns as int, backend_items);
    }
}

/// The share per item, at least one where there is a nanosecond for each.
proof fn lemma_each(ns: int, items: int)
    requires
        0 <= ns <= u64::MAX,
        0 < items,
    ensures
        (ns / items) * items <= ns < (ns / items + 1) * items,
        0 <= ns / items <= u64::MAX,
        ns >= items ==> ns / items >= 1,
        ns < items ==> ns / items == 0,
{
    lemma_quotient(ns, items);
    let q = ns / items;
    assert(q <= ns) by (nonlinear_arith)
        requires
            q * items <= ns,
            0 < items,
            0 <= q,
    ;
    if q == 0 {
        assert((q + 1) * items == items) by (nonlinear_arith)
            requires
                q == 0,
        ;
    }
    if q >= 1 {
        assert(q * items >= items) by (nonlinear_arith)
            requires
                q >= 1,
                items > 0,
        ;
    }
}

/// A split balances the two sides: with `q` thousandths of the items on the
/// processor, the processor's work and the backend's differ by less than one
/// thousandth of the items either way. Only where that share would leave a
/// side less than a twentieth does the side get a twentieth. Until both sides
/// are measured the split is even.
pub proof fn law_split_balances_the_sides(s: Site)
    requires
        s.split_backend * 1000 <= u64::MAX,
        s.split_cpu + s.split_backend <= u64::MAX,
    ensures
        s.split_cpu == 0 || s.split_backend == 0 ==> split_share(s) == 500,
        s.split_cpu > 0 && s.split_backend > 0 ==> {
            let q = split_share(s);
            let both = s.split_cpu + s.split_backend;
            &&& 50 <= q <= 950
            &&& 50 < q < 950 ==> q * both <= 1000 * s.split_backend < (q + 1) * both
            &&& q == 50 ==> 1000 * s.split_backend < 51 * both
            &&& q == 950 ==> 1000 * s.split_backend >= 950 * both
            &&& 50 < q < 950 ==> q * s.split_cpu <= (1000 - q) * s.split_backend
            &&& 50 < q < 950 ==> (q + 1) * s.split_cpu > (1000 - q - 1) * s.split_backend
        },
{
    if s.split_cpu > 0 && s.split_backend > 0 {
        lemma_share(s.split_cpu as int, s.split_backend as int);
    }
}

/// A size whose sides are both measured is split by its own averages, in
/// balance; any other size as the whole site is.
pub proof fn law_sized_split_balances_the_sides(s: Site, n: u32)
    requires
        ({
            let b = size_bucket(n as int);
            &&& s.split_backend_by_size[b] * 1000 <= u64::MAX
            &&& s.split_cpu_by_size[b] + s.split_backend_by_size[b] <= u64::MAX
        }),
    ensures
        ({
            let b = size_bucket(n as int);
            let cpu = s.split_cpu_by_size[b];
            let backend = s.split_backend_by_size[b];
            let q = split_share_for(s, n);
            if cpu == 0 || backend == 0 {
                q == split_share(s)
            } else {
                &&& 50 <= q <= 950
                &&& 50 < q < 950 ==> q * (cpu + backend) <= 1000 * backend < (q + 1) * (cpu
                    + backend)
                &&& q == 50 ==> 1000 * backend < 51 * (cpu + backend)
                &&& q == 950 ==> 1000 * backend >= 950 * (cpu + backend)
            }
        }),
{
    let b = size_bucket(n as int);
    if s.split_cpu_by_size[b] > 0 && s.split_backend_by_size[b] > 0 {
        lemma_share(s.split_cpu_by_size[b] as int, s.split_backend_by_size[b] as int);
    }
}

proof fn lemma_share(cpu: int, backend: int)
    requires
        0 < cpu,
        0 < backend,
        backend * 1000 <= u64::MAX,
        cpu + backend <= u64::MAX,
    ensures
        ({
            let q = share_of(cpu, backend);
            let both = cpu + backend;
            &&& 50 <= q <= 950
            &&& 50 < q < 950 ==> q * both <= 1000 * backend < (q + 1) * both
            &&& q == 50 ==> 1000 * backend < 51 * both
            &&& q == 950 ==> 1000 * backend >= 950 * both
            &&& 50 < q < 950 ==> q * cpu <= (1000 - q) * backend
            &&& 50 < q < 950 ==> (q + 1) * cpu > (1000 - q - 1) * backend
        }),
{
    let both = cpu + backend;
    let x = backend * 1000;
    let raw = x / both;
    lemma_quotient(x, both);
    let q = share_of(cpu, backend);
    if raw <= 50 {
        assert((raw + 1) * both <= 51 * both) by (nonlinear_arith)
            requires
                raw <= 50,
                both > 0,
        ;
    } else if raw >= 950 {
        assert(raw * both >= 950 * both) by (nonlinear_arith)
            requires
                raw >= 950,
                both > 0,
        ;
    } else {
        assert(q == raw);
        assert(q * both == q * cpu + q * backend) by (nonlinear_arith)
            requires
                both == cpu + backend,
        ;
        assert((q + 1) * both == (q + 1) * cpu + (q + 1) * backend) by (nonlinear_arith)
            requires
                both == cpu + backend,
        ;
        assert((1000 - q) * backend == 1000 * backend - q * backend) by (nonlinear_arith);
        assert((1000 - q - 1) * backend == 1000 * backend - (q + 1) * backend)
            by (nonlinear_arith);
    }
}

/// A placement by measurement is on a side that is at least as fast; without
/// measurements of both sides, both run; and each batch size answers by its
/// own measurements alone.
pub proof fn law_placement_is_the_faster_side(s: Site, other: Site, batch: u32)
    ensures
        ({
            let b = size_bucket(batch as int);
            let p = placement_choice(s, batch);
            &&& s.cpu_ns[b] == 0 || s.backend_ns[b] == 0 ==> p == Placement::Race
            &&& p == Placement::Cpu ==> 0 < s.cpu_ns[b] <= s.backend_ns[b]
            &&& p == Placement::Backend ==> 0 < s.backend_ns[b] < s.cpu_ns[b]
            &&& s.cpu_ns[b] == other.cpu_ns[b] && s.backend_ns[b] == other.backend_ns[b]
                && s.place_calls[b] == other.place_calls[b] ==> p == placement_choice(other, batch)
        }),
{
}

/// Of any thirty-two calls in a row with a batch size whose sides are
/// measured, exactly one runs both sides again, and all others run the faster
/// one.
pub proof fn law_one_race_per_cadence(s: Site, batch: u32, k: u32)
    requires
        s.place_calls.len() == PLACEMENT_BUCKETS,
        s.cpu_ns[size_bucket(batch as int)] > 0,
        s.backend_ns[size_bucket(batch as int)] > 0,
        k < 32,
    ensures
        ({
            let b = size_bucket(batch as int);
            let later = Site {
                place_calls: s.place_calls.update(
                    b,
                    ((s.place_calls[b] + k) % 0x1_0000_0000) as u32,
                ),
                ..s
            };
            placement_choice(later, batch) == Placement::Race <==> (s.place_calls[b] + k) % 32
                == 31
        }),
{
    law_bucket_covers(batch);
    let b = size_bucket(batch as int);
    let c = (s.place_calls[b] + k) % 0x1_0000_0000;
    assert(c % 32 == (s.place_calls[b] + k) % 32);
}

/// A policy choice: only the usual policy where the other is not allowed; the
/// policy with fewer samples until both have three; then one whose average is
/// no higher, but for every sixteenth call, which takes the other.
pub proof fn law_policy_choice(s: Site, allowed: bool)
    ensures
        ({
            let arm = arm_choice(s, allowed);
            let trial = s.arm_calls % 16 == 15;
            &&& !allowed ==> arm == PolicyArm::Default
            &&& allowed && (s.arm_samples[0] < 3 || s.arm_samples[1] < 3) ==> (arm
                == PolicyArm::Alternative <==> s.arm_samples[1] < s.arm_samples[0])
            &&& allowed && s.arm_samples[0] >= 3 && s.arm_samples[1] >= 3 && !trial ==> (arm
                == PolicyArm::Alternative <==> s.arm_ns[1] < s.arm_ns[0])
            &&& allowed && s.arm_samples[0] >= 3 && s.arm_samples[1] >= 3 && trial ==> (arm
                == PolicyArm::Default <==> s.arm_ns[1] < s.arm_ns[0])
        }),
{
}

/// A look with fewer than four new leaves changes nothing. The first look
/// with enough makes its class the site's.
pub proof fn law_site_starts_with_its_first_window(s: Site, t: ClassThresholds)
    ensures
        s.leaves.count < s.last.count + 4 ==> site_ticked(s, t) == s,
        s.leaves.count >= s.last.count + 4 ==> site_ticked(s, t).last == s.leaves
            && site_ticked(s, t).pending == Some(window_class(t, window(s.leaves, s.last))),
        s.class is None && s.leaves.count >= s.last.count + 4 ==> site_ticked(s, t).class == Some(
            window_class(t, window(s.leaves, s.last)),
        ),
        site_ticked(s, t).leaves == s.leaves,
        site_ticked(s, t).class == s.class || site_ticked(s, t).class == Some(
            window_class(t, window(s.leaves, s.last)),
        ),
{
}

/// Two looks in a row at windows of one class make it the site's class.
pub proof fn law_two_windows_move_a_site(s: Site, t: ClassThresholds, more: LeafStats)
    requires
        s.leaves.count >= s.last.count + 4,
        more.count >= s.leaves.count + 4,
        window_class(t, window(s.leaves, s.last)) == window_class(t, window(more, s.leaves)),
    ensures
        site_ticked(Site { leaves: more, ..site_ticked(s, t) }, t).class == Some(
            window_class(t, window(more, s.leaves)),
        ),
{
}

/// One window whose class differs from the window before does not move a site
/// that has a class, unless the window holds sixty-four leaves and its class
/// is two or more steps away.
pub proof fn law_one_odd_window_leaves_a_site(s: Site, t: ClassThresholds)
    requires
        s.class is Some,
        s.pending != Some(window_class(t, window(s.leaves, s.last))),
    ensures
        site_ticked(s, t).class == s.class || (s.leaves.count >= s.last.count + 64
            && crate::adaptive_profile::bucket_distance(
            s.class->Some_0,
            window_class(t, window(s.leaves, s.last)),
        ) >= 2),
        s.leaves.count >= s.last.count + 64 && crate::adaptive_profile::bucket_distance(
            s.class->Some_0,
            window_class(t, window(s.leaves, s.last)),
        ) >= 2 ==> site_ticked(s, t).class == Some(window_class(t, window(s.leaves, s.last))),
{
}

/// Recording a batch adds it to the site's totals, and a look follows exactly
/// when the count of leaves passes a multiple of sixteen.
pub proof fn law_site_totals_grow(
    s: Site,
    t: ClassThresholds,
    sum_ns: u64,
    sumsq_scaled: u64,
    count: u64,
)
    requires
        s.leaves.count + count <= u64::MAX,
        s.leaves.sum_ns + sum_ns <= u64::MAX,
        s.leaves.sumsq_scaled + sumsq_scaled <= u64::MAX,
    ensures
        ({
            let after = site_recorded(s, t, sum_ns, sumsq_scaled, count);
            let with = Site {
                leaves: LeafStats {
                    count: (s.leaves.count + count) as u64,
                    sum_ns: (s.leaves.sum_ns + sum_ns) as u64,
                    sumsq_scaled: (s.leaves.sumsq_scaled + sumsq_scaled) as u64,
                },
                ..s
            };
            let passed = exists|m: int|
                s.leaves.count < #[trigger] (16 * m) <= s.leaves.count + count;
            &&& passed ==> after == site_ticked(with, t)
            &&& !passed ==> after == with
        }),
{
    let a = s.leaves.count as int;
    let b = a + count;
    crate::split_observer::law_looks_at_every_sixteenth_leaf(a as u64, b as u64);
}

/// The sites of a process, found by the hash of their source location.
#[derive(Debug)]
pub struct SiteRegistry {
    sites: Vec<CallSiteState>,
    by_key: HashMap<u64, usize>,
}

/// A handle to one site of a registry.
#[derive(Debug, Clone, Copy, PartialEq, Eq, Hash, Structural)]
pub struct SiteRef {
    index: usize,
}

impl SiteRef {
    /// Position of the site.
    pub closed spec fn at(self) -> int {
        self.index as int
    }

    /// A handle to the site at a position.
    pub fn new(index: usize) -> (res: SiteRef)
        ensures
            res.at() == index,
    {
        SiteRef { index }
    }

    /// The site.
    pub fn get(self, registry: &SiteRegistry) -> (res: &CallSiteState)
        requires
            0 <= self.at() < registry.sites().len(),
        ensures
            res@ == registry.sites()[self.at()],
    {
        &registry.sites[self.index]
    }

    /// The site, to record with.
    pub fn get_mut(self, registry: &mut SiteRegistry) -> (res: &mut CallSiteState)
        requires
            old(registry).wf(),
            0 <= self.at() < old(registry).sites().len(),
        ensures
            res@ == old(registry).sites()[self.at()],
            final(registry).keys() == old(registry).keys(),
            final(registry).sites() == old(registry).sites().update(self.at(), final(res)@),
    {
        proof {
            assert(registry.sites().len() == registry.sites@.len());
        }
        &mut registry.sites[self.index]
    }
}

/// Every key has one of `n` sites, and no two keys share one.
pub open spec fn keys_ok(keys: Map<u64, usize>, n: int) -> bool {
    &&& forall|k: u64| #![trigger keys[k]] keys.dom().contains(k) ==> keys[k] < n
    &&& forall|j: u64, k: u64|
        #![trigger keys[j], keys[k]]
        keys.dom().contains(j) && keys.dom().contains(k) && j != k ==> keys[j] != keys[k]
}

/// Two handles are equal exactly when they are to the same site.
pub proof fn law_site_identity(a: SiteRef, b: SiteRef)
    ensures
        a == b <==> a.at() == b.at(),
{
}

impl SiteRegistry {
    /// What each site has learned.
    pub closed spec fn sites(&self) -> Seq<Site> {
        self.sites@.map_values(|s: CallSiteState| s@)
    }

    /// The sites' positions by location key.
    pub closed spec fn keys(&self) -> Map<u64, usize> {
        self.by_key@
    }

    /// Representation invariant: see [`keys_ok`].
    pub open spec fn wf(&self) -> bool {
        keys_ok(self.keys(), self.sites().len() as int)
    }

    /// A registry without sites.
    pub fn new() -> (res: SiteRegistry)
        ensures
            res.wf(),
            res.sites() == Seq::<Site>::empty(),
            res.keys() == Map::<u64, usize>::empty(),
    {
        SiteRegistry { sites: Vec::new(), by_key: HashMap::new() }
    }

    /// The site of a location, made at first sight.
    pub fn site_for_location(&mut self, key: u64) -> (res: SiteRef)
        requires
            old(self).wf(),
        ensures
            final(self).wf(),
            old(self).keys().dom().contains(key) ==> {
                &&& res.at() == old(self).keys()[key]
                &&& final(self).keys() == old(self).keys()
                &&& final(self).sites() == old(self).sites()
            },
            !old(self).keys().dom().contains(key) ==> {
                &&& res.at() == old(self).sites().len()
                &&& final(self).keys() == old(self).keys().insert(key, res.at() as usize)
                &&& final(self).sites() == old(self).sites().push(fresh_site())
            },
    {
        broadcast use vstd::std_specs::hash::group_hash_axioms;

        if let Some(at) = self.by_key.get(&key) {
            return SiteRef { index: *at };
        }
        let index: usize = self.sites.len();
        self.sites.push(CallSiteState::new());
        self.by_key.insert(key, index);
        proof {
            assert(self.sites() =~= old(self).sites().push(fresh_site()));
            assert(self.keys() =~= old(self).keys().insert(key, index));
        }
        SiteRef { index }
    }

    /// Number of sites.
    pub fn registry_len(&self) -> (res: usize)
        ensures
            res == self.sites().len(),
    {
        self.sites.len()
    }
}

/// A location has one site for good, and different locations have different
/// sites.
pub proof fn law_sites_are_stable_and_distinct(
    before: SiteRegistry,
    after: SiteRegistry,
    j: u64,
    k: u64,
)
    requires
        before.wf(),
        after.wf(),
        before.keys().dom().contains(j),
        after.keys() == before.keys() || exists|at: usize|
            after.keys() == #[trigger] before.keys().insert(k, at) && !before.keys().dom().contains(
                k,
            ),
        after.keys().dom().contains(k),
    ensures
        after.keys().dom().contains(j) && after.keys()[j] == before.keys()[j],
        j != k ==> after.keys()[j] != after.keys()[k],
{
}

/// A size's bucket is the place of its highest bit: sizes of one bucket are
/// within a factor of two, and doubling a size moves it one bucket on.
pub proof fn law_buckets_double(batch: int)
    requires
        1 <= batch,
    ensures
        size_bucket(1) == 0,
        size_bucket(2 * batch) == size_bucket(batch) + 1,
        size_bucket(2 * batch + 1) == size_bucket(batch) + 1,
        0 <= size_bucket(batch),
    decreases batch,
{
    assert((2 * batch) / 2 == batch && (2 * batch + 1) / 2 == batch);
    if batch >= 2 {
        law_buckets_double(batch / 2);
    }
}

} // verus!
