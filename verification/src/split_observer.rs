//! Recording of leaf times, and the cadence of the observer.

use crate::adaptive_profile::{leaf_cv2, tick_auto_classify, LeafStats, ProfileState};
use vstd::prelude::*;

verus! {

/// Leaves between two looks of the observer.
pub const AUTO_CLASSIFY_QUANTUM: u64 = 16;

/// Totals after more leaves.
pub open spec fn leaves_added(s: LeafStats, sum_ns: u64, sumsq_scaled: u64, count: u64) -> LeafStats {
    LeafStats {
        count: ((s.count + count) % 0x1_0000_0000_0000_0000) as u64,
        sum_ns: ((s.sum_ns + sum_ns) % 0x1_0000_0000_0000_0000) as u64,
        sumsq_scaled: ((s.sumsq_scaled + sumsq_scaled) % 0x1_0000_0000_0000_0000) as u64,
    }
}

/// More leaves carry a total across a multiple of the quantum.
pub open spec fn crosses_quantum(before: u64, after: u64) -> bool {
    before / AUTO_CLASSIFY_QUANTUM != after / AUTO_CLASSIFY_QUANTUM
}

/// Adds leaves to totals.
pub fn add_leaves(stats: &mut LeafStats, sum_ns: u64, sumsq_scaled: u64, count: u64) -> (crossed:
    bool)
    ensures
        *final(stats) == leaves_added(*old(stats), sum_ns, sumsq_scaled, count),
        crossed == crosses_quantum(old(stats).count, final(stats).count),
{
    let prior: u64 = stats.count;
    stats.sum_ns = stats.sum_ns.wrapping_add(sum_ns);
    stats.sumsq_scaled = stats.sumsq_scaled.wrapping_add(sumsq_scaled);
    stats.count = prior.wrapping_add(count);
    prior / AUTO_CLASSIFY_QUANTUM != stats.count / AUTO_CLASSIFY_QUANTUM
}

/// The state after a batch of leaves: the totals grow, and the observer looks
/// where they cross a multiple of the quantum.
pub open spec fn recorded(s: ProfileState, sum_ns: u64, sumsq_scaled: u64, count: u64) -> ProfileState {
    let added = leaves_added(s.leaves, sum_ns, sumsq_scaled, count);
    let with = ProfileState { leaves: added, ..s };
    if crosses_quantum(s.leaves.count, added.count) {
        crate::adaptive_profile::ticked(with)
    } else {
        with
    }
}

/// Records a batch of leaves.
pub fn record_leaf_batch(state: &mut ProfileState, sum_ns: u64, sumsq_scaled: u64, count: u64)
    ensures
        *final(state) == recorded(*old(state), sum_ns, sumsq_scaled, count),
{
    let crossed = add_leaves(&mut state.leaves, sum_ns, sumsq_scaled, count);
    if crossed {
        tick_auto_classify(state);
    }
}

/// Spread of a process's or a site's leaves; unknown below four leaves.
pub open spec fn known_cv2(s: LeafStats) -> Option<int> {
    if s.count < 4 {
        None
    } else {
        Some(
            crate::adaptive_profile::cv2_spec(
                s.sum_ns as int,
                s.sumsq_scaled as int,
                s.count as int,
            ),
        )
    }
}

/// A spread as a mathematical number.
pub open spec fn as_int(x: Option<u64>) -> Option<int> {
    match x {
        Some(v) => Some(v as int),
        None => None,
    }
}

/// Squared coefficient of variation of all recorded leaves, in thousandths,
/// once there are four.
pub fn leaf_cv_squared_per_mille(stats: &LeafStats) -> (res: Option<u64>)
    ensures
        as_int(res) == known_cv2(*stats),
{
    if stats.count < 4 {
        None
    } else {
        Some(leaf_cv2(stats.sum_ns, stats.sumsq_scaled, stats.count))
    }
}

/// The observer looks exactly when the count of leaves reaches or passes a
/// multiple of sixteen.
pub proof fn law_looks_at_every_sixteenth_leaf(before: u64, after: u64)
    requires
        before <= after,
    ensures
        crosses_quantum(before, after) <==> exists|m: int|
            before < #[trigger] (16 * m) <= after,
{
    if crosses_quantum(before, after) {
        let m = after as int / 16;
        assert(before < 16 * m <= after);
    }
    if exists|m: int| before < #[trigger] (16 * m) <= after {
        let m = choose|m: int| before < #[trigger] (16 * m) <= after;
        assert(before as int / 16 < m <= after as int / 16);
    }
}

/// The leaves recorded since a point are the window since that point: what
/// goes in comes out, however it was split into batches.
pub proof fn law_window_is_what_was_recorded(
    s: LeafStats,
    sum1: u64,
    sumsq1: u64,
    count1: u64,
    sum2: u64,
    sumsq2: u64,
    count2: u64,
)
    requires
        s.count + count1 + count2 <= u64::MAX,
        s.sum_ns + sum1 + sum2 <= u64::MAX,
        s.sumsq_scaled + sumsq1 + sumsq2 <= u64::MAX,
    ensures
        ({
            let once = leaves_added(s, sum1, sumsq1, count1);
            let twice = leaves_added(once, sum2, sumsq2, count2);
            let w = crate::adaptive_profile::window(twice, s);
            &&& crate::adaptive_profile::window(once, s) == (LeafStats {
                count: count1,
                sum_ns: sum1,
                sumsq_scaled: sumsq1,
            })
            &&& w.count == count1 + count2
            &&& w.sum_ns == sum1 + sum2
            &&& w.sumsq_scaled == sumsq1 + sumsq2
        }),
{
}

/// A batch never changes the boundaries; it moves the profile only at a look.
pub proof fn law_recording_keeps_totals(
    s: ProfileState,
    sum_ns: u64,
    sumsq_scaled: u64,
    count: u64,
)
    requires
        s.leaves.count + count <= u64::MAX,
        s.leaves.sum_ns + sum_ns <= u64::MAX,
        s.leaves.sumsq_scaled + sumsq_scaled <= u64::MAX,
    ensures
        ({
            let after = recorded(s, sum_ns, sumsq_scaled, count);
            let with = ProfileState {
                leaves: LeafStats {
                    count: (s.leaves.count + count) as u64,
                    sum_ns: (s.leaves.sum_ns + sum_ns) as u64,
                    sumsq_scaled: (s.leaves.sumsq_scaled + sumsq_scaled) as u64,
                },
                ..s
            };
            let passed = exists|m: int|
                s.leaves.count < #[trigger] (16 * m) <= s.leaves.count + count;
            &&& after.leaves == with.leaves
            &&& after.thresholds == s.thresholds
            &&& passed ==> after == crate::adaptive_profile::ticked(with)
            &&& !passed ==> after == with
        }),
{
    let a = s.leaves.count as int;
    let b = a + count;
    law_looks_at_every_sixteenth_leaf(a as u64, b as u64);
}

/// The spread is known from the fourth leaf on.
pub proof fn law_spread_needs_four_leaves(s: LeafStats)
    ensures
        known_cv2(s) is None <==> s.count < 4,
{
}

} // verus!
