//! Coherence-distance tiers of a worker's deques.
//!
//! A worker carries one deque per tier. A thief at distance `d` may take from
//! the tier that matches `d` and from every wider one, never from a closer
//! one, so the closest deques stay within one physical core and the widest
//! one is open to everybody.

use vstd::prelude::*;

verus! {

/// Number of tiers.
pub const N_TIERS: usize = 4;

/// How far apart two workers are, closest first.
#[derive(Debug, Clone, Copy, PartialEq, Eq, PartialOrd, Ord, Hash, Structural)]
pub enum DequeTier {
    /// Same physical core.
    SmtLocal,
    /// Same core cluster.
    IntraCcx,
    /// Same socket, another cluster.
    CrossCcx,
    /// Anywhere.
    Public,
}

/// Position of a tier in distance order.
pub open spec fn tier_idx(t: DequeTier) -> int {
    match t {
        DequeTier::SmtLocal => 0,
        DequeTier::IntraCcx => 1,
        DequeTier::CrossCcx => 2,
        DequeTier::Public => 3,
    }
}

/// The tier at a position, if there is one.
pub open spec fn tier_at(idx: int) -> Option<DequeTier> {
    if idx == 0 {
        Some(DequeTier::SmtLocal)
    } else if idx == 1 {
        Some(DequeTier::IntraCcx)
    } else if idx == 2 {
        Some(DequeTier::CrossCcx)
    } else if idx == 3 {
        Some(DequeTier::Public)
    } else {
        None
    }
}

/// Distance between two workers when a cluster has `ccx_size` logical cores
/// and adjacent even-odd indices share a physical core. Without a known
/// cluster size every pair is far apart.
pub open spec fn distance_spec(a: int, b: int, ccx_size: int) -> DequeTier {
    if ccx_size == 0 {
        DequeTier::Public
    } else if a / 2 == b / 2 {
        DequeTier::SmtLocal
    } else if a / ccx_size == b / ccx_size {
        DequeTier::IntraCcx
    } else {
        DequeTier::Public
    }
}

/// The steal rule: the deque's tier is at least the thief's distance.
pub open spec fn may_steal(thief_distance: DequeTier, owner_tier: DequeTier) -> bool {
    tier_idx(owner_tier) >= tier_idx(thief_distance)
}

impl DequeTier {
    /// Position in distance order.
    pub fn idx(self) -> (res: usize)
        ensures
            res == tier_idx(self),
            res < N_TIERS,
    {
        match self {
            DequeTier::SmtLocal => 0,
            DequeTier::IntraCcx => 1,
            DequeTier::CrossCcx => 2,
            DequeTier::Public => 3,
        }
    }

    /// The tier at a position; `None` when out of range.
    pub fn from_idx(idx: usize) -> (res: Option<DequeTier>)
        ensures
            res == tier_at(idx as int),
    {
        match idx {
            0 => Some(DequeTier::SmtLocal),
            1 => Some(DequeTier::IntraCcx),
            2 => Some(DequeTier::CrossCcx),
            3 => Some(DequeTier::Public),
            _ => None,
        }
    }

    /// Diagnostic label.
    pub fn label(self) -> (res: &'static str)
        ensures
            res@ == match self {
                DequeTier::SmtLocal => "smt_local"@,
                DequeTier::IntraCcx => "intra_ccx"@,
                DequeTier::CrossCcx => "cross_ccx"@,
                DequeTier::Public => "public"@,
            },
    {
        match self {
            DequeTier::SmtLocal => "smt_local",
            DequeTier::IntraCcx => "intra_ccx",
            DequeTier::CrossCcx => "cross_ccx",
            DequeTier::Public => "public",
        }
    }

    /// All tiers, closest first.
    pub fn all() -> (res: [DequeTier; 4])
        ensures
            forall|i: int| 0 <= i < 4 ==> Some(#[trigger] res@[i]) == tier_at(i),
    {
        [DequeTier::SmtLocal, DequeTier::IntraCcx, DequeTier::CrossCcx, DequeTier::Public]
    }
}

impl Default for DequeTier {
    /// The tier of an unhinted push: open to every thief.
    fn default() -> (res: DequeTier)
        ensures
            res == DequeTier::Public,
    {
        DequeTier::Public
    }
}

/// Distance between two workers.
pub fn peer_distance(self_idx: usize, peer_idx: usize, ccx_size: usize) -> (res: DequeTier)
    ensures
        res == distance_spec(self_idx as int, peer_idx as int, ccx_size as int),
{
    if ccx_size == 0 {
        return DequeTier::Public;
    }
    if self_idx / 2 == peer_idx / 2 {
        return DequeTier::SmtLocal;
    }
    if self_idx / ccx_size == peer_idx / ccx_size {
        return DequeTier::IntraCcx;
    }
    DequeTier::Public
}

/// Whether a thief at `thief_distance` may take from a deque of `owner_tier`.
pub fn thief_may_steal(thief_distance: DequeTier, owner_tier: DequeTier) -> (res: bool)
    ensures
        res == may_steal(thief_distance, owner_tier),
{
    owner_tier.idx() >= thief_distance.idx()
}

/// Positions and tiers determine each other.
pub proof fn law_idx_round_trip(t: DequeTier, i: int)
    ensures
        tier_at(tier_idx(t)) == Some(t),
        0 <= tier_idx(t) < N_TIERS,
        0 <= i < N_TIERS ==> tier_at(i) is Some && tier_idx(tier_at(i)->Some_0) == i,
        !(0 <= i < N_TIERS) ==> tier_at(i) is None,
{
}

/// The widest tier is open to every thief, the closest one to thieves on the
/// same core only.
pub proof fn law_steal_discipline(distance: DequeTier, tier: DequeTier)
    ensures
        may_steal(distance, DequeTier::Public),
        may_steal(DequeTier::SmtLocal, tier),
        may_steal(distance, DequeTier::SmtLocal) <==> distance == DequeTier::SmtLocal,
        may_steal(DequeTier::Public, tier) <==> tier == DequeTier::Public,
{
}

/// Distance does not depend on who asks, and a worker is closest to itself
/// wherever the cluster size is known.
pub proof fn law_distance_symmetric(a: int, b: int, ccx_size: int)
    ensures
        distance_spec(a, b, ccx_size) == distance_spec(b, a, ccx_size),
        ccx_size != 0 ==> distance_spec(a, a, ccx_size) == DequeTier::SmtLocal,
{
}

/// Which of a peer's deques a worker reaches: the widest one always; those
/// from the second tier on within one cluster; all of them on one core, whose
/// two threads have neighbouring numbers.
pub proof fn law_reach(a: int, b: int, ccx_size: int, t: int)
    requires
        0 <= a,
        0 <= b,
        0 < ccx_size,
        0 <= t < 4,
    ensures
        may_steal(distance_spec(a, b, ccx_size), tier_at(t)->Some_0) <==> t == 3 || a / 2 == b / 2
            || (a / ccx_size == b / ccx_size && t >= 1),
        may_steal(distance_spec(a, b, 0), tier_at(t)->Some_0) <==> t == 3,
{
}

} // verus!
