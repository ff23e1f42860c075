//! The plan of one dispatch.

use crate::adaptive_cooperative::CooperativeRouting;
use crate::backend::Backend;
use crate::deque_tier::DequeTier;
use crate::dispatch_profile::DispatchProfile;
use crate::foundation::Variant;
use crate::job::{JobRef, NUMA_HINT_ANY};
use crate::workload_shape::WorkloadShape;
use vstd::prelude::*;

verus! {

/// Instruction set that a dispatch is built for.
#[derive(Debug, Clone, Copy, PartialEq, Eq, Hash, Structural)]
pub enum HwClass {
    /// No vector instructions.
    Scalar,
    /// Vector instructions.
    Vector,
}

/// What a caller asks of a dispatch.
#[derive(Debug, Clone, Copy, PartialEq, Eq, Structural)]
pub struct JobPlan {
    /// Binary logarithm of the operand size.
    pub k_outer: u8,
    /// Number of items.
    pub batch_size: u32,
    /// Correctness tier.
    pub variant: Variant,
    /// Instruction set.
    pub hw_class: HwClass,
    /// Node to run on.
    pub numa_hint: Option<u32>,
    /// Whether siblings are to take part.
    pub use_smt: bool,
    /// Whether halves may go to the sibling's mailbox.
    pub use_mailbox_routing: bool,
    /// Deque tier for the halves.
    pub deque_tier_hint: Option<DequeTier>,
    /// The caller's estimate of an item's nanoseconds.
    pub estimated_per_item_ns: Option<u32>,
    /// How lists of closures are spread.
    pub cooperative_routing: CooperativeRouting,
    /// Backend to run on.
    pub backend_hint: Option<Backend>,
    /// Profile that the plan is tuned for.
    pub profile: DispatchProfile,
    /// Whether the caller chose the profile.
    pub profile_explicit: bool,
    /// The caller's description of the workload.
    pub shape: Option<WorkloadShape>,
}

/// A plan of which only size is known.
pub open spec fn default_plan(k_outer: u8, batch_size: u32) -> JobPlan {
    JobPlan {
        k_outer,
        batch_size,
        variant: Variant::Faithful,
        hw_class: HwClass::Scalar,
        numa_hint: None,
        use_smt: false,
        use_mailbox_routing: false,
        deque_tier_hint: None,
        estimated_per_item_ns: None,
        cooperative_routing: CooperativeRouting::Auto,
        backend_hint: None,
        profile: DispatchProfile::Unspecified,
        profile_explicit: false,
        shape: None,
    }
}

/// The hint byte of a plan's jobs.
pub open spec fn hint_byte(p: JobPlan) -> u8 {
    match p.numa_hint {
        Some(n) => n as u8,
        None => NUMA_HINT_ANY,
    }
}

/// A job of a plan.
pub open spec fn planned_job(p: JobPlan, data: usize, entry: usize) -> JobRef {
    JobRef {
        data,
        entry,
        k_outer: p.k_outer,
        numa_hint: hint_byte(p),
        variant: crate::foundation::variant_tag(p.variant),
    }
}

impl JobPlan {
    /// A plan of which only size is known.
    pub fn new(k_outer: u8, batch_size: u32) -> (res: JobPlan)
        ensures
            res == default_plan(k_outer, batch_size),
    {
        JobPlan {
            k_outer,
            batch_size,
            variant: Variant::Faithful,
            hw_class: HwClass::Scalar,
            numa_hint: None,
            use_smt: false,
            use_mailbox_routing: false,
            deque_tier_hint: None,
            estimated_per_item_ns: None,
            cooperative_routing: CooperativeRouting::Auto,
            backend_hint: None,
            profile: DispatchProfile::Unspecified,
            profile_explicit: false,
            shape: None,
        }
    }

    /// With an instruction set.
    pub fn with_hw_class(self, hw_class: HwClass) -> (res: JobPlan)
        ensures
            res == (JobPlan { hw_class, ..self }),
    {
        JobPlan { hw_class, ..self }
    }

    /// With a correctness tier.
    pub fn with_variant(self, variant: Variant) -> (res: JobPlan)
        ensures
            res == (JobPlan { variant, ..self }),
    {
        JobPlan { variant, ..self }
    }

    /// With a node to run on.
    pub fn with_numa_hint(self, node: u32) -> (res: JobPlan)
        ensures
            res == (JobPlan { numa_hint: Some(node), ..self }),
    {
        JobPlan { numa_hint: Some(node), ..self }
    }

    /// With siblings.
    pub fn with_smt(self) -> (res: JobPlan)
        ensures
            res == (JobPlan { use_smt: true, ..self }),
    {
        JobPlan { use_smt: true, ..self }
    }

    /// With or without mailbox routing.
    pub fn with_mailbox_routing(self, on: bool) -> (res: JobPlan)
        ensures
            res == (JobPlan { use_mailbox_routing: on, ..self }),
    {
        JobPlan { use_mailbox_routing: on, ..self }
    }

    /// With a deque tier for the halves.
    pub fn with_deque_tier_hint(self, tier: DequeTier) -> (res: JobPlan)
        ensures
            res == (JobPlan { deque_tier_hint: Some(tier), ..self }),
    {
        JobPlan { deque_tier_hint: Some(tier), ..self }
    }

    /// With an estimate of an item's cost.
    pub fn with_estimated_per_item_ns(self, ns: u32) -> (res: JobPlan)
        ensures
            res == (JobPlan { estimated_per_item_ns: Some(ns), ..self }),
    {
        JobPlan { estimated_per_item_ns: Some(ns), ..self }
    }

    /// With a routing of closure lists.
    pub fn with_cooperative_routing(self, routing: CooperativeRouting) -> (res: JobPlan)
        ensures
            res == (JobPlan { cooperative_routing: routing, ..self }),
    {
        JobPlan { cooperative_routing: routing, ..self }
    }

    /// With a backend.
    pub fn with_backend(self, backend: Backend) -> (res: JobPlan)
        ensures
            res == (JobPlan { backend_hint: Some(backend), ..self }),
    {
        JobPlan { backend_hint: Some(backend), ..self }
    }

    /// Tuned for a profile, which the caller chose or not.
    pub fn with_profile(self, profile: DispatchProfile, explicit: bool) -> (res: JobPlan)
        ensures
            res == (JobPlan { profile, profile_explicit: explicit, ..self }),
    {
        JobPlan { profile, profile_explicit: explicit, ..self }
    }

    /// With a description of the workload.
    pub fn with_workload_shape(self, shape: WorkloadShape) -> (res: JobPlan)
        ensures
            res == (JobPlan { shape: Some(shape), ..self }),
    {
        JobPlan { shape: Some(shape), ..self }
    }

    /// A job of this plan.
    pub fn job(&self, data: usize, entry: usize) -> (res: JobRef)
        ensures
            res == planned_job(*self, data, entry),
    {
        let hint: u8 = match self.numa_hint {
            Some(n) => {
                #[verifier::truncate]
                (n as u8)
            },
            None => NUMA_HINT_ANY,
        };
        JobRef { data, entry, k_outer: self.k_outer, numa_hint: hint, variant: self.variant.tag() }
    }
}

/// A job carries its plan's outer factor and correctness tier, and the node of
/// its hint where that fits a byte; without a hint it may run anywhere.
pub proof fn law_jobs_carry_their_plan(p: JobPlan, data: usize, entry: usize)
    ensures
        planned_job(p, data, entry).data == data,
        planned_job(p, data, entry).entry == entry,
        planned_job(p, data, entry).k_outer == p.k_outer,
        p.numa_hint is None ==> planned_job(p, data, entry).numa_hint == 255,
        p.numa_hint matches Some(n) ==> n < 256 ==> planned_job(p, data, entry).numa_hint == n,
        planned_job(p, data, entry).variant == planned_job(
            JobPlan { variant: Variant::Faithful, ..p },
            data,
            entry,
        ).variant <==> p.variant == Variant::Faithful,
{
}

} // verus!
