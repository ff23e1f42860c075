//! Which bisection variant a dispatch uses, switchable at any time.

use crate::dispatch_profile::DispatchProfile;
use vstd::prelude::*;

verus! {

/// Maker of the host's processor.
#[derive(Debug, Clone, Copy, PartialEq, Eq, Structural)]
pub enum Vendor {
    /// AMD.
    Amd,
    /// Intel.
    Intel,
    /// Anybody else.
    Other,
}

/// Bisection variants that a plan can name.
#[derive(Debug, Clone, Copy, PartialEq, Eq, Structural)]
pub enum BisectVariant {
    /// Pieces limited by the number of workers.
    ProducerMaxLenWorkers,
    /// Split budget that is replenished on steals.
    RayonStyleReplenish,
}

/// Routing of bisection variants.
#[derive(Debug, Clone, Copy, PartialEq, Eq, Hash, Structural)]
pub enum VariantRouting {
    /// Defer to the host's maker.
    Auto,
    /// Name no variant.
    Default,
    /// Choose by batch size for port-bound work.
    ComputeBatchAdaptive,
}

/// Batch size from which port-bound work counts as large.
pub const COMPUTE_BATCH_LARGE_N: u32 = 50_000;

/// The process-wide routing's tag.
#[derive(Debug, Clone, Copy, PartialEq, Eq, Structural)]
pub struct ActiveVariant {
    /// The tag.
    pub tag: u8,
}

/// The routing that suits a maker's processors.
pub open spec fn vendor_routing(vendor: Vendor) -> VariantRouting {
    match vendor {
        Vendor::Amd => VariantRouting::ComputeBatchAdaptive,
        _ => VariantRouting::Default,
    }
}

impl ActiveVariant {
    /// The routing in effect on a host.
    pub open spec fn routing(&self, vendor: Vendor) -> VariantRouting {
        if self.tag == 1 {
            VariantRouting::Default
        } else if self.tag == 2 {
            VariantRouting::ComputeBatchAdaptive
        } else {
            vendor_routing(vendor)
        }
    }

    /// Defers to the host's maker.
    pub fn new() -> (res: ActiveVariant)
        ensures
            forall|vendor: Vendor| #[trigger] res.routing(vendor) == vendor_routing(vendor),
    {
        ActiveVariant { tag: 0 }
    }
}

/// The routing that suits a maker's processors.
pub fn cpuid_default_routing(vendor: Vendor) -> (res: VariantRouting)
    ensures
        res == vendor_routing(vendor),
{
    match vendor {
        Vendor::Amd => VariantRouting::ComputeBatchAdaptive,
        Vendor::Intel | Vendor::Other => VariantRouting::Default,
    }
}

/// The routing in effect on a host; never `Auto`.
pub fn active_variant_routing(active: &ActiveVariant, vendor: Vendor) -> (res: VariantRouting)
    ensures
        res == active.routing(vendor),
        res != VariantRouting::Auto,
{
    match active.tag {
        1 => VariantRouting::Default,
        2 => VariantRouting::ComputeBatchAdaptive,
        _ => cpuid_default_routing(vendor),
    }
}

/// Puts another routing in effect.
pub fn migrate_variant_routing(active: &mut ActiveVariant, routing: VariantRouting)
    ensures
        forall|vendor: Vendor| #[trigger]
            final(active).routing(vendor) == if routing == VariantRouting::Auto {
                vendor_routing(vendor)
            } else {
                routing
            },
{
    active.tag = match routing {
        VariantRouting::Auto => 0,
        VariantRouting::Default => 1,
        VariantRouting::ComputeBatchAdaptive => 2,
    };
}

/// The variant named for a profile and batch size under a routing.
pub open spec fn variant_for(routing: VariantRouting, profile: DispatchProfile, batch_size: u32) -> Option<
    BisectVariant,
> {
    if routing != VariantRouting::ComputeBatchAdaptive || profile != DispatchProfile::PortBound {
        None
    } else if batch_size >= COMPUTE_BATCH_LARGE_N {
        Some(BisectVariant::ProducerMaxLenWorkers)
    } else {
        Some(BisectVariant::RayonStyleReplenish)
    }
}

/// The variant named for a profile and batch size, if any.
pub fn pick_variant_for_profile(
    active: &ActiveVariant,
    vendor: Vendor,
    profile: DispatchProfile,
    batch_size: u32,
) -> (res: Option<BisectVariant>)
    ensures
        res == variant_for(active.routing(vendor), profile, batch_size),
{
    match active_variant_routing(active, vendor) {
        VariantRouting::ComputeBatchAdaptive => {
            if profile != DispatchProfile::PortBound {
                return None;
            }
            if batch_size >= COMPUTE_BATCH_LARGE_N {
                Some(BisectVariant::ProducerMaxLenWorkers)
            } else {
                Some(BisectVariant::RayonStyleReplenish)
            }
        },
        _ => None,
    }
}

/// A variant is named for port-bound work alone, where the routing adapts to
/// the batch: from fifty thousand items on the one that limits pieces by
/// workers, below it the one that replenishes on steals. By default AMD's
/// processors adapt and others do not.
pub proof fn law_variants_by_batch(active: ActiveVariant, vendor: Vendor, profile: DispatchProfile, batch: u32)
    ensures
        ({
            let routing = active.routing(vendor);
            let v = variant_for(routing, profile, batch);
            let adapts = active.tag == 2 || (active.tag != 1 && vendor == Vendor::Amd);
            &&& v is Some <==> adapts && profile == DispatchProfile::PortBound
            &&& v is Some ==> (v == Some(BisectVariant::ProducerMaxLenWorkers) <==> batch
                >= 50_000)
        }),
{
}

} // verus!
