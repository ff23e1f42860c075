//! Correctness tiers of a computation.

use vstd::prelude::*;

verus! {

/// Which flavour of a kernel a job asks for.
#[derive(Debug, Clone, Copy, PartialEq, Eq, Structural)]
pub enum Variant {
    /// Bit-faithful results.
    Faithful,
    /// Relaxed results, cheaper to compute.
    Fast,
}

/// Byte tag of a variant as a job carries it.
pub open spec fn variant_tag(v: Variant) -> u8 {
    match v {
        Variant::Faithful => 0,
        Variant::Fast => 1,
    }
}

impl Variant {
    /// Byte tag of this variant.
    pub fn tag(self) -> (res: u8)
        ensures
            res == variant_tag(self),
    {
        match self {
            Variant::Faithful => 0,
            Variant::Fast => 1,
        }
    }
}

} // verus!
