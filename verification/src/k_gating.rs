//! How a deque publishes its slots to thieves.

use vstd::prelude::*;

verus! {

/// Publication discipline of a deque.
#[derive(Debug, Clone, Copy, PartialEq, Eq, Structural)]
pub enum KGating {
    /// Use the host's preference.
    Auto,
    /// One sequence number per slot.
    PerSlot,
    /// One shared bottom counter.
    CounterOnly,
}

impl KGating {
    /// The discipline in effect: `Auto` stands for `PerSlot`.
    pub open spec fn resolved_spec(self) -> KGating {
        match self {
            KGating::CounterOnly => KGating::CounterOnly,
            _ => KGating::PerSlot,
        }
    }

    /// The discipline in effect.
    pub fn resolved(self) -> (res: KGating)
        ensures
            res == self.resolved_spec(),
    {
        match self {
            KGating::CounterOnly => KGating::CounterOnly,
            _ => KGating::PerSlot,
        }
    }
}

/// The host's preference is to publish per slot; a stated discipline stands.
pub proof fn law_resolved_discipline(g: KGating)
    ensures
        g.resolved_spec() != KGating::Auto,
        g != KGating::Auto ==> g.resolved_spec() == g,
        KGating::Auto.resolved_spec() == KGating::PerSlot,
{
}

} // verus!
