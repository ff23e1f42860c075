//! Workload profiles that plans are tuned for.

use vstd::prelude::*;

verus! {

/// What limits a workload.
#[derive(Debug, Clone, Copy, PartialEq, Eq, Hash, Structural)]
pub enum DispatchProfile {
    /// Dependency chains.
    LatencyBound,
    /// Execution ports.
    PortBound,
    /// Memory.
    MemoryBound,
    /// Not stated.
    Unspecified,
    /// Memory bandwidth of long uniform streams.
    Streaming,
}

} // verus!
