//! Descriptions of workloads.

use vstd::prelude::*;

verus! {

/// What a caller says of its workload.
#[derive(Debug, Clone, Copy, PartialEq, Eq, Hash, Structural)]
pub enum WorkloadShape {
    /// One closure after another.
    Streaming,
    /// A producer that outruns its consumers.
    ProducerFast {
        /// Jobs per burst.
        burst: u32,
    },
    /// Independent pieces that idle workers steal.
    WorkSteal {
        /// Workers.
        n_consumers: u32,
        /// Items per piece.
        batch_size: u32,
    },
    /// A list of closures that all workers share.
    Cooperative {
        /// Cores.
        n_cores: u32,
    },
}

} // verus!
