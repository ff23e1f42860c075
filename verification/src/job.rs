//! Type-erased job handles.
//!
//! A job is named by two words (its captured state and its entry point) and
//! carries three bytes of dispatch hints. The scheduler moves handles around
//! and hands each one out for execution; it never looks behind the words.

use vstd::prelude::*;

verus! {

/// NUMA hint of a job that may run anywhere.
pub const NUMA_HINT_ANY: u8 = 255;

/// The two words that name a job.
#[derive(Debug, Clone, Copy, PartialEq, Eq, Structural)]
pub struct CompactJobRef {
    /// Word naming the captured state.
    pub data: usize,
    /// Word naming the entry point.
    pub entry: usize,
}

/// A job handle with its dispatch hints.
#[derive(Debug, Clone, Copy, PartialEq, Eq, Structural)]
pub struct JobRef {
    /// Word naming the captured state.
    pub data: usize,
    /// Word naming the entry point.
    pub entry: usize,
    /// Log2 of the operand size.
    pub k_outer: u8,
    /// NUMA node the job would like to run on.
    pub numa_hint: u8,
    /// Tag of the requested variant.
    pub variant: u8,
}

/// The name of a job, without its hints.
pub open spec fn compact_of(j: JobRef) -> CompactJobRef {
    CompactJobRef { data: j.data, entry: j.entry }
}

/// The handle made of a name and a set of hints.
pub open spec fn jobref_of(c: CompactJobRef, k_outer: u8, numa_hint: u8, variant: u8) -> JobRef {
    JobRef { data: c.data, entry: c.entry, k_outer, numa_hint, variant }
}

impl JobRef {
    /// A handle made of its parts.
    pub fn new(data: usize, entry: usize, k_outer: u8, numa_hint: u8, variant: u8) -> (res: JobRef)
        ensures
            res == (JobRef { data, entry, k_outer, numa_hint, variant }),
    {
        JobRef { data, entry, k_outer, numa_hint, variant }
    }

    /// The name of this job.
    pub fn compact(self) -> (res: CompactJobRef)
        ensures
            res == compact_of(self),
    {
        CompactJobRef { data: self.data, entry: self.entry }
    }
}

impl CompactJobRef {
    /// Filler for unused slot positions.
    pub fn null() -> (res: CompactJobRef)
        ensures
            res == (CompactJobRef { data: 0, entry: 0 }),
    {
        CompactJobRef { data: 0, entry: 0 }
    }

    /// This job's handle under the given hints.
    pub fn to_jobref(self, k_outer: u8, numa_hint: u8, variant: u8) -> (res: JobRef)
        ensures
            res == jobref_of(self, k_outer, numa_hint, variant),
    {
        JobRef { data: self.data, entry: self.entry, k_outer, numa_hint, variant }
    }
}

} // verus!
