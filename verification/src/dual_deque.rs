//! A worker's deque pair: one for jobs that only this process can run, one
//! for jobs that any process can run.
//!
//! Pops and steals look at the shared deque first, so that other processes
//! are not starved. Both deques are held in memory here; of the files that
//! other processes attach to, the pair keeps the paths.

use crate::chase_lev_local::{new_chase_lev, Steal, Stealer, Worker};
use crate::job::JobRef;
use crate::math::rounded_slot_count;
use vstd::prelude::*;

verus! {

/// Jobs that the in-process deque holds.
pub const IN_HEAP_CAPACITY: usize = 1024;

/// A job that any process can run.
#[derive(Debug)]
pub struct RemoteJobSlot {
    /// Name of the closure.
    pub closure_id: u32,
    /// Cell that its result goes to.
    pub latch_offset: u32,
    /// Its arguments.
    pub args: Vec<u8>,
}

/// Why a job for any process was refused.
#[derive(Debug, Clone, Copy, PartialEq, Eq, Structural)]
pub enum PushMarshalError {
    /// The arguments do not fit a slot.
    PayloadTooLarge,
    /// The shared deque is full.
    Full,
}

/// Outcome of a pop by the owner.
#[derive(Debug)]
pub enum LocalPop {
    /// A job of this process.
    InHeap(JobRef),
    /// A job for any process.
    Mmf(RemoteJobSlot),
    /// There is none.
    Empty,
}

/// Outcome of a steal.
#[derive(Debug)]
pub enum StealAny {
    /// A job of this process.
    InHeap(JobRef),
    /// A job for any process.
    Mmf(RemoteJobSlot),
    /// There is none.
    Empty,
    /// Another thief was faster: try again.
    Retry,
}

/// Result cells, handed out in turn.
#[derive(Debug)]
pub struct LatchCells {
    next: u32,
    count: u32,
}

impl LatchCells {
    /// The next cell.
    pub closed spec fn upcoming(&self) -> u32 {
        self.next
    }

    /// Number of cells.
    pub closed spec fn cells(&self) -> u32 {
        self.count
    }

    /// Invariant: the next cell exists.
    pub closed spec fn wf(&self) -> bool {
        self.next < self.count
    }

    /// Hands out a cell.
    pub fn next_cell(&mut self) -> (res: u32)
        requires
            old(self).wf(),
        ensures
            final(self).wf(),
            final(self).cells() == old(self).cells(),
            res == old(self).upcoming(),
            final(self).upcoming() == (old(self).upcoming() + 1) % (old(self).cells() as int),
    {
        let cell: u32 = self.next;
        if self.next + 1 == self.count {
            proof {
                vstd::arithmetic::div_mod::lemma_mod_self_0(self.count as int);
            }
            self.next = 0;
        } else {
            proof {
                vstd::arithmetic::div_mod::lemma_small_mod(
                    (self.next + 1) as nat,
                    self.count as nat,
                );
            }
            self.next = self.next + 1;
        }
        cell
    }
}

/// The deque pair of one worker.
pub struct DualDeque {
    in_heap: Worker<JobRef>,
    mmf: Worker<RemoteJobSlot>,
    latches: LatchCells,
    args_limit: usize,
    mmf_deque_path: String,
    mmf_latches_path: String,
}

/// A job for any process as mathematical values.
#[verifier::ext_equal]
pub struct Remote {
    /// Name of the closure.
    pub closure_id: u32,
    /// Cell that its result goes to.
    pub latch_offset: u32,
    /// Its arguments.
    pub args: Seq<u8>,
}

/// The values of a slot.
pub open spec fn remote_of(s: RemoteJobSlot) -> Remote {
    Remote { closure_id: s.closure_id, latch_offset: s.latch_offset, args: s.args@ }
}

/// What a deque pair holds.
#[verifier::ext_equal]
pub struct Dual {
    /// Jobs of this process, oldest first.
    pub local: Seq<JobRef>,
    /// Jobs for any process, oldest first.
    pub shared: Seq<Remote>,
    /// Jobs that the shared deque can hold.
    pub shared_limit: int,
    /// Jobs that the other deque can hold.
    pub local_limit: int,
    /// Bytes of arguments that fit a slot.
    pub args_limit: int,
    /// The next result cell.
    pub next_latch: u32,
    /// Number of result cells.
    pub latches: u32,
}

impl DualDeque {
    /// What the pair holds.
    pub closed spec fn view(&self) -> Dual {
        Dual {
            local: self.in_heap@,
            shared: self.mmf@.map_values(|s: RemoteJobSlot| remote_of(s)),
            shared_limit: self.mmf.slots(),
            local_limit: self.in_heap.slots(),
            args_limit: self.args_limit as int,
            next_latch: self.latches.upcoming(),
            latches: self.latches.cells(),
        }
    }

    /// Representation invariant.
    pub closed spec fn wf(&self) -> bool {
        &&& self.in_heap.wf()
        &&& self.in_heap.slots() == IN_HEAP_CAPACITY
        &&& self.mmf.wf()
        &&& self.latches.wf()
    }

    /// What the invariant says of the sizes.
    pub proof fn lemma_bounds(&self)
        requires
            self.wf(),
        ensures
            self@.local_limit == IN_HEAP_CAPACITY,
            self@.local.len() <= self@.local_limit,
            self@.shared.len() <= self@.shared_limit,
            self@.local.len() + self@.shared.len() <= usize::MAX,
            self@.next_latch < self@.latches,
    {
        self.in_heap.lemma_bounds();
        self.mmf.lemma_bounds();
        crate::math::lemma_slot_count_headroom(self.mmf.slots());
    }

    /// Path of the shared deque.
    pub closed spec fn deque_file(&self) -> Seq<char> {
        self.mmf_deque_path@
    }

    /// Path of the result cells.
    pub closed spec fn latches_file(&self) -> Seq<char> {
        self.mmf_latches_path@
    }

    /// An empty pair over the given files.
    pub fn create(
        mmf_deque_path: String,
        mmf_latches_path: String,
        mmf_capacity: usize,
        latch_capacity: u32,
        args_limit: usize,
    ) -> (res: DualDeque)
        requires
            mmf_capacity <= usize::MAX / 2 + 1,
            latch_capacity > 0,
        ensures
            res.wf(),
            res@.local == Seq::<JobRef>::empty(),
            res@.shared == Seq::<Remote>::empty(),
            rounded_slot_count(mmf_capacity as int, res@.shared_limit),
            res@.local_limit == IN_HEAP_CAPACITY,
            res@.args_limit == args_limit,
            res@.next_latch == 0,
            res@.latches == latch_capacity,
            res.deque_file() == mmf_deque_path@,
            res.latches_file() == mmf_latches_path@,
    {
        let (in_heap, _) = new_chase_lev::<JobRef>(IN_HEAP_CAPACITY);
        let (mmf, _) = new_chase_lev::<RemoteJobSlot>(mmf_capacity);
        proof {
            crate::math::lemma_common_slot_counts();
            crate::math::rounded_slot_count_unique(1024, in_heap.slots(), 1024);
        }
        let res = DualDeque {
            in_heap,
            mmf,
            latches: LatchCells { next: 0, count: latch_capacity },
            args_limit,
            mmf_deque_path,
            mmf_latches_path,
        };
        proof {
            assert(res@.shared =~= Seq::<Remote>::empty());
        }
        res
    }

    /// Path of the shared deque.
    pub fn mmf_deque_path(&self) -> (res: &str)
        ensures
            res@ == self.deque_file(),
    {
        self.mmf_deque_path.as_str()
    }

    /// Path of the result cells.
    pub fn mmf_latches_path(&self) -> (res: &str)
        ensures
            res@ == self.latches_file(),
    {
        self.mmf_latches_path.as_str()
    }

    /// A thief handle for the in-process deque.
    pub fn in_heap_stealer(&self) -> Stealer {
        self.in_heap.stealer()
    }

    /// The shared deque.
    pub fn mmf_deque(&self) -> (res: &Worker<RemoteJobSlot>)
        ensures
            self.wf() ==> res.wf(),
            res.slots() == self@.shared_limit,
            res@.map_values(|s: RemoteJobSlot| remote_of(s)) == self@.shared,
    {
        &self.mmf
    }

    /// The result cells.
    pub fn mmf_latches(&self) -> (res: &LatchCells)
        ensures
            self.wf() ==> res.wf(),
            res.upcoming() == self@.next_latch,
            res.cells() == self@.latches,
    {
        &self.latches
    }

    /// Pushes a job of this process. A job that finds the deque full is
    /// dropped, and the caller told so.
    pub fn push_local(&mut self, job: JobRef) -> (kept: bool)
        requires
            old(self).wf(),
        ensures
            final(self).wf(),
            kept == (old(self)@.local.len() < old(self)@.local_limit),
            final(self)@ == if kept {
                Dual { local: old(self)@.local.push(job), ..old(self)@ }
            } else {
                old(self)@
            },
            final(self).deque_file() == old(self).deque_file(),
            final(self).latches_file() == old(self).latches_file(),
    {
        match self.in_heap.push(job) {
            Ok(_) => true,
            Err(_) => false,
        }
    }

    /// Pushes a job for any process and names the cell that its result goes
    /// to. Arguments that do not fit are refused before a cell is taken; a
    /// full deque refuses after.
    pub fn push_marshal(&mut self, closure_id: u32, args: &[u8]) -> (res: Result<
        u32,
        PushMarshalError,
    >)
        requires
            old(self).wf(),
        ensures
            final(self).wf(),
            final(self).deque_file() == old(self).deque_file(),
            final(self).latches_file() == old(self).latches_file(),
            ({
                let d = old(self)@;
                let taken = (Dual {
                    next_latch: ((d.next_latch + 1) % (d.latches as int)) as u32,
                    ..d
                });
                if args@.len() > d.args_limit {
                    &&& res == Err::<u32, PushMarshalError>(PushMarshalError::PayloadTooLarge)
                    &&& final(self)@ == d
                } else if d.shared.len() >= d.shared_limit {
                    &&& res == Err::<u32, PushMarshalError>(PushMarshalError::Full)
                    &&& final(self)@ == taken
                } else {
                    &&& res == Ok::<u32, PushMarshalError>(d.next_latch)
                    &&& final(self)@ == (Dual {
                        shared: d.shared.push(
                            (Remote { closure_id, latch_offset: d.next_latch, args: args@ }),
                        ),
                        ..taken
                    })
                }
            }),
    {
        if args.len() > self.args_limit {
            return Err(PushMarshalError::PayloadTooLarge);
        }
        let ghost d = self@;
        let latch_offset: u32 = self.latches.next_cell();
        let mut copy: Vec<u8> = Vec::new();
        let mut i: usize = 0;
        while i < args.len()
            invariant
                i <= args@.len(),
                copy@ == args@.subrange(0, i as int),
            decreases args@.len() - i,
        {
            copy.push(args[i]);
            i += 1;
            proof {
                assert(copy@ =~= args@.subrange(0, i as int));
            }
        }
        proof {
            assert(copy@ =~= args@);
        }
        let slot = RemoteJobSlot { closure_id, latch_offset, args: copy };
        let ghost before = self.mmf@;
        let f = Ghost(|s: RemoteJobSlot| remote_of(s));
        match self.mmf.push(slot) {
            Ok(_) => {
                proof {
                    assert(self.mmf@.map_values(f@) =~= before.map_values(f@).push(remote_of(slot)));
                }
                Ok(latch_offset)
            },
            Err(_) => Err(PushMarshalError::Full),
        }
    }

    /// Takes the newest job, of the shared deque first.
    pub fn pop_local(&mut self) -> (res: LocalPop)
        requires
            old(self).wf(),
        ensures
            final(self).wf(),
            final(self).deque_file() == old(self).deque_file(),
            final(self).latches_file() == old(self).latches_file(),
            ({
                let d = old(self)@;
                if d.shared.len() > 0 {
                    &&& res matches LocalPop::Mmf(s) && remote_of(s) == d.shared.last()
                    &&& final(self)@ == (Dual { shared: d.shared.drop_last(), ..d })
                } else if d.local.len() > 0 {
                    &&& res == LocalPop::InHeap(d.local.last())
                    &&& final(self)@ == (Dual { local: d.local.drop_last(), ..d })
                } else {
                    res is Empty && final(self)@ == d
                }
            }),
    {
        match self.pop_marshal() {
            Some(slot) => {
                return LocalPop::Mmf(slot);
            },
            None => {},
        }
        match self.in_heap.pop() {
            Steal::Success(job) => LocalPop::InHeap(job),
            Steal::Empty => LocalPop::Empty,
            Steal::Retry => LocalPop::Empty,
        }
    }

    /// Takes the newest job for any process.
    pub fn pop_marshal(&mut self) -> (res: Option<RemoteJobSlot>)
        requires
            old(self).wf(),
        ensures
            final(self).wf(),
            final(self).deque_file() == old(self).deque_file(),
            final(self).latches_file() == old(self).latches_file(),
            old(self)@.shared.len() > 0 ==> (res matches Some(s) && remote_of(s)
                == old(self)@.shared.last()) && final(self)@ == (Dual {
                shared: old(self)@.shared.drop_last(),
                ..old(self)@
            }),
            old(self)@.shared.len() == 0 ==> res is None && final(self)@ == old(self)@,
    {
        let ghost before = self.mmf@;
        let f = Ghost(|s: RemoteJobSlot| remote_of(s));
        match self.mmf.pop() {
            Steal::Success(slot) => {
                proof {
                    assert(self.mmf@.map_values(f@) =~= before.map_values(f@).drop_last());
                }
                Some(slot)
            },
            Steal::Empty => None,
            Steal::Retry => None,
        }
    }

    /// Takes the oldest job for any process.
    pub fn steal_marshal(&mut self) -> (res: Option<RemoteJobSlot>)
        requires
            old(self).wf(),
        ensures
            final(self).wf(),
            final(self).deque_file() == old(self).deque_file(),
            final(self).latches_file() == old(self).latches_file(),
            old(self)@.shared.len() > 0 ==> (res matches Some(s) && remote_of(s)
                == old(self)@.shared.first()) && final(self)@ == (Dual {
                shared: old(self)@.shared.drop_first(),
                ..old(self)@
            }),
            old(self)@.shared.len() == 0 ==> res is None && final(self)@ == old(self)@,
    {
        let thief = self.mmf.stealer();
        let ghost before = self.mmf@;
        let f = Ghost(|s: RemoteJobSlot| remote_of(s));
        match thief.steal(&mut self.mmf) {
            Steal::Success(slot) => {
                proof {
                    assert(self.mmf@.map_values(f@) =~= before.map_values(f@).drop_first());
                }
                Some(slot)
            },
            Steal::Empty => None,
            Steal::Retry => None,
        }
    }

    /// Takes the oldest job, of the shared deque first.
    pub fn steal_any(&mut self, in_heap_stealer: &Stealer) -> (res: StealAny)
        requires
            old(self).wf(),
        ensures
            final(self).wf(),
            final(self).deque_file() == old(self).deque_file(),
            final(self).latches_file() == old(self).latches_file(),
            ({
                let d = old(self)@;
                if d.shared.len() > 0 {
                    &&& res matches StealAny::Mmf(s) && remote_of(s) == d.shared.first()
                    &&& final(self)@ == (Dual { shared: d.shared.drop_first(), ..d })
                } else if d.local.len() > 0 {
                    &&& res == StealAny::InHeap(d.local.first())
                    &&& final(self)@ == (Dual { local: d.local.drop_first(), ..d })
                } else {
                    res is Empty && final(self)@ == d
                }
            }),
    {
        match self.steal_marshal() {
            Some(slot) => {
                return StealAny::Mmf(slot);
            },
            None => {},
        }
        match in_heap_stealer.steal(&mut self.in_heap) {
            Steal::Success(job) => StealAny::InHeap(job),
            Steal::Empty => StealAny::Empty,
            Steal::Retry => StealAny::Retry,
        }
    }

    /// Jobs in both deques.
    pub fn total_observed_size(&self) -> (res: usize)
        requires
            self.wf(),
        ensures
            res == self@.local.len() + self@.shared.len(),
    {
        proof {
            self.lemma_bounds();
        }
        self.in_heap.len() + self.mmf.len()
    }
}

} // verus!
