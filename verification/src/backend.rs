//! Execution backends and which of them are available.

use vstd::prelude::*;

verus! {

/// A device that can run dispatches.
#[derive(Debug, Clone, Copy, PartialEq, Eq, Hash, Structural)]
pub enum Backend {
    /// The host's processor.
    Cpu,
    /// A CUDA device.
    Cuda {
        /// Device number.
        device_id: u32,
    },
    /// A ROCm device.
    Rocm {
        /// Device number.
        device_id: u32,
    },
    /// A Metal device.
    Metal {
        /// Device number.
        device_id: u32,
    },
    /// A TPU.
    Tpu {
        /// Device number.
        device_id: u32,
    },
    /// The neural engine.
    Ane,
    /// A WebAssembly worker.
    Wasm {
        /// Device number.
        device_id: u32,
    },
    /// A worker in another process.
    SharedMemoryWorker {
        /// Worker number.
        backend_id: u32,
    },
    /// Any other device.
    Custom(u32),
}

/// The registered backends. The processor is always among them.
#[derive(Debug)]
pub struct BackendRegistry {
    ids: Vec<Backend>,
}

impl BackendRegistry {
    /// Whether a backend is registered.
    pub closed spec fn has(&self, b: Backend) -> bool {
        self.ids@.contains(b)
    }

    /// Representation invariant: the processor is registered.
    pub open spec fn wf(&self) -> bool {
        self.has(Backend::Cpu)
    }

    /// A registry of the processor alone.
    pub fn new() -> (res: BackendRegistry)
        ensures
            res.wf(),
            forall|b: Backend| #[trigger] res.has(b) <==> b == Backend::Cpu,
    {
        let mut ids: Vec<Backend> = Vec::new();
        ids.push(Backend::Cpu);
        proof {
            assert(ids@[0] == Backend::Cpu);
        }
        BackendRegistry { ids }
    }

    /// Registers a backend.
    pub fn register_backend(&mut self, b: Backend)
        requires
            old(self).wf(),
        ensures
            final(self).wf(),
            forall|x: Backend| #[trigger] final(self).has(x) <==> old(self).has(x) || x == b,
    {
        self.ids.push(b);
        proof {
            assert forall|x: Backend| #[trigger] self.has(x) <==> old(self).has(x) || x == b by {
                let n = old(self).ids@.len() as int;
                assert(self.ids@[n] == b);
                if old(self).has(x) {
                    let i = choose|i: int| 0 <= i < n && old(self).ids@[i] == x;
                    assert(self.ids@[i] == x);
                }
                if self.has(x) && x != b {
                    let i = choose|i: int| 0 <= i < n + 1 && self.ids@[i] == x;
                    assert(old(self).ids@[i] == x);
                }
            }
        }
    }

    /// Whether a backend is registered.
    pub fn is_registered(&self, b: Backend) -> (res: bool)
        ensures
            res == self.has(b),
    {
        let mut i: usize = 0;
        while i < self.ids.len()
            invariant
                i <= self.ids@.len(),
                forall|k: int| 0 <= k < i ==> #[trigger] self.ids@[k] != b,
            decreases self.ids@.len() - i,
        {
            if self.ids[i] == b {
                return true;
            }
            i += 1;
        }
        false
    }
}

} // verus!
