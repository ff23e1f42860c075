//! The backend that dispatches go to, switchable at any time.
//!
//! The choice is kept as one word: the kind of the device in the top byte and
//! its number in the other 24 bits.

use crate::backend::{Backend, BackendRegistry};
use vstd::prelude::*;

verus! {

/// Range of device numbers that a tag can hold.
pub open spec fn id_range() -> int {
    0x0100_0000
}

/// Tag of a backend. Device numbers are cut to 24 bits.
pub open spec fn backend_tag(b: Backend) -> int {
    match b {
        Backend::Cpu => 0,
        Backend::Cuda { device_id } => id_range() + device_id as int % id_range(),
        Backend::Rocm { device_id } => 2 * id_range() + device_id as int % id_range(),
        Backend::Metal { device_id } => 3 * id_range() + device_id as int % id_range(),
        Backend::Tpu { device_id } => 4 * id_range() + device_id as int % id_range(),
        Backend::Ane => 5 * id_range(),
        Backend::Wasm { device_id } => 6 * id_range() + device_id as int % id_range(),
        Backend::SharedMemoryWorker { backend_id } => 7 * id_range() + backend_id as int
            % id_range(),
        Backend::Custom(id) => 8 * id_range() + id as int % id_range(),
    }
}

/// Backend of a tag. Kinds from 8 on are custom devices.
pub open spec fn tagged_backend(tag: int) -> Backend {
    let kind = tag / id_range();
    let id = (tag % id_range()) as u32;
    if kind == 0 {
        Backend::Cpu
    } else if kind == 1 {
        Backend::Cuda { device_id: id }
    } else if kind == 2 {
        Backend::Rocm { device_id: id }
    } else if kind == 3 {
        Backend::Metal { device_id: id }
    } else if kind == 4 {
        Backend::Tpu { device_id: id }
    } else if kind == 5 {
        Backend::Ane
    } else if kind == 6 {
        Backend::Wasm { device_id: id }
    } else if kind == 7 {
        Backend::SharedMemoryWorker { backend_id: id }
    } else {
        Backend::Custom(id)
    }
}

/// The backend with its device number cut to what a tag can hold.
pub open spec fn cut_to_tag(b: Backend) -> Backend {
    match b {
        Backend::Cuda { device_id } => Backend::Cuda {
            device_id: (device_id as int % id_range()) as u32,
        },
        Backend::Rocm { device_id } => Backend::Rocm {
            device_id: (device_id as int % id_range()) as u32,
        },
        Backend::Metal { device_id } => Backend::Metal {
            device_id: (device_id as int % id_range()) as u32,
        },
        Backend::Tpu { device_id } => Backend::Tpu {
            device_id: (device_id as int % id_range()) as u32,
        },
        Backend::Wasm { device_id } => Backend::Wasm {
            device_id: (device_id as int % id_range()) as u32,
        },
        Backend::SharedMemoryWorker { backend_id } => Backend::SharedMemoryWorker {
            backend_id: (backend_id as int % id_range()) as u32,
        },
        Backend::Custom(id) => Backend::Custom((id as int % id_range()) as u32),
        _ => b,
    }
}

/// The device number fits a tag.
pub open spec fn fits_tag(b: Backend) -> bool {
    cut_to_tag(b) == b
}

/// The tag of a backend.
pub fn encode_backend(b: Backend) -> (res: u32)
    ensures
        res == backend_tag(b),
{
    match b {
        Backend::Cpu => 0,
        Backend::Cuda { device_id } => 0x0100_0000 + device_id % 0x0100_0000,
        Backend::Rocm { device_id } => 0x0200_0000 + device_id % 0x0100_0000,
        Backend::Metal { device_id } => 0x0300_0000 + device_id % 0x0100_0000,
        Backend::Tpu { device_id } => 0x0400_0000 + device_id % 0x0100_0000,
        Backend::Ane => 0x0500_0000,
        Backend::Wasm { device_id } => 0x0600_0000 + device_id % 0x0100_0000,
        Backend::SharedMemoryWorker { backend_id } => 0x0700_0000 + backend_id % 0x0100_0000,
        Backend::Custom(id) => 0x0800_0000 + id % 0x0100_0000,
    }
}

/// The backend of a tag.
pub fn decode_backend(tag: u32) -> (res: Backend)
    ensures
        res == tagged_backend(tag as int),
{
    let kind: u32 = tag / 0x0100_0000;
    let id: u32 = tag % 0x0100_0000;
    match kind {
        0 => Backend::Cpu,
        1 => Backend::Cuda { device_id: id },
        2 => Backend::Rocm { device_id: id },
        3 => Backend::Metal { device_id: id },
        4 => Backend::Tpu { device_id: id },
        5 => Backend::Ane,
        6 => Backend::Wasm { device_id: id },
        7 => Backend::SharedMemoryWorker { backend_id: id },
        _ => Backend::Custom(id),
    }
}

/// Reading back a tag gives the backend, its device number cut to 24 bits;
/// exactly the backends whose number fits come back unchanged.
pub proof fn law_tag_round_trip(b: Backend)
    ensures
        tagged_backend(backend_tag(b)) == cut_to_tag(b),
        fits_tag(b) <==> tagged_backend(backend_tag(b)) == b,
        0 <= backend_tag(b) <= u32::MAX,
{
}

/// The active backend's tag.
#[derive(Debug, Clone, Copy, PartialEq, Eq, Structural)]
pub struct ActiveBackend {
    /// The tag.
    pub tag: u32,
}

impl ActiveBackend {
    /// The backend that dispatches go to.
    pub open spec fn backend(&self) -> Backend {
        tagged_backend(self.tag as int)
    }

    /// The processor.
    pub fn new() -> (res: ActiveBackend)
        ensures
            res.backend() == Backend::Cpu,
    {
        ActiveBackend { tag: 0 }
    }
}

/// The backend that dispatches go to.
pub fn active_backend_id(active: &ActiveBackend) -> (res: Backend)
    ensures
        res == active.backend(),
{
    decode_backend(active.tag)
}

/// The active backend if it is registered, else the processor; and whether
/// the processor stands in.
pub fn resolve_active_backend(active: &ActiveBackend, registry: &BackendRegistry) -> (res: (
    Backend,
    bool,
))
    ensures
        registry.has(active.backend()) ==> res == (active.backend(), false),
        !registry.has(active.backend()) ==> res == (Backend::Cpu, true),
{
    let id = active_backend_id(active);
    if registry.is_registered(id) {
        (id, false)
    } else {
        (Backend::Cpu, true)
    }
}

/// Sends dispatches to another backend from now on.
pub fn migrate_backend(active: &mut ActiveBackend, backend: Backend)
    ensures
        final(active).backend() == cut_to_tag(backend),
        fits_tag(backend) ==> final(active).backend() == backend,
{
    proof {
        law_tag_round_trip(backend);
    }
    active.tag = encode_backend(backend);
}

/// Device numbers below two to the twenty-fourth survive in a tag, and no
/// others do; devices of different kinds or numbers have different tags.
pub proof fn law_tags_hold_24_bits(id: u32, a: Backend, b: Backend)
    ensures
        fits_tag(Backend::Cuda { device_id: id }) <==> id < 16_777_216,
        fits_tag(Backend::Custom(id)) <==> id < 16_777_216,
        fits_tag(Backend::SharedMemoryWorker { backend_id: id }) <==> id < 16_777_216,
        fits_tag(Backend::Cpu) && fits_tag(Backend::Ane),
        fits_tag(a) && fits_tag(b) && backend_tag(a) == backend_tag(b) ==> a == b,
        backend_tag(Backend::Cpu) == 0,
{
    law_tag_round_trip(a);
    law_tag_round_trip(b);
}

} // verus!
