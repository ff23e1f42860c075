//! Zeroed buffers that are ready before they are needed.

use vstd::prelude::*;

verus! {

/// A buffer on order.
#[derive(Debug)]
pub struct Handle {
    n_bytes: usize,
    buffer: Option<Vec<u8>>,
    ready: bool,
}

/// A zeroed buffer.
pub open spec fn zeroed(buf: Seq<u8>, n: int) -> bool {
    buf.len() == n && forall|i: int| 0 <= i < n ==> #[trigger] buf[i] == 0
}

impl Handle {
    /// Size that was ordered.
    pub closed spec fn ordered(&self) -> int {
        self.n_bytes as int
    }

    /// Whether the buffer has been made.
    pub closed spec fn made(&self) -> bool {
        self.ready
    }

    /// Whether a made buffer is still there.
    pub closed spec fn holds_buffer(&self) -> bool {
        self.buffer is Some
    }

    /// Invariant: a buffer that is there has been made, zeroed, in the
    /// ordered size.
    pub closed spec fn wf(&self) -> bool {
        self.buffer matches Some(b) ==> self.ready && zeroed(b@, self.n_bytes as int)
    }

    /// Whether the buffer has been made.
    pub fn is_ready(&self) -> (res: bool)
        ensures
            res == self.made(),
    {
        self.ready
    }

    /// Makes the buffer, as the background job does.
    pub fn complete(&mut self)
        requires
            old(self).wf(),
            !old(self).made(),
        ensures
            final(self).wf(),
            final(self).made(),
            final(self).holds_buffer(),
            final(self).ordered() == old(self).ordered(),
    {
        let buf = allocate_and_first_touch(self.n_bytes);
        self.buffer = Some(buf);
        self.ready = true;
    }

    /// Takes the buffer once it has been made; it can be taken once.
    pub fn wait(&mut self) -> (res: Option<Vec<u8>>)
        requires
            old(self).wf(),
            old(self).made(),
        ensures
            final(self).wf(),
            final(self).made(),
            !final(self).holds_buffer(),
            final(self).ordered() == old(self).ordered(),
            old(self).holds_buffer() ==> (res matches Some(b) && zeroed(b@, old(self).ordered())),
            !old(self).holds_buffer() ==> res is None,
    {
        self.buffer.take()
    }
}

/// Orders a zeroed buffer. Without a background pool it is made at once.
pub fn prepare(n_bytes: usize, background: bool) -> (res: Handle)
    ensures
        res.wf(),
        res.ordered() == n_bytes,
        res.made() == !background,
        res.holds_buffer() == !background,
{
    let mut handle = Handle { n_bytes, buffer: None, ready: false };
    if !background {
        handle.complete();
    }
    handle
}

/// A zeroed buffer of which every page was written once, so that the system
/// has brought it in.
pub fn allocate_and_first_touch(n_bytes: usize) -> (res: Vec<u8>)
    ensures
        zeroed(res@, n_bytes as int),
{
    let mut buf: Vec<u8> = vec![0u8; n_bytes];
    let page: usize = page_size_bytes();
    let mut offset: usize = 0;
    while offset < buf.len()
        invariant
            page == 4096,
            zeroed(buf@, n_bytes as int),
        decreases n_bytes + 4096 - offset,
    {
        buf.set(offset, 0);
        if offset > usize::MAX - page {
            return buf;
        }
        offset = offset + page;
    }
    buf
}

/// Page size that is assumed.
pub fn page_size_bytes() -> (res: usize)
    ensures
        res == 4096,
{
    4096
}

} // verus!
