//! Disk requests: whether a transfer may be started, the request header sent to the
//! device, and the table of requests in flight that the interrupt handler completes.
use vstd::prelude::*;

verus! {

/// Requests the device can have in flight.
pub const N_REQUESTS: usize = 8;
/// Sectors of 512 bytes in a block.
pub const SECTORS_PER_BLOCK: u64 = 8;

/// Whether a transfer of `block` through the page at `pa` may start: the device is
/// ready, the block exists, and the page is a whole block-aligned page inside DRAM.
pub fn may_transfer(ready: bool, block: u32, total_blocks: u32, pa: u64, block_size: u64, dram_base: u64, dram_size: u64) -> (r: bool)
    requires
        block_size > 0,
        dram_base + dram_size <= u64::MAX,
    ensures
        r == (ready && block < total_blocks && pa % block_size == 0 && pa >= dram_base
            && dram_size >= block_size && pa <= dram_base + dram_size - block_size),
{
    if !ready || block >= total_blocks || pa % block_size != 0 || pa < dram_base || dram_size < block_size {
        return false;
    }
    pa <= dram_base + dram_size - block_size
}

/// The request header for `block`: kind 1 for a write, 0 for a read, and the first
/// sector of the block.
pub fn request_header(block: u32, write: bool) -> (r: (u32, u64))
    ensures
        r.0 == if write { 1u32 } else { 0u32 },
        r.1 == block * SECTORS_PER_BLOCK,
{
    (if write { 1 } else { 0 }, block as u64 * SECTORS_PER_BLOCK)
}

/// Requests in flight: for each slot, whether it is active, and its outcome once the
/// device has completed it.
pub struct Requests {
    pub active: Vec<bool>,
    pub result: Vec<Option<bool>>,
}

impl Requests {
    pub open spec fn wf(&self) -> bool {
        self.active@.len() == N_REQUESTS && self.result@.len() == N_REQUESTS
    }
}

/// No request in flight.
pub fn requests_init() -> (r: Requests)
    ensures
        r.wf(),
        forall|i: int| 0 <= i < N_REQUESTS ==> !r.active@[i] && r.result@[i] is None,
{
    let mut active: Vec<bool> = Vec::new();
    let mut result: Vec<Option<bool>> = Vec::new();
    let mut i: usize = 0;
    while i < N_REQUESTS
        invariant
            i <= N_REQUESTS,
            active@.len() == i,
            result@.len() == i,
            forall|k: int| 0 <= k < i ==> !active@[k] && result@[k] is None,
        decreases N_REQUESTS - i,
    {
        active.push(false);
        result.push(None);
        i = i + 1;
    }
    Requests { active, result }
}

/// The device took request `id`: it is active, with no outcome yet.
pub fn start(r: &mut Requests, id: usize)
    requires
        old(r).wf(),
        id < N_REQUESTS,
    ensures
        final(r).wf(),
        final(r).active@ == old(r).active@.update(id as int, true),
        final(r).result@ == old(r).result@.update(id as int, None),
{
    r.active.set(id, true);
    r.result.set(id, None);
}

/// The device completed request `id` with outcome `ok` (only an active request without
/// an outcome can complete). The caller wakes the process waiting for it.
pub fn interrupt(r: &mut Requests, id: usize, ok: bool)
    requires
        old(r).wf(),
        id < N_REQUESTS,
        old(r).active@[id as int],
        old(r).result@[id as int] is None,
    ensures
        final(r).wf(),
        final(r).active@ == old(r).active@,
        final(r).result@ == old(r).result@.update(id as int, Some(ok)),
{
    r.result.set(id, Some(ok));
}

/// The waiting side of request `id`: its outcome if the device has completed it, which
/// also frees the slot (the caller wakes those waiting for a free slot); `None` while it
/// is still in flight, and the caller sleeps.
pub fn finish(r: &mut Requests, id: usize) -> (out: Option<bool>)
    requires
        old(r).wf(),
        id < N_REQUESTS,
    ensures
        final(r).wf(),
        out == old(r).result@[id as int],
        out is Some ==> final(r).active@ == old(r).active@.update(id as int, false) && final(r).result@ == old(r).result@,
        out is None ==> *final(r) == *old(r),
{
    match r.result[id] {
        Some(ok) => {
            r.active.set(id, false);
            Some(ok)
        },
        None => None,
    }
}

}
