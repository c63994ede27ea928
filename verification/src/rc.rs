//! Reference-counted ownership of heap blocks.
//!
//! One allocation, any number of handles: the count says how many remain.
//! Cloning a handle raises the count; releasing one lowers it. The
//! allocation stays live — its bytes untouched by the allocator — until
//! the last handle is released, at which point the block returns to the
//! free pool.

use crate::heap::{eff_size, AllocError, Block, Heap, find_fit, is_power_of_two};
use vstd::prelude::*;

verus! {

/// A reference-counted heap block: the allocation's address, requested
/// size and alignment, and the number of handles sharing it.
#[derive(Clone, Copy, Debug, PartialEq, Eq, Structural)]
pub struct RcBlock {
    pub addr: u64,
    pub size: u64,
    pub align: u64,
    pub count: u64,
}

impl RcBlock {
    /// A live counted block: at least one handle, a real allocation.
    pub open spec fn wf(self) -> bool {
        self.count >= 1 && self.size > 0
    }

    /// The heap range backing this block, as the allocator records it.
    pub open spec fn backing(self) -> Block {
        Block { addr: self.addr, size: eff_size(self.size) }
    }
}

/// Allocates a block with reference count one.
pub fn rc_allocate(heap: &mut Heap, size: u64, align: u64) -> (r: Result<RcBlock, AllocError>)
    requires
        old(heap).wf(),
        is_power_of_two(align as int),
        align <= 4096,
        size > 0,
    ensures
        final(heap).wf(),
        final(heap).start() == old(heap).start(),
        final(heap).size() == old(heap).size(),
        match r {
            Ok(rc) => {
                &&& rc.wf()
                &&& rc.count == 1
                &&& rc.size == size
                &&& rc.align == align
                &&& rc.addr as int % align as int == 0
                &&& final(heap).live() == old(heap).live().insert(rc.backing())
            },
            Err(e) => {
                &&& e == AllocError::HeapExhausted
                &&& find_fit(old(heap).free_list(), size, align) is None
                &&& final(heap).free_list() == old(heap).free_list()
                &&& final(heap).live() == old(heap).live()
            },
        },
{
    match heap.allocate(size, align) {
        Ok(p) => Ok(RcBlock { addr: p, size, align, count: 1 }),
        Err(e) => Err(e),
    }
}

/// One more handle shares the block.
pub fn rc_clone(rc: &mut RcBlock)
    requires
        old(rc).wf(),
        old(rc).count < u64::MAX,
    ensures
        final(rc).wf(),
        final(rc).count == old(rc).count + 1,
        final(rc).addr == old(rc).addr,
        final(rc).size == old(rc).size,
        final(rc).align == old(rc).align,
{
    rc.count = rc.count + 1;
}

/// Releases one handle. While other handles remain the allocation stays
/// live and the heap is untouched; the last release returns the block to
/// the head of the free pool.
pub fn rc_release(heap: &mut Heap, rc: &mut RcBlock) -> (freed: bool)
    requires
        old(heap).wf(),
        old(rc).wf(),
        old(heap).live().contains(old(rc).backing()),
    ensures
        final(heap).wf(),
        final(heap).start() == old(heap).start(),
        final(heap).size() == old(heap).size(),
        final(rc).addr == old(rc).addr,
        final(rc).size == old(rc).size,
        final(rc).align == old(rc).align,
        final(rc).count == old(rc).count - 1,
        freed <==> old(rc).count == 1,
        old(rc).count == 1 ==> final(heap).live() == old(heap).live().remove(old(rc).backing())
            && final(heap).free_list() == old(heap).free_list().insert(0, old(rc).backing()),
        old(rc).count > 1 ==> final(heap).live() == old(heap).live() && final(heap).free_list()
            == old(heap).free_list(),
{
    let was_last = rc.count == 1;
    rc.count = rc.count - 1;
    if was_last {
        heap.deallocate(rc.addr, rc.size, rc.align);
        true
    } else {
        false
    }
}

} // verus!
