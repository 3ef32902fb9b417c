//! Allocators: fine-grained blocks out of a source's chunks.

use crate::layout::{Block, Layout};
use vstd::prelude::*;

pub mod bump;
pub mod free_list;

verus! {

/// The least size of a chunk that an allocator asks its source for.
pub const MIN_CHUNK_SIZE: usize = 4096;

/// The bytes of an allocation made with `layout` at the address `e.0`.
pub open spec fn live_block(e: (usize, Layout)) -> Block {
    Block { addr: e.0, len: e.1.size() }
}

/// An allocator that hands out blocks by layout and takes them back.
///
/// An allocator keeps a ghost account of the allocations that are live: each
/// as its address and the layout it was made with, which is what `dealloc`
/// takes.
pub trait MutAllocator {
    /// The allocator's state is consistent. Every constructor establishes
    /// it and every method keeps it.
    spec fn wf(&self) -> bool;

    /// The live allocations of one or more bytes.
    spec fn allocated(&self) -> Set<(usize, Layout)>;

    /// Allocates `layout.size()` bytes aligned to `layout.align()`. The block
    /// shares no byte with a live allocation. An allocation of no bytes always
    /// succeeds and is not entered in the account.
    fn allocate(&mut self, layout: Layout) -> (r: Option<Block>)
        requires
            old(self).wf(),
        ensures
            final(self).wf(),
            layout.size() == 0 ==> r is Some,
            match r {
                Some(block) => {
                    &&& block.serves(layout)
                    &&& forall|e: (usize, Layout)| #[trigger]
                        old(self).allocated().contains(e) ==> live_block(e).disjoint(block)
                    &&& final(self).allocated() == if layout.size() > 0 {
                        old(self).allocated().insert((block.addr, layout))
                    } else {
                        old(self).allocated()
                    }
                },
                None => final(self).allocated() == old(self).allocated(),
            },
    ;

    /// Takes back the block at `addr`, which was allocated with `layout` and
    /// is live. A block of no bytes needs no taking back.
    fn dealloc(&mut self, addr: usize, layout: Layout)
        requires
            old(self).wf(),
            layout.size() > 0 ==> old(self).allocated().contains((addr, layout)),
        ensures
            final(self).wf(),
            final(self).allocated() == if layout.size() > 0 {
                old(self).allocated().remove((addr, layout))
            } else {
                old(self).allocated()
            },
    ;
}

} // verus!
