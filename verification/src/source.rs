//! Memory sources: where allocators get their chunks.

use crate::align;
use crate::layout::{Block, Layout};
use vstd::multiset::*;
use vstd::prelude::*;

pub mod os_heap;
pub mod static_buff;

verus! {

/// What a source owes for a request of `layout`: a chunk that is not at
/// address zero, starts at a multiple of the alignment, has at least the
/// size asked for and ends within the address space.
pub open spec fn chunk_meets(chunk: Block, layout: Layout) -> bool {
    &&& chunk.addr != 0
    &&& align::is_aligned(chunk.addr as int, layout.align() as int)
    &&& chunk.len >= layout.size()
    &&& chunk.end() <= usize::MAX
}

/// Tells whether `chunk` is what a source owes for a request of `layout`.
pub fn check_chunk(chunk: Block, layout: Layout) -> (r: bool)
    ensures
        r == chunk_meets(chunk, layout),
{
    let align: usize = layout.align();
    proof {
        align::lemma_power_of_two_bits(align);
        align::lemma_mask_is_mod(chunk.addr, align);
    }
    chunk.addr != 0 && chunk.addr & (align - 1) == 0 && chunk.len >= layout.size()
        && chunk.len <= usize::MAX - chunk.addr
}

/// The pair under which a chunk got for a request aligned to `align` is
/// given back: its address, and the layout of its actual length.
pub open spec fn chunk_key(chunk: Block, align: usize) -> (usize, Layout) {
    (chunk.addr, Layout::of(chunk.len, align))
}

/// A producer of large aligned chunks of memory.
///
/// A source keeps four ghost accounts: of the requests made of it, granted
/// or not, in their order; of the chunks that it has handed out and not yet
/// taken back, each under the pair that gives it back; of the addresses of
/// their bytes; and of the chunks that it has taken back, in the order in
/// which they came.
pub trait MemorySource {
    /// The chunks handed out and not yet taken back, each as the address and
    /// the layout that `release_chunk` takes.
    open spec fn outstanding(&self) -> Multiset<(usize, Layout)> {
        Multiset::empty()
    }

    /// The addresses of the bytes handed out and not yet taken back.
    open spec fn lent(&self) -> Set<int> {
        Set::empty()
    }

    /// The pairs under which chunks were given back, the first first.
    open spec fn released(&self) -> Seq<(usize, Layout)> {
        Seq::empty()
    }

    /// The layouts that were asked for, the first first, whether or not a
    /// chunk was given for them.
    open spec fn asked(&self) -> Seq<Layout> {
        Seq::empty()
    }

    /// Asks for a chunk of at least `layout.size()` bytes aligned to
    /// `layout.align()`. The chunk may be longer than asked for. It shares no
    /// byte with what is handed out already. A refusal changes no account
    /// but that of the requests.
    fn request_chunk(&mut self, layout: Layout) -> (r: Option<Block>)
        ensures
            final(self).asked() == old(self).asked().push(layout),
            final(self).released() == old(self).released(),
            match r {
                Some(chunk) => {
                    &&& chunk_meets(chunk, layout)
                    &&& chunk.bytes().disjoint(old(self).lent())
                    &&& final(self).lent() == old(self).lent().union(chunk.bytes())
                    &&& final(self).outstanding() == old(self).outstanding().insert(
                        chunk_key(chunk, layout.align()),
                    )
                },
                None => {
                    &&& final(self).lent() == old(self).lent()
                    &&& final(self).outstanding() == old(self).outstanding()
                },
            },
    ;

    /// Gives back the chunk at `addr`. The layout is that of the chunk's
    /// actual length, not of the request that brought it.
    fn release_chunk(&mut self, addr: usize, layout: Layout)
        requires
            old(self).outstanding().contains((addr, layout)),
        ensures
            final(self).outstanding() == old(self).outstanding().remove((addr, layout)),
            final(self).lent() == old(self).lent().difference(
                (Block { addr, len: layout.size() }).bytes(),
            ),
            final(self).released() == old(self).released().push((addr, layout)),
            final(self).asked() == old(self).asked(),
    ;
}

} // verus!
