//! A bump allocator: a cursor that only moves forward through its chunks.

use crate::align;
use crate::allocator::{MutAllocator, MIN_CHUNK_SIZE};
use crate::layout::{self, Block, Layout};
use crate::source::{self, MemorySource};
use vstd::multiset::*;
use vstd::prelude::*;

verus! {

/// The address that cursor and end hold while the allocator has no chunk.
pub const NO_CHUNK: usize = 1;

/// The record of a chunk, for which the chunk's first bytes are set aside.
#[derive(Clone, Copy, Debug, PartialEq, Eq, Structural)]
pub struct ChunkNode {
    /// The address of the chunk.
    pub base: usize,
    /// The chunk's actual length, and the alignment it was asked with.
    pub layout: Layout,
}

impl ChunkNode {
    /// The chunk's bytes.
    pub open spec fn block(self) -> Block {
        Block { addr: self.base, len: self.layout.size() }
    }

    /// The pair that gives the chunk back to its source.
    pub open spec fn key(self) -> (usize, Layout) {
        (self.base, self.layout)
    }

    /// The layout of the record: four machine words.
    pub open spec fn header() -> Layout {
        layout::words_layout(4)
    }

    /// The layout of the record.
    pub fn header_layout() -> (l: Layout)
        ensures
            l == Self::header(),
    {
        layout::layout_of_words(4)
    }
}

/// The pairs that give the chunks of a chain back, as a multiset.
pub open spec fn chain_keys(chunks: Seq<ChunkNode>) -> Multiset<(usize, Layout)>
    decreases chunks.len(),
{
    if chunks.len() == 0 {
        Multiset::empty()
    } else {
        chain_keys(chunks.drop_last()).insert(chunks.last().key())
    }
}

/// The pairs that give the chunks of a chain back, in the order in which
/// the allocator gives them back: the latest chunk first.
pub open spec fn release_order(chunks: Seq<ChunkNode>) -> Seq<(usize, Layout)>
    decreases chunks.len(),
{
    if chunks.len() == 0 {
        Seq::empty()
    } else {
        seq![chunks.last().key()] + release_order(chunks.drop_last())
    }
}

/// A chain with one more chunk has one more pair.
pub proof fn lemma_chain_keys_push(chunks: Seq<ChunkNode>, node: ChunkNode)
    ensures
        chain_keys(chunks.push(node)) == chain_keys(chunks).insert(node.key()),
{
    assert(chunks.push(node).drop_last() =~= chunks);
}

/// What the allocator asks its source for when `layout` does not fit: room
/// for the record, padding and the block, but no less than
/// `MIN_CHUNK_SIZE` bytes; and the offset of the block in that chunk. There
/// is none where the size does not fit in a machine word.
pub open spec fn chunk_request(layout: Layout) -> Option<(Layout, usize)> {
    match ChunkNode::header().extend_spec(layout) {
        Some((l, offset)) => Some((l.at_least_spec(MIN_CHUNK_SIZE), offset)),
        None => None,
    }
}

/// The requests made of the source after an allocation of `layout` that did
/// not fit in the window: one more, for what `layout` needs, where that can
/// be written down.
pub open spec fn asked_after(asked: Seq<Layout>, layout: Layout) -> Seq<Layout> {
    match chunk_request(layout) {
        Some((request, offset)) => asked.push(request),
        None => asked,
    }
}

/// What `with_initial_chunk` asks its source for: a chunk of `chunk_size`
/// bytes, or of the record's size where that is larger, aligned as the record
/// is.
pub open spec fn initial_request(chunk_size: usize) -> Layout {
    ChunkNode::header().at_least_spec(chunk_size)
}

/// Where a block of `layout` starts in a window that begins at `cursor`.
pub open spec fn bump_start(cursor: usize, layout: Layout) -> int {
    align::round_up(cursor as int, layout.align() as int)
}

/// A block of `layout` fits in the window from `cursor` to `end`.
pub open spec fn fits(cursor: usize, end: usize, layout: Layout) -> bool {
    bump_start(cursor, layout) < end && end - bump_start(cursor, layout) >= layout.size()
}

/// The state of a bump allocator apart from its source, which `source()`
/// gives and which keeps its own accounts.
pub struct BumpView {
    /// The next free address in the current chunk.
    pub cursor: usize,
    /// One past the last address of the current chunk.
    pub end: usize,
    /// The chunks, the current one last.
    pub chunks: Seq<ChunkNode>,
    /// The live allocations.
    pub live: Set<(usize, Layout)>,
}

impl BumpView {
    /// The bytes between cursor and end.
    pub open spec fn window(self) -> Block {
        Block { addr: self.cursor, len: (self.end - self.cursor) as usize }
    }

    /// The state agrees with itself and with the accounts of the source: the
    /// window lies behind the record of the current chunk, the chunks are
    /// out at the source, the window and the live allocations are lent
    /// bytes, and no live allocation reaches into the window.
    pub open spec fn wf(self, outstanding: Multiset<(usize, Layout)>, lent: Set<int>) -> bool {
        &&& 0 < self.cursor <= self.end
        &&& self.chunks.len() == 0 ==> self.cursor == self.end
        &&& self.chunks.len() > 0 ==> {
            &&& self.chunks.last().base + ChunkNode::header().size() <= self.cursor
            &&& self.end == self.chunks.last().block().end()
        }
        &&& chain_keys(self.chunks).subset_of(outstanding)
        &&& self.window().bytes().subset_of(lent)
        &&& forall|e: (usize, Layout)| #[trigger]
            self.live.contains(e) ==> {
                &&& crate::allocator::live_block(e).bytes().subset_of(lent)
                &&& crate::allocator::live_block(e).disjoint(self.window())
            }
    }

    /// The state of an allocator that has no chunk yet.
    pub open spec fn empty() -> BumpView {
        BumpView { cursor: NO_CHUNK, end: NO_CHUNK, chunks: Seq::empty(), live: Set::empty() }
    }

    /// The state after a block of `layout` was served from the window.
    pub open spec fn bumped(self, layout: Layout) -> BumpView {
        BumpView {
            cursor: (bump_start(self.cursor, layout) + layout.size()) as usize,
            live: self.live.insert((bump_start(self.cursor, layout) as usize, layout)),
            ..self
        }
    }

    /// The state after `chunk`, asked for with the alignment `align`, became
    /// the current chunk and a block of `layout` was served at `offset` in it.
    pub open spec fn grown(self, chunk: Block, align: usize, offset: usize, layout: Layout)
        -> BumpView {
        BumpView {
            cursor: (chunk.addr + offset + layout.size()) as usize,
            end: chunk.end() as usize,
            chunks: self.chunks.push(
                ChunkNode { base: chunk.addr, layout: Layout::of(chunk.len, align) },
            ),
            live: self.live.insert(((chunk.addr + offset) as usize, layout)),
        }
    }
}

/// What holds after an allocation of `layout` that did not fit in the
/// window, of the states before and after, of the accounts of the source
/// before and after, and of the result. Where the request for a chunk cannot
/// be written down, or the source refuses it, nothing has changed and there
/// is no block. Where the source gives a chunk, that chunk is the current one
/// and the block lies in it behind the record.
pub open spec fn grew(
    pre: BumpView,
    pre_out: Multiset<(usize, Layout)>,
    pre_lent: Set<int>,
    layout: Layout,
    post: BumpView,
    post_out: Multiset<(usize, Layout)>,
    post_lent: Set<int>,
    r: Option<Block>,
) -> bool {
    match (chunk_request(layout), r) {
        (Some((request, offset)), Some(block)) => {
            let chunk = post.chunks.last().block();
            &&& post.chunks.len() > 0
            &&& source::chunk_meets(chunk, request)
            &&& chunk.bytes().disjoint(pre_lent)
            &&& post_lent == pre_lent.union(chunk.bytes())
            &&& post_out == pre_out.insert(source::chunk_key(chunk, request.align()))
            &&& post == pre.grown(chunk, request.align(), offset, layout)
            &&& block == Block { addr: (chunk.addr + offset) as usize, len: layout.size() }
        },
        (_, None) => post == pre && post_out == pre_out && post_lent == pre_lent,
        (None, Some(_)) => false,
    }
}

/// An allocator that serves each request by moving a cursor forward in the
/// current chunk, takes a new chunk from its source when the current one is
/// used up, and gives the chunks back only all at once.
///
/// The chunks go back to the source when `release_all` is called. An
/// allocator that is dropped without that call keeps them out.
pub struct BumpAllocator<S: MemorySource> {
    source: S,
    ptr: usize,
    end: usize,
    chunks: Vec<ChunkNode>,
    live: Ghost<Set<(usize, Layout)>>,
}

impl<S: MemorySource> View for BumpAllocator<S> {
    type V = BumpView;

    closed spec fn view(&self) -> BumpView {
        BumpView { cursor: self.ptr, end: self.end, chunks: self.chunks@, live: self.live@ }
    }
}

impl<S: MemorySource> BumpAllocator<S> {
    /// The source.
    pub closed spec fn spec_source(&self) -> &S {
        &self.source
    }

    /// The source.
    #[verifier::when_used_as_spec(spec_source)]
    pub fn source(&self) -> (s: &S)
        ensures
            s == self.spec_source(),
    {
        &self.source
    }

    /// The next free address in the current chunk.
    pub fn cursor(&self) -> (c: usize)
        ensures
            c == self@.cursor,
    {
        self.ptr
    }

    /// One past the last address of the current chunk.
    pub fn end(&self) -> (e: usize)
        ensures
            e == self@.end,
    {
        self.end
    }

    /// The records of the chunks, the current one last.
    pub fn chunks(&self) -> (r: Vec<ChunkNode>)
        ensures
            r@ == self@.chunks,
    {
        self.chunks.clone()
    }

    /// What the source has out that is not a chunk of this allocator.
    /// Nothing that the allocator does changes it.
    pub open spec fn foreign(&self) -> Multiset<(usize, Layout)> {
        self.source().outstanding().sub(chain_keys(self@.chunks))
    }

    /// An allocator over `source`. It takes no chunk before the first
    /// allocation that needs one.
    pub fn new(source: S) -> (a: Self)
        ensures
            a.wf(),
            a.source() == source,
            a@ == BumpView::empty(),
            a.foreign() == source.outstanding(),
    {
        proof {
            assert(source.outstanding().sub(chain_keys(Seq::empty())) =~= source.outstanding());
        }
        BumpAllocator {
            source,
            ptr: NO_CHUNK,
            end: NO_CHUNK,
            chunks: Vec::new(),
            live: Ghost(Set::empty()),
        }
    }

    /// What the allocator asks its source for when `layout` does not fit, and
    /// the offset of the block in that chunk.
    pub fn plan_chunk(layout: Layout) -> (r: Option<(Layout, usize)>)
        ensures
            r == chunk_request(layout),
    {
        let header = ChunkNode::header_layout();
        match header.extend(layout) {
            Ok((l, offset)) => Some((l.at_least(MIN_CHUNK_SIZE), offset)),
            Err(_) => None,
        }
    }

    /// Makes `chunk` the current chunk and serves `layout` at `offset` in it.
    /// The chunk is one that the source has given for `request`, which is
    /// what the allocator asks for `layout`, and that is not a chunk of the
    /// allocator yet.
    pub fn adopt_chunk(&mut self, chunk: Block, request: Layout, offset: usize, layout: Layout) -> (block:
        Block)
        requires
            old(self).wf(),
            layout.size() > 0,
            chunk_request(layout) == Some((request, offset)),
            source::chunk_meets(chunk, request),
            chain_keys(old(self)@.chunks).insert(source::chunk_key(chunk, request.align())).subset_of(
                old(self).source().outstanding(),
            ),
            chunk.bytes().subset_of(old(self).source().lent()),
            forall|e: (usize, Layout)| #[trigger]
                old(self)@.live.contains(e) ==> crate::allocator::live_block(e).disjoint(chunk),
        ensures
            final(self).wf(),
            final(self).source() == old(self).source(),
            final(self)@ == old(self)@.grown(chunk, request.align(), offset, layout),
            block == (Block { addr: (chunk.addr + offset) as usize, len: layout.size() }),
            block.serves(layout),
            block.within(chunk),
    {
        proof {
            broadcast use Layout::lemma_of;

            use_type_invariant(&layout);
            use_type_invariant(&request);
            lemma_chunk_request(layout);
            // the block starts at a multiple of the alignment asked for
            align::lemma_power_of_two_bits(layout.align());
            align::lemma_aligned_to_smaller(chunk.addr as int, layout.align(), request.align());
            align::lemma_aligned_sum(chunk.addr as int, offset as int, layout.align() as int);
        }
        let node = ChunkNode { base: chunk.addr, layout: request.with_size(chunk.len) };
        let start: usize = chunk.addr + offset;
        let block = Block { addr: start, len: layout.size() };
        let ghost pre = self@;
        proof {
            lemma_chain_keys_push(self.chunks@, node);
        }
        self.chunks.push(node);
        self.ptr = start + layout.size();
        self.end = chunk.addr + chunk.len;
        self.live = Ghost(pre.live.insert((start, layout)));
        proof {
            assert(node.block() == chunk);
            assert(self@ == pre.grown(chunk, request.align(), offset, layout));
            block.lemma_within_bytes(chunk);
            self@.window().lemma_within_bytes(chunk);
        }
        block
    }

    /// Asks the source once for what `layout` needs, if that can be written
    /// down, makes the chunk that comes the current one and serves `layout`
    /// from it.
    fn new_chunk(&mut self, layout: Layout) -> (r: Option<Block>)
        requires
            old(self).wf(),
            layout.size() > 0,
        ensures
            final(self).wf(),
            final(self).source().asked() == asked_after(old(self).source().asked(), layout),
            grew(
                old(self)@,
                old(self).source().outstanding(),
                old(self).source().lent(),
                layout,
                final(self)@,
                final(self).source().outstanding(),
                final(self).source().lent(),
                r,
            ),
            final(self).foreign() == old(self).foreign(),
            final(self).source().released() == old(self).source().released(),
            r is Some ==> r->Some_0.serves(layout),
            r is Some ==> forall|e: (usize, Layout)| #[trigger]
                old(self)@.live.contains(e) ==> crate::allocator::live_block(e).disjoint(
                    r->Some_0,
                ),
    {
        let (request, offset) = match Self::plan_chunk(layout) {
            Some(p) => p,
            None => {
                return None;
            },
        };
        let ghost pre_lent = self.source.lent();
        let chunk = match self.source.request_chunk(request) {
            Some(c) => c,
            None => {
                return None;
            },
        };
        proof {
            broadcast use Layout::lemma_of;

            assert forall|e: (usize, Layout)| #[trigger] self@.live.contains(e) implies {
                &&& crate::allocator::live_block(e).disjoint(chunk)
                &&& crate::allocator::live_block(e).bytes().subset_of(self.source.lent())
            } by {
                crate::allocator::live_block(e).lemma_disjoint_from_fresh(chunk, pre_lent);
            }
        }
        let block = self.adopt_chunk(chunk, request, offset, layout);
        proof {
            let node = self@.chunks.last();
            assert(node.block() == chunk);
            assert(node.key() == source::chunk_key(chunk, request.align()));
            lemma_chain_keys_push(old(self)@.chunks, node);
            assert(self.foreign() =~= old(self).foreign());
        }
        Some(block)
    }
}

impl<S: MemorySource> BumpAllocator<S> {
    /// Asks `source` once, for a chunk of `chunk_size` bytes, or of the
    /// record's size where that is larger, and gives an allocator over
    /// `source` that has this chunk as its current one and nothing allocated
    /// in it. Where the source refuses the chunk, gives the source back.
    pub fn with_initial_chunk(source: S, chunk_size: usize) -> (r: Result<Self, S>)
        ensures
            match r {
                Ok(a) => {
                    let chunk = a@.chunks[0].block();
                    &&& a.wf()
                    &&& a@.chunks.len() == 1
                    &&& a@.live == Set::<(usize, Layout)>::empty()
                    &&& source::chunk_meets(chunk, initial_request(chunk_size))
                    &&& a@.chunks[0].layout.align() == ChunkNode::header().align()
                    &&& a@.cursor == chunk.addr + ChunkNode::header().size()
                    &&& a@.end == chunk.end()
                    &&& a.source().asked() == source.asked().push(initial_request(chunk_size))
                    &&& a.source().outstanding() == source.outstanding().insert(
                        a@.chunks[0].key(),
                    )
                    &&& a.source().lent() == source.lent().union(chunk.bytes())
                    &&& a.source().released() == source.released()
                    &&& a.foreign() == source.outstanding()
                },
                Err(refused) => {
                    &&& refused.asked() == source.asked().push(initial_request(chunk_size))
                    &&& refused.outstanding() == source.outstanding()
                    &&& refused.lent() == source.lent()
                    &&& refused.released() == source.released()
                },
            },
    {
        proof {
            broadcast use Layout::lemma_of;

        }
        let header = ChunkNode::header_layout();
        let request = header.at_least(chunk_size);
        let ghost given = source;
        let mut asked = source;
        let chunk = match asked.request_chunk(request) {
            Some(c) => c,
            None => {
                return Err(asked);
            },
        };
        let mut a = Self::new(asked);
        let node = ChunkNode { base: chunk.addr, layout: request.with_size(chunk.len) };
        proof {
            lemma_chain_keys_push(a.chunks@, node);
            chunk.lemma_within_bytes(chunk);
        }
        a.chunks.push(node);
        a.ptr = chunk.addr + header.size();
        a.end = chunk.addr + chunk.len;
        proof {
            assert(a.foreign() =~= given.outstanding());
        }
        Ok(a)
    }

    /// Gives every chunk back to the source, the latest first. All
    /// allocations end with it.
    ///
    /// What the source has out afterwards is what it had out before without
    /// the allocator's chunks: each chunk that was asked for is given back
    /// once, under the address and the layout it came with.
    pub fn release_all(&mut self)
        requires
            old(self).wf(),
        ensures
            final(self).wf(),
            final(self)@ == BumpView::empty(),
            final(self).source().outstanding() == old(self).foreign(),
            final(self).foreign() == old(self).foreign(),
            final(self).source().released() == old(self).source().released() + release_order(
                old(self)@.chunks,
            ),
            final(self).source().asked() == old(self).source().asked(),
    {
        let ghost before = self.source.outstanding();
        let ghost chain = self.chunks@;
        let ghost log = self.source.released();
        while self.chunks.len() > 0
            invariant
                chain_keys(self.chunks@).subset_of(self.source.outstanding()),
                chain_keys(chain).subset_of(before),
                forall|e: (usize, Layout)|
                    self.source.outstanding().count(e) - chain_keys(self.chunks@).count(e)
                        == before.count(e) - chain_keys(chain).count(e),
                self.source.released() + release_order(self.chunks@) == log + release_order(chain),
                self.source.asked() == old(self).source().asked(),
            decreases self.chunks.len(),
        {
            let ghost full = self.chunks@;
            let ghost out = self.source.outstanding();
            let node = self.chunks.pop().unwrap();
            proof {
                // the chain before is the chain now with `node` at its end
                assert(self.chunks@ =~= full.drop_last());
                assert(chain_keys(full).count(node.key()) <= out.count(node.key()));
            }
            self.source.release_chunk(node.base, node.layout);
            proof {
                assert forall|e: (usize, Layout)|
                    chain_keys(self.chunks@).count(e) <= self.source.outstanding().count(
                        e,
                    ) by {
                    assert(chain_keys(full).count(e) <= out.count(e));
                }
                assert(self.source.released() + release_order(self.chunks@) =~= log
                    + release_order(chain));
            }
        }
        self.ptr = NO_CHUNK;
        self.end = NO_CHUNK;
        self.live = Ghost(Set::empty());
        proof {
            assert(self.source.outstanding() =~= before.sub(chain_keys(chain)));
            assert(self.chunks@ =~= Seq::empty());
            assert(self.foreign() =~= self.source.outstanding());
            assert(self.source.released() =~= log + release_order(chain));
        }
    }
}

impl<S: MemorySource> MutAllocator for BumpAllocator<S> {
    open spec fn wf(&self) -> bool {
        self@.wf(self.source().outstanding(), self.source().lent())
    }

    open spec fn allocated(&self) -> Set<(usize, Layout)> {
        self@.live
    }

    /// Serves `layout` from the window between cursor and end where it fits,
    /// and from a new chunk where it does not. A block of no bytes lies at
    /// the address `layout.align()` and changes nothing.
    fn allocate(&mut self, layout: Layout) -> (r: Option<Block>)
        ensures
            final(self).foreign() == old(self).foreign(),
            final(self).source().released() == old(self).source().released(),
            layout.size() == 0 ==> {
                &&& r == Some(Block { addr: layout.align(), len: 0 })
                &&& final(self)@ == old(self)@
                &&& final(self).source() == old(self).source()
            },
            layout.size() > 0 && fits(old(self)@.cursor, old(self)@.end, layout) ==> {
                &&& r == Some(
                    Block {
                        addr: bump_start(old(self)@.cursor, layout) as usize,
                        len: layout.size(),
                    },
                )
                &&& final(self)@ == old(self)@.bumped(layout)
                &&& final(self).source() == old(self).source()
            },
            layout.size() > 0 && !fits(old(self)@.cursor, old(self)@.end, layout) ==> {
                &&& grew(
                    old(self)@,
                    old(self).source().outstanding(),
                    old(self).source().lent(),
                    layout,
                    final(self)@,
                    final(self).source().outstanding(),
                    final(self).source().lent(),
                    r,
                )
                &&& final(self).source().asked() == asked_after(
                    old(self).source().asked(),
                    layout,
                )
            },
    {
        let size: usize = layout.size();
        let align: usize = layout.align();
        if size == 0 {
            proof {
                vstd::arithmetic::div_mod::lemma_mod_self_0(align as int);
            }
            return Some(Block { addr: align, len: 0 });
        }
        let pad: usize = align::align_offset(self.ptr, align);
        let start: usize = match self.ptr.checked_add(pad) {
            Some(start) => start,
            None => {
                return self.new_chunk(layout);
            },
        };
        if start >= self.end {
            return self.new_chunk(layout);
        }
        if self.end - start < size {
            return self.new_chunk(layout);
        }
        let block = Block { addr: start, len: size };
        let ghost pre = self@;
        proof {
            block.lemma_within_bytes(pre.window());
        }
        self.ptr = start + size;
        self.live = Ghost(pre.live.insert((start, layout)));
        proof {
            assert(self@ == pre.bumped(layout));
            self@.window().lemma_within_bytes(pre.window());
        }
        Some(block)
    }

    /// Does nothing to the memory: a bump allocator gives memory back only
    /// all at once. The allocation is no longer counted as live.
    fn dealloc(&mut self, addr: usize, layout: Layout)
        ensures
            final(self)@ == (BumpView {
                live: if layout.size() > 0 {
                    old(self)@.live.remove((addr, layout))
                } else {
                    old(self)@.live
                },
                ..old(self)@
            }),
            final(self).source() == old(self).source(),
            final(self).foreign() == old(self).foreign(),
    {
        if layout.size() > 0 {
            self.live = Ghost(self.live@.remove((addr, layout)));
        }
    }
}

/// The chunks that an allocator gives back are the chunks that it has asked
/// for: as many, and the same pairs of address and layout as often. With
/// what `release_all` says of the source, this is the balance of requests and
/// releases over the life of an allocator.
pub proof fn lemma_release_matches_requests(chunks: Seq<ChunkNode>)
    ensures
        release_order(chunks).len() == chunks.len(),
        release_order(chunks).to_multiset() == chain_keys(chunks),
    decreases chunks.len(),
{
    let none = Seq::<(usize, Layout)>::empty();
    vstd::seq_lib::to_multiset_len(none);
    lemma_multiset_empty_len(none.to_multiset());
    if chunks.len() == 0 {
        assert(release_order(chunks) =~= none);
    } else {
        let rest = chunks.drop_last();
        let key = chunks.last().key();
        lemma_release_matches_requests(rest);
        vstd::seq_lib::to_multiset_build(none, key);
        assert(seq![key] =~= none.push(key));
        vstd::seq_lib::lemma_multiset_commutative(seq![key], release_order(rest));
        assert(release_order(chunks).to_multiset() =~= chain_keys(chunks));
    }
}

/// A request that is asked of the source has room for the record, the
/// padding behind it and the block.
pub proof fn lemma_chunk_request(layout: Layout)
    requires
        layout.valid(),
        chunk_request(layout) is Some,
    ensures
        ({
            let (request, offset) = chunk_request(layout)->Some_0;
            &&& request.size() >= offset + layout.size()
            &&& request.size() >= MIN_CHUNK_SIZE
            &&& offset >= ChunkNode::header().size()
            &&& align::is_aligned(offset as int, layout.align() as int)
            &&& request.align() >= layout.align()
            &&& request.align() >= ChunkNode::header().align()
            &&& request.valid()
        }),
{
    broadcast use Layout::lemma_of;

    let header = ChunkNode::header();
    layout::lemma_word_size();
    align::lemma_power_of_two_bits(layout.align());
    align::lemma_round_up(header.size() as int, layout.align() as int);
}

/// Of two blocks of one or more bytes that are served one after the other,
/// the second from the window that the first left behind, the second starts
/// where the first ends or later. The first may come from the window or from
/// a new chunk.
pub proof fn lemma_bump_monotonic(
    before: BumpView,
    first: Layout,
    between: BumpView,
    a: Block,
    second: Layout,
    b: Block,
)
    requires
        first.valid(),
        second.valid(),
        first.size() > 0,
        second.size() > 0,
        a.len == first.size(),
        ({
            ||| {
                &&& fits(before.cursor, before.end, first)
                &&& between == before.bumped(first)
                &&& a.addr == bump_start(before.cursor, first)
            }
            ||| {
                &&& chunk_request(first) is Some
                &&& between.chunks.len() > 0
                &&& source::chunk_meets(between.chunks.last().block(), chunk_request(first)->Some_0.0)
                &&& between == before.grown(
                    between.chunks.last().block(),
                    chunk_request(first)->Some_0.0.align(),
                    chunk_request(first)->Some_0.1,
                    first,
                )
                &&& a.addr == between.chunks.last().base + chunk_request(first)->Some_0.1
            }
        }),
        fits(between.cursor, between.end, second),
        b.addr == bump_start(between.cursor, second),
    ensures
        b.addr >= a.addr + a.len,
{
    align::lemma_power_of_two_bits(second.align());
    align::lemma_round_up(between.cursor as int, second.align() as int);
    if chunk_request(first) is Some {
        lemma_chunk_request(first);
    }
    align::lemma_power_of_two_bits(first.align());
    align::lemma_round_up(before.cursor as int, first.align() as int);
}

} // verus!
