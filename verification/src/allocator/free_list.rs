//! A first-fit allocator over a list of free intervals.

use crate::align;
use crate::allocator::free_list::state::FreeListView;
use crate::allocator::{MutAllocator, MIN_CHUNK_SIZE};
use crate::layout::{self, Block, Layout};
use crate::source::{self, MemorySource};
use vstd::multiset::*;
use vstd::prelude::*;
use vstd::set_lib::*;

pub mod state;

verus! {

/// A free interval: where it starts and how many bytes it has, the bytes of
/// its own record included.
#[derive(Clone, Copy, Debug, PartialEq, Eq, Structural)]
pub struct ListNode {
    /// The address of the interval.
    pub addr: usize,
    /// The number of bytes in the interval.
    pub size: usize,
}

impl ListNode {
    /// The interval's bytes.
    pub open spec fn block(self) -> Block {
        Block { addr: self.addr, len: self.size }
    }

    /// The layout of the record that each free interval starts with: two
    /// machine words.
    pub open spec fn header() -> Layout {
        layout::words_layout(2)
    }

    /// The interval can hold its record: it is not at address zero, starts
    /// at a multiple of the record's alignment and has at least the record's
    /// size, and it ends within the address space.
    pub open spec fn ok(self) -> bool {
        &&& self.addr != 0
        &&& align::is_aligned(self.addr as int, Self::header().align() as int)
        &&& self.size >= Self::header().size()
        &&& self.addr + self.size <= usize::MAX
    }
}

/// How a request is taken out of a free interval.
#[derive(Clone, Copy, Debug, PartialEq, Eq, Structural)]
pub struct Fit {
    /// The address of the block.
    pub alloc_addr: usize,
    /// The number of bytes set aside for the block.
    pub alloc_size: usize,
    /// The number of bytes that stay free in front of the block.
    pub prefix_size: usize,
    /// The number of bytes that stay free behind the block.
    pub suffix_size: usize,
}

/// The layout that is set aside for a request of `layout`: at least the size
/// and the alignment of a free interval's record, the size a multiple of the
/// alignment. There is none where that size does not fit in a machine word.
pub open spec fn normalized_spec(layout: Layout) -> Option<Layout> {
    let node = ListNode::header();
    let align = if layout.align() >= node.align() {
        layout.align()
    } else {
        node.align()
    };
    let size = if layout.size() >= node.size() {
        layout.size()
    } else {
        node.size()
    };
    Layout::of(size, align).pad_to_align_spec()
}

/// How `need` is taken out of the free interval `node`, if it can be: the
/// block starts at the first multiple of the alignment and must end within
/// the interval, and what stays free in front of it and behind it is nothing
/// or enough for a record.
pub open spec fn fit_of(node: ListNode, need: Layout) -> Option<Fit> {
    let pad = align::padding_for(node.addr as int, need.align() as int);
    let hole_end = node.addr + node.size;
    let alloc_start = node.addr + pad;
    let alloc_end = alloc_start + need.size();
    let suffix = hole_end - alloc_end;
    let min_free = ListNode::header().size();
    if hole_end <= usize::MAX && alloc_end <= hole_end && (pad == 0 || pad >= min_free) && (suffix
        == 0 || suffix >= min_free) && alloc_start != 0 {
        Some(
            Fit {
                alloc_addr: alloc_start as usize,
                alloc_size: need.size(),
                prefix_size: pad as usize,
                suffix_size: suffix as usize,
            },
        )
    } else {
        None
    }
}

/// The place in the list of the first free interval that `need` can be taken
/// out of.
pub open spec fn first_fit(free: Seq<ListNode>, need: Layout) -> Option<int>
    decreases free.len(),
{
    if free.len() == 0 {
        None
    } else if fit_of(free[0], need) is Some {
        Some(0)
    } else {
        match first_fit(free.drop_first(), need) {
            Some(i) => Some(i + 1),
            None => None,
        }
    }
}

/// The list after `fit` was taken out of the interval at `i`: the interval
/// has left the list, and what stays free of it is at the head, the part in
/// front of the block before the part behind it.
pub open spec fn after_take(free: Seq<ListNode>, i: int, fit: Fit) -> Seq<ListNode> {
    let rest = free.remove(i);
    let with_suffix = if fit.suffix_size != 0 {
        rest.insert(
            0,
            ListNode { addr: (fit.alloc_addr + fit.alloc_size) as usize, size: fit.suffix_size },
        )
    } else {
        rest
    };
    if fit.prefix_size != 0 {
        with_suffix.insert(0, ListNode { addr: free[i].addr, size: fit.prefix_size })
    } else {
        with_suffix
    }
}

/// The bytes set aside for a live allocation.
pub open spec fn reserved(e: (usize, Layout)) -> Block {
    Block { addr: e.0, len: normalized_spec(e.1)->Some_0.size() }
}

/// The free interval that a chunk becomes: the chunk without the bytes at
/// its end that do not make up a multiple of the record's alignment.
pub open spec fn chunk_node(chunk: Block) -> ListNode {
    ListNode {
        addr: chunk.addr,
        size: align::round_down(chunk.len as int, ListNode::header().align() as int) as usize,
    }
}

/// What the allocator asks its source for when nothing fits `need`.
pub open spec fn grow_request(need: Layout) -> Layout {
    need.at_least_spec(MIN_CHUNK_SIZE)
}

/// What is set aside for a request is at least the request and at least a
/// record, aligned to both, and a whole number of alignments long.
pub proof fn lemma_normalized(layout: Layout)
    requires
        layout.valid(),
        normalized_spec(layout) is Some,
    ensures
        ({
            let need = normalized_spec(layout)->Some_0;
            &&& need.valid()
            &&& need.align() >= layout.align()
            &&& need.align() >= ListNode::header().align()
            &&& need.size() >= layout.size()
            &&& need.size() >= ListNode::header().size()
            &&& align::is_aligned(need.size() as int, need.align() as int)
            &&& align::is_aligned(need.size() as int, ListNode::header().align() as int)
        }),
        align::is_power_of_two(ListNode::header().align()),
        ListNode::header().align() > 0,
{
    broadcast use Layout::lemma_of;

    let node = ListNode::header();
    let need = normalized_spec(layout)->Some_0;
    let w = layout::word_size();
    layout::lemma_word_size();
    assert(node.align() == w);
    align::lemma_power_of_two_bits(layout.align());
    let size = if layout.size() >= node.size() {
        layout.size()
    } else {
        node.size()
    };
    align::lemma_round_up(size as int, need.align() as int);
    align::lemma_aligned_to_smaller(need.size() as int, w, need.align());
}

impl ListNode {
    /// The layout of the record that each free interval starts with.
    pub fn header_layout() -> (l: Layout)
        ensures
            l == Self::header(),
            l.size() == 2 * layout::word_size(),
            l.align() == layout::word_size(),
    {
        proof {
            broadcast use Layout::lemma_of;

        }
        layout::layout_of_words(2)
    }
}

/// The first fit is a fit, and no interval before it is one.
pub proof fn lemma_first_fit(free: Seq<ListNode>, need: Layout)
    ensures
        match first_fit(free, need) {
            Some(i) => {
                &&& 0 <= i < free.len()
                &&& fit_of(free[i], need) is Some
                &&& forall|j: int| 0 <= j < i ==> fit_of(#[trigger] free[j], need) is None
            },
            None => forall|j: int| 0 <= j < free.len() ==> fit_of(#[trigger] free[j], need) is None,
        },
    decreases free.len(),
{
    if free.len() > 0 && fit_of(free[0], need) is None {
        let rest = free.drop_first();
        lemma_first_fit(rest, need);
        match first_fit(rest, need) {
            Some(i) => {
                assert(rest[i] == free[i + 1]);
                assert forall|j: int| 0 <= j < i + 1 implies fit_of(#[trigger] free[j], need) is None by {
                    if j > 0 {
                        assert(rest[j - 1] == free[j]);
                    }
                }
            },
            None => {
                assert forall|j: int| 0 <= j < free.len() implies fit_of(#[trigger] free[j], need) is None by {
                    if j > 0 {
                        assert(rest[j - 1] == free[j]);
                    }
                }
            },
        }
    }
}

/// A fit that no fit comes before is the first fit, and where nothing fits
/// there is none.
pub proof fn lemma_first_fit_is(free: Seq<ListNode>, need: Layout, i: int)
    requires
        0 <= i <= free.len(),
        forall|j: int| 0 <= j < i ==> fit_of(#[trigger] free[j], need) is None,
        i < free.len() ==> fit_of(free[i], need) is Some,
    ensures
        first_fit(free, need) == if i < free.len() {
            Some(i)
        } else {
            None
        },
{
    lemma_first_fit(free, need);
    match first_fit(free, need) {
        Some(k) => {
            if k < i {
                assert(fit_of(free[k], need) is None);
            } else if k > i {
                assert(fit_of(free[i], need) is None);
            }
        },
        None => {
            if i < free.len() {
                assert(fit_of(free[i], need) is None);
            }
        },
    }
}

/// An allocator that searches a list of free intervals for the first that
/// fits, splits it, and puts freed blocks back at the head of the list.
/// Neighbouring free intervals are not joined.
pub struct FreeList<S: MemorySource> {
    source: S,
    nodes: Vec<ListNode>,
    live: Ghost<Set<(usize, Layout)>>,
    owned: Ghost<Set<int>>,
}

impl<S: MemorySource> View for FreeList<S> {
    type V = FreeListView;

    closed spec fn view(&self) -> FreeListView {
        FreeListView { free: self.nodes@, live: self.live@, owned: self.owned@ }
    }
}

impl<S: MemorySource> FreeList<S> {
    /// The source.
    pub closed spec fn spec_source(&self) -> &S {
        &self.source
    }

    /// The source.
    #[verifier::when_used_as_spec(spec_source)]
    pub fn source(&self) -> (s: &S)
        ensures
            s == self.spec_source(),
    {
        &self.source
    }

    /// An allocator over `source` with no free interval. It takes no chunk
    /// before the first allocation that needs one.
    pub fn new(source: S) -> (a: Self)
        ensures
            a.wf(),
            a.source() == source,
            a@ == FreeListView::empty(),
    {
        FreeList { source, nodes: Vec::new(), live: Ghost(Set::empty()), owned: Ghost(Set::empty()) }
    }

    /// The layout of the record that each free interval starts with.
    pub fn node_layout() -> (l: Layout)
        ensures
            l == ListNode::header(),
    {
        ListNode::header_layout()
    }

    /// The layout that is set aside for a request of `layout`.
    pub fn normalized(layout: Layout) -> (r: Option<Layout>)
        ensures
            r == normalized_spec(layout),
    {
        proof {
            broadcast use Layout::lemma_of;

        }
        let node = ListNode::header_layout();
        let wider = if layout.align() >= node.align() {
            layout
        } else {
            node
        };
        let size: usize = if layout.size() >= node.size() {
            layout.size()
        } else {
            node.size()
        };
        wider.with_size(size).pad_to_align()
    }

    /// How `need` is taken out of the free interval `node`, if it can be.
    pub fn try_take_from(node: ListNode, need: Layout) -> (r: Option<Fit>)
        ensures
            r == fit_of(node, need),
    {
        let hole_end: usize = match node.addr.checked_add(node.size) {
            Some(v) => v,
            None => {
                return None;
            },
        };
        let pad: usize = align::align_offset(node.addr, need.align());
        let alloc_start: usize = match node.addr.checked_add(pad) {
            Some(v) => v,
            None => {
                return None;
            },
        };
        let alloc_end: usize = match alloc_start.checked_add(need.size()) {
            Some(v) => v,
            None => {
                return None;
            },
        };
        if alloc_end > hole_end {
            return None;
        }
        let prefix: usize = alloc_start - node.addr;
        let suffix: usize = hole_end - alloc_end;
        let min_free: usize = ListNode::header_layout().size();
        let prefix_ok = prefix == 0 || prefix >= min_free;
        let suffix_ok = suffix == 0 || suffix >= min_free;
        if !prefix_ok || !suffix_ok {
            return None;
        }
        if alloc_start == 0 {
            return None;
        }
        Some(Fit { alloc_addr: alloc_start, alloc_size: need.size(), prefix_size: prefix, suffix_size: suffix })
    }

    /// The free intervals, the head of the list first.
    pub fn free_nodes(&self) -> (r: Vec<ListNode>)
        ensures
            r@ == self@.free,
    {
        self.nodes.clone()
    }

    /// Serves `layout`, for which `need` is set aside, from the first free
    /// interval that fits, if there is one.
    pub fn take_first_fit(&mut self, layout: Layout, need: Layout) -> (r: Option<Block>)
        requires
            old(self).wf(),
            layout.size() > 0,
            normalized_spec(layout) == Some(need),
        ensures
            final(self).wf(),
            final(self).source() == old(self).source(),
            match first_fit(old(self)@.free, need) {
                Some(i) => {
                    let fit = fit_of(old(self)@.free[i], need)->Some_0;
                    &&& r == Some(Block { addr: fit.alloc_addr, len: layout.size() })
                    &&& final(self)@ == old(self)@.taken(i, fit, layout)
                },
                None => r is None && final(self)@ == old(self)@,
            },
    {
        proof {
            use_type_invariant(&layout);
        }
        let mut i: usize = 0;
        while i < self.nodes.len()
            invariant
                self == old(self),
                self.wf(),
                layout.valid(),
                layout.size() > 0,
                normalized_spec(layout) == Some(need),
                0 <= i <= self.nodes@.len(),
                forall|j: int| 0 <= j < i ==> fit_of(#[trigger] self.nodes@[j], need) is None,
            decreases self.nodes@.len() - i,
        {
            let node = self.nodes[i];
            match Self::try_take_from(node, need) {
                Some(fit) => {
                    let ghost pre = self@;
                    proof {
                        lemma_first_fit_is(pre.free, need, i as int);
                        pre.lemma_taken(i as int, fit, layout);
                    }
                    self.nodes.remove(i);
                    if fit.suffix_size != 0 {
                        self.nodes.insert(
                            0,
                            ListNode {
                                addr: fit.alloc_addr + fit.alloc_size,
                                size: fit.suffix_size,
                            },
                        );
                    }
                    if fit.prefix_size != 0 {
                        self.nodes.insert(0, ListNode { addr: node.addr, size: fit.prefix_size });
                    }
                    self.live = Ghost(pre.live.insert((fit.alloc_addr, layout)));
                    proof {
                        assert(self@.free =~= after_take(pre.free, i as int, fit));
                    }
                    return Some(Block { addr: fit.alloc_addr, len: layout.size() });
                },
                None => {},
            }
            i = i + 1;
        }
        proof {
            lemma_first_fit_is(self@.free, need, i as int);
        }
        None
    }

    /// Puts `chunk` at the head of the list as one free interval, without the
    /// bytes at its end that do not make up a multiple of the record's
    /// alignment. A chunk that is too short for a record is left out, and
    /// the result tells so. The chunk is one that the source has given and
    /// that the allocator has not taken yet.
    pub fn adopt_chunk(&mut self, chunk: Block) -> (r: bool)
        requires
            old(self).wf(),
            chunk.addr != 0,
            chunk.end() <= usize::MAX,
            align::is_aligned(chunk.addr as int, ListNode::header().align() as int),
            chunk.bytes().disjoint(old(self)@.owned),
            chunk.bytes().subset_of(old(self).source().lent()),
        ensures
            final(self).wf(),
            final(self).source() == old(self).source(),
            r == (chunk_node(chunk).size >= ListNode::header().size()),
            final(self)@ == if r {
                old(self)@.grown(chunk)
            } else {
                old(self)@
            },
            r ==> final(self)@.owned.len() == old(self)@.owned.len() + chunk.len,
    {
        let node_layout = Self::node_layout();
        proof {
            broadcast use Layout::lemma_of;

            layout::lemma_word_size();
        }
        let usable: usize = align::align_down(chunk.len, node_layout.align());
        if usable < node_layout.size() {
            return false;
        }
        let ghost pre = self@;
        proof {
            pre.lemma_grown(chunk);
        }
        self.nodes.insert(0, ListNode { addr: chunk.addr, size: usable });
        self.owned = Ghost(pre.owned.union(chunk.bytes()));
        proof {
            assert(self@ == pre.grown(chunk));
        }
        true
    }

    /// Asks the source once, for `need` raised to `MIN_CHUNK_SIZE` bytes
    /// where it is smaller, and puts the chunk that comes at the head of the
    /// list. Tells whether the list has grown, which it has where the source
    /// gave a chunk.
    pub fn grow(&mut self, need: Layout) -> (r: bool)
        requires
            old(self).wf(),
            need.align() >= ListNode::header().align(),
        ensures
            final(self).wf(),
            final(self).source().asked() == old(self).source().asked().push(grow_request(need)),
            final(self).source().released() == old(self).source().released(),
            r ==> exists|chunk: Block|
                {
                    &&& source::chunk_meets(chunk, grow_request(need))
                    &&& chunk.bytes().disjoint(old(self).source().lent())
                    &&& #[trigger] old(self)@.grown(chunk) == final(self)@
                    &&& final(self).source().lent() == old(self).source().lent().union(
                        chunk.bytes(),
                    )
                    &&& final(self).source().outstanding() == old(
                        self,
                    ).source().outstanding().insert(source::chunk_key(chunk, need.align()))
                },
            r ==> final(self)@.owned.len() > old(self)@.owned.len(),
            !r ==> final(self)@ == old(self)@,
            !r ==> final(self).source().lent() == old(self).source().lent(),
            !r ==> final(self).source().outstanding() == old(self).source().outstanding(),
    {
        proof {
            broadcast use Layout::lemma_of;

            use_type_invariant(&need);
        }
        let request = need.at_least(MIN_CHUNK_SIZE);
        let chunk = match self.source.request_chunk(request) {
            Some(c) => c,
            None => {
                return false;
            },
        };
        proof {
            let w = ListNode::header().align();
            layout::lemma_word_size();
            align::lemma_round_down(chunk.len as int, w as int);
            align::lemma_aligned_to_smaller(chunk.addr as int, w, need.align());
        }
        self.adopt_chunk(chunk)
    }
}

/// The same request made `count` times.
pub open spec fn requests(count: nat, request: Layout) -> Seq<Layout> {
    Seq::new(count, |i: int| request)
}

/// The addresses of the bytes of `chunks`.
pub open spec fn bytes_of(chunks: Seq<Block>) -> Set<int>
    decreases chunks.len(),
{
    if chunks.len() == 0 {
        Set::empty()
    } else {
        bytes_of(chunks.drop_last()).union(chunks.last().bytes())
    }
}

/// The pairs under which `chunks`, all asked for with the alignment `align`,
/// are given back.
pub open spec fn keys_of(chunks: Seq<Block>, align: usize) -> Multiset<(usize, Layout)>
    decreases chunks.len(),
{
    if chunks.len() == 0 {
        Multiset::empty()
    } else {
        keys_of(chunks.drop_last(), align).insert(source::chunk_key(chunks.last(), align))
    }
}

/// What holds after an allocation of `layout` for which no free interval
/// was fit, of the states before and after, of the chunks that the source
/// gave meanwhile and of the result. The allocator has taken chunks from the
/// source until one was fit or the source refused. Each chunk went to the
/// head of the list. No chunk but the last was fit. Where the last was, the
/// block was taken out of it; where it was not, or the source gave none,
/// there is no block.
pub open spec fn served_by_growth(
    pre: FreeListView,
    layout: Layout,
    chunks: Seq<Block>,
    post: FreeListView,
    r: Option<Block>,
) -> bool {
    let need = normalized_spec(layout)->Some_0;
    let grown = pre.after_chunks(chunks);
    &&& forall|j: int|
        0 <= j < chunks.len() ==> source::chunk_meets(#[trigger] chunks[j], grow_request(need))
    &&& forall|j: int|
        0 <= j < chunks.len() - 1 ==> fit_of(chunk_node(#[trigger] chunks[j]), need) is None
    &&& match r {
        Some(block) => {
            let fit = fit_of(chunk_node(chunks.last()), need)->Some_0;
            &&& chunks.len() > 0
            &&& fit_of(chunk_node(chunks.last()), need) is Some
            &&& post == grown.taken(0, fit, layout)
            &&& block == Block { addr: fit.alloc_addr, len: layout.size() }
        },
        None => {
            &&& post == grown
            &&& chunks.len() > 0 ==> fit_of(chunk_node(chunks.last()), need) is None
        },
    }
}

impl<S: MemorySource> MutAllocator for FreeList<S> {
    open spec fn wf(&self) -> bool {
        &&& self@.inv()
        &&& self@.owned.subset_of(self.source().lent())
    }

    open spec fn allocated(&self) -> Set<(usize, Layout)> {
        self@.live
    }

    /// Serves `layout` from the first free interval that fits what is set
    /// aside for it. Where none fits, takes chunks from the source until one
    /// does or the source refuses. A block of no bytes lies at the address
    /// `layout.align()` and changes nothing.
    fn allocate(&mut self, layout: Layout) -> (r: Option<Block>)
        ensures
            final(self).source().released() == old(self).source().released(),
            old(self).source().outstanding().subset_of(final(self).source().outstanding()),
            layout.size() == 0 ==> {
                &&& r == Some(Block { addr: layout.align(), len: 0 })
                &&& final(self)@ == old(self)@
                &&& final(self).source() == old(self).source()
            },
            layout.size() > 0 && normalized_spec(layout) is None ==> {
                &&& r is None
                &&& final(self)@ == old(self)@
                &&& final(self).source() == old(self).source()
            },
            layout.size() > 0 && normalized_spec(layout) is Some ==> {
                let need = normalized_spec(layout)->Some_0;
                match first_fit(old(self)@.free, need) {
                    Some(i) => {
                        let fit = fit_of(old(self)@.free[i], need)->Some_0;
                        &&& r == Some(Block { addr: fit.alloc_addr, len: layout.size() })
                        &&& final(self)@ == old(self)@.taken(i, fit, layout)
                        &&& final(self).source() == old(self).source()
                    },
                    None => exists|chunks: Seq<Block>|
                        {
                            &&& #[trigger] served_by_growth(
                                old(self)@,
                                layout,
                                chunks,
                                final(self)@,
                                r,
                            )
                            &&& final(self).source().lent() == old(self).source().lent().union(
                                bytes_of(chunks),
                            )
                            &&& final(self).source().outstanding() == old(
                                self,
                            ).source().outstanding().add(keys_of(chunks, need.align()))
                            &&& final(self).source().asked() == old(self).source().asked()
                                + requests(
                                if r is Some {
                                    chunks.len()
                                } else {
                                    chunks.len() + 1
                                },
                                grow_request(need),
                            )
                        },
                }
            },
    {
        let size: usize = layout.size();
        let align: usize = layout.align();
        if size == 0 {
            proof {
                vstd::arithmetic::div_mod::lemma_mod_self_0(align as int);
            }
            return Some(Block { addr: align, len: 0 });
        }
        let need = match Self::normalized(layout) {
            Some(need) => need,
            None => {
                return None;
            },
        };
        let ghost pre = self@;
        let ghost pre_lent = self.source.lent();
        let ghost pre_out = self.source.outstanding();
        let ghost pre_asked = self.source.asked();
        proof {
            lemma_normalized(layout);
            lemma_first_fit(pre.free, need);
            lemma_int_range(0, usize::MAX as int);
            lemma_len_subset(pre.owned, set_int_range(0, usize::MAX as int));
        }
        let first = self.take_first_fit(layout, need);
        if let Some(block) = first {
            proof {
                let i = first_fit(pre.free, need)->Some_0;
                let fit = fit_of(pre.free[i], need)->Some_0;
                pre.lemma_taken(i, fit, layout);
                assert forall|e: (usize, Layout)| #[trigger] pre.live.contains(e) implies crate::allocator::live_block(
                    e,
                ).disjoint(block) by {
                    lemma_normalized(e.1);
                    assert(reserved(e).disjoint(reserved((fit.alloc_addr, layout))));
                }
            }
            return Some(block);
        }
        let ghost mut chunks: Seq<Block> = Seq::empty();
        proof {
            assert(pre_lent.union(bytes_of(chunks)) =~= pre_lent);
            assert(pre_out.add(keys_of(chunks, need.align())) =~= pre_out);
            assert(pre_asked + requests(0, grow_request(need)) =~= pre_asked);
        }
        loop
            invariant
                self.wf(),
                pre == old(self)@,
                pre_lent == old(self).source().lent(),
                pre_out == old(self).source().outstanding(),
                pre_asked == old(self).source().asked(),
                self.source.asked() == pre_asked + requests(chunks.len(), grow_request(need)),
                layout.valid(),
                layout.size() > 0,
                normalized_spec(layout) == Some(need),
                need.align() >= ListNode::header().align(),
                first_fit(pre.free, need) is None,
                first_fit(self@.free, need) is None,
                self@ == pre.after_chunks(chunks),
                served_by_growth(pre, layout, chunks, self@, None),
                self.source.lent() == pre_lent.union(bytes_of(chunks)),
                self.source.outstanding() == pre_out.add(keys_of(chunks, need.align())),
                self@.owned.len() <= usize::MAX,
                self.source.released() == old(self).source().released(),
            decreases usize::MAX - self@.owned.len(),
        {
            let ghost before = self@;
            let ghost before_lent = self.source.lent();
            let ghost before_out = self.source.outstanding();
            let ghost before_asked = self.source.asked();
            if !self.grow(need) {
                proof {
                    state::lemma_after_chunks_live(pre, chunks);
                    assert(self.source.asked() =~= pre_asked + requests(
                        chunks.len() + 1,
                        grow_request(need),
                    ));
                }
                return None;
            }
            let ghost chunk = choose|chunk: Block|
                {
                    &&& source::chunk_meets(chunk, grow_request(need))
                    &&& chunk.bytes().disjoint(before_lent)
                    &&& #[trigger] before.grown(chunk) == self@
                    &&& self.source.lent() == before_lent.union(chunk.bytes())
                    &&& self.source.outstanding() == before_out.insert(
                        source::chunk_key(chunk, need.align()),
                    )
                };
            let ghost earlier = chunks;
            proof {
                chunks = earlier.push(chunk);
                assert(chunks.drop_last() =~= earlier);
                assert(self.source.asked() =~= pre_asked + requests(
                    chunks.len(),
                    grow_request(need),
                ));
                assert(self@ == pre.after_chunks(chunks));
                state::lemma_after_chunks_live(pre, chunks);
                assert(self.source.lent() =~= pre_lent.union(bytes_of(chunks)));
                assert(self.source.outstanding() =~= pre_out.add(keys_of(chunks, need.align())));
                // the chunk at the head is the only interval that may fit
                lemma_first_fit(before.free, need);
                assert forall|j: int| 1 <= j < self@.free.len() implies fit_of(
                    #[trigger] self@.free[j],
                    need,
                ) is None by {
                    assert(self@.free[j] == before.free[j - 1]);
                }
                if fit_of(self@.free[0], need) is Some {
                    lemma_first_fit_is(self@.free, need, 0);
                } else {
                    lemma_first_fit_is(self@.free, need, self@.free.len() as int);
                }
                lemma_int_range(0, usize::MAX as int);
                lemma_len_subset(self@.owned, set_int_range(0, usize::MAX as int));
            }
            let ghost cur = self@;
            let served = self.take_first_fit(layout, need);
            if let Some(block) = served {
                proof {
                    let fit = fit_of(cur.free[0], need)->Some_0;
                    cur.lemma_taken(0, fit, layout);
                    lemma_normalized(layout);
                    assert forall|e: (usize, Layout)| #[trigger] pre.live.contains(e) implies crate::allocator::live_block(
                        e,
                    ).disjoint(block) by {
                        assert(cur.live.contains(e));
                        lemma_normalized(e.1);
                        assert(reserved(e).disjoint(reserved((fit.alloc_addr, layout))));
                    }
                    assert(served_by_growth(pre, layout, chunks, self@, Some(block)));
                }
                return Some(block);
            }
        }
    }

    /// Puts the block at `addr` back at the head of the list of free
    /// intervals, with all the bytes that were set aside for it.
    fn dealloc(&mut self, addr: usize, layout: Layout)
        ensures
            final(self)@ == if layout.size() > 0 {
                old(self)@.freed((addr, layout))
            } else {
                old(self)@
            },
            final(self).source() == old(self).source(),
    {
        if layout.size() == 0 {
            return ;
        }
        let need = match Self::normalized(layout) {
            Some(need) => need,
            None => {
                return ;
            },
        };
        let ghost pre = self@;
        proof {
            pre.lemma_freed((addr, layout));
        }
        self.nodes.insert(0, ListNode { addr, size: need.size() });
        self.live = Ghost(pre.live.remove((addr, layout)));
        proof {
            assert(self@ == pre.freed((addr, layout)));
        }
    }
}

} // verus!
