//! The state of a free-list allocator, what makes it consistent and why the
//! allocator's steps keep it so.

use crate::align;
use crate::allocator::free_list::{self, Fit, ListNode};
use crate::layout::{self, Block, Layout};
use vstd::prelude::*;
use vstd::set_lib::*;

verus! {

/// The state of a free-list allocator apart from its source, which
/// `source()` gives and which keeps its own accounts.
pub struct FreeListView {
    /// The free intervals, the head of the list first.
    pub free: Seq<ListNode>,
    /// The live allocations.
    pub live: Set<(usize, Layout)>,
    /// The addresses of the bytes of all chunks taken from the source.
    pub owned: Set<int>,
}

impl FreeListView {
    /// The state of an allocator that has taken no chunk yet.
    pub open spec fn empty() -> FreeListView {
        FreeListView { free: Seq::empty(), live: Set::empty(), owned: Set::empty() }
    }

    /// Every free interval can hold its record and lies in a chunk.
    pub open spec fn nodes_ok(self) -> bool {
        forall|i: int|
            0 <= i < self.free.len() ==> {
                &&& (#[trigger] self.free[i]).ok()
                &&& self.free[i].block().bytes().subset_of(self.owned)
            }
    }

    /// No two free intervals share a byte.
    pub open spec fn nodes_disjoint(self) -> bool {
        forall|i: int, j: int|
            0 <= i < j < self.free.len() ==> (#[trigger] self.free[i]).block().disjoint(
                (#[trigger] self.free[j]).block(),
            )
    }

    /// Every live allocation has its bytes set aside in a chunk, aligned as
    /// asked for, and shares none with a free interval.
    pub open spec fn live_ok(self) -> bool {
        forall|e: (usize, Layout)| #[trigger]
            self.live.contains(e) ==> {
                &&& e.1.size() > 0
                &&& e.1.valid()
                &&& free_list::normalized_spec(e.1) is Some
                &&& e.0 != 0
                &&& align::is_aligned(e.0 as int, free_list::normalized_spec(e.1)->Some_0.align() as int)
                &&& free_list::reserved(e).end() <= usize::MAX
                &&& free_list::reserved(e).bytes().subset_of(self.owned)
                &&& forall|i: int|
                    0 <= i < self.free.len() ==> free_list::reserved(e).disjoint(
                        (#[trigger] self.free[i]).block(),
                    )
            }
    }

    /// No two live allocations share a byte of what is set aside for them.
    pub open spec fn live_disjoint(self) -> bool {
        forall|e1: (usize, Layout), e2: (usize, Layout)|
            #![trigger self.live.contains(e1), self.live.contains(e2)]
            self.live.contains(e1) && self.live.contains(e2) && e1 != e2 ==> free_list::reserved(
                e1,
            ).disjoint(free_list::reserved(e2))
    }

    /// The bytes taken are finitely many addresses.
    pub open spec fn owned_ok(self) -> bool {
        &&& self.owned.finite()
        &&& self.owned.subset_of(set_int_range(0, usize::MAX as int))
    }

    /// The state agrees with itself: free intervals and live allocations lie
    /// in the chunks taken, and no byte belongs to two of them.
    pub open spec fn inv(self) -> bool {
        &&& self.nodes_ok()
        &&& self.nodes_disjoint()
        &&& self.live_ok()
        &&& self.live_disjoint()
        &&& self.owned_ok()
    }

    /// The state after `layout` was served by `fit` out of the interval at
    /// `i`.
    pub open spec fn taken(self, i: int, fit: Fit, layout: Layout) -> FreeListView {
        FreeListView {
            free: free_list::after_take(self.free, i, fit),
            live: self.live.insert((fit.alloc_addr, layout)),
            owned: self.owned,
        }
    }

    /// The state after the block of a live allocation went back to the head
    /// of the list.
    pub open spec fn freed(self, e: (usize, Layout)) -> FreeListView {
        FreeListView {
            free: self.free.insert(0, ListNode { addr: e.0, size: free_list::reserved(e).len }),
            live: self.live.remove(e),
            owned: self.owned,
        }
    }

    /// The state after `chunk` was taken from the source and went to the
    /// head of the list, cut down to whole records' alignment.
    pub open spec fn grown(self, chunk: Block) -> FreeListView {
        FreeListView {
            free: self.free.insert(0, free_list::chunk_node(chunk)),
            live: self.live,
            owned: self.owned.union(chunk.bytes()),
        }
    }
}

impl FreeListView {
    /// `block` shares no byte with a free interval or with what is set aside
    /// for a live allocation.
    pub open spec fn unused(self, block: Block) -> bool {
        &&& forall|i: int|
            0 <= i < self.free.len() ==> block.disjoint((#[trigger] self.free[i]).block())
        &&& forall|e: (usize, Layout)| #[trigger]
            self.live.contains(e) ==> block.disjoint(free_list::reserved(e))
    }

    /// Taking an interval out of the list keeps the state consistent, and
    /// leaves the interval's bytes unused.
    pub proof fn lemma_remove_node(self, i: int)
        requires
            self.inv(),
            0 <= i < self.free.len(),
        ensures
            (FreeListView { free: self.free.remove(i), ..self }).inv(),
            (FreeListView { free: self.free.remove(i), ..self }).unused(self.free[i].block()),
    {
        let rest = self.free.remove(i);
        let v = FreeListView { free: rest, ..self };
        assert forall|k: int| 0 <= k < rest.len() implies {
            &&& (#[trigger] rest[k]).ok()
            &&& rest[k].block().bytes().subset_of(self.owned)
            &&& self.free[i].block().disjoint(rest[k].block())
        } by {
            if k < i {
                assert(rest[k] == self.free[k]);
            } else {
                assert(rest[k] == self.free[k + 1]);
            }
        }
        assert forall|j: int, k: int| 0 <= j < k < rest.len() implies (#[trigger] rest[j]).block().disjoint(
            (#[trigger] rest[k]).block(),
        ) by {
            let jj = if j < i {
                j
            } else {
                j + 1
            };
            let kk = if k < i {
                k
            } else {
                k + 1
            };
            assert(rest[j] == self.free[jj] && rest[k] == self.free[kk]);
        }
        assert forall|e: (usize, Layout)| #[trigger] self.live.contains(e) implies forall|k: int|
            0 <= k < rest.len() ==> free_list::reserved(e).disjoint((#[trigger] rest[k]).block()) by {
            assert forall|k: int| 0 <= k < rest.len() implies free_list::reserved(e).disjoint(
                (#[trigger] rest[k]).block(),
            ) by {
                if k < i {
                    assert(rest[k] == self.free[k]);
                } else {
                    assert(rest[k] == self.free[k + 1]);
                }
            }
        }
        assert forall|e: (usize, Layout)| #[trigger] self.live.contains(e) implies self.free[i].block().disjoint(
            free_list::reserved(e),
        ) by {
            assert(free_list::reserved(e).disjoint(self.free[i].block()));
        }
    }

    /// Putting an interval of unused bytes at the head of the list keeps the
    /// state consistent.
    pub proof fn lemma_insert_node(self, node: ListNode)
        requires
            self.inv(),
            node.ok(),
            node.block().bytes().subset_of(self.owned),
            self.unused(node.block()),
        ensures
            (FreeListView { free: self.free.insert(0, node), ..self }).inv(),
    {
        let list = self.free.insert(0, node);
        assert forall|k: int| 0 <= k < list.len() implies {
            &&& (#[trigger] list[k]).ok()
            &&& list[k].block().bytes().subset_of(self.owned)
        } by {
            if k > 0 {
                assert(list[k] == self.free[k - 1]);
            }
        }
        assert forall|j: int, k: int| 0 <= j < k < list.len() implies (#[trigger] list[j]).block().disjoint(
            (#[trigger] list[k]).block(),
        ) by {
            assert(list[k] == self.free[k - 1]);
            if j > 0 {
                assert(list[j] == self.free[j - 1]);
            }
        }
        assert forall|e: (usize, Layout)| #[trigger] self.live.contains(e) implies forall|k: int|
            0 <= k < list.len() ==> free_list::reserved(e).disjoint((#[trigger] list[k]).block()) by {
            assert forall|k: int| 0 <= k < list.len() implies free_list::reserved(e).disjoint(
                (#[trigger] list[k]).block(),
            ) by {
                if k > 0 {
                    assert(list[k] == self.free[k - 1]);
                } else {
                    assert(node.block().disjoint(free_list::reserved(e)));
                }
            }
        }
    }

    /// Entering an allocation whose bytes were unused keeps the state
    /// consistent.
    pub proof fn lemma_insert_live(self, e: (usize, Layout))
        requires
            self.inv(),
            e.1.size() > 0,
            e.1.valid(),
            free_list::normalized_spec(e.1) is Some,
            e.0 != 0,
            align::is_aligned(e.0 as int, free_list::normalized_spec(e.1)->Some_0.align() as int),
            free_list::reserved(e).end() <= usize::MAX,
            free_list::reserved(e).bytes().subset_of(self.owned),
            self.unused(free_list::reserved(e)),
        ensures
            (FreeListView { live: self.live.insert(e), ..self }).inv(),
    {
        let v = FreeListView { live: self.live.insert(e), ..self };
        assert forall|x: (usize, Layout)| #[trigger] v.live.contains(x) implies forall|k: int|
            0 <= k < self.free.len() ==> free_list::reserved(x).disjoint((#[trigger] self.free[k]).block()) by {
            if x != e {
                assert(self.live.contains(x));
            }
        }
        assert forall|e1: (usize, Layout), e2: (usize, Layout)|
            #![trigger v.live.contains(e1), v.live.contains(e2)]
            v.live.contains(e1) && v.live.contains(e2) && e1 != e2 implies free_list::reserved(e1).disjoint(
            free_list::reserved(e2),
        ) by {
            if e1 == e {
                assert(self.live.contains(e2));
            } else if e2 == e {
                assert(self.live.contains(e1));
            } else {
                assert(self.live.contains(e1) && self.live.contains(e2));
            }
        }
    }

    /// Striking a live allocation out leaves its bytes unused and keeps the
    /// state consistent.
    pub proof fn lemma_remove_live(self, e: (usize, Layout))
        requires
            self.inv(),
            self.live.contains(e),
        ensures
            (FreeListView { live: self.live.remove(e), ..self }).inv(),
            (FreeListView { live: self.live.remove(e), ..self }).unused(free_list::reserved(e)),
    {
        let v = FreeListView { live: self.live.remove(e), ..self };
        assert forall|x: (usize, Layout)| #[trigger] v.live.contains(x) implies free_list::reserved(e).disjoint(
            free_list::reserved(x),
        ) by {
            assert(self.live.contains(x) && self.live.contains(e) && x != e);
        }
        assert forall|e1: (usize, Layout), e2: (usize, Layout)|
            #![trigger v.live.contains(e1), v.live.contains(e2)]
            v.live.contains(e1) && v.live.contains(e2) && e1 != e2 implies free_list::reserved(e1).disjoint(
            free_list::reserved(e2),
        ) by {
            assert(self.live.contains(e1) && self.live.contains(e2));
        }
    }

    /// A block inside an unused block is unused.
    pub proof fn lemma_unused_within(self, inner: Block, outer: Block)
        requires
            self.unused(outer),
            inner.within(outer),
        ensures
            self.unused(inner),
    {
        assert forall|i: int| 0 <= i < self.free.len() implies inner.disjoint(
            (#[trigger] self.free[i]).block(),
        ) by {
            assert(outer.disjoint(self.free[i].block()));
        }
        assert forall|e: (usize, Layout)| #[trigger] self.live.contains(e) implies inner.disjoint(
            free_list::reserved(e),
        ) by {
            assert(outer.disjoint(free_list::reserved(e)));
        }
    }
}

impl FreeListView {
    /// Serving a request out of a free interval keeps the state consistent,
    /// and what is set aside for it lies in the interval and shares no byte
    /// with a live allocation.
    pub proof fn lemma_taken(self, i: int, fit: Fit, layout: Layout)
        requires
            self.inv(),
            0 <= i < self.free.len(),
            layout.valid(),
            layout.size() > 0,
            free_list::normalized_spec(layout) is Some,
            free_list::fit_of(self.free[i], free_list::normalized_spec(layout)->Some_0) == Some(fit),
        ensures
            self.taken(i, fit, layout).inv(),
            free_list::reserved((fit.alloc_addr, layout)).within(self.free[i].block()),
            forall|x: (usize, Layout)| #[trigger]
                self.live.contains(x) ==> free_list::reserved(x).disjoint(free_list::reserved((fit.alloc_addr, layout))),
            (Block { addr: fit.alloc_addr, len: layout.size() }).serves(layout),
    {
        let node = self.free[i];
        let need = free_list::normalized_spec(layout)->Some_0;
        let e = (fit.alloc_addr, layout);
        let w = ListNode::header().align();
        free_list::lemma_normalized(layout);
        align::lemma_power_of_two_bits(need.align());
        align::lemma_round_up(node.addr as int, need.align() as int);
        align::lemma_aligned_to_smaller(fit.alloc_addr as int, layout.align(), need.align());
        align::lemma_aligned_to_smaller(fit.alloc_addr as int, w, need.align());
        align::lemma_aligned_sum(fit.alloc_addr as int, need.size() as int, w as int);

        // the interval leaves the list
        self.lemma_remove_node(i);
        let v1 = FreeListView { free: self.free.remove(i), ..self };
        // the block is set aside in it
        free_list::reserved(e).lemma_within_bytes(node.block());
        v1.lemma_unused_within(free_list::reserved(e), node.block());
        v1.lemma_insert_live(e);
        let v2 = FreeListView { live: self.live.insert(e), ..v1 };
        // what stays free behind the block
        let suffix = ListNode {
            addr: (fit.alloc_addr + fit.alloc_size) as usize,
            size: fit.suffix_size,
        };
        let v3 = if fit.suffix_size != 0 {
            FreeListView { free: v2.free.insert(0, suffix), ..v2 }
        } else {
            v2
        };
        if fit.suffix_size != 0 {
            suffix.block().lemma_within_bytes(node.block());
            v1.lemma_unused_within(suffix.block(), node.block());
            assert forall|x: (usize, Layout)| #[trigger] v2.live.contains(x) implies suffix.block().disjoint(
                free_list::reserved(x),
            ) by {
                if x != e {
                    assert(v1.live.contains(x));
                }
            }
            v2.lemma_insert_node(suffix);
        }
        // what stays free in front of the block
        let prefix = ListNode { addr: node.addr, size: fit.prefix_size };
        if fit.prefix_size != 0 {
            prefix.block().lemma_within_bytes(node.block());
            v1.lemma_unused_within(prefix.block(), node.block());
            assert forall|x: (usize, Layout)| #[trigger] v3.live.contains(x) implies prefix.block().disjoint(
                free_list::reserved(x),
            ) by {
                if x != e {
                    assert(v1.live.contains(x));
                }
            }
            assert forall|k: int| 0 <= k < v3.free.len() implies prefix.block().disjoint(
                (#[trigger] v3.free[k]).block(),
            ) by {
                if fit.suffix_size != 0 && k > 0 {
                    assert(v3.free[k] == v1.free[k - 1]);
                }
            }
            v3.lemma_insert_node(prefix);
        }
        assert(self.taken(i, fit, layout).free =~= free_list::after_take(self.free, i, fit));
    }

    /// Putting the block of a live allocation back at the head of the list
    /// keeps the state consistent.
    pub proof fn lemma_freed(self, e: (usize, Layout))
        requires
            self.inv(),
            self.live.contains(e),
        ensures
            self.freed(e).inv(),
    {
        let need = free_list::normalized_spec(e.1)->Some_0;
        let w = ListNode::header().align();
        free_list::lemma_normalized(e.1);
        align::lemma_aligned_to_smaller(e.0 as int, w, need.align());
        self.lemma_remove_live(e);
        let v1 = FreeListView { live: self.live.remove(e), ..self };
        v1.lemma_insert_node(ListNode { addr: e.0, size: free_list::reserved(e).len });
    }

    /// Putting a chunk that shares no byte with the chunks taken before at
    /// the head of the list keeps the state consistent, and there are more
    /// bytes taken than before.
    pub proof fn lemma_grown(self, chunk: Block)
        requires
            self.inv(),
            chunk.addr != 0,
            chunk.end() <= usize::MAX,
            align::is_aligned(chunk.addr as int, ListNode::header().align() as int),
            free_list::chunk_node(chunk).size >= ListNode::header().size(),
            chunk.bytes().disjoint(self.owned),
        ensures
            self.grown(chunk).inv(),
            self.grown(chunk).owned.len() == self.owned.len() + chunk.len,
            self.grown(chunk).owned.len() <= usize::MAX,
    {
        let node = free_list::chunk_node(chunk);
        let w = ListNode::header().align();
        let v1 = FreeListView { owned: self.owned.union(chunk.bytes()), ..self };
        layout::lemma_word_size();
        broadcast use Layout::lemma_of;

        align::lemma_round_down(chunk.len as int, w as int);
        chunk.lemma_bytes_len();
        lemma_set_disjoint_lens(self.owned, chunk.bytes());
        lemma_int_range(0, usize::MAX as int);
        lemma_len_subset(v1.owned, set_int_range(0, usize::MAX as int));
        assert(v1.inv()) by {
            assert forall|e: (usize, Layout)| #[trigger] v1.live.contains(e) implies free_list::reserved(
                e,
            ).bytes().subset_of(v1.owned) by {
                assert(self.live.contains(e));
            }
        }
        node.block().lemma_within_bytes(chunk);
        assert(v1.unused(node.block())) by {
            assert forall|i: int| 0 <= i < v1.free.len() implies node.block().disjoint(
                (#[trigger] v1.free[i]).block(),
            ) by {
                v1.free[i].block().lemma_disjoint_from_fresh(chunk, self.owned);
            }
            assert forall|e: (usize, Layout)| #[trigger] v1.live.contains(e) implies node.block().disjoint(
                free_list::reserved(e),
            ) by {
                free_list::reserved(e).lemma_disjoint_from_fresh(chunk, self.owned);
            }
        }
        v1.lemma_insert_node(node);
    }
}

impl FreeListView {
    /// The state after `chunks` were taken from the source one after the
    /// other and each went to the head of the list.
    pub open spec fn after_chunks(self, chunks: Seq<Block>) -> FreeListView
        decreases chunks.len(),
    {
        if chunks.len() == 0 {
            self
        } else {
            self.after_chunks(chunks.drop_last()).grown(chunks.last())
        }
    }
}

/// Taking chunks leaves the live allocations as they are.
pub proof fn lemma_after_chunks_live(pre: FreeListView, chunks: Seq<Block>)
    ensures
        pre.after_chunks(chunks).live == pre.live,
    decreases chunks.len(),
{
    if chunks.len() > 0 {
        lemma_after_chunks_live(pre, chunks.drop_last());
    }
}

/// In every consistent state no two free intervals share a byte, whatever
/// their places in the list.
pub proof fn lemma_free_intervals_disjoint(state: FreeListView, i: int, j: int)
    requires
        state.inv(),
        0 <= i < state.free.len(),
        0 <= j < state.free.len(),
        i != j,
    ensures
        state.free[i].block().disjoint(state.free[j].block()),
        state.free[i].block().bytes().disjoint(state.free[j].block().bytes()),
{
    if i < j {
        assert(state.free[i].block().disjoint(state.free[j].block()));
    } else {
        assert(state.free[j].block().disjoint(state.free[i].block()));
    }
    state.free[i].block().lemma_disjoint_bytes(state.free[j].block());
}

} // verus!
