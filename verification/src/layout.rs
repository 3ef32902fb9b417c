//! Layout descriptors and the blocks of memory they describe.

use crate::align;
use vstd::prelude::*;
use vstd::set_lib::*;

verus! {

/// A request for memory: a byte count and the alignment of its first byte.
///
/// The alignment of every `Layout` is a positive power of two.
#[derive(Clone, Copy, Debug, PartialEq, Eq, Structural)]
pub struct Layout {
    size: usize,
    align: usize,
}

/// The error of [`Layout::from_size_align`]: the alignment is not a power of
/// two.
#[derive(Clone, Copy, Debug, PartialEq, Eq, Structural)]
pub struct LayoutError;

/// A run of bytes: the address of the first and their number.
#[derive(Clone, Copy, Debug, PartialEq, Eq, Structural)]
pub struct Block {
    pub addr: usize,
    pub len: usize,
}

impl Block {
    /// The address one past the last byte.
    pub open spec fn end(self) -> int {
        self.addr + self.len
    }

    /// The block holds the byte at `a`.
    pub open spec fn contains(self, a: int) -> bool {
        self.addr <= a < self.end()
    }

    /// Every byte of `self` is a byte of `outer`.
    pub open spec fn within(self, outer: Block) -> bool {
        outer.addr <= self.addr && self.end() <= outer.end()
    }

    /// The two blocks share no byte.
    pub open spec fn disjoint(self, other: Block) -> bool {
        self.len == 0 || other.len == 0 || self.end() <= other.addr || other.end() <= self.addr
    }

    /// The addresses of the block's bytes.
    pub open spec fn bytes(self) -> Set<int> {
        set_int_range(self.addr as int, self.end())
    }

    /// The block starts at a multiple of `align`, which the layout asks for,
    /// is not at address zero and has the layout's size.
    pub open spec fn serves(self, layout: Layout) -> bool {
        &&& self.addr != 0
        &&& align::is_aligned(self.addr as int, layout.align() as int)
        &&& self.len == layout.size()
        &&& self.end() <= usize::MAX
    }

    /// Blocks that share no byte have disjoint sets of addresses, and the
    /// other way round.
    pub proof fn lemma_disjoint_bytes(self, other: Block)
        ensures
            self.disjoint(other) <==> self.bytes().disjoint(other.bytes()),
    {
        if !self.disjoint(other) {
            let a: int = if self.addr >= other.addr {
                self.addr as int
            } else {
                other.addr as int
            };
            assert(self.bytes().contains(a) && other.bytes().contains(a));
        }
    }

    /// A block inside another has its addresses among the other's.
    pub proof fn lemma_within_bytes(self, outer: Block)
        requires
            self.within(outer),
        ensures
            self.bytes().subset_of(outer.bytes()),
    {
    }

    /// A block whose addresses all lie in `held` shares no byte with a block
    /// none of whose addresses does.
    pub proof fn lemma_disjoint_from_fresh(self, fresh: Block, held: Set<int>)
        requires
            self.bytes().subset_of(held),
            fresh.bytes().disjoint(held),
        ensures
            self.disjoint(fresh),
    {
        if !self.disjoint(fresh) {
            let a: int = if self.addr >= fresh.addr {
                self.addr as int
            } else {
                fresh.addr as int
            };
            assert(self.bytes().contains(a) && fresh.bytes().contains(a));
            assert(held.contains(a));
        }
    }

    /// The addresses of a block are as many as its length.
    pub proof fn lemma_bytes_len(self)
        ensures
            self.bytes().finite(),
            self.bytes().len() == self.len,
    {
        lemma_int_range(self.addr as int, self.end());
    }

    /// The address of the first byte.
    pub fn addr(&self) -> (a: usize)
        ensures
            a == self.addr,
    {
        self.addr
    }

    /// The number of bytes.
    pub fn len(&self) -> (n: usize)
        ensures
            n == self.len,
    {
        self.len
    }
}

impl Layout {
    /// The layout of `size` bytes aligned to `align`, whether or not `align`
    /// is a power of two.
    pub closed spec fn of(size: usize, align: usize) -> Layout {
        Layout { size, align }
    }

    /// The byte count.
    pub closed spec fn spec_size(&self) -> usize {
        self.size
    }

    /// The alignment.
    pub closed spec fn spec_align(&self) -> usize {
        self.align
    }

    /// The alignment is a power of two. It holds of every `Layout` that a
    /// program can hold.
    #[verifier::type_invariant]
    pub open spec fn valid(self) -> bool {
        align::is_power_of_two(self.spec_align())
    }

    /// A layout is its size and its alignment, nothing more.
    pub broadcast proof fn lemma_of(size: usize, align: usize)
        ensures
            (#[trigger] Layout::of(size, align)).spec_size() == size,
            Layout::of(size, align).spec_align() == align,
    {
    }

    /// The layout of `size` bytes aligned to `align`, which must be a power of
    /// two.
    pub fn from_size_align(size: usize, align: usize) -> (r: Result<Layout, LayoutError>)
        ensures
            align::is_power_of_two(align) <==> r is Ok,
            r is Ok ==> r->Ok_0 == Layout::of(size, align),
    {
        if align::power_of_two(align) {
            Ok(Layout { size, align })
        } else {
            Err(LayoutError)
        }
    }

    /// The layout of a record of `self` followed by a record of `next`, and
    /// the offset of `next` in it: `self`'s size rounded up to `next`'s
    /// alignment. There is none where the size does not fit in a machine word.
    pub open spec fn extend_spec(self, next: Layout) -> Option<(Layout, usize)> {
        let offset = align::round_up(self.size() as int, next.align() as int);
        let align = if self.align() >= next.align() {
            self.align()
        } else {
            next.align()
        };
        if offset + next.size() <= usize::MAX {
            Some((Layout::of((offset + next.size()) as usize, align), offset as usize))
        } else {
            None
        }
    }

    /// The layout with the size rounded up to a multiple of the alignment.
    /// There is none where that size does not fit in a machine word.
    pub open spec fn pad_to_align_spec(self) -> Option<Layout> {
        let size = align::round_up(self.size() as int, self.align() as int);
        if size <= usize::MAX {
            Some(Layout::of(size as usize, self.align()))
        } else {
            None
        }
    }

    /// The layout with the size raised to `floor` where it is smaller.
    pub open spec fn at_least_spec(self, floor: usize) -> Layout {
        if self.size() >= floor {
            self
        } else {
            Layout::of(floor, self.align())
        }
    }

    /// The layout of a record of `self` followed by a record of `next`, and
    /// the offset of `next` in it.
    pub fn extend(&self, next: Layout) -> (r: Result<(Layout, usize), LayoutError>)
        ensures
            match r {
                Ok(p) => self.extend_spec(next) == Some(p),
                Err(_) => self.extend_spec(next) is None,
            },
    {
        proof {
            use_type_invariant(self);
            use_type_invariant(&next);
        }
        let align: usize = if self.align >= next.align {
            self.align
        } else {
            next.align
        };
        let offset: usize = match align::checked_align_up(self.size, next.align) {
            Some(o) => o,
            None => {
                return Err(LayoutError);
            },
        };
        match offset.checked_add(next.size) {
            Some(size) => Ok((Layout { size, align }, offset)),
            None => Err(LayoutError),
        }
    }

    /// The layout with the size rounded up to a multiple of the alignment.
    pub fn pad_to_align(&self) -> (r: Option<Layout>)
        ensures
            r == self.pad_to_align_spec(),
    {
        proof {
            use_type_invariant(self);
        }
        match align::checked_align_up(self.size, self.align) {
            Some(size) => Some(Layout { size, align: self.align }),
            None => None,
        }
    }

    /// The layout with the size raised to `floor` where it is smaller.
    pub fn at_least(&self, floor: usize) -> (r: Layout)
        ensures
            r == self.at_least_spec(floor),
    {
        proof {
            use_type_invariant(self);
        }
        if self.size >= floor {
            *self
        } else {
            Layout { size: floor, align: self.align }
        }
    }

    /// The layout of `size` bytes with the alignment of `self`.
    pub fn with_size(&self, size: usize) -> (r: Layout)
        ensures
            r == Layout::of(size, self.align()),
    {
        proof {
            use_type_invariant(self);
        }
        Layout { size, align: self.align }
    }

    /// The byte count.
    #[verifier::when_used_as_spec(spec_size)]
    pub fn size(&self) -> (n: usize)
        ensures
            n == self.spec_size(),
    {
        self.size
    }

    /// The alignment.
    #[verifier::when_used_as_spec(spec_align)]
    pub fn align(&self) -> (a: usize)
        ensures
            a == self.spec_align(),
            align::is_power_of_two(a),
            a > 0,
    {
        proof {
            use_type_invariant(self);
            align::lemma_power_of_two_bits(self.align);
        }
        self.align
    }
}

/// The number of bytes in a machine word.
pub open spec fn word_size() -> usize {
    (usize::BITS / 8) as usize
}

/// A machine word has four or eight bytes, a power of two.
pub proof fn lemma_word_size()
    ensures
        word_size() == 4 || word_size() == 8,
        align::is_power_of_two(word_size()),
{
    align::lemma_power_of_two_bits(word_size());
    assert(4usize & 3usize == 0 && 8usize & 7usize == 0) by (bit_vector);
}

/// The number of bytes in a machine word.
#[verifier::when_used_as_spec(word_size)]
pub fn word() -> (w: usize)
    ensures
        w == word_size(),
        w == 4 || w == 8,
        align::is_power_of_two(w),
{
    proof {
        lemma_word_size();
    }
    (usize::BITS / 8) as usize
}

/// The layout of a record of `words` machine words, aligned as a word is.
pub open spec fn words_layout(words: usize) -> Layout {
    Layout::of((words * word_size()) as usize, word_size())
}

/// The layout of a record of `words` machine words, whose size must fit in
/// a machine word.
pub fn layout_of_words(words: usize) -> (l: Layout)
    requires
        words * word_size() <= usize::MAX,
    ensures
        l == words_layout(words),
        l.valid(),
{
    let w: usize = word();
    Layout { size: words * w, align: w }
}

} // verus!
