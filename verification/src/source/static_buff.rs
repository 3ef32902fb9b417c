//! A fixed buffer that gives itself away once.

use crate::align;
use crate::layout::{Block, Layout};
use crate::source::MemorySource;
use vstd::multiset::*;
use vstd::prelude::*;

verus! {

/// A buffer of `N` bytes that yields one chunk in its lifetime.
///
/// The bytes lie on the heap, so that they stay where they are when the
/// buffer itself is moved.
pub struct StaticBuffer<const N: usize> {
    buffer: Vec<u8>,
    taken: bool,
    chunk: Ghost<Option<(Block, usize)>>,
    log: Ghost<Seq<(usize, Layout)>>,
    asks: Ghost<Seq<Layout>>,
}

/// The chunk that a buffer of `capacity` bytes at `base` yields for `layout`:
/// everything from the first aligned byte on, if that is at least the size
/// asked for. A buffer at address zero, or one that runs past the end of the
/// address space, yields none.
pub open spec fn carve_spec(base: usize, capacity: usize, layout: Layout) -> Option<Block> {
    let pad = align::padding_for(base as int, layout.align() as int);
    if base != 0 && base + capacity <= usize::MAX && pad <= capacity && capacity - pad
        >= layout.size() {
        Some(Block { addr: (base + pad) as usize, len: (capacity - pad) as usize })
    } else {
        None
    }
}

/// A buffer of `capacity` bytes can serve `layout` wherever it lies: the
/// size fits even behind the longest padding that the alignment can ask for.
pub open spec fn fits_anywhere(capacity: usize, layout: Layout) -> bool {
    layout.size() + layout.align() - 1 <= capacity
}

/// A buffer that lies within the address space and not at address zero
/// yields a chunk for every layout that fits anywhere.
pub proof fn lemma_carve_fits_anywhere(base: usize, capacity: usize, layout: Layout)
    requires
        layout.valid(),
        base != 0,
        base + capacity <= usize::MAX,
        fits_anywhere(capacity, layout),
    ensures
        carve_spec(base, capacity, layout) is Some,
{
    align::lemma_power_of_two_bits(layout.align());
    align::lemma_round_up(base as int, layout.align() as int);
}

/// The chunk that a buffer of `capacity` bytes at `base` yields for `layout`.
pub fn carve(base: usize, capacity: usize, layout: Layout) -> (r: Option<Block>)
    ensures
        r == carve_spec(base, capacity, layout),
        r is Some ==> crate::source::chunk_meets(r->Some_0, layout),
{
    if base == 0 || capacity > usize::MAX - base {
        return None;
    }
    let pad: usize = align::align_offset(base, layout.align());
    if pad > capacity {
        return None;
    }
    let avail: usize = capacity - pad;
    if avail < layout.size() {
        return None;
    }
    Some(Block { addr: base + pad, len: avail })
}

impl<const N: usize> StaticBuffer<N> {
    #[verifier::type_invariant]
    spec fn inv(self) -> bool {
        &&& self.buffer@.len() == N
        &&& self.chunk@ is Some ==> self.taken
    }

    /// The buffer has given its chunk away; it has none left.
    pub closed spec fn spec_is_taken(&self) -> bool {
        self.taken
    }

    /// Tells whether the buffer has given its chunk away.
    #[verifier::when_used_as_spec(spec_is_taken)]
    pub fn is_taken(&self) -> (t: bool)
        ensures
            t == self.spec_is_taken(),
    {
        self.taken
    }

    /// The number of bytes in the buffer.
    pub fn capacity(&self) -> (n: usize)
        ensures
            n == N,
    {
        N
    }

    /// The chunk that is out now, with the alignment it was asked with.
    pub closed spec fn chunk_out(&self) -> Option<(Block, usize)> {
        self.chunk@
    }

    /// The pairs under which the chunk was given back, the first first.
    pub closed spec fn given_back(&self) -> Seq<(usize, Layout)> {
        self.log@
    }

    /// The layouts that the buffer was asked for, the first first.
    pub closed spec fn asked_for(&self) -> Seq<Layout> {
        self.asks@
    }

    /// A buffer that has not been given away.
    pub fn new() -> (s: Self)
        ensures
            !s.is_taken(),
            s.chunk_out() is None,
            s.given_back() == Seq::<(usize, Layout)>::empty(),
            s.asked_for() == Seq::<Layout>::empty(),
    {
        StaticBuffer {
            buffer: vec![0u8; N],
            taken: false,
            chunk: Ghost(None),
            log: Ghost(Seq::empty()),
            asks: Ghost(Seq::empty()),
        }
    }

    /// The address at which the buffer's bytes lie. Calls `Vec::as_ptr`, of
    /// which two things are claimed: the pointer is never null, and the `N`
    /// bytes of the buffer do not run past the end of the address space.
    #[verifier::external_body]
    fn base_address(&self) -> (base: usize)
        ensures
            base != 0,
            base + N <= usize::MAX,
    {
        self.buffer.as_ptr() as usize
    }

    /// Gives the buffer away, if it has not been given away before and can
    /// serve `layout` from the address at which it lies: all of it from the
    /// first aligned byte on. A request that is not served leaves the buffer
    /// to be had. A layout that fits anywhere is served by a buffer that has
    /// not been given away.
    pub fn request_chunk_impl(&mut self, layout: Layout) -> (r: Option<Block>)
        ensures
            final(self).is_taken() == (old(self).is_taken() || r is Some),
            final(self).asked_for() == old(self).asked_for().push(layout),
            final(self).given_back() == old(self).given_back(),
            old(self).is_taken() ==> r is None && final(self).chunk_out() == old(self).chunk_out(),
            !old(self).is_taken() ==> exists|base: usize|
                base != 0 && base + N <= usize::MAX && r == #[trigger] carve_spec(base, N, layout),
            !old(self).is_taken() && fits_anywhere(N, layout) ==> r is Some,
            !old(self).is_taken() ==> final(self).chunk_out() == match r {
                Some(chunk) => Some((chunk, layout.align())),
                None => None,
            },
    {
        proof {
            use_type_invariant(&*self);
            use_type_invariant(&layout);
        }
        self.asks = Ghost(self.asks@.push(layout));
        if self.taken {
            return None;
        }
        let base: usize = self.base_address();
        proof {
            if fits_anywhere(N, layout) {
                lemma_carve_fits_anywhere(base, N, layout);
            }
        }
        let r = carve(base, N, layout);
        if let Some(chunk) = r {
            self.taken = true;
            self.chunk = Ghost(Some((chunk, layout.align())));
        }
        r
    }

    /// Takes the chunk back. The buffer stays given away.
    pub fn release_chunk_impl(&mut self, addr: usize, layout: Layout)
        ensures
            final(self).is_taken() == old(self).is_taken(),
            final(self).asked_for() == old(self).asked_for(),
            final(self).chunk_out() is None,
            final(self).given_back() == old(self).given_back().push((addr, layout)),
    {
        proof {
            use_type_invariant(&*self);
        }
        self.chunk = Ghost(None);
        self.log = Ghost(self.log@.push((addr, layout)));
    }
}

impl<const N: usize> Default for StaticBuffer<N> {
    /// A buffer that has not been given away.
    fn default() -> (s: Self)
        ensures
            !s.is_taken(),
            s.chunk_out() is None,
            s.given_back() == Seq::<(usize, Layout)>::empty(),
            s.asked_for() == Seq::<Layout>::empty(),
    {
        Self::new()
    }
}

impl<const N: usize> MemorySource for StaticBuffer<N> {
    open spec fn outstanding(&self) -> Multiset<(usize, Layout)> {
        match self.chunk_out() {
            Some((chunk, align)) => Multiset::singleton(crate::source::chunk_key(chunk, align)),
            None => Multiset::empty(),
        }
    }

    open spec fn lent(&self) -> Set<int> {
        match self.chunk_out() {
            Some((chunk, align)) => chunk.bytes(),
            None => Set::empty(),
        }
    }

    open spec fn released(&self) -> Seq<(usize, Layout)> {
        self.given_back()
    }

    open spec fn asked(&self) -> Seq<Layout> {
        self.asked_for()
    }

    /// Gives the buffer away as `request_chunk_impl` does.
    fn request_chunk(&mut self, layout: Layout) -> (r: Option<Block>)
        ensures
            final(self).is_taken() == (old(self).is_taken() || r is Some),
            old(self).is_taken() ==> r is None && final(self).chunk_out() == old(self).chunk_out(),
            !old(self).is_taken() ==> exists|base: usize|
                base != 0 && base + N <= usize::MAX && r == #[trigger] carve_spec(base, N, layout),
            !old(self).is_taken() && fits_anywhere(N, layout) ==> r is Some,
            !old(self).is_taken() ==> final(self).chunk_out() == match r {
                Some(chunk) => Some((chunk, layout.align())),
                None => None,
            },
    {
        proof {
            use_type_invariant(&*self);
            use_type_invariant(&layout);
        }
        let r = self.request_chunk_impl(layout);
        proof {
            if let Some(chunk) = r {
                let base = choose|base: usize|
                    base != 0 && base + N <= usize::MAX && r == #[trigger] carve_spec(
                        base,
                        N,
                        layout,
                    );
                align::lemma_power_of_two_bits(layout.align());
                align::lemma_round_up(base as int, layout.align() as int);
                assert(old(self).lent() =~= Set::<int>::empty());
                assert(self.lent() =~= old(self).lent().union(chunk.bytes()));
                assert(self.outstanding() =~= old(self).outstanding().insert(
                    crate::source::chunk_key(chunk, layout.align()),
                ));
            }
        }
        r
    }

    /// Takes the chunk back as `release_chunk_impl` does.
    fn release_chunk(&mut self, addr: usize, layout: Layout)
        ensures
            final(self).is_taken() == old(self).is_taken(),
            final(self).chunk_out() is None,
    {
        proof {
            broadcast use Layout::lemma_of;

        }
        self.release_chunk_impl(addr, layout);
        proof {
            assert(self.outstanding() =~= old(self).outstanding().remove((addr, layout)));
            assert(self.lent() =~= old(self).lent().difference(
                (Block { addr, len: layout.size() }).bytes(),
            ));
        }
    }
}

} // verus!
