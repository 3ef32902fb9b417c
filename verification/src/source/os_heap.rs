//! The sizes and addresses of chunks mapped by the operating system.
//!
//! Mapping and unmapping are the caller's part. What is decided here is how
//! many bytes to map for a request, which page size to go by, and what
//! chunk a mapping is.

use crate::align;
use crate::layout::Block;
use vstd::prelude::*;

verus! {

/// The page size taken where the system does not tell its own.
pub const FALLBACK_PAGE_SIZE: usize = 4096;

/// The address that stands for a mapping that failed.
pub const MAP_FAILED: usize = usize::MAX;

/// A source of chunks that the operating system maps page by page.
pub struct OsHeap;

impl OsHeap {
    /// The page size to go by, given what the system answered when asked
    /// for its own: the answer where it is positive, and
    /// `FALLBACK_PAGE_SIZE` where it is not.
    pub open spec fn page_size_spec(answer: isize) -> usize {
        if answer > 0 {
            answer as usize
        } else {
            FALLBACK_PAGE_SIZE
        }
    }

    /// The number of bytes to map for a request of `size` bytes: `size`
    /// rounded up to a multiple of `page_size`. There is none where the page
    /// size is zero or the number does not fit in a machine word.
    pub open spec fn mapping_len_spec(size: usize, page_size: usize) -> Option<usize> {
        if page_size > 0 && align::round_up(size as int, page_size as int) <= usize::MAX {
            Some(align::round_up(size as int, page_size as int) as usize)
        } else {
            None
        }
    }

    /// The chunk that a mapping of `len` bytes at `mapped` is. There is none
    /// where the mapping failed or lies at address zero.
    pub open spec fn chunk_of_mapping_spec(mapped: usize, len: usize) -> Option<Block> {
        if mapped == MAP_FAILED || mapped == 0 {
            None
        } else {
            Some(Block { addr: mapped, len })
        }
    }

    /// The page size to go by, given what the system answered when asked
    /// for its own.
    pub fn page_size_from(answer: isize) -> (r: usize)
        ensures
            r == Self::page_size_spec(answer),
            r > 0,
    {
        if answer > 0 {
            answer as usize
        } else {
            FALLBACK_PAGE_SIZE
        }
    }

    /// The number of bytes to map for a request of `size` bytes.
    pub fn mapping_len(size: usize, page_size: usize) -> (r: Option<usize>)
        ensures
            r == Self::mapping_len_spec(size, page_size),
            r is Some ==> r->Some_0 >= size && align::is_aligned(
                r->Some_0 as int,
                page_size as int,
            ),
    {
        if page_size == 0 {
            return None;
        }
        proof {
            align::lemma_round_up(size as int, page_size as int);
        }
        let rem: usize = size % page_size;
        if rem == 0 {
            Some(size)
        } else {
            size.checked_add(page_size - rem)
        }
    }

    /// The chunk that a mapping of `len` bytes at `mapped` is.
    pub fn chunk_of_mapping(mapped: usize, len: usize) -> (r: Option<Block>)
        ensures
            r == Self::chunk_of_mapping_spec(mapped, len),
    {
        if mapped == MAP_FAILED || mapped == 0 {
            None
        } else {
            Some(Block { addr: mapped, len })
        }
    }
}

} // verus!
