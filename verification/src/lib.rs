//! Byte allocators layered over pluggable memory sources.
//!
//! A [`source::MemorySource`] hands out large aligned chunks. An allocator
//! takes chunks from its source and serves fine-grained requests out of
//! them: [`allocator::bump::BumpAllocator`] by moving a cursor forward,
//! [`allocator::free_list::FreeList`] by first fit over a list of free
//! intervals. [`mutex::Locked`] puts a lock around either.
//!
//! Addresses are plain `usize` values, and the records that an allocator
//! keeps of its chunks and free intervals are kept beside the memory, not in
//! it. The room that each record would take up at the start of its chunk or
//! interval is still set aside. The allocators decide where every block
//! lies; turning an address into a pointer is left to the caller.

pub mod align;
pub mod allocator;
pub mod layout;
pub mod mutex;
pub mod source;
