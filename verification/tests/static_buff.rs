use rikualloc::layout::{Block, Layout};
use rikualloc::source::static_buff::{carve, StaticBuffer};
use rikualloc::source::{check_chunk, MemorySource};

#[test]
fn static_source_yields_one_chunk_only() {
    let mut buffer = StaticBuffer::<4096>::new();
    let layout = Layout::from_size_align(64, 8).unwrap();
    assert!(buffer.request_chunk(layout).is_some());
    assert!(buffer.request_chunk(layout).is_none());
}

#[test]
fn static_source_chunk_meets_request() {
    let mut buffer = StaticBuffer::<4096>::new();
    let layout = Layout::from_size_align(1024, 64).unwrap();
    let chunk = buffer.request_chunk(layout).unwrap();
    assert_ne!(chunk.addr(), 0);
    assert_eq!(chunk.addr() % 64, 0);
    assert!(chunk.len() >= 1024);
    assert!(chunk.len() <= 4096);
    assert!(chunk.len() > 4096 - 64);
    assert!(check_chunk(chunk, layout));
}

#[test]
fn static_source_stays_taken_after_release() {
    let mut buffer = StaticBuffer::<256>::new();
    assert!(!buffer.is_taken());
    let layout = Layout::from_size_align(16, 8).unwrap();
    let chunk = buffer.request_chunk(layout).unwrap();
    assert!(buffer.is_taken());
    buffer.release_chunk(chunk.addr(), Layout::from_size_align(chunk.len(), 8).unwrap());
    assert!(buffer.is_taken());
    assert!(buffer.request_chunk(layout).is_none());
}

#[test]
fn static_source_is_still_to_be_had_after_a_request_it_cannot_serve() {
    let mut buffer = StaticBuffer::<64>::new();
    let too_large = Layout::from_size_align(128, 1).unwrap();
    assert!(buffer.request_chunk(too_large).is_none());
    assert!(!buffer.is_taken());
    let fitting = Layout::from_size_align(32, 1).unwrap();
    let chunk = buffer.request_chunk(fitting).unwrap();
    assert_eq!(chunk.len(), 64);
    assert!(buffer.is_taken());
    assert!(buffer.request_chunk(fitting).is_none());
}

#[test]
fn static_source_refuses_unattainable_alignment_and_stays_to_be_had() {
    let mut buffer = StaticBuffer::<8>::new();
    // no address leaves 8 aligned bytes in 8 bytes unless it is aligned itself,
    // and none leaves 9
    let too_large = Layout::from_size_align(9, 8).unwrap();
    assert!(buffer.request_chunk_impl(too_large).is_none());
    assert!(!buffer.is_taken());
    let byte = Layout::from_size_align(1, 1).unwrap();
    assert_eq!(buffer.request_chunk_impl(byte).unwrap().len(), 8);
}

#[test]
fn static_source_serves_what_fits_anywhere() {
    // size + align - 1 <= N: the request fits behind the longest padding
    let mut buffer = StaticBuffer::<4096>::new();
    let layout = Layout::from_size_align(4096 - 63, 64).unwrap();
    let chunk = buffer.request_chunk(layout).unwrap();
    assert_ne!(chunk.addr(), 0);
    assert_eq!(chunk.addr() % 64, 0);
    assert!(chunk.len() >= 4096 - 63);
    assert!(chunk.addr().checked_add(chunk.len()).is_some());

    let mut exact = StaticBuffer::<16>::new();
    let all = Layout::from_size_align(16, 1).unwrap();
    assert_eq!(exact.request_chunk(all).unwrap().len(), 16);
}

#[test]
fn static_source_has_its_capacity() {
    let buffer = StaticBuffer::<1024>::new();
    assert_eq!(buffer.capacity(), 1024);
    let mut buffer = StaticBuffer::<1024>::new();
    let chunk = buffer.request_chunk(Layout::from_size_align(1024, 1).unwrap()).unwrap();
    assert_eq!(chunk.len(), 1024);
}

#[test]
fn carve_gives_all_from_the_first_aligned_byte() {
    let l = Layout::from_size_align(16, 8).unwrap();
    assert_eq!(carve(1000, 4096, l), Some(Block { addr: 1000, len: 4096 }));
    assert_eq!(carve(1001, 4096, l), Some(Block { addr: 1008, len: 4089 }));
    assert_eq!(carve(1000, 16, l), Some(Block { addr: 1000, len: 16 }));
}

#[test]
fn carve_refuses_what_does_not_fit() {
    let l = Layout::from_size_align(17, 8).unwrap();
    assert_eq!(carve(1000, 16, l), None);
    let l = Layout::from_size_align(16, 8).unwrap();
    assert_eq!(carve(1001, 22, l), None);
    assert_eq!(carve(1001, 23, l), Some(Block { addr: 1008, len: 16 }));
}

#[test]
fn carve_refuses_unattainable_alignment() {
    let l = Layout::from_size_align(0, 8).unwrap();
    assert_eq!(carve(1001, 4, l), None);
    assert_eq!(carve(1001, 7, l), Some(Block { addr: 1008, len: 0 }));
}

#[test]
fn check_chunk_tells_what_a_source_owes() {
    let l = Layout::from_size_align(64, 16).unwrap();
    assert!(check_chunk(Block { addr: 4096, len: 64 }, l));
    assert!(check_chunk(Block { addr: 4096, len: 4096 }, l));
    assert!(!check_chunk(Block { addr: 0, len: 64 }, l));
    assert!(!check_chunk(Block { addr: 4104, len: 64 }, l));
    assert!(!check_chunk(Block { addr: 4096, len: 63 }, l));
    assert!(!check_chunk(Block { addr: usize::MAX - 15, len: 64 }, l));
}

#[test]
fn default_buffer_is_not_taken() {
    let mut buffer: StaticBuffer<128> = Default::default();
    assert!(!buffer.is_taken());
    assert!(buffer.request_chunk(Layout::from_size_align(128, 1).unwrap()).is_some());
}

#[test]
fn carve_refuses_a_buffer_at_address_zero() {
    let l = Layout::from_size_align(16, 8).unwrap();
    assert_eq!(carve(0, 4096, l), None);
}

#[test]
fn carve_refuses_a_buffer_that_leaves_the_address_space() {
    let l = Layout::from_size_align(16, 8).unwrap();
    assert_eq!(carve(usize::MAX - 23, 24, l), None);
    assert_eq!(
        carve(usize::MAX - 23, 23, l),
        Some(Block { addr: usize::MAX - 23, len: 23 })
    );
}
