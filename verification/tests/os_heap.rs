use rikualloc::layout::Block;
use rikualloc::source::os_heap::{OsHeap, FALLBACK_PAGE_SIZE, MAP_FAILED};

#[test]
fn page_size_is_the_answer_where_positive() {
    assert_eq!(OsHeap::page_size_from(4096), 4096);
    assert_eq!(OsHeap::page_size_from(16384), 16384);
    assert_eq!(OsHeap::page_size_from(1), 1);
}

#[test]
fn page_size_falls_back_to_4096() {
    assert_eq!(FALLBACK_PAGE_SIZE, 4096);
    assert_eq!(OsHeap::page_size_from(0), 4096);
    assert_eq!(OsHeap::page_size_from(-1), 4096);
    assert_eq!(OsHeap::page_size_from(isize::MIN), 4096);
}

#[test]
fn mapping_len_rounds_up_to_pages() {
    assert_eq!(OsHeap::mapping_len(1, 4096), Some(4096));
    assert_eq!(OsHeap::mapping_len(4096, 4096), Some(4096));
    assert_eq!(OsHeap::mapping_len(4097, 4096), Some(8192));
    assert_eq!(OsHeap::mapping_len(0, 4096), Some(0));
    assert_eq!(OsHeap::mapping_len(10, 12), Some(12));
}

#[test]
fn mapping_len_reports_what_cannot_be_mapped() {
    assert_eq!(OsHeap::mapping_len(usize::MAX, 4096), None);
    assert_eq!(OsHeap::mapping_len(10, 0), None);
}

#[test]
fn failed_mapping_is_no_chunk() {
    assert_eq!(MAP_FAILED, usize::MAX);
    assert_eq!(OsHeap::chunk_of_mapping(MAP_FAILED, 4096), None);
    assert_eq!(OsHeap::chunk_of_mapping(0, 4096), None);
}

#[test]
fn mapping_is_a_chunk_of_its_length() {
    assert_eq!(
        OsHeap::chunk_of_mapping(0x10000, 8192),
        Some(Block { addr: 0x10000, len: 8192 })
    );
}
