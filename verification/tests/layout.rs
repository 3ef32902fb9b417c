use rikualloc::layout::{layout_of_words, word, Block, Layout, LayoutError};

#[test]
fn from_size_align_accepts_powers_of_two() {
    let l = Layout::from_size_align(24, 64).unwrap();
    assert_eq!(l.size(), 24);
    assert_eq!(l.align(), 64);
    let z = Layout::from_size_align(0, 1).unwrap();
    assert_eq!(z.size(), 0);
    assert_eq!(z.align(), 1);
}

#[test]
fn from_size_align_rejects_other_alignments() {
    assert_eq!(Layout::from_size_align(8, 0), Err(LayoutError));
    assert_eq!(Layout::from_size_align(8, 3), Err(LayoutError));
    assert_eq!(Layout::from_size_align(8, 24), Err(LayoutError));
}

#[test]
fn extend_places_second_record_at_aligned_offset() {
    let head = Layout::from_size_align(32, 8).unwrap();
    let (l, offset) = head.extend(Layout::from_size_align(80, 8).unwrap()).unwrap();
    assert_eq!(offset, 32);
    assert_eq!(l.size(), 112);
    assert_eq!(l.align(), 8);

    let (l, offset) = head.extend(Layout::from_size_align(24, 64).unwrap()).unwrap();
    assert_eq!(offset, 64);
    assert_eq!(l.size(), 88);
    assert_eq!(l.align(), 64);

    let small = Layout::from_size_align(3, 1).unwrap();
    let (l, offset) = small.extend(Layout::from_size_align(2, 2).unwrap()).unwrap();
    assert_eq!(offset, 4);
    assert_eq!(l.size(), 6);
    assert_eq!(l.align(), 2);
}

#[test]
fn extend_reports_overflow() {
    let head = Layout::from_size_align(32, 8).unwrap();
    let huge = Layout::from_size_align(usize::MAX - 16, 8).unwrap();
    assert_eq!(head.extend(huge), Err(LayoutError));
    let edge = Layout::from_size_align(usize::MAX - 32, 8).unwrap();
    let (l, offset) = head.extend(edge).unwrap();
    assert_eq!(offset, 32);
    assert_eq!(l.size(), usize::MAX);
}

#[test]
fn pad_to_align_rounds_size_up() {
    let l = Layout::from_size_align(10, 8).unwrap().pad_to_align().unwrap();
    assert_eq!((l.size(), l.align()), (16, 8));
    let l = Layout::from_size_align(16, 8).unwrap().pad_to_align().unwrap();
    assert_eq!((l.size(), l.align()), (16, 8));
    let l = Layout::from_size_align(0, 64).unwrap().pad_to_align().unwrap();
    assert_eq!((l.size(), l.align()), (0, 64));
    assert_eq!(Layout::from_size_align(usize::MAX, 8).unwrap().pad_to_align(), None);
}

#[test]
fn at_least_raises_small_sizes_only() {
    let l = Layout::from_size_align(112, 8).unwrap().at_least(4096);
    assert_eq!((l.size(), l.align()), (4096, 8));
    let l = Layout::from_size_align(10032, 16).unwrap().at_least(4096);
    assert_eq!((l.size(), l.align()), (10032, 16));
    let l = Layout::from_size_align(4096, 32).unwrap().at_least(4096);
    assert_eq!((l.size(), l.align()), (4096, 32));
}

#[test]
fn with_size_keeps_alignment() {
    let l = Layout::from_size_align(10, 32).unwrap().with_size(4096);
    assert_eq!((l.size(), l.align()), (4096, 32));
}

#[test]
fn word_is_machine_word() {
    assert_eq!(word(), std::mem::size_of::<usize>());
    let l = layout_of_words(4);
    assert_eq!(l.size(), 4 * std::mem::size_of::<usize>());
    assert_eq!(l.align(), std::mem::size_of::<usize>());
}

#[test]
fn block_gives_address_and_length() {
    let b = Block { addr: 4096, len: 24 };
    assert_eq!(b.addr(), 4096);
    assert_eq!(b.len(), 24);
}
