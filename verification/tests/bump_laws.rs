use std::cell::RefCell;
use std::rc::Rc;

use rikualloc::allocator::bump::{BumpAllocator, ChunkNode};
use rikualloc::allocator::MutAllocator;
use rikualloc::layout::{Block, Layout};
use rikualloc::source::static_buff::StaticBuffer;
use rikualloc::source::MemorySource;

#[derive(Default)]
struct Calls {
    requested: Vec<(usize, usize, usize)>,
    released: Vec<(usize, usize, usize)>,
    asked: Vec<(usize, usize)>,
}

/// A source that gives chunks of exactly the size asked for and writes down
/// every call.
struct RecordingSource {
    calls: Rc<RefCell<Calls>>,
    backing: Vec<Vec<u8>>,
    budget: usize,
}

impl RecordingSource {
    fn new(calls: Rc<RefCell<Calls>>) -> Self {
        Self { calls, backing: vec![], budget: usize::MAX }
    }
}

impl MemorySource for RecordingSource {
    fn request_chunk(&mut self, layout: Layout) -> Option<Block> {
        self.calls.borrow_mut().asked.push((layout.size(), layout.align()));
        if self.budget == 0 {
            return None;
        }
        self.budget -= 1;
        let backing: Vec<u8> = Vec::with_capacity(layout.size() + layout.align());
        let raw = backing.as_ptr() as usize;
        let addr = (raw + layout.align() - 1) & !(layout.align() - 1);
        self.backing.push(backing);
        self.calls.borrow_mut().requested.push((addr, layout.size(), layout.align()));
        Some(Block { addr, len: layout.size() })
    }

    fn release_chunk(&mut self, addr: usize, layout: Layout) {
        self.calls.borrow_mut().released.push((addr, layout.size(), layout.align()));
    }
}

fn layout(size: usize, align: usize) -> Layout {
    Layout::from_size_align(size, align).unwrap()
}

fn fresh() -> (BumpAllocator<RecordingSource>, Rc<RefCell<Calls>>) {
    let calls = Rc::new(RefCell::new(Calls::default()));
    (BumpAllocator::new(RecordingSource::new(calls.clone())), calls)
}

const HEADER: usize = 4 * std::mem::size_of::<usize>();

#[test]
fn header_is_four_words() {
    let h = ChunkNode::header_layout();
    assert_eq!(h.size(), HEADER);
    assert_eq!(h.align(), std::mem::size_of::<usize>());
}

#[test]
fn new_allocator_takes_no_chunk() {
    let (a, calls) = fresh();
    assert!(calls.borrow().asked.is_empty());
    assert_eq!(a.cursor(), a.end());
    assert_eq!(a.cursor(), 1);
    assert!(a.chunks().is_empty());
}

#[test]
fn plan_chunk_asks_for_at_least_4096_bytes() {
    let (request, offset) = BumpAllocator::<RecordingSource>::plan_chunk(layout(80, 8)).unwrap();
    assert_eq!((request.size(), request.align(), offset), (4096, 8, HEADER));
}

#[test]
fn plan_chunk_makes_room_for_header_padding_and_block() {
    let (request, offset) = BumpAllocator::<RecordingSource>::plan_chunk(layout(10000, 16)).unwrap();
    assert_eq!((request.size(), request.align(), offset), (HEADER + 10000, 16, HEADER));
    let (request, offset) = BumpAllocator::<RecordingSource>::plan_chunk(layout(5000, 128)).unwrap();
    assert_eq!((request.size(), request.align(), offset), (128 + 5000, 128, 128));
    let (request, offset) = BumpAllocator::<RecordingSource>::plan_chunk(layout(4096 - HEADER, 1)).unwrap();
    assert_eq!((request.size(), request.align(), offset), (4096, std::mem::size_of::<usize>(), HEADER));
}

#[test]
fn plan_chunk_reports_overflow() {
    assert_eq!(BumpAllocator::<RecordingSource>::plan_chunk(layout(usize::MAX, 8)), None);
    assert_eq!(BumpAllocator::<RecordingSource>::plan_chunk(layout(usize::MAX - HEADER + 1, 1)), None);
    assert!(BumpAllocator::<RecordingSource>::plan_chunk(layout(usize::MAX - HEADER, 1)).is_some());
}

#[test]
fn first_allocation_takes_a_chunk_and_lies_behind_the_header() {
    let (mut a, calls) = fresh();
    let p = a.allocate(layout(80, 8)).unwrap();
    assert_eq!(calls.borrow().asked, vec![(4096, 8)]);
    let (base, len, _) = calls.borrow().requested[0];
    assert_eq!(p, Block { addr: base + HEADER, len: 80 });
    assert_eq!(a.cursor(), base + HEADER + 80);
    assert_eq!(a.end(), base + len);
    let chunks = a.chunks();
    assert_eq!(chunks.len(), 1);
    assert_eq!((chunks[0].base, chunks[0].layout.size(), chunks[0].layout.align()), (base, 4096, 8));
}

#[test]
fn allocation_from_the_window_starts_at_the_next_aligned_address() {
    let (mut a, calls) = fresh();
    let first = a.allocate(layout(3, 1)).unwrap();
    let second = a.allocate(layout(8, 64)).unwrap();
    let third = a.allocate(layout(1, 1)).unwrap();
    assert_eq!(calls.borrow().asked.len(), 1);
    let start = first.addr() + 3;
    assert_eq!(second.addr(), (start + 63) / 64 * 64);
    assert_eq!(third.addr(), second.addr() + 8);
    assert_eq!(a.cursor(), third.addr() + 1);
}

#[test]
fn alignment_and_length_hold_of_every_allocation() {
    let (mut a, _) = fresh();
    let sizes = [1usize, 24, 80, 4000, 7, 10000, 64, 3, 512];
    let aligns = [1usize, 64, 8, 16, 2, 4096, 128, 4, 32];
    let mut blocks: Vec<Block> = vec![];
    for i in 0..sizes.len() {
        for j in 0..aligns.len() {
            let l = layout(sizes[i], aligns[j]);
            let p = a.allocate(l).unwrap();
            assert_ne!(p.addr(), 0);
            assert_eq!(p.addr() % aligns[j], 0);
            assert_eq!(p.len(), sizes[i]);
            for q in &blocks {
                assert!(p.addr() + p.len() <= q.addr() || q.addr() + q.len() <= p.addr());
            }
            blocks.push(p);
            assert!(a.cursor() <= a.end());
        }
    }
}

#[test]
fn blocks_from_one_chunk_come_in_rising_order() {
    let (mut a, calls) = fresh();
    let mut last: Option<Block> = None;
    let mut chunks = 0;
    for i in 0..200usize {
        let l = layout(1 + (i * 37) % 90, 1 << (i % 6));
        let p = a.allocate(l).unwrap();
        let grew = calls.borrow().requested.len() != chunks;
        chunks = calls.borrow().requested.len();
        if let Some(q) = last {
            if !grew {
                assert!(p.addr() >= q.addr() + q.len());
            }
        }
        last = Some(p);
    }
    assert!(chunks >= 2);
}

#[test]
fn zero_size_allocation_changes_nothing() {
    let (mut a, calls) = fresh();
    let p = a.allocate(layout(0, 128)).unwrap();
    assert_eq!(p, Block { addr: 128, len: 0 });
    assert!(calls.borrow().asked.is_empty());
    assert_eq!((a.cursor(), a.end()), (1, 1));

    let _ = a.allocate(layout(16, 8)).unwrap();
    let (cursor, end, chunks) = (a.cursor(), a.end(), a.chunks().len());
    let p = a.allocate(layout(0, 4096)).unwrap();
    assert_eq!(p, Block { addr: 4096, len: 0 });
    assert_eq!((a.cursor(), a.end(), a.chunks().len()), (cursor, end, chunks));
    assert_eq!(calls.borrow().asked.len(), 1);
}

#[test]
fn dealloc_gives_no_memory_back() {
    let (mut a, calls) = fresh();
    let l = layout(64, 8);
    let first = a.allocate(l).unwrap();
    let cursor = a.cursor();
    a.dealloc(first.addr(), l);
    assert_eq!(a.cursor(), cursor);
    assert!(calls.borrow().released.is_empty());
    let second = a.allocate(l).unwrap();
    assert_eq!(second.addr(), first.addr() + 64);
}

#[test]
fn refusal_of_the_source_leaves_the_state_as_it_was() {
    let calls = Rc::new(RefCell::new(Calls::default()));
    let mut source = RecordingSource::new(calls.clone());
    source.budget = 1;
    let mut a = BumpAllocator::new(source);
    let p = a.allocate(layout(4000, 8)).unwrap();
    let (cursor, end) = (a.cursor(), a.end());
    assert!(a.allocate(layout(4000, 8)).is_none());
    assert_eq!((a.cursor(), a.end(), a.chunks().len()), (cursor, end, 1));
    // what still fits is still served
    let q = a.allocate(layout(8, 8)).unwrap();
    assert_eq!(q.addr(), p.addr() + 4000);
}

#[test]
fn allocation_fails_where_the_request_overflows() {
    let (mut a, calls) = fresh();
    assert!(a.allocate(layout(usize::MAX, 1)).is_none());
    assert!(calls.borrow().asked.is_empty());
}

#[test]
fn release_all_gives_back_each_chunk_once_latest_first() {
    let (mut a, calls) = fresh();
    for _ in 0..5 {
        let _ = a.allocate(layout(3000, 8)).unwrap();
    }
    let _ = a.allocate(layout(10000, 64)).unwrap();
    a.release_all();
    let calls = calls.borrow();
    assert_eq!(calls.requested.len(), 6);
    let mut expected = calls.requested.clone();
    expected.reverse();
    assert_eq!(calls.released, expected);
}

#[test]
fn release_all_leaves_a_fresh_allocator() {
    let (mut a, calls) = fresh();
    let _ = a.allocate(layout(100, 8)).unwrap();
    a.release_all();
    assert_eq!((a.cursor(), a.end()), (1, 1));
    assert!(a.chunks().is_empty());
    a.release_all();
    assert_eq!(calls.borrow().released.len(), 1);
    // the next allocation takes a new chunk
    let _ = a.allocate(layout(100, 8)).unwrap();
    assert_eq!(calls.borrow().requested.len(), 2);
}

#[test]
fn with_initial_chunk_starts_behind_the_header() {
    let calls = Rc::new(RefCell::new(Calls::default()));
    let a = BumpAllocator::with_initial_chunk(RecordingSource::new(calls.clone()), 128)
        .ok()
        .unwrap();
    assert_eq!(calls.borrow().asked, vec![(128, std::mem::size_of::<usize>())]);
    let (base, _, _) = calls.borrow().requested[0];
    assert_eq!(a.cursor(), base + HEADER);
    assert_eq!(a.end(), base + 128);

    let calls = Rc::new(RefCell::new(Calls::default()));
    let a = BumpAllocator::with_initial_chunk(RecordingSource::new(calls.clone()), 0)
        .ok()
        .unwrap();
    assert_eq!(calls.borrow().asked, vec![(HEADER, std::mem::size_of::<usize>())]);
    assert_eq!(a.cursor(), a.end());
}

#[test]
fn with_initial_chunk_gives_the_source_back_on_refusal() {
    let calls = Rc::new(RefCell::new(Calls::default()));
    let mut source = RecordingSource::new(calls.clone());
    source.budget = 0;
    let mut refused = match BumpAllocator::with_initial_chunk(source, 128) {
        Ok(_) => panic!("a source with nothing to give gave a chunk"),
        Err(refused) => refused,
    };
    // the source was asked once, for 128 bytes aligned as a word is
    assert_eq!(calls.borrow().asked, vec![(128, std::mem::size_of::<usize>())]);
    assert!(calls.borrow().requested.is_empty());
    // and it is the source that was given
    refused.budget = 1;
    assert!(BumpAllocator::with_initial_chunk(refused, 128).is_ok());
    assert_eq!(calls.borrow().asked.len(), 2);
}

#[test]
fn bump_over_a_static_buffer() {
    let mut a = BumpAllocator::new(StaticBuffer::<8192>::new());
    let p = a.allocate(layout(100, 16)).unwrap();
    assert_eq!(p.addr() % 16, 0);
    assert!(a.source().is_taken());
    // the buffer has one chunk to give: what does not fit in it fails
    assert!(a.allocate(layout(8192, 8)).is_none());
    let q = a.allocate(layout(100, 16)).unwrap();
    assert!(q.addr() >= p.addr() + 100);
    a.release_all();
    assert!(a.source().is_taken());
}

#[test]
fn adopt_chunk_serves_behind_the_header() {
    let calls = Rc::new(RefCell::new(Calls::default()));
    let mut source = RecordingSource::new(calls.clone());
    let l = layout(100, 64);
    let (request, offset) = BumpAllocator::<RecordingSource>::plan_chunk(l).unwrap();
    let chunk = source.request_chunk(request).unwrap();
    let mut a = BumpAllocator::new(source);
    let p = a.adopt_chunk(chunk, request, offset, l);
    assert_eq!(p, Block { addr: chunk.addr() + 64, len: 100 });
    assert_eq!(a.cursor(), chunk.addr() + 164);
    assert_eq!(a.end(), chunk.addr() + 4096);
    let chunks = a.chunks();
    assert_eq!(chunks.len(), 1);
    assert_eq!((chunks[0].base, chunks[0].layout.size(), chunks[0].layout.align()), (chunk.addr(), 4096, 64));
    a.release_all();
    assert_eq!(calls.borrow().released, vec![(chunk.addr(), 4096, 64)]);
}
