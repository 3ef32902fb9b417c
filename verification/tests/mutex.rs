use rikualloc::allocator::bump::BumpAllocator;
use rikualloc::allocator::free_list::FreeList;
use rikualloc::layout::{Block, Layout};
use rikualloc::mutex::{locked_allocate, locked_dealloc, NULL};
use rikualloc::source::static_buff::StaticBuffer;
use rikualloc::source::MemorySource;

/// A source that has nothing to give.
struct Exhausted;

impl MemorySource for Exhausted {
    fn request_chunk(&mut self, _layout: Layout) -> Option<Block> {
        None
    }

    fn release_chunk(&mut self, _addr: usize, _layout: Layout) {}
}

#[test]
fn locked_allocate_gives_the_address() {
    let mut a = FreeList::new(StaticBuffer::<8192>::new());
    let l = Layout::from_size_align(64, 16).unwrap();
    let addr = locked_allocate(&mut a, l);
    assert_ne!(addr, NULL);
    assert_eq!(addr % 16, 0);
}

#[test]
fn locked_allocate_gives_null_on_failure() {
    assert_eq!(NULL, 0);
    let mut a = FreeList::new(Exhausted);
    let l = Layout::from_size_align(64, 16).unwrap();
    assert_eq!(locked_allocate(&mut a, l), NULL);
    let mut b = BumpAllocator::new(Exhausted);
    assert_eq!(locked_allocate(&mut b, l), NULL);
}

#[test]
fn locked_allocate_of_no_bytes_is_not_null() {
    let mut a = BumpAllocator::new(Exhausted);
    let l = Layout::from_size_align(0, 32).unwrap();
    assert_eq!(locked_allocate(&mut a, l), 32);
}

#[test]
fn locked_dealloc_ignores_null() {
    let mut a = FreeList::new(StaticBuffer::<8192>::new());
    let l = Layout::from_size_align(64, 16).unwrap();
    let addr = locked_allocate(&mut a, l);
    let before = a.free_nodes();
    locked_dealloc(&mut a, NULL, l);
    assert_eq!(a.free_nodes(), before);
    locked_dealloc(&mut a, addr, l);
    assert_eq!(a.free_nodes().len(), before.len() + 1);
    assert_eq!(a.free_nodes()[0].addr, addr);
}

#[test]
fn with_lock_runs_the_closure_on_the_value() {
    let locked = rikualloc::mutex::Locked::new(41usize);
    let seen = locked.with_lock(|v| {
        *v += 1;
        *v
    });
    assert_eq!(seen, 42);
}

#[test]
fn with_lock_keeps_what_the_closure_wrote() {
    let locked = rikualloc::mutex::Locked::new(vec![1usize]);
    locked.with_lock(|v| v.push(2));
    locked.with_lock(|v| v.push(3));
    assert_eq!(locked.with_lock(|v| v.clone()), vec![1, 2, 3]);
}

#[test]
fn with_lock_releases_the_lock() {
    let locked = rikualloc::mutex::Locked::new(0usize);
    for i in 0..100 {
        assert_eq!(locked.with_lock(|v| { *v += 1; *v }), i + 1);
    }
}

#[test]
fn spin_mutex_guards_its_value() {
    let m = rikualloc::mutex::SpinMutex::new(5usize);
    {
        let mut guard = m.lock();
        *guard += 1;
    }
    assert_eq!(*m.lock(), 6);
}

#[test]
fn locked_allocator_serves_through_the_lock() {
    let locked = rikualloc::mutex::Locked::new(FreeList::new(StaticBuffer::<8192>::new()));
    let l = Layout::from_size_align(64, 16).unwrap();
    let first = locked.with_lock(|a| locked_allocate(a, l));
    let second = locked.with_lock(|a| locked_allocate(a, l));
    assert_ne!(first, NULL);
    assert_eq!(second, first + 64);
    locked.with_lock(|a| locked_dealloc(a, first, l));
    assert_eq!(locked.with_lock(|a| locked_allocate(a, l)), first);
}
