//! A lock around an allocator or a source, and what a locked allocator
//! answers to an interface that speaks in addresses and knows no `Option`.

use crate::allocator::MutAllocator;
use crate::layout::Layout;
use vstd::prelude::*;

verus! {

/// The spin lock of the crate `spin`. Nothing is known of what it holds.
#[verifier::external_type_specification]
#[verifier::external_body]
#[verifier::reject_recursive_types(T)]
#[verifier::reject_recursive_types(R)]
pub struct ExMutex<T: ?Sized, R>(spin::mutex::Mutex<T, R>);

/// The way in which `spin`'s lock waits: by spinning.
#[verifier::external_type_specification]
#[verifier::external_body]
pub struct ExSpin(spin::relax::Spin);

/// The guard of `spin`'s lock: while it lives the lock is held.
#[verifier::external_type_specification]
#[verifier::external_body]
#[verifier::reject_recursive_types(T)]
pub struct ExMutexGuard<'a, T: 'a + ?Sized>(spin::mutex::MutexGuard<'a, T>);

/// A spin lock around a value.
#[verifier::reject_recursive_types(T)]
pub struct SpinMutex<T> {
    inner: spin::mutex::Mutex<T, spin::relax::Spin>,
}

impl<T> SpinMutex<T> {
    /// A lock around `value`. Calls `spin::mutex::Mutex::new`; nothing is
    /// claimed of the result.
    #[verifier::external_body]
    pub fn new(value: T) -> (m: Self) {
        SpinMutex { inner: spin::mutex::Mutex::new(value) }
    }

    /// Waits until the lock is free and takes it. The lock is held until the
    /// guard is dropped. Calls `spin::mutex::Mutex::lock`; nothing is claimed
    /// of the value under the lock, which another holder may have changed.
    /// It does not return while the lock is held, so a holder must not call
    /// it again.
    #[verifier::external_body]
    pub fn lock(&self) -> (guard: spin::mutex::MutexGuard<'_, T>) {
        self.inner.lock()
    }
}

/// The value under the lock that `guard` holds. Calls the guard's
/// `DerefMut::deref_mut`; nothing is claimed of the value.
#[verifier::external_body]
fn guarded<'a, 'b, T>(guard: &'a mut spin::mutex::MutexGuard<'b, T>) -> (value: &'a mut T) {
    &mut **guard
}

/// A value that is reached only while its lock is held.
#[verifier::reject_recursive_types(T)]
pub struct Locked<T> {
    inner: SpinMutex<T>,
}

impl<T> Locked<T> {
    /// A lock around `value`.
    pub fn new(value: T) -> (l: Self) {
        Locked { inner: SpinMutex::new(value) }
    }

    /// Takes the lock, runs `f` on the value under it and releases the lock.
    /// Since other holders may have changed the value, `f` must take every
    /// value. The result is what `f` gave for the value it found.
    pub fn with_lock<R>(&self, f: impl FnOnce(&mut T) -> R) -> (r: R)
        requires
            forall|value: &mut T| call_requires(f, (value,)),
        ensures
            exists|value: &mut T| call_ensures(f, (value,), r),
    {
        let mut guard = self.inner.lock();
        let value = guarded(&mut guard);
        f(value)
    }
}

/// The address that stands for no block.
pub const NULL: usize = 0;

/// Allocates from `allocator` and gives the address of the block, or `NULL`
/// where the allocator has none to give. This is what a locked allocator
/// does for an allocation while it holds its lock.
pub fn locked_allocate<A: MutAllocator>(allocator: &mut A, layout: Layout) -> (addr: usize)
    requires
        old(allocator).wf(),
    ensures
        final(allocator).wf(),
        layout.size() == 0 ==> addr != NULL,
        addr != NULL ==> {
            &&& crate::align::is_aligned(addr as int, layout.align() as int)
            &&& addr + layout.size() <= usize::MAX
            &&& forall|e: (usize, Layout)| #[trigger]
                old(allocator).allocated().contains(e) ==> crate::allocator::live_block(
                    e,
                ).disjoint(crate::layout::Block { addr, len: layout.size() })
            &&& final(allocator).allocated() == if layout.size() > 0 {
                old(allocator).allocated().insert((addr, layout))
            } else {
                old(allocator).allocated()
            }
        },
        addr == NULL ==> final(allocator).allocated() == old(allocator).allocated(),
{
    match allocator.allocate(layout) {
        Some(block) => block.addr,
        None => NULL,
    }
}

/// Gives the block at `addr` back to `allocator`, unless `addr` is `NULL`,
/// which stands for no block. This is what a locked allocator does for a
/// deallocation while it holds its lock.
pub fn locked_dealloc<A: MutAllocator>(allocator: &mut A, addr: usize, layout: Layout)
    requires
        old(allocator).wf(),
        addr != NULL && layout.size() > 0 ==> old(allocator).allocated().contains((addr, layout)),
    ensures
        final(allocator).wf(),
        final(allocator).allocated() == if addr != NULL && layout.size() > 0 {
            old(allocator).allocated().remove((addr, layout))
        } else {
            old(allocator).allocated()
        },
        addr == NULL ==> *final(allocator) == *old(allocator),
{
    if addr != NULL {
        allocator.dealloc(addr, layout);
    }
}

} // verus!
