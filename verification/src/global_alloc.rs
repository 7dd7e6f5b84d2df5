//! The kernel's global allocator: the heap's free-list allocator behind the
//! allocation interfaces the rest of the kernel uses.
use crate::heap::{allocation, can_release, deallocation, AllocError, FreeListHeapAllocator};
use vstd::prelude::*;

verus! {

/// The allocator that serves the kernel's allocations.
pub struct AllocatorWrapper(pub FreeListHeapAllocator);

impl AllocatorWrapper {
    /// Allocates `size` bytes aligned to `align`: the block's address and
    /// length, as `FreeListHeapAllocator::allocate` gives them.
    pub fn allocate(&mut self, size: usize, align: usize) -> (r: Result<(usize, usize), AllocError>)
        requires
            old(self).0.wf(),
            0 < align <= usize::MAX / 2 + 1,
        ensures
            allocation(old(self).0, final(self).0, size, align, r),
    {
        self.0.allocate(size, align)
    }

    /// Gives back the block of `size` bytes at `address`.
    pub fn deallocate(&mut self, address: usize, size: usize)
        requires
            old(self).0.wf(),
            can_release(old(self).0, address, size),
        ensures
            deallocation(old(self).0, final(self).0, address, size),
    {
        self.0.deallocate(address, size)
    }

    /// Allocates `size` bytes aligned to `align` and returns their address, or
    /// 0 (a null pointer) when no free region has room for the block.
    pub fn alloc_address(&mut self, size: usize, align: usize) -> (p: usize)
        requires
            old(self).0.wf(),
            0 < align <= usize::MAX / 2 + 1,
        ensures
            exists|r: Result<(usize, usize), AllocError>|
                allocation(old(self).0, final(self).0, size, align, r) && p == match r {
                    Ok(b) => b.0,
                    Err(_) => 0usize,
                },
    {
        let r = self.0.allocate(size, align);
        assert(allocation(old(self).0, final(self).0, size, align, r));
        match r {
            Ok((p, _)) => p,
            Err(_) => 0,
        }
    }

    /// Gives back the block of `size` bytes at `ptr`.
    pub fn dealloc(&mut self, ptr: usize, size: usize)
        requires
            old(self).0.wf(),
            can_release(old(self).0, ptr, size),
        ensures
            deallocation(old(self).0, final(self).0, ptr, size),
    {
        self.0.deallocate(ptr, size)
    }
}

/// Makes `ga` the allocator behind the global allocator.
pub fn init_global_allocator(global: &mut AllocatorWrapper, ga: FreeListHeapAllocator)
    ensures
        final(global).0 == ga,
{
    global.0 = ga;
}

} // verus!
