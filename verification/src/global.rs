use vstd::prelude::*;
use crate::allocator::{
    AllocatedPhysicalMemoryRegion, PhysicalMemoryAllocator, PhysicalMemoryAllocatorError,
};

verus! {

/// The one allocator of the system: empty until it is initialized once, then
/// every allocation and release goes through it.
pub struct GlobalPhysicalMemoryAllocator {
    inner: Option<PhysicalMemoryAllocator>,
}

impl GlobalPhysicalMemoryAllocator {
    pub closed spec fn initialized(&self) -> bool {
        self.inner is Some
    }

    /// The allocator held once initialized.
    pub closed spec fn allocator(&self) -> PhysicalMemoryAllocator {
        self.inner->Some_0
    }

    /// A global allocator that holds no allocator yet.
    pub fn uninit() -> (r: Self)
        ensures
            !r.initialized(),
    {
        Self { inner: None }
    }

    pub fn is_initialized(&self) -> (r: bool)
        ensures
            r == self.initialized(),
    {
        self.inner.is_some()
    }

    /// Installs `allocator`; this may happen only once.
    pub fn init(&mut self, allocator: PhysicalMemoryAllocator)
        requires
            !old(self).initialized(),
        ensures
            final(self).initialized(),
            final(self).allocator() == allocator,
    {
        self.inner = Some(allocator);
    }

    /// `allocate_region` on the installed allocator.
    pub fn allocate_region(&mut self, size: usize, align: usize) -> (r: Result<
        AllocatedPhysicalMemoryRegion,
        PhysicalMemoryAllocatorError,
    >)
        requires
            old(self).initialized(),
        ensures
            final(self).initialized(),
            PhysicalMemoryAllocator::allocate_outcome(
                old(self).allocator(),
                size,
                align,
                final(self).allocator(),
                r,
            ),
    {
        match &mut self.inner {
            Some(allocator) => allocator.allocate_region(size, align),
            None => Err(PhysicalMemoryAllocatorError::OutOfMemory),
        }
    }

    /// `free_region` on the installed allocator.
    pub fn free_region(&mut self, region: AllocatedPhysicalMemoryRegion) -> (r: Result<
        (),
        PhysicalMemoryAllocatorError,
    >)
        requires
            old(self).initialized(),
        ensures
            final(self).initialized(),
            PhysicalMemoryAllocator::free_outcome(
                old(self).allocator(),
                region@,
                final(self).allocator(),
                r,
            ),
    {
        match &mut self.inner {
            Some(allocator) => allocator.free_region(region),
            None => Err(PhysicalMemoryAllocatorError::RegionWasNotAllocated),
        }
    }
}

} // verus!
