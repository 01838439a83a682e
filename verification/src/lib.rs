//! Physical memory bookkeeping: sorted arrays of disjoint address regions and
//! an allocator that carves aligned regions out of the free ones.

pub mod allocator;
pub mod global;
pub mod regions_array;

pub use allocator::{
    align_up, AllocatedPhysicalMemoryRegion, PhysicalMemoryAllocator, PhysicalMemoryAllocatorError,
    PhysicalMemoryRegion,
};
pub use global::GlobalPhysicalMemoryAllocator;
pub use regions_array::{
    MemoryRegion, OverlapRegionIds, RegionsArray, RegionsArrayError, SubtractResult,
};
