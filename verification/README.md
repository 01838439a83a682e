# rvoid_core

Physical memory bookkeeping for the rvoid kernel, verified with Verus.

- `src/regions_array.rs` — `MemoryRegion` and `RegionsArray`, a bounded array of
  address regions kept sorted, valid and pairwise apart. Inserting merges
  overlapping regions; deleting cuts a region out, trimming or splitting what it
  overlaps. The module also holds the laws on the addresses the array holds.
- `src/allocator.rs` — `PhysicalMemoryAllocator`, which hands out aligned
  regions from its free regions and records them as used, and gives them back.
  The laws state where an allocation lands, what a release restores, and that
  free and used addresses stay apart.
- `src/global.rs` — `GlobalPhysicalMemoryAllocator`, the allocator that is
  installed once.
- `app/` — the process-wide allocator behind a lock and the generators of the
  firmware entry point.
