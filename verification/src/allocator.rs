use vstd::prelude::*;
use vstd::arithmetic::power2::pow2;
use crate::regions_array::{
    covers_addr, insert_result, lemma_insert_keeps_others, lemma_insert_merges, lemma_insert_result, lemma_subtract_all,
    lemma_subtract_all_len, lemma_subtract_all_member_len, loses_no_point, loses_point, meets_none, sorted_disjoint, subtract_all,
    MemoryRegion, RegionsArray, RegionsArrayError,
};

verus! {

/// Errors reported by [`PhysicalMemoryAllocator`] and [`PhysicalMemoryRegion`].
#[derive(Clone, Copy, Debug, PartialEq, Eq, Structural)]
pub enum PhysicalMemoryAllocatorError {
    ZeroSize,
    InvalidRegionSize,
    InvalidAlignment,
    AddressOverflow,
    OutOfMemory,
    UsedRegionsStorageFull,
    RegionWasNotAllocated,
    RegionsArray(RegionsArrayError),
}

/// A range of physical addresses, both ends included.
#[derive(Clone, Copy, Debug, PartialEq, Eq, Structural)]
pub struct PhysicalMemoryRegion {
    pub start_addr: usize,
    pub end_addr: usize,
}

/// A region handed out by [`PhysicalMemoryAllocator::allocate_region`]; it is
/// given back by [`PhysicalMemoryAllocator::free_region`].
#[derive(Debug, PartialEq, Eq)]
pub struct AllocatedPhysicalMemoryRegion {
    region: PhysicalMemoryRegion,
}

/// Hands out aligned regions from `free_regions` and records them in
/// `used_regions`.
pub struct PhysicalMemoryAllocator {
    pub free_regions: RegionsArray,
    pub used_regions: RegionsArray,
}

/// `x` is `2^k` for some `k`.
pub open spec fn is_power_of_two_spec(x: int) -> bool {
    exists|k: nat| pow2(k) == x
}

/// The smallest multiple of `align` that is not below `value`.
pub open spec fn next_multiple(value: int, align: int) -> int {
    if value % align == 0 {
        value
    } else {
        value + (align - value % align)
    }
}

/// Where an allocation of `size` bytes aligned to `align` would start in `free`.
pub open spec fn placement_start(free: MemoryRegion, align: int) -> int {
    next_multiple(free.left_border as int, align)
}

/// The last address such an allocation would take.
pub open spec fn placement_end(free: MemoryRegion, size: int, align: int) -> int {
    placement_start(free, align) + size - 1
}

pub open spec fn placement_overflows(free: MemoryRegion, size: int, align: int) -> bool {
    placement_end(free, size, align) > usize::MAX
}

pub open spec fn placement_fits(free: MemoryRegion, size: int, align: int) -> bool {
    !placement_overflows(free, size, align) && placement_end(free, size, align) <= free.right_border
}

/// The region an allocation of `size` bytes aligned to `align` takes from `free`.
pub open spec fn placement(free: MemoryRegion, size: int, align: int) -> MemoryRegion {
    MemoryRegion {
        left_border: placement_start(free, align) as usize,
        right_border: placement_end(free, size, align) as usize,
    }
}

/// The first index from `i` on where the search for a place stops: the
/// allocation fits there, or its addresses would overflow. The length when
/// there is none.
pub open spec fn first_stop(s: Seq<MemoryRegion>, size: int, align: int, i: int) -> int
    decreases s.len() - i,
{
    if i < 0 || i >= s.len() {
        s.len() as int
    } else if placement_overflows(s[i], size, align) || placement_fits(s[i], size, align) {
        i
    } else {
        first_stop(s, size, align, i + 1)
    }
}

pub open spec fn as_memory_region(region: PhysicalMemoryRegion) -> MemoryRegion {
    MemoryRegion { left_border: region.start_addr, right_border: region.end_addr }
}

/// `region`, widened by one address at each end where a region of `free`
/// ends or starts right next to it.
pub open spec fn widened(free: Seq<MemoryRegion>, region: MemoryRegion) -> MemoryRegion {
    MemoryRegion {
        left_border: if exists|i: int|
            0 <= i < free.len() && #[trigger] free[i].right_border + 1 == region.left_border {
            (region.left_border - 1) as usize
        } else {
            region.left_border
        },
        right_border: if exists|i: int|
            0 <= i < free.len() && #[trigger] free[i].left_border == region.right_border + 1 {
            (region.right_border + 1) as usize
        } else {
            region.right_border
        },
    }
}

impl PhysicalMemoryAllocator {
    pub open spec fn well_formed(&self) -> bool {
        self.free_regions.well_formed() && self.used_regions.well_formed()
    }

    /// What `allocate_region(size, align)` does to `pre`, giving `post` and `r`.
    pub open spec fn allocate_outcome(
        pre: PhysicalMemoryAllocator,
        size: usize,
        align: usize,
        post: PhysicalMemoryAllocator,
        r: Result<AllocatedPhysicalMemoryRegion, PhysicalMemoryAllocatorError>,
    ) -> bool {
        let free = pre.free_regions@;
        let used = pre.used_regions@;
        let unchanged = post.free_regions@ == free && post.used_regions@ == used;
        let i = first_stop(free, size as int, align as int, 0);
        let taken = placement(free[i], size as int, align as int);
        &&& post.free_regions.cap() == pre.free_regions.cap()
        &&& post.used_regions.cap() == pre.used_regions.cap()
        &&& post.well_formed()
        &&& if size == 0 {
            r == Err::<AllocatedPhysicalMemoryRegion, _>(PhysicalMemoryAllocatorError::ZeroSize)
                && unchanged
        } else if size < 2 {
            r == Err::<AllocatedPhysicalMemoryRegion, _>(
                PhysicalMemoryAllocatorError::InvalidRegionSize,
            ) && unchanged
        } else if !is_power_of_two_spec(align as int) {
            r == Err::<AllocatedPhysicalMemoryRegion, _>(
                PhysicalMemoryAllocatorError::InvalidAlignment,
            ) && unchanged
        } else if used.len() >= pre.used_regions.cap() {
            r == Err::<AllocatedPhysicalMemoryRegion, _>(
                PhysicalMemoryAllocatorError::UsedRegionsStorageFull,
            ) && unchanged
        } else if i == free.len() {
            r == Err::<AllocatedPhysicalMemoryRegion, _>(PhysicalMemoryAllocatorError::OutOfMemory)
                && unchanged
        } else if placement_overflows(free[i], size as int, align as int) {
            r == Err::<AllocatedPhysicalMemoryRegion, _>(
                PhysicalMemoryAllocatorError::AddressOverflow,
            ) && unchanged
        } else if subtract_all(free, taken).len() > pre.free_regions.cap() {
            r == Err::<AllocatedPhysicalMemoryRegion, _>(
                PhysicalMemoryAllocatorError::RegionsArray(RegionsArrayError::StorageFull),
            ) && unchanged
        } else {
            &&& r matches Ok(a) && a@ == PhysicalMemoryRegion {
                start_addr: taken.left_border,
                end_addr: taken.right_border,
            }
            &&& post.free_regions@ == subtract_all(free, taken)
            &&& post.used_regions@ == insert_result(used, taken)
        }
    }

    /// What `free_region` of `region` does to `pre`, giving `post` and `r`.
    pub open spec fn free_outcome(
        pre: PhysicalMemoryAllocator,
        region: PhysicalMemoryRegion,
        post: PhysicalMemoryAllocator,
        r: Result<(), PhysicalMemoryAllocatorError>,
    ) -> bool {
        let free = pre.free_regions@;
        let used = pre.used_regions@;
        let unchanged = post.free_regions@ == free && post.used_regions@ == used;
        let returned = as_memory_region(region);
        let joined = widened(free, returned);
        &&& post.free_regions.cap() == pre.free_regions.cap()
        &&& post.used_regions.cap() == pre.used_regions.cap()
        &&& post.well_formed()
        &&& if !used.contains(returned) {
            r == Err::<(), _>(PhysicalMemoryAllocatorError::RegionWasNotAllocated) && unchanged
        } else if meets_none(free, joined) && free.len() >= pre.free_regions.cap() {
            r == Err::<(), _>(
                PhysicalMemoryAllocatorError::RegionsArray(RegionsArrayError::StorageFull),
            ) && unchanged
        } else {
            &&& r == Ok::<(), PhysicalMemoryAllocatorError>(())
            &&& post.free_regions@ == insert_result(free, joined)
            &&& post.used_regions@ == subtract_all(used, returned)
        }
    }
}


impl View for AllocatedPhysicalMemoryRegion {
    type V = PhysicalMemoryRegion;

    closed spec fn view(&self) -> PhysicalMemoryRegion {
        self.region
    }
}

impl AllocatedPhysicalMemoryRegion {
    #[verifier::type_invariant]
    spec fn inv(self) -> bool {
        self.region.start_addr < self.region.end_addr
    }

    pub fn region(&self) -> (r: PhysicalMemoryRegion)
        ensures
            r == self@,
    {
        self.region
    }

    pub fn start_addr(&self) -> (r: usize)
        ensures
            r == self@.start_addr,
    {
        self.region.start_addr
    }

    pub fn end_addr(&self) -> (r: usize)
        ensures
            r == self@.end_addr,
    {
        self.region.end_addr
    }

    /// The distance from the first to the last address of the region.
    pub fn size(&self) -> (r: usize)
        ensures
            self@.start_addr < self@.end_addr,
            r == self@.end_addr - self@.start_addr,
    {
        proof {
            use_type_invariant(self);
        }
        self.region.end_addr - self.region.start_addr
    }
}

impl PhysicalMemoryRegion {
    /// The region from `start_addr` to `end_addr`, both included.
    pub fn new_inclusive(start_addr: usize, end_addr: usize) -> (r: Result<
        Self,
        PhysicalMemoryAllocatorError,
    >)
        ensures
            start_addr > end_addr ==> r == Err::<Self, PhysicalMemoryAllocatorError>(
                PhysicalMemoryAllocatorError::InvalidRegionSize,
            ),
            start_addr <= end_addr ==> r == Ok::<Self, PhysicalMemoryAllocatorError>(
                PhysicalMemoryRegion { start_addr, end_addr },
            ),
    {
        if start_addr > end_addr {
            return Err(PhysicalMemoryAllocatorError::InvalidRegionSize);
        }
        Ok(Self { start_addr, end_addr })
    }

    /// The number of addresses in the region.
    pub fn size(&self) -> (r: Result<usize, PhysicalMemoryAllocatorError>)
        ensures
            self.start_addr <= self.end_addr && self.end_addr - self.start_addr + 1 <= usize::MAX
                ==> r == Ok::<usize, PhysicalMemoryAllocatorError>(
                (self.end_addr - self.start_addr + 1) as usize,
            ),
            !(self.start_addr <= self.end_addr && self.end_addr - self.start_addr + 1
                <= usize::MAX) ==> r == Err::<usize, PhysicalMemoryAllocatorError>(
                PhysicalMemoryAllocatorError::AddressOverflow,
            ),
    {
        match self.end_addr.checked_sub(self.start_addr) {
            Some(size_minus_one) => match size_minus_one.checked_add(1) {
                Some(size) => Ok(size),
                None => Err(PhysicalMemoryAllocatorError::AddressOverflow),
            },
            None => Err(PhysicalMemoryAllocatorError::AddressOverflow),
        }
    }

    pub fn contains_addr(&self, addr: usize) -> (r: bool)
        ensures
            r == (self.start_addr <= addr && addr <= self.end_addr),
    {
        self.start_addr <= addr && addr <= self.end_addr
    }

    pub fn overlaps(&self, other: &Self) -> (r: bool)
        ensures
            r == (self.start_addr <= other.end_addr && other.start_addr <= self.end_addr),
    {
        self.start_addr <= other.end_addr && other.start_addr <= self.end_addr
    }

    /// One region ends right before the other starts.
    pub fn is_adjacent_to(&self, other: &Self) -> (r: bool)
        ensures
            r == (self.end_addr + 1 == other.start_addr || other.end_addr + 1 == self.start_addr),
    {
        let left_touches = match self.end_addr.checked_add(1) {
            Some(next) => next == other.start_addr,
            None => false,
        };
        let right_touches = match other.end_addr.checked_add(1) {
            Some(next) => next == self.start_addr,
            None => false,
        };
        left_touches || right_touches
    }
}

/// `usize::is_power_of_two` of std, which is true exactly when the value is
/// `2^k` for some `k`.
#[verifier::external_body]
fn usize_is_power_of_two(value: usize) -> (r: bool)
    ensures
        r == is_power_of_two_spec(value as int),
{
    value.is_power_of_two()
}

/// Rounds `value` up to a multiple of `align`, which must be a power of two.
pub fn align_up(value: usize, align: usize) -> (r: Result<usize, PhysicalMemoryAllocatorError>)
    ensures
        !is_power_of_two_spec(align as int) ==> r == Err::<usize, PhysicalMemoryAllocatorError>(
            PhysicalMemoryAllocatorError::InvalidAlignment,
        ),
        is_power_of_two_spec(align as int) && next_multiple(value as int, align as int)
            > usize::MAX ==> r == Err::<usize, PhysicalMemoryAllocatorError>(
            PhysicalMemoryAllocatorError::AddressOverflow,
        ),
        is_power_of_two_spec(align as int) && next_multiple(value as int, align as int)
            <= usize::MAX ==> r == Ok::<usize, PhysicalMemoryAllocatorError>(
            next_multiple(value as int, align as int) as usize,
        ),
{
    if align == 0 || !usize_is_power_of_two(align) {
        proof {
            if align == 0 && is_power_of_two_spec(align as int) {
                let k = choose|k: nat| pow2(k) == align as int;
                vstd::arithmetic::power2::lemma_pow2_pos(k);
            }
        }
        return Err(PhysicalMemoryAllocatorError::InvalidAlignment);
    }
    let rem = value % align;
    if rem == 0 {
        return Ok(value);
    }
    match value.checked_add(align - rem) {
        Some(aligned) => Ok(aligned),
        None => Err(PhysicalMemoryAllocatorError::AddressOverflow),
    }
}


/// `region` widened by one address at each end where a free region touches it.
fn widen_to_adjacent(free_regions: &RegionsArray, region: MemoryRegion) -> (r: MemoryRegion)
    ensures
        r == widened(free_regions@, region),
{
    let ghost free = free_regions@;
    let len = free_regions.len();
    let mut left_border = region.left_border;
    let mut right_border = region.right_border;
    let mut index: usize = 0;
    while index < len
        invariant
            len == free.len(),
            free == free_regions@,
            index <= len,
            left_border == (if exists|i: int|
                0 <= i < index && #[trigger] free[i].right_border + 1 == region.left_border {
                (region.left_border - 1) as usize
            } else {
                region.left_border
            }),
            right_border == (if exists|i: int|
                0 <= i < index && #[trigger] free[i].left_border == region.right_border + 1 {
                (region.right_border + 1) as usize
            } else {
                region.right_border
            }),
        decreases len - index,
    {
        match free_regions.get(index) {
            Some(current) => {
                if current.right_border < region.left_border && current.right_border + 1
                    == region.left_border {
                    left_border = region.left_border - 1;
                }
                if region.right_border < current.left_border && current.left_border
                    == region.right_border + 1 {
                    right_border = region.right_border + 1;
                }
            },
            None => {},
        }
        index += 1;
    }
    MemoryRegion { left_border, right_border }
}

impl PhysicalMemoryAllocator {
    /// An allocator that hands out the addresses held by `free_regions` and
    /// records what it hands out in `used_regions`.
    pub fn initialize(free_regions: RegionsArray, used_regions: RegionsArray) -> (r: Self)
        ensures
            r.free_regions@ == free_regions@,
            r.used_regions@ == used_regions@,
            r.free_regions.cap() == free_regions.cap(),
            r.used_regions.cap() == used_regions.cap(),
    {
        PhysicalMemoryAllocator { free_regions, used_regions }
    }

    /// Takes `size` bytes aligned to `align` from the first free region, in
    /// address order, where they fit; the taken region moves from the free
    /// regions to the used ones. On any error nothing changes.
    pub fn allocate_region(&mut self, size: usize, align: usize) -> (r: Result<
        AllocatedPhysicalMemoryRegion,
        PhysicalMemoryAllocatorError,
    >)
        ensures
            Self::allocate_outcome(*old(self), size, align, *final(self), r),
    {
        let ghost pre = *self;
        let ghost free = self.free_regions@;
        proof {
            use_type_invariant(&self.free_regions);
            use_type_invariant(&self.used_regions);
        }
        if size == 0 {
            return Err(PhysicalMemoryAllocatorError::ZeroSize);
        }
        if size < 2 {
            return Err(PhysicalMemoryAllocatorError::InvalidRegionSize);
        }
        if align == 0 || !usize_is_power_of_two(align) {
            proof {
                if align == 0 && is_power_of_two_spec(align as int) {
                    let k = choose|k: nat| pow2(k) == align as int;
                    vstd::arithmetic::power2::lemma_pow2_pos(k);
                }
            }
            return Err(PhysicalMemoryAllocatorError::InvalidAlignment);
        }
        if self.used_regions.len() >= self.used_regions.capacity() {
            return Err(PhysicalMemoryAllocatorError::UsedRegionsStorageFull);
        }
        let len = self.free_regions.len();
        let mut index: usize = 0;
        while index < len
            invariant
                len == free.len(),
                index <= len,
                *self == pre,
                pre == *old(self),
                free == pre.free_regions@,
                pre.well_formed(),
                size >= 2,
                align > 0,
                is_power_of_two_spec(align as int),
                pre.used_regions@.len() < pre.used_regions.cap(),
                first_stop(free, size as int, align as int, 0) == first_stop(
                    free,
                    size as int,
                    align as int,
                    index as int,
                ),
            decreases len - index,
        {
            let free_region = *self.free_regions.get(index).unwrap();
            let ghost i = index as int;
            assert(free_region == free[i]);
            let start_addr = match align_up(free_region.left_border, align) {
                Ok(addr) => addr,
                Err(e) => {
                    assert(placement_overflows(free[i], size as int, align as int));
                    assert(first_stop(free, size as int, align as int, i) == i);
                    return Err(e);
                },
            };
            let end_addr = match start_addr.checked_add(size - 1) {
                Some(addr) => addr,
                None => {
                    assert(placement_overflows(free[i], size as int, align as int));
                    assert(first_stop(free, size as int, align as int, i) == i);
                    return Err(PhysicalMemoryAllocatorError::AddressOverflow);
                },
            };
            assert(!placement_overflows(free[i], size as int, align as int));
            if end_addr <= free_region.right_border {
                assert(placement_fits(free[i], size as int, align as int));
                assert(first_stop(free, size as int, align as int, i) == i);
                assert(placement(free[i], size as int, align as int) == MemoryRegion {
                    left_border: start_addr,
                    right_border: end_addr,
                });
                let internal_region = MemoryRegion { left_border: start_addr, right_border: end_addr };
                match self.free_regions.delete_region(internal_region) {
                    Ok(()) => {},
                    Err(e) => {
                        return Err(PhysicalMemoryAllocatorError::RegionsArray(e));
                    },
                }
                match self.used_regions.insert_region(internal_region) {
                    Ok(()) => {},
                    Err(e) => {
                        return Err(PhysicalMemoryAllocatorError::RegionsArray(e));
                    },
                }
                return Ok(
                    AllocatedPhysicalMemoryRegion {
                        region: PhysicalMemoryRegion { start_addr, end_addr },
                    },
                );
            }
            index += 1;
        }
        Err(PhysicalMemoryAllocatorError::OutOfMemory)
    }

    /// Gives back a region handed out before. It is removed from the used
    /// regions and added to the free ones, where it is joined with the free
    /// regions that overlap or touch it. On any error nothing changes.
    pub fn free_region(&mut self, allocated_region: AllocatedPhysicalMemoryRegion) -> (r: Result<
        (),
        PhysicalMemoryAllocatorError,
    >)
        ensures
            Self::free_outcome(*old(self), allocated_region@, *final(self), r),
    {
        proof {
            use_type_invariant(&self.free_regions);
            use_type_invariant(&self.used_regions);
        }
        let region = allocated_region.region();
        let internal_region = MemoryRegion {
            left_border: region.start_addr,
            right_border: region.end_addr,
        };
        if !self.used_regions.contains_region(internal_region) {
            return Err(PhysicalMemoryAllocatorError::RegionWasNotAllocated);
        }
        proof {
            lemma_subtract_all_member_len(self.used_regions@, internal_region);
            let k = choose|k: int|
                0 <= k < self.used_regions@.len() && self.used_regions@[k] == internal_region;
            assert(self.used_regions@[k].valid());
        }
        let joined = widen_to_adjacent(&self.free_regions, internal_region);
        match self.free_regions.insert_region(joined) {
            Ok(()) => {},
            Err(e) => {
                return Err(PhysicalMemoryAllocatorError::RegionsArray(e));
            },
        }
        match self.used_regions.delete_region(internal_region) {
            Ok(()) => {},
            Err(e) => {
                return Err(PhysicalMemoryAllocatorError::RegionsArray(e));
            },
        }
        Ok(())
    }
}


/// No address is held by a free region and a used region at once.
pub open spec fn free_and_used_apart(allocator: PhysicalMemoryAllocator) -> bool {
    forall|addr: int|
        #![trigger covers_addr(allocator.free_regions@, addr), covers_addr(allocator.used_regions@, addr)]
        !(covers_addr(allocator.free_regions@, addr) && covers_addr(allocator.used_regions@, addr))
}

/// The search for a place stops at or after `i`, either at the end or at a
/// region where the allocation fits or overflows, and not before.
proof fn lemma_first_stop(s: Seq<MemoryRegion>, size: int, align: int, i: int)
    requires
        0 <= i <= s.len(),
    ensures
        i <= first_stop(s, size, align, i) <= s.len(),
        first_stop(s, size, align, i) < s.len() ==> placement_overflows(
            s[first_stop(s, size, align, i)],
            size,
            align,
        ) || placement_fits(s[first_stop(s, size, align, i)], size, align),
    decreases s.len() - i,
{
    if i < s.len() && !(placement_overflows(s[i], size, align) || placement_fits(s[i], size, align)) {
        lemma_first_stop(s, size, align, i + 1);
    }
}

/// The next multiple is a multiple, not below the value, and less than one
/// step above it.
proof fn lemma_next_multiple(value: int, align: int)
    requires
        0 <= value,
        0 < align,
    ensures
        next_multiple(value, align) % align == 0,
        value <= next_multiple(value, align) < value + align,
{
    let q = value / align;
    let r = value % align;
    vstd::arithmetic::div_mod::lemma_fundamental_div_mod(value, align);
    if r != 0 {
        assert(value + (align - r) == align * (q + 1)) by (nonlinear_arith)
            requires
                value == align * q + r,
        ;
        vstd::arithmetic::div_mod::lemma_mod_multiples_basic(q + 1, align);
        assert((q + 1) * align == align * (q + 1)) by (nonlinear_arith);
    }
}

/// `size` addresses fit into `r` from `start` on, and `start` is a multiple of `align`.
pub open spec fn fits_at(r: MemoryRegion, size: int, align: int, start: int) -> bool {
    start % align == 0 && r.left_border <= start && start + size - 1 <= r.right_border
}

/// `start` is a multiple of `align` and not below `value`.
pub open spec fn aligned_from(value: int, align: int, start: int) -> bool {
    start % align == 0 && value <= start
}

/// No multiple of `align` at or above `value` lies below the next multiple.
proof fn lemma_next_multiple_least(value: int, align: int, m: int)
    requires
        0 <= value <= m,
        0 < align,
        m % align == 0,
    ensures
        next_multiple(value, align) <= m,
{
    let q = value / align;
    let r = value % align;
    vstd::arithmetic::div_mod::lemma_fundamental_div_mod(value, align);
    vstd::arithmetic::div_mod::lemma_fundamental_div_mod(m, align);
    let q2 = m / align;
    if r != 0 {
        assert(align * q2 > align * q) by (nonlinear_arith)
            requires
                m == align * q2,
                value == align * q + r,
                0 < r,
                value <= m,
        ;
        assert(q2 > q) by (nonlinear_arith)
            requires
                align * q2 > align * q,
                0 < align,
        ;
        assert(align * q2 >= align * (q + 1)) by (nonlinear_arith)
            requires
                q2 >= q + 1,
                0 < align,
        ;
        assert(value + (align - r) == align * (q + 1)) by (nonlinear_arith)
            requires
                value == align * q + r,
        ;
    }
}

/// Where some aligned start lets `size` addresses fit into `r`, the lowest
/// aligned start does, and the other way round.
proof fn lemma_fit_iff_placement(r: MemoryRegion, size: int, align: int)
    requires
        0 < align,
        1 <= size,
    ensures
        placement_fits(r, size, align) <==> exists|start: int| #[trigger] fits_at(r, size, align, start),
        placement_overflows(r, size, align) ==> forall|start: int|
            #[trigger] aligned_from(r.left_border as int, align, start) ==> start + size - 1
                > usize::MAX,
{
    lemma_next_multiple(r.left_border as int, align);
    if exists|start: int| #[trigger] fits_at(r, size, align, start) {
        let start = choose|start: int| #[trigger] fits_at(r, size, align, start);
        lemma_next_multiple_least(r.left_border as int, align, start);
    }
    if placement_fits(r, size, align) {
        assert(fits_at(r, size, align, next_multiple(r.left_border as int, align)));
    }
    assert forall|start: int|
        #[trigger] aligned_from(r.left_border as int, align, start) && placement_overflows(
            r,
            size,
            align,
        ) implies start + size - 1 > usize::MAX by {
        lemma_next_multiple_least(r.left_border as int, align, start);
    }
}

/// Before the index where the search stops, no region can take the allocation;
/// when it stops at the end, none can.
proof fn lemma_first_stop_skipped(s: Seq<MemoryRegion>, size: int, align: int, i: int)
    requires
        0 <= i <= s.len(),
    ensures
        forall|j: int|
            i <= j < first_stop(s, size, align, i) ==> !placement_overflows(
                #[trigger] s[j],
                size,
                align,
            ) && !placement_fits(s[j], size, align),
    decreases s.len() - i,
{
    if i < s.len() && !(placement_overflows(s[i], size, align) || placement_fits(s[i], size, align)) {
        lemma_first_stop_skipped(s, size, align, i + 1);
    }
}

/// What `allocate_region` answers, in terms of its inputs: each error comes
/// exactly on the inputs that call for it; out of memory means that no free
/// region has an aligned place for `size` addresses, and an address overflow
/// that such a place would run past the address space; a split that finds no
/// room only comes when the free array is full. When a free region has room and
/// both arrays have a free slot, the allocation succeeds, and it takes the
/// lowest aligned place of the first free region, in address order, that has one.
pub proof fn lemma_allocate_region_answers(
    pre: PhysicalMemoryAllocator,
    size: usize,
    align: usize,
    post: PhysicalMemoryAllocator,
    r: Result<AllocatedPhysicalMemoryRegion, PhysicalMemoryAllocatorError>,
)
    requires
        pre.well_formed(),
        PhysicalMemoryAllocator::allocate_outcome(pre, size, align, post, r),
    ensures
        ({
            let free = pre.free_regions@;
            let used = pre.used_regions@;
            let pow2_align = exists|k: nat| pow2(k) == align as int;
            let room_in = |i: int|
                exists|start: int| #[trigger] fits_at(free[i], size as int, align as int, start);
            &&& r == Err::<AllocatedPhysicalMemoryRegion, _>(PhysicalMemoryAllocatorError::ZeroSize)
                <==> size == 0
            &&& r == Err::<AllocatedPhysicalMemoryRegion, _>(
                PhysicalMemoryAllocatorError::InvalidRegionSize,
            ) <==> size == 1
            &&& r == Err::<AllocatedPhysicalMemoryRegion, _>(
                PhysicalMemoryAllocatorError::InvalidAlignment,
            ) <==> size >= 2 && !pow2_align
            &&& r == Err::<AllocatedPhysicalMemoryRegion, _>(
                PhysicalMemoryAllocatorError::UsedRegionsStorageFull,
            ) <==> size >= 2 && pow2_align && used.len() >= pre.used_regions.cap()
            &&& r == Err::<AllocatedPhysicalMemoryRegion, _>(
                PhysicalMemoryAllocatorError::OutOfMemory,
            ) ==> forall|i: int| 0 <= i < free.len() ==> !#[trigger] room_in(i)
            &&& r == Err::<AllocatedPhysicalMemoryRegion, _>(
                PhysicalMemoryAllocatorError::AddressOverflow,
            ) ==> (forall|i: int| 0 <= i < free.len() ==> !#[trigger] room_in(i)) && exists|i: int|
                #![trigger free[i]]
                0 <= i < free.len() && forall|start: int|
                    #[trigger] aligned_from(free[i].left_border as int, align as int, start) ==> start
                        + size - 1 > usize::MAX
            &&& r matches Err(PhysicalMemoryAllocatorError::RegionsArray(e)) ==> e
                == RegionsArrayError::StorageFull && free.len() == pre.free_regions.cap()
            &&& (size >= 2 && pow2_align && used.len() < pre.used_regions.cap() && free.len()
                < pre.free_regions.cap() && exists|i: int| 0 <= i < free.len() && #[trigger] room_in(i))
                ==> r is Ok
            &&& r matches Ok(a) ==> exists|i: int|
                0 <= i < free.len() && (#[trigger] free[i]).left_border <= a@.start_addr
                    < free[i].left_border + align && (a@.start_addr as int) % (align as int) == 0
                    && a@.end_addr == a@.start_addr + size - 1 && a@.end_addr
                    <= free[i].right_border && forall|j: int| 0 <= j < i ==> !#[trigger] room_in(j)
        }),
{
    let free = pre.free_regions@;
    let used = pre.used_regions@;
    let pow2_align = exists|k: nat| pow2(k) == align as int;
    let room_in = |i: int|
        exists|start: int| #[trigger] fits_at(free[i], size as int, align as int, start);
    if size >= 2 && pow2_align {
        assert(align > 0) by {
            let k = choose|k: nat| pow2(k) == align as int;
            vstd::arithmetic::power2::lemma_pow2_pos(k);
        }
        let i = first_stop(free, size as int, align as int, 0);
        lemma_first_stop(free, size as int, align as int, 0);
        lemma_first_stop_skipped(free, size as int, align as int, 0);
        assert forall|j: int| 0 <= j < i implies !#[trigger] room_in(j) by {
            lemma_fit_iff_placement(free[j], size as int, align as int);
        }
        if i < free.len() {
            lemma_fit_iff_placement(free[i], size as int, align as int);
            lemma_next_multiple(free[i].left_border as int, align as int);
            if placement_overflows(free[i], size as int, align as int) {
                assert forall|j: int| 0 <= j < free.len() implies !#[trigger] room_in(j) by {
                    if i < j {
                        assert(free[i].right_border < free[j].left_border);
                        assert(free[i].valid());
                        if room_in(j) {
                            let start = choose|start: int|
                                #[trigger] fits_at(free[j], size as int, align as int, start);
                            assert(aligned_from(free[i].left_border as int, align as int, start));
                            assert(start + size - 1 > usize::MAX);
                        }
                    }
                }
            } else {
                let taken = placement(free[i], size as int, align as int);
                assert(free[i].covers(taken));
                assert(sorted_disjoint(free));
                lemma_subtract_all_len(free, taken);
                if subtract_all(free, taken).len() > pre.free_regions.cap() {
                    assert(free.len() == pre.free_regions.cap());
                }
            }
        } else {
            assert forall|j: int| 0 <= j < free.len() implies !#[trigger] room_in(j) by {
                lemma_fit_iff_placement(free[j], size as int, align as int);
            }
        }
    }
}

/// An allocation that succeeds gives a region that starts at a multiple of
/// `align`, holds `size` addresses, and was free; afterwards it is used and no
/// longer free, no address became free, and the used addresses are the old
/// ones and those of the region.
pub proof fn lemma_allocation_placement(
    pre: PhysicalMemoryAllocator,
    size: usize,
    align: usize,
    post: PhysicalMemoryAllocator,
    r: Result<AllocatedPhysicalMemoryRegion, PhysicalMemoryAllocatorError>,
)
    requires
        pre.well_formed(),
        PhysicalMemoryAllocator::allocate_outcome(pre, size, align, post, r),
        r is Ok,
    ensures
        ({
            let a = r->Ok_0@;
            &&& a.start_addr % align == 0
            &&& a.end_addr - a.start_addr + 1 == size
            &&& forall|addr: int|
                a.start_addr <= addr <= a.end_addr ==> {
                    &&& covers_addr(pre.free_regions@, addr)
                    &&& !covers_addr(post.free_regions@, addr)
                    &&& covers_addr(post.used_regions@, addr)
                }
            &&& forall|addr: int|
                #![trigger covers_addr(post.free_regions@, addr)]
                covers_addr(post.free_regions@, addr) ==> covers_addr(pre.free_regions@, addr)
            &&& forall|addr: int|
                #![trigger covers_addr(pre.free_regions@, addr)]
                covers_addr(pre.free_regions@, addr) && !(a.start_addr - 1 <= addr <= a.end_addr
                    + 1) ==> covers_addr(post.free_regions@, addr)
            &&& forall|addr: int|
                #![trigger covers_addr(post.used_regions@, addr)]
                covers_addr(post.used_regions@, addr) <==> covers_addr(pre.used_regions@, addr) || (
                a.start_addr <= addr <= a.end_addr)
        }),
{
    let free = pre.free_regions@;
    let i = first_stop(free, size as int, align as int, 0);
    lemma_first_stop(free, size as int, align as int, 0);
    let taken = placement(free[i], size as int, align as int);
    assert(align > 0) by {
        let k = choose|k: nat| pow2(k) == align as int;
        vstd::arithmetic::power2::lemma_pow2_pos(k);
    }
    lemma_next_multiple(free[i].left_border as int, align as int);
    assert(free[i].covers(taken));
    assert(taken.valid());
    lemma_subtract_all(free, taken);
    crate::regions_array::lemma_subtract_all_exact(free, taken);
    lemma_insert_result(pre.used_regions@, taken);
    assert forall|addr: int| taken.has_addr(addr) implies covers_addr(free, addr) by {
        assert(free[i].has_addr(addr));
    }
}

/// Giving back an allocated region makes its addresses free, in addition to
/// the free ones, and takes them, and only them, out of the used regions.
pub proof fn lemma_free_region_effect(
    pre: PhysicalMemoryAllocator,
    region: PhysicalMemoryRegion,
    post: PhysicalMemoryAllocator,
    r: Result<(), PhysicalMemoryAllocatorError>,
)
    requires
        pre.well_formed(),
        PhysicalMemoryAllocator::free_outcome(pre, region, post, r),
        r is Ok,
    ensures
        forall|addr: int|
            #![trigger covers_addr(post.free_regions@, addr)]
            covers_addr(post.free_regions@, addr) <==> covers_addr(pre.free_regions@, addr) || (
            region.start_addr <= addr <= region.end_addr),
        forall|addr: int|
            #![trigger covers_addr(post.used_regions@, addr)]
            covers_addr(post.used_regions@, addr) <==> covers_addr(pre.used_regions@, addr) && !(
            region.start_addr <= addr <= region.end_addr),
{
    let free = pre.free_regions@;
    let used = pre.used_regions@;
    let returned = as_memory_region(region);
    let joined = widened(free, returned);
    let k = choose|k: int| 0 <= k < used.len() && used[k] == returned;
    assert(used[k].valid());
    assert(joined.valid());
    lemma_insert_result(free, joined);
    assert forall|addr: int| joined.has_addr(addr) implies covers_addr(free, addr)
        || returned.has_addr(addr) by {
        if addr < returned.left_border {
            let i = choose|i: int|
                0 <= i < free.len() && #[trigger] free[i].right_border + 1 == returned.left_border;
            assert(free[i].valid());
            assert(free[i].has_addr(addr));
        } else if addr > returned.right_border {
            let i = choose|i: int|
                0 <= i < free.len() && #[trigger] free[i].left_border == returned.right_border + 1;
            assert(free[i].valid());
            assert(free[i].has_addr(addr));
        }
    }
    assert forall|x: int| 0 <= x < used.len() implies !loses_point(#[trigger] used[x], returned) by {
        if x < k {
            assert(used[x].right_border < used[k].left_border);
        } else if x > k {
            assert(used[k].right_border < used[x].left_border);
        }
    }
    lemma_subtract_all(used, returned);
}


/// Allocating keeps free and used addresses apart.
pub proof fn lemma_allocation_keeps_apart(
    pre: PhysicalMemoryAllocator,
    size: usize,
    align: usize,
    post: PhysicalMemoryAllocator,
    r: Result<AllocatedPhysicalMemoryRegion, PhysicalMemoryAllocatorError>,
)
    requires
        pre.well_formed(),
        free_and_used_apart(pre),
        PhysicalMemoryAllocator::allocate_outcome(pre, size, align, post, r),
    ensures
        free_and_used_apart(post),
{
    if r is Ok {
        lemma_allocation_placement(pre, size, align, post, r);
        assert forall|addr: int|
            !(covers_addr(post.free_regions@, addr) && covers_addr(post.used_regions@, addr)) by {
            if covers_addr(post.free_regions@, addr) {
                assert(covers_addr(pre.free_regions@, addr));
            }
        }
    }
}

/// Giving back a region keeps free and used addresses apart.
pub proof fn lemma_free_region_keeps_apart(
    pre: PhysicalMemoryAllocator,
    region: PhysicalMemoryRegion,
    post: PhysicalMemoryAllocator,
    r: Result<(), PhysicalMemoryAllocatorError>,
)
    requires
        pre.well_formed(),
        free_and_used_apart(pre),
        PhysicalMemoryAllocator::free_outcome(pre, region, post, r),
    ensures
        free_and_used_apart(post),
{
    if r is Ok {
        lemma_free_region_effect(pre, region, post, r);
        assert forall|addr: int|
            !(covers_addr(post.free_regions@, addr) && covers_addr(post.used_regions@, addr)) by {
            if covers_addr(post.used_regions@, addr) {
                assert(covers_addr(pre.used_regions@, addr));
            }
        }
    }
}

/// A region that no used region overlaps can be found again after inserting it.
proof fn lemma_insert_apart_contains(s: Seq<MemoryRegion>, n: MemoryRegion)
    requires
        sorted_disjoint(s),
        n.valid(),
        meets_none(s, n),
    ensures
        insert_result(s, n).contains(n),
{
    crate::regions_array::lemma_insert_bounds_exist(s, n);
    let (k, j) = choose|k: int, j: int| crate::regions_array::insert_bounds(s, n, k, j);
    if k < j {
        assert(s[k].meets(n));
    }
    crate::regions_array::lemma_spliced(s, n, k, j);
    assert(insert_result(s, n)[k] == n);
}

/// Taking a region from the free ones and giving it back leaves the free and
/// the used addresses as they were, provided free and used addresses were apart
/// and the allocation left no one-address remnant of the free region it was
/// cut from.
pub proof fn lemma_allocate_then_free(
    pre: PhysicalMemoryAllocator,
    size: usize,
    align: usize,
    mid: PhysicalMemoryAllocator,
    allocated: Result<AllocatedPhysicalMemoryRegion, PhysicalMemoryAllocatorError>,
    post: PhysicalMemoryAllocator,
    freed: Result<(), PhysicalMemoryAllocatorError>,
)
    requires
        pre.well_formed(),
        free_and_used_apart(pre),
        PhysicalMemoryAllocator::allocate_outcome(pre, size, align, mid, allocated),
        allocated is Ok,
        loses_no_point(pre.free_regions@, as_memory_region(allocated->Ok_0@)),
        PhysicalMemoryAllocator::free_outcome(mid, allocated->Ok_0@, post, freed),
    ensures
        freed is Ok,
        forall|addr: int|
            #![trigger covers_addr(post.free_regions@, addr)]
            covers_addr(post.free_regions@, addr) <==> covers_addr(pre.free_regions@, addr),
        forall|addr: int|
            #![trigger covers_addr(post.used_regions@, addr)]
            covers_addr(post.used_regions@, addr) <==> covers_addr(pre.used_regions@, addr),
{
    let free = pre.free_regions@;
    let used = pre.used_regions@;
    let taken = as_memory_region(allocated->Ok_0@);
    let i = first_stop(free, size as int, align as int, 0);
    lemma_first_stop(free, size as int, align as int, 0);
    assert(taken == placement(free[i], size as int, align as int));
    lemma_allocation_placement(pre, size, align, mid, allocated);
    assert(taken.valid());
    assert forall|k: int| 0 <= k < used.len() implies !#[trigger] used[k].meets(taken) by {
        if used[k].meets(taken) {
            let addr = if used[k].left_border < taken.left_border {
                taken.left_border as int
            } else {
                used[k].left_border as int
            };
            assert(used[k].valid());
            assert(used[k].has_addr(addr));
            assert(covers_addr(used, addr));
            assert(covers_addr(free, addr));
        }
    }
    lemma_insert_apart_contains(used, taken);
    assert(mid.used_regions@.contains(taken));
    let rest = mid.free_regions@;
    let joined = widened(rest, taken);
    lemma_subtract_all(free, taken);
    assert(align > 0) by {
        let k = choose|k: nat| pow2(k) == align as int;
        vstd::arithmetic::power2::lemma_pow2_pos(k);
    }
    lemma_next_multiple(free[i].left_border as int, align as int);
    if free[i].left_border < taken.left_border {
        let a = taken.left_border - 1;
        assert(free[i].has_addr(a));
        assert(covers_addr(free, a));
        assert(covers_addr(rest, a));
        let x = choose|x: int| 0 <= x < rest.len() && #[trigger] rest[x].has_addr(a);
        if rest[x].right_border >= taken.left_border {
            assert(covers_addr(rest, taken.left_border as int)) by {
                assert(rest[x].has_addr(taken.left_border as int));
            }
        }
        assert(rest[x].right_border + 1 == taken.left_border);
        assert(rest[x].meets(joined));
    } else if taken.right_border < free[i].right_border {
        let a = taken.right_border + 1;
        assert(free[i].has_addr(a));
        assert(covers_addr(free, a));
        assert(covers_addr(rest, a));
        let x = choose|x: int| 0 <= x < rest.len() && #[trigger] rest[x].has_addr(a);
        if rest[x].left_border <= taken.right_border {
            assert(covers_addr(rest, taken.right_border as int)) by {
                assert(rest[x].has_addr(taken.right_border as int));
            }
        }
        assert(rest[x].left_border == taken.right_border + 1);
        assert(rest[x].meets(joined));
    } else {
        assert(free[i] == taken);
        lemma_subtract_all_member_len(free, taken);
    }
    lemma_free_region_effect(mid, allocated->Ok_0@, post, freed);
    assert forall|addr: int| #[trigger] covers_addr(post.free_regions@, addr) <==> covers_addr(
        free,
        addr,
    ) by {
        if taken.has_addr(addr) {
            assert(free[i].has_addr(addr));
        }
    }
    assert forall|addr: int| #[trigger] covers_addr(post.used_regions@, addr) <==> covers_addr(
        used,
        addr,
    ) by {
        assert(covers_addr(mid.used_regions@, addr) <==> covers_addr(used, addr) || taken.has_addr(
            addr,
        ));
        if taken.has_addr(addr) {
            assert(free[i].has_addr(addr));
            assert(covers_addr(free, addr));
            assert(!covers_addr(used, addr));
        }
    }
}


/// What `free_region` answers, in terms of its inputs: it refuses a region that
/// the used regions do not hold as it is, and otherwise succeeds unless the
/// free array is full; a refusal for lack of room only comes then. On success
/// every free region that neither overlaps nor touches the returned region stays
/// as it is, and one free region holds the returned region together with every
/// free region that overlapped or touched it.
pub proof fn lemma_free_region_answers(
    pre: PhysicalMemoryAllocator,
    region: PhysicalMemoryRegion,
    post: PhysicalMemoryAllocator,
    r: Result<(), PhysicalMemoryAllocatorError>,
)
    requires
        pre.well_formed(),
        PhysicalMemoryAllocator::free_outcome(pre, region, post, r),
    ensures
        ({
            let free = pre.free_regions@;
            let used = pre.used_regions@;
            let returned = MemoryRegion {
                left_border: region.start_addr,
                right_border: region.end_addr,
            };
            let touches = |f: MemoryRegion|
                f.meets(returned) || f.right_border + 1 == returned.left_border || f.left_border
                    == returned.right_border + 1;
            &&& r == Err::<(), _>(PhysicalMemoryAllocatorError::RegionWasNotAllocated)
                <==> !used.contains(returned)
            &&& r matches Err(PhysicalMemoryAllocatorError::RegionsArray(e)) ==> e
                == RegionsArrayError::StorageFull && free.len() == pre.free_regions.cap()
                && used.contains(returned)
            &&& used.contains(returned) && free.len() < pre.free_regions.cap() ==> r is Ok
            &&& r is Ok ==> forall|i: int|
                0 <= i < free.len() && !touches(#[trigger] free[i]) ==> post.free_regions@.contains(
                    free[i],
                )
            &&& r is Ok ==> exists|x: int|
                0 <= x < post.free_regions@.len() && (#[trigger] post.free_regions@[x]).covers(
                    returned,
                ) && forall|i: int|
                    0 <= i < free.len() && touches(#[trigger] free[i])
                        ==> post.free_regions@[x].covers(free[i])
        }),
{
    let free = pre.free_regions@;
    let used = pre.used_regions@;
    let returned = as_memory_region(region);
    let joined = widened(free, returned);
    if used.contains(returned) {
        let k = choose|k: int| 0 <= k < used.len() && used[k] == returned;
        assert(used[k].valid());
        assert(joined.valid());
        lemma_insert_keeps_others(free, joined);
        lemma_insert_merges(free, joined);
        let res = insert_result(free, joined);
        assert forall|i: int|
            0 <= i < free.len() && !(#[trigger] free[i]).meets(returned) && free[i].right_border + 1
                != returned.left_border && free[i].left_border != returned.right_border
                + 1 implies !free[i].meets(joined) by {
            assert(free[i].valid());
            if free[i].meets(joined) {
                if joined.left_border < returned.left_border {
                    let w = choose|w: int|
                        0 <= w < free.len() && #[trigger] free[w].right_border + 1
                            == returned.left_border;
                    assert(free[w].valid());
                    if w != i {
                        if w < i {
                            assert(free[w].right_border < free[i].left_border);
                        } else {
                            assert(free[i].right_border < free[w].left_border);
                        }
                    }
                }
                if joined.right_border > returned.right_border {
                    let w = choose|w: int|
                        0 <= w < free.len() && #[trigger] free[w].left_border
                            == returned.right_border + 1;
                    assert(free[w].valid());
                    if w != i {
                        if w < i {
                            assert(free[w].right_border < free[i].left_border);
                        } else {
                            assert(free[i].right_border < free[w].left_border);
                        }
                    }
                }
            }
        }
        assert forall|i: int|
            0 <= i < free.len() && ((#[trigger] free[i]).meets(returned) || free[i].right_border + 1
                == returned.left_border || free[i].left_border == returned.right_border
                + 1) implies free[i].meets(joined) by {
            assert(free[i].valid());
        }
    }
}

} // verus!
