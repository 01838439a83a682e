use vstd::prelude::*;
use vstd::layout::{align_of, layout_for_type_is_valid};

verus! {

/// Errors reported by [`RegionsArray`] and [`MemoryRegion`].
#[derive(Clone, Copy, Debug, PartialEq, Eq, Structural)]
pub enum RegionsArrayError {
    NullPointer,
    ZeroCapacity,
    UnalignedPointer,
    StorageFull,
    IndexOutOfBounds,
    InvalidRegion,
    InvalidState,
}

/// A closed interval of addresses `[left_border, right_border]`.
#[derive(Clone, Copy, Debug, PartialEq, Eq, Structural)]
pub struct MemoryRegion {
    pub left_border: usize,
    pub right_border: usize,
}

/// What is left of a region after another region is cut out of it.
#[derive(Clone, Copy, Debug, PartialEq, Eq, Structural)]
pub enum SubtractResult {
    Empty,
    One(MemoryRegion),
    Two(MemoryRegion, MemoryRegion),
}

impl MemoryRegion {
    /// Valid regions hold at least two addresses.
    pub open spec fn valid(self) -> bool {
        self.left_border < self.right_border
    }

    pub open spec fn has_addr(self, addr: int) -> bool {
        self.left_border <= addr <= self.right_border
    }

    /// `other` lies inside `self`.
    pub open spec fn covers(self, other: MemoryRegion) -> bool {
        self.left_border <= other.left_border && other.right_border <= self.right_border
    }

    pub open spec fn meets(self, other: MemoryRegion) -> bool {
        self.left_border <= other.right_border && other.left_border <= self.right_border
    }

    /// The part of `self` left of `deleted`, if it is a valid region.
    pub open spec fn left_piece(self, deleted: MemoryRegion) -> Option<MemoryRegion> {
        if deleted.left_border > self.left_border && self.left_border < deleted.left_border - 1 {
            Some(MemoryRegion { left_border: self.left_border, right_border: (deleted.left_border - 1) as usize })
        } else {
            None
        }
    }

    /// The part of `self` right of `deleted`, if it is a valid region.
    pub open spec fn right_piece(self, deleted: MemoryRegion) -> Option<MemoryRegion> {
        if deleted.right_border < self.right_border && deleted.right_border + 1 < self.right_border {
            Some(MemoryRegion { left_border: (deleted.right_border + 1) as usize, right_border: self.right_border })
        } else {
            None
        }
    }

    /// The result of cutting `deleted` out of `self`.
    pub open spec fn minus(self, deleted: MemoryRegion) -> SubtractResult {
        if !self.meets(deleted) {
            SubtractResult::One(self)
        } else if deleted.covers(self) {
            SubtractResult::Empty
        } else {
            SubtractResult::combine(self.left_piece(deleted), self.right_piece(deleted))
        }
    }

    pub fn is_valid(&self) -> (r: bool)
        ensures
            r == self.valid(),
    {
        self.left_border < self.right_border
    }

    pub fn contains_addr(&self, addr: usize) -> (r: bool)
        ensures
            r == self.has_addr(addr as int),
    {
        self.left_border <= addr && addr <= self.right_border
    }

    pub fn contains_region(&self, region: &MemoryRegion) -> (r: bool)
        ensures
            r == self.covers(*region),
    {
        self.left_border <= region.left_border && region.right_border <= self.right_border
    }

    pub fn overlaps(&self, region: &MemoryRegion) -> (r: bool)
        ensures
            r == self.meets(*region),
    {
        self.left_border <= region.right_border && region.left_border <= self.right_border
    }

    /// Builds a region, refusing one that is not valid.
    pub fn new(left_border: usize, right_border: usize) -> (r: Result<Self, RegionsArrayError>)
        ensures
            left_border < right_border ==> r == Ok::<MemoryRegion, RegionsArrayError>(
                MemoryRegion { left_border, right_border },
            ),
            left_border >= right_border ==> r == Err::<MemoryRegion, RegionsArrayError>(
                RegionsArrayError::InvalidRegion,
            ),
    {
        let region = Self { left_border, right_border };
        if !region.is_valid() {
            return Err(RegionsArrayError::InvalidRegion);
        }
        Ok(region)
    }

    pub fn valid_or_none(left_border: usize, right_border: usize) -> (r: Option<Self>)
        ensures
            left_border < right_border ==> r == Some(MemoryRegion { left_border, right_border }),
            left_border >= right_border ==> r is None,
    {
        let region = Self { left_border, right_border };
        if region.is_valid() {
            Some(region)
        } else {
            None
        }
    }

    /// Cuts `deleted` out of `self`. Pieces that would hold a single address
    /// are dropped.
    pub fn subtract(&self, deleted: &MemoryRegion) -> (r: Result<SubtractResult, RegionsArrayError>)
        ensures
            !self.valid() || !deleted.valid() ==> r == Err::<SubtractResult, RegionsArrayError>(
                RegionsArrayError::InvalidRegion,
            ),
            self.valid() && deleted.valid() ==> r == Ok::<SubtractResult, RegionsArrayError>(
                self.minus(*deleted),
            ),
            r matches Ok(res) ==> forall|a: int|
                #![trigger covers_addr(res.pieces(), a)]
                covers_addr(res.pieces(), a) <==> self.has_addr(a) && !deleted.has_addr(a) && !(
                self.meets(*deleted) && ((a == self.left_border && a + 1 == deleted.left_border)
                    || (a == self.right_border && a == deleted.right_border + 1))),
            r matches Ok(res) ==> forall|p: int|
                0 <= p < res.pieces().len() ==> (#[trigger] res.pieces()[p]).valid() && (
                res.pieces()[p].left_border == self.left_border || res.pieces()[p].left_border
                    == deleted.right_border + 1) && (res.pieces()[p].right_border
                    == self.right_border || res.pieces()[p].right_border == deleted.left_border
                    - 1),
    {
        if !self.is_valid() || !deleted.is_valid() {
            return Err(RegionsArrayError::InvalidRegion);
        }
        proof {
            lemma_minus_pieces(*self, *deleted);
        }
        if !self.overlaps(deleted) {
            return Ok(SubtractResult::One(*self));
        }
        if deleted.contains_region(self) {
            return Ok(SubtractResult::Empty);
        }
        let left = if deleted.left_border > self.left_border {
            MemoryRegion::valid_or_none(self.left_border, deleted.left_border - 1)
        } else {
            None
        };
        let right = if deleted.right_border < self.right_border {
            MemoryRegion::valid_or_none(deleted.right_border + 1, self.right_border)
        } else {
            None
        };
        Ok(SubtractResult::from_parts(left, right))
    }
}

impl SubtractResult {
    pub open spec fn combine(left: Option<MemoryRegion>, right: Option<MemoryRegion>) -> SubtractResult {
        match (left, right) {
            (Option::None, Option::None) => SubtractResult::Empty,
            (Some(region), Option::None) => SubtractResult::One(region),
            (Option::None, Some(region)) => SubtractResult::One(region),
            (Some(l), Some(r)) => SubtractResult::Two(l, r),
        }
    }

    /// The regions held, in address order.
    pub open spec fn pieces(self) -> Seq<MemoryRegion> {
        match self {
            SubtractResult::Empty => Seq::empty(),
            SubtractResult::One(region) => seq![region],
            SubtractResult::Two(l, r) => seq![l, r],
        }
    }

    pub fn from_parts(left: Option<MemoryRegion>, right: Option<MemoryRegion>) -> (r: Self)
        ensures
            r == Self::combine(left, right),
    {
        match (left, right) {
            (Option::None, Option::None) => Self::Empty,
            (Some(region), Option::None) => Self::One(region),
            (Option::None, Some(region)) => Self::One(region),
            (Some(l), Some(r)) => Self::Two(l, r),
        }
    }
}


/// The first and the last index of the regions that overlap a given region.
#[derive(Clone, Copy, Debug, PartialEq, Eq)]
pub struct OverlapRegionIds {
    pub left_border_region_id: Option<usize>,
    pub right_border_region_id: Option<usize>,
}

/// Regions in increasing address order, each valid, with a gap between any two.
pub open spec fn sorted_disjoint(s: Seq<MemoryRegion>) -> bool {
    &&& forall|i: int| 0 <= i < s.len() ==> #[trigger] s[i].valid()
    &&& forall|i: int, j: int|
        0 <= i < j < s.len() ==> #[trigger] s[i].right_border < #[trigger] s[j].left_border
}

/// Some region of `s` holds `addr`.
pub open spec fn covers_addr(s: Seq<MemoryRegion>, addr: int) -> bool {
    exists|i: int| 0 <= i < s.len() && #[trigger] s[i].has_addr(addr)
}

/// No region of `s` overlaps `n`.
pub open spec fn meets_none(s: Seq<MemoryRegion>, n: MemoryRegion) -> bool {
    forall|i: int| 0 <= i < s.len() ==> !#[trigger] s[i].meets(n)
}

/// `s[0..k]` lies left of `n`, `s[k..j]` overlaps `n`, `s[j..]` lies right of `n`.
pub open spec fn insert_bounds(s: Seq<MemoryRegion>, n: MemoryRegion, k: int, j: int) -> bool {
    &&& 0 <= k <= j <= s.len()
    &&& forall|i: int| 0 <= i < k ==> #[trigger] s[i].right_border < n.left_border
    &&& forall|i: int| k <= i < j ==> #[trigger] s[i].meets(n)
    &&& forall|i: int| j <= i < s.len() ==> n.right_border < #[trigger] s[i].left_border
}

/// `n` widened to the overlapping regions `s[k..j]`.
pub open spec fn merged_region(s: Seq<MemoryRegion>, n: MemoryRegion, k: int, j: int) -> MemoryRegion {
    if k < j {
        MemoryRegion {
            left_border: if s[k].left_border < n.left_border { s[k].left_border } else { n.left_border },
            right_border: if s[j - 1].right_border > n.right_border {
                s[j - 1].right_border
            } else {
                n.right_border
            },
        }
    } else {
        n
    }
}

pub open spec fn spliced(s: Seq<MemoryRegion>, n: MemoryRegion, k: int, j: int) -> Seq<MemoryRegion> {
    s.subrange(0, k).push(merged_region(s, n, k, j)) + s.subrange(j, s.len() as int)
}

/// The regions after inserting `n`: the overlapping ones are merged with it,
/// the others stay as they are.
pub open spec fn insert_result(s: Seq<MemoryRegion>, n: MemoryRegion) -> Seq<MemoryRegion> {
    let (k, j) = choose|k: int, j: int| insert_bounds(s, n, k, j);
    spliced(s, n, k, j)
}

/// The regions after cutting `d` out of each region of `s`.
pub open spec fn subtract_all(s: Seq<MemoryRegion>, d: MemoryRegion) -> Seq<MemoryRegion>
    decreases s.len(),
{
    if s.len() == 0 {
        Seq::empty()
    } else {
        subtract_all(s.drop_last(), d) + s.last().minus(d).pieces()
    }
}

/// Cutting `d` out of `r` leaves a piece of one address, which is dropped.
pub open spec fn loses_point(r: MemoryRegion, d: MemoryRegion) -> bool {
    r.meets(d) && ((r.left_border < d.left_border && r.left_border + 1 == d.left_border) || (
    d.right_border < r.right_border && d.right_border + 1 == r.right_border))
}

pub open spec fn loses_no_point(s: Seq<MemoryRegion>, d: MemoryRegion) -> bool {
    forall|i: int| 0 <= i < s.len() ==> !loses_point(#[trigger] s[i], d)
}

/// Cutting `d` out of `r`: the pieces are valid, in order, inside `r` and apart
/// from `d`; each piece ends at an end of `r` or right next to `d`; and an
/// address is held by a piece exactly when it lies in `r`, outside `d`, and is
/// not a lone address of `r` left over next to `d`.
pub proof fn lemma_minus_pieces(r: MemoryRegion, d: MemoryRegion)
    requires
        r.valid(),
        d.valid(),
    ensures
        forall|p: int|
            0 <= p < r.minus(d).pieces().len() ==> {
                &&& (#[trigger] r.minus(d).pieces()[p]).valid()
                &&& r.covers(r.minus(d).pieces()[p])
                &&& !r.minus(d).pieces()[p].meets(d)
                &&& (r.minus(d).pieces()[p].left_border == r.left_border
                    || r.minus(d).pieces()[p].left_border == d.right_border + 1)
                &&& (r.minus(d).pieces()[p].right_border == r.right_border
                    || r.minus(d).pieces()[p].right_border == d.left_border - 1)
            },
        r.minus(d).pieces().len() == 2 ==> r.minus(d).pieces()[0].right_border
            < r.minus(d).pieces()[1].left_border,
        r.minus(d).pieces().len() <= 2,
        forall|a: int|
            #![trigger covers_addr(r.minus(d).pieces(), a)]
            covers_addr(r.minus(d).pieces(), a) <==> r.has_addr(a) && !d.has_addr(a) && !(r.meets(
                d,
            ) && ((a == r.left_border && a + 1 == d.left_border) || (a == r.right_border && a
                == d.right_border + 1))),
        forall|a: int|
            r.has_addr(a) && !d.has_addr(a) && !loses_point(r, d) ==> covers_addr(
                r.minus(d).pieces(),
                a,
            ),
{
    let ps = r.minus(d).pieces();
    assert forall|a: int|
        covers_addr(ps, a) <==> r.has_addr(a) && !d.has_addr(a) && !(r.meets(d) && ((a
            == r.left_border && a + 1 == d.left_border) || (a == r.right_border && a
            == d.right_border + 1))) by {
        if covers_addr(ps, a) {
            let p = choose|p: int| 0 <= p < ps.len() && #[trigger] ps[p].has_addr(a);
            assert(ps[p].has_addr(a));
        }
        if r.has_addr(a) && !d.has_addr(a) && !(r.meets(d) && ((a == r.left_border && a + 1
            == d.left_border) || (a == r.right_border && a == d.right_border + 1))) {
            if !r.meets(d) {
                assert(ps[0].has_addr(a));
            } else if a < d.left_border {
                assert(r.left_piece(d) is Some);
                assert(ps[0].has_addr(a));
            } else {
                assert(r.right_piece(d) is Some);
                if r.left_piece(d) is Some {
                    assert(ps[1].has_addr(a));
                } else {
                    assert(ps[0].has_addr(a));
                }
            }
        }
    }
}

/// Cutting a region out of regions that do not overlap it changes nothing.
pub proof fn lemma_subtract_all_untouched(s: Seq<MemoryRegion>, d: MemoryRegion)
    requires
        meets_none(s, d),
    ensures
        subtract_all(s, d) == s,
    decreases s.len(),
{
    if s.len() > 0 {
        assert(!s[s.len() - 1].meets(d));
        lemma_subtract_all_untouched(s.drop_last(), d);
        assert(s.drop_last().push(s.last()) =~= s);
    }
}

/// Cutting out one of the regions removes exactly one region.
pub proof fn lemma_subtract_all_member_len(s: Seq<MemoryRegion>, d: MemoryRegion)
    requires
        sorted_disjoint(s),
        s.contains(d),
    ensures
        subtract_all(s, d).len() == s.len() - 1,
    decreases s.len(),
{
    let last = s.last();
    let t = s.drop_last();
    let i = choose|i: int| 0 <= i < s.len() && s[i] == d;
    if i == s.len() - 1 {
        assert forall|k: int| 0 <= k < t.len() implies !#[trigger] t[k].meets(d) by {
            assert(s[k].right_border < s[i].left_border);
        }
        lemma_subtract_all_untouched(t, d);
        assert(s[i].valid());
    } else {
        assert(t[i] == d);
        lemma_subtract_all_member_len(t, d);
        assert(s[i].right_border < s[s.len() - 1].left_border);
        assert(s[i].valid());
    }
}

/// Subtracting a valid region from sorted regions gives sorted regions that hold
/// no address of `d`, and every address outside `d` unless a one-address piece is dropped.
pub proof fn lemma_subtract_all(s: Seq<MemoryRegion>, d: MemoryRegion)
    requires
        sorted_disjoint(s),
        d.valid(),
    ensures
        sorted_disjoint(subtract_all(s, d)),
        s.len() > 0 ==> forall|x: int|
            0 <= x < subtract_all(s, d).len() ==> (#[trigger] subtract_all(s, d)[x]).right_border
                <= s.last().right_border,
        forall|a: int| #[trigger]
            covers_addr(subtract_all(s, d), a) ==> covers_addr(s, a) && !d.has_addr(a),
        forall|a: int|
            #![trigger covers_addr(s, a)]
            covers_addr(s, a) && !d.has_addr(a) && loses_no_point(s, d) ==> covers_addr(
                subtract_all(s, d),
                a,
            ),
    decreases s.len(),
{
    if s.len() > 0 {
        let t = s.drop_last();
        let last = s.last();
        let head = subtract_all(t, d);
        let ps = last.minus(d).pieces();
        let res = subtract_all(s, d);
        assert(sorted_disjoint(t));
        lemma_subtract_all(t, d);
        assert(last.valid());
        lemma_minus_pieces(last, d);
        assert(res == head + ps);
        assert forall|x: int| 0 <= x < res.len() implies (#[trigger] res[x]).valid() by {
            if x >= head.len() {
                assert(res[x] == ps[x - head.len()]);
            }
        }
        assert forall|x: int, y: int|
            0 <= x < y < res.len() implies #[trigger] res[x].right_border
            < #[trigger] res[y].left_border by {
            if y < head.len() {
            } else if x < head.len() {
                assert(t.len() > 0);
                assert(head[x].right_border <= t.last().right_border);
                assert(t.last() == s[s.len() - 2]);
                assert(s[s.len() - 2].right_border < s[s.len() - 1].left_border);
                assert(res[y] == ps[y - head.len()]);
                assert(last.covers(ps[y - head.len()]));
            } else {
                assert(res[x] == ps[x - head.len()]);
                assert(res[y] == ps[y - head.len()]);
            }
        }
        assert forall|x: int| 0 <= x < res.len() implies (#[trigger] res[x]).right_border
            <= s.last().right_border by {
            if x < head.len() {
                assert(head[x].right_border <= t.last().right_border);
                assert(t.last() == s[s.len() - 2]);
                assert(s[s.len() - 2].right_border < s[s.len() - 1].left_border);
                assert(s[s.len() - 1].valid());
            } else {
                assert(res[x] == ps[x - head.len()]);
                assert(last.covers(ps[x - head.len()]));
            }
        }
        assert forall|a: int| covers_addr(res, a) implies covers_addr(s, a) && !d.has_addr(a) by {
            let x = choose|x: int| 0 <= x < res.len() && #[trigger] res[x].has_addr(a);
            if x < head.len() {
                assert(head[x].has_addr(a));
                assert(covers_addr(head, a));
                let i = choose|i: int| 0 <= i < t.len() && #[trigger] t[i].has_addr(a);
                assert(s[i].has_addr(a));
            } else {
                let p = ps[x - head.len()];
                assert(res[x] == p);
                assert(last.covers(p));
                assert(s[s.len() - 1].has_addr(a));
            }
        }
        assert forall|a: int|
            covers_addr(s, a) && !d.has_addr(a) && loses_no_point(s, d) implies covers_addr(
            res,
            a,
        ) by {
            let i = choose|i: int| 0 <= i < s.len() && #[trigger] s[i].has_addr(a);
            if i < s.len() - 1 {
                assert(t[i].has_addr(a));
                assert forall|k: int| 0 <= k < t.len() implies !loses_point(#[trigger] t[k], d) by {
                    assert(t[k] == s[k]);
                }
                assert(covers_addr(t, a));
                let x = choose|x: int| 0 <= x < head.len() && #[trigger] head[x].has_addr(a);
                assert(res[x] == head[x]);
            } else {
                assert(!loses_point(s[s.len() - 1], d));
                assert(covers_addr(ps, a));
                let p = choose|p: int| 0 <= p < ps.len() && #[trigger] ps[p].has_addr(a);
                assert(res[head.len() + p] == ps[p]);
            }
        }
    }
}


/// Cutting `d` out of sorted regions: an address is held afterwards exactly when
/// it was held, lies outside `d`, and is not a lone address that a region
/// overlapping `d` kept next to `d`; every resulting region lies in one old
/// region and ends at that region's ends or right next to `d`.
pub proof fn lemma_subtract_all_exact(s: Seq<MemoryRegion>, d: MemoryRegion)
    requires
        sorted_disjoint(s),
        d.valid(),
    ensures
        forall|a: int|
            #![trigger covers_addr(subtract_all(s, d), a)]
            covers_addr(subtract_all(s, d), a) <==> covers_addr(s, a) && !d.has_addr(a) && !(
            exists|i: int|
                0 <= i < s.len() && (#[trigger] s[i]).meets(d) && ((a == s[i].left_border && a + 1
                    == d.left_border) || (a == s[i].right_border && a == d.right_border + 1))),
        forall|x: int|
            0 <= x < subtract_all(s, d).len() ==> exists|i: int|
                0 <= i < s.len() && (#[trigger] s[i]).covers(#[trigger] subtract_all(s, d)[x]) && (
                subtract_all(s, d)[x].left_border == s[i].left_border || subtract_all(
                    s,
                    d,
                )[x].left_border == d.right_border + 1) && (subtract_all(s, d)[x].right_border
                    == s[i].right_border || subtract_all(s, d)[x].right_border == d.left_border
                    - 1),
    decreases s.len(),
{
    if s.len() > 0 {
        let t = s.drop_last();
        let n = s.len() - 1;
        let last = s.last();
        let head = subtract_all(t, d);
        let ps = last.minus(d).pieces();
        let res = subtract_all(s, d);
        assert(sorted_disjoint(t));
        lemma_subtract_all_exact(t, d);
        assert(last.valid());
        assert(last == s[n]);
        lemma_minus_pieces(last, d);
        assert(res == head + ps);
        assert forall|a: int|
            #[trigger] covers_addr(res, a) <==> covers_addr(s, a) && !d.has_addr(a) && !(exists|
                i: int,
            |
                0 <= i < s.len() && (#[trigger] s[i]).meets(d) && ((a == s[i].left_border && a + 1
                    == d.left_border) || (a == s[i].right_border && a == d.right_border + 1))) by {
            let dropped = exists|i: int|
                0 <= i < s.len() && (#[trigger] s[i]).meets(d) && ((a == s[i].left_border && a + 1
                    == d.left_border) || (a == s[i].right_border && a == d.right_border + 1));
            let dropped_t = exists|i: int|
                0 <= i < t.len() && (#[trigger] t[i]).meets(d) && ((a == t[i].left_border && a + 1
                    == d.left_border) || (a == t[i].right_border && a == d.right_border + 1));
            let dropped_last = last.meets(d) && ((a == last.left_border && a + 1 == d.left_border)
                || (a == last.right_border && a == d.right_border + 1));
            assert(dropped <==> dropped_t || dropped_last) by {
                if dropped {
                    let i = choose|i: int|
                        0 <= i < s.len() && (#[trigger] s[i]).meets(d) && ((a == s[i].left_border
                            && a + 1 == d.left_border) || (a == s[i].right_border && a
                            == d.right_border + 1));
                    if i < n {
                        assert(t[i] == s[i]);
                    }
                }
                if dropped_t {
                    let i = choose|i: int|
                        0 <= i < t.len() && (#[trigger] t[i]).meets(d) && ((a == t[i].left_border
                            && a + 1 == d.left_border) || (a == t[i].right_border && a
                            == d.right_border + 1));
                    assert(s[i] == t[i]);
                }
            }
            if covers_addr(res, a) {
                let x = choose|x: int| 0 <= x < res.len() && #[trigger] res[x].has_addr(a);
                if x < head.len() {
                    assert(head[x].has_addr(a));
                    assert(covers_addr(head, a));
                    let k = choose|k: int| 0 <= k < t.len() && #[trigger] t[k].has_addr(a);
                    assert(s[k].has_addr(a));
                    if dropped_last {
                        assert(s[k].right_border < s[n].left_border);
                    }
                } else {
                    assert(ps[x - head.len()].has_addr(a));
                    assert(covers_addr(ps, a));
                    assert(s[n].has_addr(a));
                    if dropped_t {
                        let i = choose|i: int|
                            0 <= i < t.len() && (#[trigger] t[i]).meets(d) && ((a
                                == t[i].left_border && a + 1 == d.left_border) || (a
                                == t[i].right_border && a == d.right_border + 1));
                        assert(s[i].valid());
                        assert(s[i].right_border < s[n].left_border);
                    }
                }
            }
            if covers_addr(s, a) && !d.has_addr(a) && !dropped {
                let k = choose|k: int| 0 <= k < s.len() && #[trigger] s[k].has_addr(a);
                if k < n {
                    assert(t[k].has_addr(a));
                    assert(covers_addr(t, a));
                    assert(covers_addr(head, a));
                    let x = choose|x: int| 0 <= x < head.len() && #[trigger] head[x].has_addr(a);
                    assert(res[x] == head[x]);
                } else {
                    assert(covers_addr(ps, a));
                    let p = choose|p: int| 0 <= p < ps.len() && #[trigger] ps[p].has_addr(a);
                    assert(res[head.len() + p] == ps[p]);
                }
            }
        }
        assert forall|x: int| 0 <= x < res.len() implies exists|i: int|
            0 <= i < s.len() && (#[trigger] s[i]).covers(#[trigger] res[x]) && (res[x].left_border
                == s[i].left_border || res[x].left_border == d.right_border + 1) && (
            res[x].right_border == s[i].right_border || res[x].right_border == d.left_border
                - 1) by {
            if x < head.len() {
                assert(res[x] == head[x]);
                let i = choose|i: int|
                    0 <= i < t.len() && (#[trigger] t[i]).covers(#[trigger] head[x]) && (
                    head[x].left_border == t[i].left_border || head[x].left_border
                        == d.right_border + 1) && (head[x].right_border == t[i].right_border
                        || head[x].right_border == d.left_border - 1);
                assert(s[i] == t[i]);
            } else {
                assert(res[x] == ps[x - head.len()]);
                assert(s[n].covers(res[x]));
            }
        }
    }
}

/// Cutting `d` out of sorted regions adds at most one region, and adds one only
/// when some region holds `d` with at least two addresses left on each side.
pub proof fn lemma_subtract_all_len(s: Seq<MemoryRegion>, d: MemoryRegion)
    requires
        sorted_disjoint(s),
        d.valid(),
    ensures
        subtract_all(s, d).len() <= s.len() + 1,
        subtract_all(s, d).len() > s.len() ==> exists|i: int|
            0 <= i < s.len() && (#[trigger] s[i]).left_border + 1 < d.left_border
                && d.right_border + 1 < s[i].right_border,
    decreases s.len(),
{
    if s.len() > 0 {
        let t = s.drop_last();
        let n = s.len() - 1;
        let last = s.last();
        assert(sorted_disjoint(t));
        lemma_subtract_all_len(t, d);
        assert(last == s[n]);
        assert(last.valid());
        let ps = last.minus(d).pieces();
        lemma_minus_pieces(last, d);
        if subtract_all(t, d).len() > t.len() {
            let i = choose|i: int|
                0 <= i < t.len() && (#[trigger] t[i]).left_border + 1 < d.left_border
                    && d.right_border + 1 < t[i].right_border;
            assert(s[i] == t[i]);
            assert(s[i].right_border < s[n].left_border);
            assert(!last.meets(d));
        }
        if ps.len() == 2 {
            assert(last.left_piece(d) is Some && last.right_piece(d) is Some);
            assert(s[n].left_border + 1 < d.left_border && d.right_border + 1 < s[n].right_border);
        }
    }
}

/// At most one split of sorted regions around a valid region exists.
pub proof fn lemma_insert_bounds_unique(
    s: Seq<MemoryRegion>,
    n: MemoryRegion,
    k1: int,
    j1: int,
    k2: int,
    j2: int,
)
    requires
        sorted_disjoint(s),
        n.valid(),
        insert_bounds(s, n, k1, j1),
        insert_bounds(s, n, k2, j2),
    ensures
        k1 == k2,
        j1 == j2,
{
    if k1 < k2 {
        assert(s[k1].right_border < n.left_border);
        assert(s[k1].valid());
        if k1 < j1 {
            assert(s[k1].meets(n));
        } else {
            assert(n.right_border < s[k1].left_border);
        }
    }
    if k2 < k1 {
        assert(s[k2].right_border < n.left_border);
        assert(s[k2].valid());
        if k2 < j2 {
            assert(s[k2].meets(n));
        } else {
            assert(n.right_border < s[k2].left_border);
        }
    }
    if j1 < j2 {
        assert(n.right_border < s[j1].left_border);
        assert(s[j1].valid());
        if k2 <= j1 {
            assert(s[j1].meets(n));
        } else {
            assert(s[j1].right_border < n.left_border);
        }
    }
    if j2 < j1 {
        assert(n.right_border < s[j2].left_border);
        assert(s[j2].valid());
        if k1 <= j2 {
            assert(s[j2].meets(n));
        } else {
            assert(s[j2].right_border < n.left_border);
        }
    }
}

/// Sorted regions always split around a valid region.
pub proof fn lemma_insert_bounds_exist(s: Seq<MemoryRegion>, n: MemoryRegion)
    requires
        sorted_disjoint(s),
        n.valid(),
    ensures
        exists|k: int, j: int| insert_bounds(s, n, k, j),
    decreases s.len(),
{
    if s.len() == 0 {
        assert(insert_bounds(s, n, 0, 0));
    } else {
        let t = s.drop_last();
        let e = s.last();
        let last = s.len() - 1;
        assert(sorted_disjoint(t));
        lemma_insert_bounds_exist(t, n);
        let (k, j) = choose|k: int, j: int| insert_bounds(t, n, k, j);
        assert(e == s[last]);
        assert(e.valid());
        if e.right_border < n.left_border {
            assert forall|i: int| 0 <= i < s.len() implies #[trigger] s[i].right_border
                < n.left_border by {
                if i < last {
                    assert(s[i].right_border < s[last].left_border);
                }
            }
            assert(insert_bounds(s, n, s.len() as int, s.len() as int));
        } else if e.meets(n) {
            if j < t.len() {
                assert(n.right_border < t[j].left_border);
                assert(s[j].right_border < s[last].left_border);
                assert(s[j].valid());
            }
            assert(j == t.len());
            assert forall|i: int| k <= i < s.len() implies #[trigger] s[i].meets(n) by {
                if i < last {
                    assert(t[i] == s[i]);
                }
            }
            assert forall|i: int| 0 <= i < k implies #[trigger] s[i].right_border
                < n.left_border by {
                assert(t[i] == s[i]);
            }
            assert(insert_bounds(s, n, k, s.len() as int));
        } else {
            assert(n.right_border < e.left_border);
            assert forall|i: int| j <= i < s.len() implies n.right_border
                < #[trigger] s[i].left_border by {
                if i < last {
                    assert(t[i] == s[i]);
                }
            }
            assert forall|i: int| 0 <= i < k implies #[trigger] s[i].right_border
                < n.left_border by {
                assert(t[i] == s[i]);
            }
            assert forall|i: int| k <= i < j implies #[trigger] s[i].meets(n) by {
                assert(t[i] == s[i]);
            }
            assert(insert_bounds(s, n, k, j));
        }
    }
}

/// Splicing the merged region into the split gives sorted regions that hold
/// exactly the old addresses and those of `n`; it is the insertion result.
pub proof fn lemma_spliced(s: Seq<MemoryRegion>, n: MemoryRegion, k: int, j: int)
    requires
        sorted_disjoint(s),
        n.valid(),
        insert_bounds(s, n, k, j),
    ensures
        insert_result(s, n) == spliced(s, n, k, j),
        sorted_disjoint(spliced(s, n, k, j)),
        forall|a: int|
            #![trigger covers_addr(spliced(s, n, k, j), a)]
            covers_addr(spliced(s, n, k, j), a) <==> covers_addr(s, a) || n.has_addr(a),
{
    let (k2, j2) = choose|k: int, j: int| insert_bounds(s, n, k, j);
    lemma_insert_bounds_unique(s, n, k, j, k2, j2);
    let m = merged_region(s, n, k, j);
    let r = spliced(s, n, k, j);
    assert(r.len() == s.len() - (j - k) + 1);
    assert forall|x: int| 0 <= x < r.len() implies #[trigger] r[x] == (if x < k {
        s[x]
    } else if x == k {
        m
    } else {
        s[x - k - 1 + j]
    }) by {}
    if k < j {
        assert(s[k].meets(n));
        assert(s[j - 1].meets(n));
        assert(s[k].valid());
    }
    assert(m.valid());
    assert forall|i: int| 0 <= i < k implies #[trigger] s[i].right_border < m.left_border by {
        if k < j {
            assert(s[i].right_border < s[k].left_border);
        }
    }
    assert forall|i: int| j <= i < s.len() implies m.right_border < #[trigger] s[i].left_border by {
        if k < j {
            assert(s[j - 1].right_border < s[i].left_border);
        }
    }
    assert forall|x: int| 0 <= x < r.len() implies (#[trigger] r[x]).valid() by {
        if x < k {
        } else if x == k {
        } else {
            assert(s[x - k - 1 + j].valid());
        }
    }
    assert forall|x: int, y: int|
        0 <= x < y < r.len() implies #[trigger] r[x].right_border < #[trigger] r[y].left_border by {
        if y < k {
        } else if y == k {
            assert(s[x].right_border < m.left_border);
        } else if x < k {
            assert(s[x].right_border < m.left_border);
            assert(m.right_border < s[y - k - 1 + j].left_border);
            assert(m.valid());
        } else if x == k {
            assert(m.right_border < s[y - k - 1 + j].left_border);
        } else {
            assert(s[x - k - 1 + j].right_border < s[y - k - 1 + j].left_border);
        }
    }
    assert forall|a: int| #[trigger] covers_addr(r, a) implies covers_addr(s, a) || n.has_addr(a) by {
        let x = choose|x: int| 0 <= x < r.len() && #[trigger] r[x].has_addr(a);
        if x < k {
            assert(s[x].has_addr(a));
        } else if x == k {
            if !n.has_addr(a) && k < j {
                if a < n.left_border {
                    assert(s[k].has_addr(a));
                } else {
                    assert(s[j - 1].has_addr(a));
                }
            }
        } else {
            assert(s[x - k - 1 + j].has_addr(a));
        }
    }
    assert forall|a: int| covers_addr(s, a) || n.has_addr(a) implies #[trigger] covers_addr(r, a) by {
        if n.has_addr(a) {
            assert(r[k].has_addr(a));
        } else {
            let i = choose|i: int| 0 <= i < s.len() && #[trigger] s[i].has_addr(a);
            if i < k {
                assert(r[i].has_addr(a));
            } else if i < j {
                if k < i {
                    assert(s[k].right_border < s[i].left_border);
                }
                if i < j - 1 {
                    assert(s[i].right_border < s[j - 1].left_border);
                }
                assert(s[j - 1].valid());
                assert(r[k].has_addr(a));
            } else {
                assert(r[i - j + k + 1].has_addr(a));
            }
        }
    }
}

/// Inserting a valid region into sorted regions keeps them sorted, and the
/// addresses held afterwards are the old ones together with those of the region.
pub proof fn lemma_insert_result(s: Seq<MemoryRegion>, n: MemoryRegion)
    requires
        sorted_disjoint(s),
        n.valid(),
    ensures
        sorted_disjoint(insert_result(s, n)),
        forall|a: int|
            #![trigger covers_addr(insert_result(s, n), a)]
            covers_addr(insert_result(s, n), a) <==> covers_addr(s, a) || n.has_addr(a),
{
    lemma_insert_bounds_exist(s, n);
    let (k, j) = choose|k: int, j: int| insert_bounds(s, n, k, j);
    lemma_spliced(s, n, k, j);
}


/// Inserting `n` keeps every region that does not overlap it, as it is; every
/// other resulting region holds all of `n`.
pub proof fn lemma_insert_keeps_others(s: Seq<MemoryRegion>, n: MemoryRegion)
    requires
        sorted_disjoint(s),
        n.valid(),
    ensures
        forall|i: int|
            0 <= i < s.len() && !(#[trigger] s[i]).meets(n) ==> insert_result(s, n).contains(s[i]),
        forall|x: int|
            0 <= x < insert_result(s, n).len() ==> (#[trigger] insert_result(s, n)[x]).covers(n)
                || exists|i: int|
                0 <= i < s.len() && !s[i].meets(n) && insert_result(s, n)[x] == #[trigger] s[i],
{
    lemma_insert_bounds_exist(s, n);
    let (k, j) = choose|k: int, j: int| insert_bounds(s, n, k, j);
    lemma_spliced(s, n, k, j);
    let res = insert_result(s, n);
    let m = merged_region(s, n, k, j);
    assert forall|x: int| 0 <= x < res.len() implies #[trigger] res[x] == (if x < k {
        s[x]
    } else if x == k {
        m
    } else {
        s[x - k - 1 + j]
    }) by {}
    assert forall|i: int| 0 <= i < s.len() && !(#[trigger] s[i]).meets(n) implies res.contains(
        s[i],
    ) by {
        if i < k {
            assert(res[i] == s[i]);
        } else if i < j {
        } else {
            assert(res[i - j + k + 1] == s[i]);
        }
    }
    assert forall|x: int| 0 <= x < res.len() implies (#[trigger] res[x]).covers(n) || exists|i: int|
        0 <= i < s.len() && !s[i].meets(n) && res[x] == #[trigger] s[i] by {
        if x < k {
            assert(s[x].valid());
            assert(!s[x].meets(n));
        } else if x > k {
            let i = x - k - 1 + j;
            assert(s[i].valid());
            assert(!s[i].meets(n));
        }
    }
}

/// After inserting `n`, one region holds `n` and every region that overlapped it.
pub proof fn lemma_insert_merges(s: Seq<MemoryRegion>, n: MemoryRegion)
    requires
        sorted_disjoint(s),
        n.valid(),
    ensures
        exists|x: int|
            0 <= x < insert_result(s, n).len() && (#[trigger] insert_result(s, n)[x]).covers(n)
                && forall|i: int|
                0 <= i < s.len() && (#[trigger] s[i]).meets(n) ==> insert_result(s, n)[x].covers(
                    s[i],
                ),
{
    lemma_insert_bounds_exist(s, n);
    let (k, j) = choose|k: int, j: int| insert_bounds(s, n, k, j);
    lemma_spliced(s, n, k, j);
    let res = insert_result(s, n);
    let m = merged_region(s, n, k, j);
    assert(res[k] == m);
    assert forall|i: int| 0 <= i < s.len() && (#[trigger] s[i]).meets(n) implies m.covers(s[i]) by {
        if i < k {
            assert(s[i].right_border < n.left_border);
        } else if i >= j {
            assert(n.right_border < s[i].left_border);
        } else {
            if k < i {
                assert(s[k].right_border < s[i].left_border);
                assert(s[k].valid());
            }
            if i < j - 1 {
                assert(s[i].right_border < s[j - 1].left_border);
                assert(s[j - 1].valid());
            }
        }
    }
}

/// Inserting a region that overlaps none of the regions and deleting it again
/// gives back the regions as they were.
pub proof fn lemma_insert_then_delete(s: Seq<MemoryRegion>, n: MemoryRegion)
    requires
        sorted_disjoint(s),
        n.valid(),
        meets_none(s, n),
    ensures
        subtract_all(insert_result(s, n), n) == s,
{
    lemma_insert_bounds_exist(s, n);
    let (k, j) = choose|k: int, j: int| insert_bounds(s, n, k, j);
    if k < j {
        assert(s[k].meets(n));
    }
    lemma_spliced(s, n, k, j);
    assert(spliced(s, n, k, j) =~= s.insert(k, n));
    lemma_subtract_inserted(s, n, k);
}

proof fn lemma_subtract_inserted(s: Seq<MemoryRegion>, n: MemoryRegion, k: int)
    requires
        n.valid(),
        meets_none(s, n),
        0 <= k <= s.len(),
    ensures
        subtract_all(s.insert(k, n), n) == s,
    decreases s.len(),
{
    let t = s.insert(k, n);
    if k == s.len() {
        assert(t.drop_last() =~= s);
        lemma_subtract_all_untouched(s, n);
    } else {
        let u = s.drop_last();
        assert(t.drop_last() =~= u.insert(k, n));
        assert(t.last() == s.last());
        assert(!s[s.len() - 1].meets(n));
        lemma_subtract_inserted(u, n, k);
        assert(u.push(s.last()) =~= s);
    }
}

/// Inserting a region that one of the regions already holds changes nothing.
pub proof fn lemma_insert_covered(s: Seq<MemoryRegion>, n: MemoryRegion, i: int)
    requires
        sorted_disjoint(s),
        n.valid(),
        0 <= i < s.len(),
        s[i].covers(n),
    ensures
        insert_result(s, n) == s,
{
    assert forall|x: int| 0 <= x < i implies #[trigger] s[x].right_border < n.left_border by {
        assert(s[x].right_border < s[i].left_border);
    }
    assert forall|x: int| i + 1 <= x < s.len() implies n.right_border
        < #[trigger] s[x].left_border by {
        assert(s[i].right_border < s[x].left_border);
    }
    assert(insert_bounds(s, n, i, i + 1));
    lemma_spliced(s, n, i, i + 1);
    assert(spliced(s, n, i, i + 1) =~= s);
}

/// A bounded array of memory regions kept sorted by address, valid and
/// pairwise apart. Regions that overlap are merged on insertion; regions that
/// only touch are kept apart.
pub struct RegionsArray {
    regions: Vec<MemoryRegion>,
    capacity: usize,
}

impl View for RegionsArray {
    type V = Seq<MemoryRegion>;

    closed spec fn view(&self) -> Seq<MemoryRegion> {
        self.regions@
    }
}

impl RegionsArray {
    /// The number of regions the array can hold.
    pub closed spec fn cap(&self) -> nat {
        self.capacity as nat
    }

    /// Holds of every array: at most `cap()` regions, sorted and apart.
    #[verifier::type_invariant]
    pub open spec fn well_formed(&self) -> bool {
        &&& self@.len() <= self.cap()
        &&& sorted_disjoint(self@)
    }

    /// Creates an empty array over the metadata buffer at `storage_addr` that
    /// has room for `capacity` regions. The buffer address must be non-null and
    /// aligned for `MemoryRegion`; the capacity must not be zero.
    pub fn initialize(storage_addr: usize, capacity: usize) -> (r: Result<Self, RegionsArrayError>)
        ensures
            storage_addr == 0 ==> r == Err::<Self, RegionsArrayError>(RegionsArrayError::NullPointer),
            storage_addr != 0 && storage_addr as nat % align_of::<MemoryRegion>() != 0 ==> r
                == Err::<Self, RegionsArrayError>(RegionsArrayError::UnalignedPointer),
            storage_addr != 0 && storage_addr as nat % align_of::<MemoryRegion>() == 0 && capacity
                == 0 ==> r == Err::<Self, RegionsArrayError>(RegionsArrayError::ZeroCapacity),
            storage_addr != 0 && storage_addr as nat % align_of::<MemoryRegion>() == 0 && capacity
                != 0 ==> (r matches Ok(a) && a@ == Seq::<MemoryRegion>::empty() && a.cap()
                == capacity),
    {
        if storage_addr == 0 {
            return Err(RegionsArrayError::NullPointer);
        }
        layout_for_type_is_valid::<MemoryRegion>();
        let align = core::mem::align_of::<MemoryRegion>();
        if storage_addr % align != 0 {
            return Err(RegionsArrayError::UnalignedPointer);
        }
        if capacity == 0 {
            return Err(RegionsArrayError::ZeroCapacity);
        }
        Ok(Self { regions: Vec::new(), capacity })
    }

    pub fn len(&self) -> (r: usize)
        ensures
            r == self@.len(),
    {
        self.regions.len()
    }

    pub fn capacity(&self) -> (r: usize)
        ensures
            r == self.cap(),
    {
        self.capacity
    }

    /// The region at `index`, if there is one.
    pub fn get(&self, index: usize) -> (r: Option<&MemoryRegion>)
        ensures
            index < self@.len() ==> r == Some(&self@[index as int]),
            index >= self@.len() ==> r is None,
    {
        if index >= self.regions.len() {
            return None;
        }
        Some(&self.regions[index])
    }

    /// Whether the array holds exactly `region`.
    pub fn contains_region(&self, region: MemoryRegion) -> (r: bool)
        ensures
            r == self@.contains(region),
    {
        let mut index: usize = 0;
        while index < self.regions.len()
            invariant
                index <= self@.len(),
                forall|i: int| 0 <= i < index ==> self@[i] != region,
            decreases self@.len() - index,
        {
            if self.regions[index] == region {
                return true;
            }
            index += 1;
        }
        false
    }

    /// The index of the first region that starts right of `addr`, or the
    /// length when there is none.
    pub fn find_nearest_right(&self, addr: usize) -> (r: usize)
        ensures
            r <= self@.len(),
            forall|i: int| 0 <= i < r ==> #[trigger] self@[i].left_border <= addr,
            r < self@.len() ==> self@[r as int].left_border > addr,
    {
        let mut index: usize = 0;
        while index < self.regions.len()
            invariant
                index <= self@.len(),
                forall|i: int| 0 <= i < index ==> #[trigger] self@[i].left_border <= addr,
            decreases self@.len() - index,
        {
            if self.regions[index].left_border > addr {
                return index;
            }
            index += 1;
        }
        self.regions.len()
    }

    /// Removes the region at `index`; the regions after it move one place left.
    pub fn delete_by_index(&mut self, index: usize) -> (r: Result<(), RegionsArrayError>)
        ensures
            final(self).well_formed(),
            final(self).cap() == old(self).cap(),
            index >= old(self)@.len() ==> r == Err::<(), RegionsArrayError>(
                RegionsArrayError::IndexOutOfBounds,
            ) && final(self)@ == old(self)@,
            index < old(self)@.len() ==> r == Ok::<(), RegionsArrayError>(()) && final(self)@ == old(self)@.remove(index as int),
    {
        proof {
            use_type_invariant(&*self);
        }
        if index >= self.regions.len() {
            return Err(RegionsArrayError::IndexOutOfBounds);
        }
        let ghost s = self.regions@;
        let mut regions = Vec::new();
        core::mem::swap(&mut regions, &mut self.regions);
        regions.remove(index);
        proof {
            let t = regions@;
            assert forall|x: int| 0 <= x < t.len() implies #[trigger] t[x] == (if x < index {
                s[x]
            } else {
                s[x + 1]
            }) by {}
            assert forall|x: int| 0 <= x < t.len() implies (#[trigger] t[x]).valid() by {
                if x >= index {
                    assert(s[x + 1].valid());
                }
            }
            assert forall|x: int, y: int|
                0 <= x < y < t.len() implies #[trigger] t[x].right_border
                < #[trigger] t[y].left_border by {
                let ox = if x < index {
                    x
                } else {
                    x + 1
                };
                let oy = if y < index {
                    y
                } else {
                    y + 1
                };
                assert(s[ox].right_border < s[oy].left_border);
            }
        }
        self.regions = regions;
        Ok(())
    }

    /// Moves the regions from `start_index` on one place right and puts
    /// `region` into the freed place.
    fn shift_right_by_one_step(&mut self, start_index: usize, region: MemoryRegion) -> (r: Result<
        (),
        RegionsArrayError,
    >)
        requires
            region.valid(),
            start_index <= old(self)@.len() ==> (forall|i: int|
                0 <= i < start_index ==> #[trigger] old(self)@[i].right_border < region.left_border),
            start_index <= old(self)@.len() ==> (forall|i: int|
                start_index <= i < old(self)@.len() ==> region.right_border
                    < #[trigger] old(self)@[i].left_border),
        ensures
            final(self).cap() == old(self).cap(),
            start_index > old(self)@.len() ==> r == Err::<(), RegionsArrayError>(
                RegionsArrayError::IndexOutOfBounds,
            ) && final(self)@ == old(self)@,
            start_index <= old(self)@.len() && old(self)@.len() >= old(self).cap() ==> r == Err::<
                (),
                RegionsArrayError,
            >(RegionsArrayError::StorageFull) && final(self)@ == old(self)@,
            start_index <= old(self)@.len() && old(self)@.len() < old(self).cap() ==> r == Ok::<
                (),
                RegionsArrayError,
            >(()) && final(self)@ == old(self)@.insert(start_index as int, region),
    {
        proof {
            use_type_invariant(&*self);
        }
        if start_index > self.regions.len() {
            return Err(RegionsArrayError::IndexOutOfBounds);
        }
        if self.regions.len() >= self.capacity {
            return Err(RegionsArrayError::StorageFull);
        }
        let ghost s = self.regions@;
        let mut regions = Vec::new();
        core::mem::swap(&mut regions, &mut self.regions);
        regions.insert(start_index, region);
        proof {
            let t = regions@;
            let k = start_index as int;
            assert forall|x: int| 0 <= x < t.len() implies #[trigger] t[x] == (if x < k {
                s[x]
            } else if x == k {
                region
            } else {
                s[x - 1]
            }) by {}
            assert forall|x: int| 0 <= x < t.len() implies (#[trigger] t[x]).valid() by {
                if x > k {
                    assert(s[x - 1].valid());
                }
            }
            assert forall|x: int, y: int|
                0 <= x < y < t.len() implies #[trigger] t[x].right_border
                < #[trigger] t[y].left_border by {
                if y < k {
                } else if y == k {
                } else if x < k {
                    assert(s[x].right_border < region.left_border);
                    assert(region.right_border < s[y - 1].left_border);
                } else if x == k {
                } else {
                    assert(s[x - 1].right_border < s[y - 1].left_border);
                }
            }
        }
        self.regions = regions;
        Ok(())
    }

    /// Adds `region`. The regions that overlap it are merged with it into one;
    /// when none does, the region takes its place in address order, which needs
    /// a free slot.
    pub fn insert_region(&mut self, region: MemoryRegion) -> (r: Result<(), RegionsArrayError>)
        ensures
            final(self).well_formed(),
            final(self).cap() == old(self).cap(),
            !region.valid() ==> r == Err::<(), RegionsArrayError>(RegionsArrayError::InvalidRegion)
                && final(self)@ == old(self)@,
            region.valid() && meets_none(old(self)@, region) && old(self)@.len() >= old(self).cap()
                ==> r == Err::<(), RegionsArrayError>(RegionsArrayError::StorageFull) && final(self)@ == old(self)@,
            region.valid() && !(meets_none(old(self)@, region) && old(self)@.len() >= old(self).cap()) ==> r == Ok::<(), RegionsArrayError>(()) && final(self)@ == insert_result(
                old(self)@,
                region,
            ),
    {
        proof {
            use_type_invariant(&*self);
        }
        if !region.is_valid() {
            return Err(RegionsArrayError::InvalidRegion);
        }
        let ghost s = self.regions@;
        let overlap_region_ids = self.find_overlap_regions(&region);
        match (overlap_region_ids.left_border_region_id, overlap_region_ids.right_border_region_id) {
            (None, None) => {
                let region_id = self.find_nearest_right(region.left_border);
                proof {
                    let k = region_id as int;
                    assert forall|i: int| 0 <= i < k implies #[trigger] s[i].right_border
                        < region.left_border by {
                        assert(!s[i].meets(region));
                        assert(s[i].valid());
                    }
                    assert forall|i: int| k <= i < s.len() implies region.right_border
                        < #[trigger] s[i].left_border by {
                        assert(!s[i].meets(region));
                        assert(s[k].left_border > region.left_border);
                        assert(s[i].valid());
                        if k < i {
                            assert(s[k].right_border < s[i].left_border);
                            assert(s[k].valid());
                        }
                    }
                    assert(insert_bounds(s, region, k, k));
                    lemma_spliced(s, region, k, k);
                    assert(spliced(s, region, k, k) =~= s.insert(k, region));
                }
                match self.shift_right_by_one_step(region_id, region) {
                    Ok(()) => Ok(()),
                    Err(e) => Err(e),
                }
            },
            (Some(left_id), Some(right_id)) => {
                proof {
                    if right_id < left_id {
                        assert(!s[right_id as int].meets(region));
                    }
                }
                let mut regions = Vec::new();
                core::mem::swap(&mut regions, &mut self.regions);
                let left_border = if regions[left_id].left_border < region.left_border {
                    regions[left_id].left_border
                } else {
                    region.left_border
                };
                let right_border = if regions[right_id].right_border > region.right_border {
                    regions[right_id].right_border
                } else {
                    region.right_border
                };
                let merged = MemoryRegion { left_border, right_border };
                regions.set(left_id, merged);
                let ghost u = s.update(left_id as int, merged);
                let ghost tail = s.subrange(right_id + 1, s.len() as int);
                let mut index = right_id;
                assert(regions@ =~= u.subrange(0, index + 1) + tail);
                while index > left_id
                    invariant
                        left_id <= index <= right_id,
                        right_id < s.len(),
                        u.len() == s.len(),
                        regions@ == u.subrange(0, index + 1) + tail,
                    decreases index,
                {
                    regions.remove(index);
                    assert(regions@ =~= u.subrange(0, index as int) + tail);
                    index -= 1;
                }
                proof {
                    let k = left_id as int;
                    let j = right_id + 1;
                    assert forall|i: int| 0 <= i < k implies #[trigger] s[i].right_border
                        < region.left_border by {
                        assert(!s[i].meets(region));
                        if region.right_border < s[i].left_border {
                            assert(s[i].right_border < s[k].left_border);
                            assert(s[i].valid());
                        }
                    }
                    assert(s[k].meets(region));
                    assert(s[j - 1].meets(region));
                    assert forall|i: int| k <= i < j implies #[trigger] s[i].meets(region) by {
                        if k < i < j - 1 {
                            assert(s[i].valid());
                            assert(s[k].right_border < s[i].left_border);
                            assert(s[i].right_border < s[j - 1].left_border);
                        }
                    }
                    assert forall|i: int| j <= i < s.len() implies region.right_border
                        < #[trigger] s[i].left_border by {
                        assert(!s[i].meets(region));
                        if s[i].right_border < region.left_border {
                            assert(s[j - 1].right_border < s[i].left_border);
                            assert(s[i].valid());
                        }
                    }
                    assert(insert_bounds(s, region, k, j));
                    lemma_spliced(s, region, k, j);
                    assert(merged_region(s, region, k, j) == merged);
                    assert(regions@ =~= spliced(s, region, k, j));
                }
                self.regions = regions;
                Ok(())
            },
            _ => Err(RegionsArrayError::InvalidState),
        }
    }

    /// Cuts `deleted` out of every region. Regions inside it disappear, regions
    /// that reach over one of its ends are trimmed, a region that holds it is
    /// split in two; pieces of a single address are dropped. When the result
    /// would not fit into the capacity nothing is changed.
    pub fn delete_region(&mut self, deleted: MemoryRegion) -> (r: Result<(), RegionsArrayError>)
        ensures
            final(self).well_formed(),
            final(self).cap() == old(self).cap(),
            !deleted.valid() ==> r == Err::<(), RegionsArrayError>(RegionsArrayError::InvalidRegion)
                && final(self)@ == old(self)@,
            deleted.valid() && subtract_all(old(self)@, deleted).len() > old(self).cap() ==> r
                == Err::<(), RegionsArrayError>(RegionsArrayError::StorageFull) && final(self)@
                == old(self)@,
            deleted.valid() && subtract_all(old(self)@, deleted).len() <= old(self).cap() ==> r
                == Ok::<(), RegionsArrayError>(()) && final(self)@ == subtract_all(
                old(self)@,
                deleted,
            ),
            r is Ok ==> forall|a: int|
                #![trigger covers_addr(final(self)@, a)]
                covers_addr(final(self)@, a) <==> covers_addr(old(self)@, a) && !deleted.has_addr(a)
                    && !(exists|i: int|
                    0 <= i < old(self)@.len() && (#[trigger] old(self)@[i]).meets(deleted) && ((a
                        == old(self)@[i].left_border && a + 1 == deleted.left_border) || (a
                        == old(self)@[i].right_border && a == deleted.right_border + 1))),
            r == Err::<(), RegionsArrayError>(RegionsArrayError::StorageFull) ==> old(self)@.len()
                == old(self).cap() && exists|i: int|
                0 <= i < old(self)@.len() && (#[trigger] old(self)@[i]).left_border + 1
                    < deleted.left_border && deleted.right_border + 1 < old(self)@[i].right_border,
    {
        proof {
            use_type_invariant(&*self);
        }
        if !deleted.is_valid() {
            return Err(RegionsArrayError::InvalidRegion);
        }
        let ghost s = self.regions@;
        let len = self.regions.len();
        let mut extra_slots_needed: usize = 0;
        let mut slots_freed: usize = 0;
        let mut index: usize = 0;
        // Count first: nothing changes unless the result fits.
        while index < len
            invariant
                len == s.len(),
                s == self.regions@,
                sorted_disjoint(s),
                deleted.valid(),
                index <= len,
                slots_freed <= index,
                extra_slots_needed <= index,
                subtract_all(s.subrange(0, index as int), deleted).len() == index - slots_freed
                    + extra_slots_needed,
            decreases len - index,
        {
            let existing = self.regions[index];
            proof {
                assert(s.subrange(0, index + 1).drop_last() =~= s.subrange(0, index as int));
                assert(s[index as int].valid());
            }
            match existing.subtract(&deleted) {
                Ok(SubtractResult::Empty) => {
                    slots_freed += 1;
                },
                Ok(SubtractResult::One(_)) => {},
                Ok(SubtractResult::Two(_, _)) => {
                    extra_slots_needed += 1;
                },
                Err(e) => {
                    return Err(e);
                },
            }
            index += 1;
        }
        proof {
            assert(s.subrange(0, len as int) =~= s);
            lemma_subtract_all_len(s, deleted);
            lemma_subtract_all_exact(s, deleted);
        }
        if extra_slots_needed > self.capacity - (len - slots_freed) {
            return Err(RegionsArrayError::StorageFull);
        }
        let mut result: Vec<MemoryRegion> = Vec::new();
        let mut index: usize = 0;
        while index < len
            invariant
                len == s.len(),
                s == self.regions@,
                sorted_disjoint(s),
                deleted.valid(),
                index <= len,
                result@ == subtract_all(s.subrange(0, index as int), deleted),
            decreases len - index,
        {
            let existing = self.regions[index];
            proof {
                assert(s.subrange(0, index + 1).drop_last() =~= s.subrange(0, index as int));
                assert(s[index as int].valid());
            }
            match existing.subtract(&deleted) {
                Ok(SubtractResult::Empty) => {},
                Ok(SubtractResult::One(region)) => {
                    result.push(region);
                },
                Ok(SubtractResult::Two(left, right)) => {
                    result.push(left);
                    result.push(right);
                },
                Err(e) => {
                    return Err(e);
                },
            }
            proof {
                assert(result@ =~= subtract_all(s.subrange(0, index + 1), deleted));
            }
            index += 1;
        }
        proof {
            lemma_subtract_all(s, deleted);
        }
        self.regions = result;
        Ok(())
    }

    /// The first and the last index of the regions that overlap `region`.
    pub fn find_overlap_regions(&self, region: &MemoryRegion) -> (r: OverlapRegionIds)
        ensures
            r.left_border_region_id is None <==> meets_none(self@, *region),
            r.right_border_region_id is None <==> meets_none(self@, *region),
            r.left_border_region_id matches Some(i) ==> {
                &&& i < self@.len()
                &&& self@[i as int].meets(*region)
                &&& forall|x: int| 0 <= x < i ==> !#[trigger] self@[x].meets(*region)
            },
            r.right_border_region_id matches Some(i) ==> {
                &&& i < self@.len()
                &&& self@[i as int].meets(*region)
                &&& forall|x: int| i < x < self@.len() ==> !#[trigger] self@[x].meets(*region)
            },
    {
        let mut result = OverlapRegionIds { left_border_region_id: None, right_border_region_id: None };
        let len = self.regions.len();
        if len == 0 {
            return result;
        }
        let mut index: usize = 0;
        while index < len
            invariant_except_break
                result.left_border_region_id is None,
            invariant
                len == self@.len(),
                index <= len,
                result.right_border_region_id is None,
                forall|x: int| 0 <= x < index ==> !#[trigger] self@[x].meets(*region),
            ensures
                result.right_border_region_id is None,
                result.left_border_region_id is None ==> meets_none(self@, *region),
                result.left_border_region_id matches Some(i) ==> i < len && self@[i as int].meets(
                    *region,
                ) && forall|x: int| 0 <= x < i ==> !#[trigger] self@[x].meets(*region),
            decreases len - index,
        {
            if self.regions[index].overlaps(region) {
                result.left_border_region_id = Some(index);
                break;
            }
            index += 1;
        }
        if result.left_border_region_id.is_none() {
            return result;
        }
        let mut index: usize = len;
        while index > 0
            invariant_except_break
                result.right_border_region_id is None,
            invariant
                len == self@.len(),
                index <= len,
                (result.left_border_region_id matches Some(i) && i < len && self@[i as int].meets(
                    *region,
                ) && forall|x: int| 0 <= x < i ==> !#[trigger] self@[x].meets(*region)),
                forall|x: int| index <= x < len ==> !#[trigger] self@[x].meets(*region),
            ensures
                result.right_border_region_id matches Some(i) ==> i < len && self@[i as int].meets(
                    *region,
                ) && forall|x: int| i < x < len ==> !#[trigger] self@[x].meets(*region),
                result.right_border_region_id is Some,
            decreases index,
        {
            if self.regions[index - 1].overlaps(region) {
                result.right_border_region_id = Some(index - 1);
                break;
            }
            index -= 1;
        }
        result
    }
}

} // verus!
