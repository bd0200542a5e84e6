//! The state of a pool as the contracts see it: its capacity, its free
//! regions and its live allocations.
//!
//! A set of regions is a `Map<int, int>` from the start of each region to
//! its size. The functions here say what it means for such sets to be
//! consistent, and what allocating, freeing, growing and resizing do to them.
use vstd::prelude::*;

verus! {

/// The sizes of the regions that start below `limit`, added up.
pub open spec fn total_size(regions: Map<int, int>, limit: int) -> int
    decreases limit,
{
    if limit <= 0 {
        0
    } else {
        total_size(regions, limit - 1) + size_at(regions, limit - 1)
    }
}

/// The size of the region that starts at `start`, or zero if none does.
pub open spec fn size_at(regions: Map<int, int>, start: int) -> int {
    if regions.dom().contains(start) {
        regions[start]
    } else {
        0
    }
}

/// The region that starts at `start` contains the location `at`.
pub open spec fn region_holds(regions: Map<int, int>, start: int, at: int) -> bool {
    regions.dom().contains(start) && start <= at < start + regions[start]
}

/// Some region contains the location `at`.
pub open spec fn holds(regions: Map<int, int>, at: int) -> bool {
    exists|start: int| region_holds(regions, start, at)
}

/// Every region is non-empty and lies between zero and `capacity`.
pub open spec fn within(regions: Map<int, int>, capacity: int) -> bool {
    forall|start: int| #[trigger]
        regions.dom().contains(start) ==> 0 <= start && 0 < regions[start] && start + regions[start]
            <= capacity
}

/// No two regions overlap.
pub open spec fn disjoint(regions: Map<int, int>) -> bool {
    forall|a: int, b: int| #[trigger]
        regions.dom().contains(a) && #[trigger] regions.dom().contains(b) && a < b ==> a
            + regions[a] <= b
}

/// No two regions overlap or touch.
pub open spec fn separated(regions: Map<int, int>) -> bool {
    forall|a: int, b: int| #[trigger]
        regions.dom().contains(a) && #[trigger] regions.dom().contains(b) && a < b ==> a
            + regions[a] < b
}

/// No region of `left` overlaps a region of `right`.
pub open spec fn apart(left: Map<int, int>, right: Map<int, int>) -> bool {
    forall|a: int, b: int| #[trigger]
        left.dom().contains(a) && #[trigger] right.dom().contains(b) ==> a + left[a] <= b || b
            + right[b] <= a
}

/// No region overlaps the range from `start` to `end`.
pub open spec fn clear_of(regions: Map<int, int>, start: int, end: int) -> bool {
    forall|a: int| #[trigger]
        regions.dom().contains(a) ==> a + regions[a] <= start || end <= a
}

/// The region that starts at `start` ends at `at`.
pub open spec fn ends_at(regions: Map<int, int>, start: int, at: int) -> bool {
    regions.dom().contains(start) && start + regions[start] == at
}

/// Where the free run begins that a range starting at `offset` joins when it
/// is released: the start of the region that ends at `offset`, or `offset`
/// itself if no region ends there.
pub open spec fn run_start(regions: Map<int, int>, offset: int) -> int {
    if exists|start: int| ends_at(regions, start, offset) {
        choose|start: int| ends_at(regions, start, offset)
    } else {
        offset
    }
}

/// Where the free run ends that a range ending at `end` joins when it is
/// released: the end of the region that starts at `end`, or `end` itself if
/// no region starts there.
pub open spec fn run_end(regions: Map<int, int>, end: int) -> int {
    end + size_at(regions, end)
}

/// The free regions after the range of `size` locations at `offset` has been
/// released: the range is one region together with the region that ends
/// where it starts and the region that starts where it ends, if there are
/// such.
pub open spec fn release(regions: Map<int, int>, offset: int, size: int) -> Map<int, int> {
    let start = run_start(regions, offset);
    let end = run_end(regions, offset + size);
    regions.remove(start).remove(offset + size).insert(start, end - start)
}

/// The free regions after `size` locations have been taken out of the
/// region at `start`, leaving `pad` locations free in front of them.
pub open spec fn carve(regions: Map<int, int>, start: int, pad: int, size: int) -> Map<int, int> {
    let rest = regions[start] - pad - size;
    let without = regions.remove(start);
    let padded = if pad > 0 {
        without.insert(start, pad)
    } else {
        without
    };
    if rest > 0 {
        padded.insert(start + pad + size, rest)
    } else {
        padded
    }
}

/// The region at `start` has room for `want` locations.
pub open spec fn region_fits(regions: Map<int, int>, start: int, want: int) -> bool {
    regions.dom().contains(start) && want <= regions[start]
}

/// The region at `start` is the best fit for `want` locations: the smallest
/// region that has room for them, and among the regions of that size the one
/// at the lowest location.
pub open spec fn is_best_fit(regions: Map<int, int>, start: int, want: int) -> bool {
    &&& region_fits(regions, start, want)
    &&& forall|other: int| #[trigger]
        region_fits(regions, other, want) ==> regions[start] < regions[other] || (regions[start]
            == regions[other] && start <= other)
}

/// The region at `start` is the largest, and among the regions of that size
/// the one at the highest location.
pub open spec fn is_largest(regions: Map<int, int>, start: int) -> bool {
    &&& regions.dom().contains(start)
    &&& forall|other: int| #[trigger]
        regions.dom().contains(other) ==> regions[other] < regions[start] || (regions[other]
            == regions[start] && other <= start)
}

/// How far the next multiple of `align` is from `start`.
pub open spec fn padding(start: int, align: int) -> int {
    (align - start % align) % align
}

/// Putting a region into a set changes the total by its size, less the size
/// of the region that started there before.
pub proof fn lemma_total_insert(regions: Map<int, int>, limit: int, start: int, size: int)
    ensures
        total_size(regions.insert(start, size), limit) == total_size(regions, limit) + if 0 <= start
            < limit {
            size - size_at(regions, start)
        } else {
            0
        },
    decreases limit,
{
    if limit > 0 {
        lemma_total_insert(regions, limit - 1, start, size);
    }
}

/// Taking a region out of a set lowers the total by its size.
pub proof fn lemma_total_remove(regions: Map<int, int>, limit: int, start: int)
    ensures
        total_size(regions.remove(start), limit) == total_size(regions, limit) - if 0 <= start
            < limit {
            size_at(regions, start)
        } else {
            0
        },
    decreases limit,
{
    if limit > 0 {
        lemma_total_remove(regions, limit - 1, start);
    }
}

/// Where no size is negative, the total is not negative and no region is
/// larger than the total.
pub proof fn lemma_total_bounds(regions: Map<int, int>, limit: int)
    requires
        forall|start: int| #[trigger] regions.dom().contains(start) ==> 0 <= regions[start],
    ensures
        0 <= total_size(regions, limit),
        forall|start: int| 0 <= start < limit ==> #[trigger] size_at(regions, start) <= total_size(regions, limit),
    decreases limit,
{
    if limit > 0 {
        lemma_total_bounds(regions, limit - 1);
    }
}

/// Raising the limit past locations at which no region starts leaves the
/// total as it is.
pub proof fn lemma_total_beyond(regions: Map<int, int>, from: int, to: int)
    requires
        from <= to,
        forall|start: int| from <= start < to ==> !regions.dom().contains(start),
    ensures
        total_size(regions, to) == total_size(regions, from),
    decreases to - from,
{
    if from < to {
        lemma_total_beyond(regions, from, to - 1);
    }
}

/// A set without regions has the total zero.
pub proof fn lemma_total_of_none(regions: Map<int, int>, limit: int)
    requires
        forall|start: int| 0 <= start < limit ==> !regions.dom().contains(start),
    ensures
        total_size(regions, limit) == 0,
    decreases limit,
{
    if limit > 0 {
        lemma_total_of_none(regions, limit - 1);
    }
}

/// The state of a pool.
pub struct Pool {
    /// How many locations the pool has.
    pub capacity: int,
    /// The free regions: each start with the size of the region.
    pub free: Map<int, int>,
    /// The live allocations: each offset with the size of the allocation.
    pub live: Map<int, int>,
}

impl Pool {
    /// A pool of the given capacity in which nothing is allocated.
    pub open spec fn fresh(capacity: int) -> Pool {
        Pool { capacity, free: map![0int => capacity], live: Map::empty() }
    }

    /// The sizes of the free regions, added up.
    pub open spec fn total_free(self) -> int {
        total_size(self.free, self.capacity)
    }

    /// The sizes of the live allocations, added up.
    pub open spec fn total_live(self) -> int {
        total_size(self.live, self.capacity)
    }

    /// The location `at` belongs to a free region or to a live allocation.
    pub open spec fn accounts_for(self, at: int) -> bool {
        holds(self.free, at) || holds(self.live, at)
    }

    /// What holds of a pool at all times.
    ///
    /// The free regions and the live allocations lie in the pool and none is
    /// empty. No two of them overlap, no two free regions touch, and together
    /// they cover the pool, so that their sizes add up to the capacity.
    pub open spec fn well_formed(self) -> bool {
        &&& 0 < self.capacity <= u32::MAX
        &&& within(self.free, self.capacity)
        &&& within(self.live, self.capacity)
        &&& separated(self.free)
        &&& disjoint(self.live)
        &&& apart(self.free, self.live)
        &&& forall|at: int| 0 <= at < self.capacity ==> #[trigger] self.accounts_for(at)
        &&& self.total_free() + self.total_live() == self.capacity
    }

    /// No allocation is live.
    pub open spec fn nothing_live(self) -> bool {
        forall|offset: int| !self.live.dom().contains(offset)
    }

    /// `n` is the size of the largest free region, or zero if there is none.
    pub open spec fn largest_free_is(self, n: int) -> bool {
        &&& forall|start: int| #[trigger] self.free.dom().contains(start) ==> self.free[start] <= n
        &&& n != 0 ==> exists|start: int| #[trigger] self.free.dom().contains(start) && self.free[start] == n
        &&& n == 0 ==> self.free =~= Map::empty()
    }

    /// The free region at `start` has room for `want` locations.
    pub open spec fn fits(self, start: int, want: int) -> bool {
        region_fits(self.free, start, want)
    }

    /// The free region at `start` is the best fit for `want` locations: the
    /// smallest region that has room for them, and among the regions of that
    /// size the one at the lowest location.
    pub open spec fn best_fit(self, start: int, want: int) -> bool {
        is_best_fit(self.free, start, want)
    }

    /// Some free region has room for `want` locations.
    pub open spec fn has_room(self, want: int) -> bool {
        exists|start: int| self.fits(start, want)
    }

    /// The start of the best fit for `want` locations, where a region has
    /// room for them.
    pub open spec fn best_fit_start(self, want: int) -> int {
        choose|start: int| self.best_fit(start, want)
    }

    /// `size` locations with the alignment `align` can be allocated: neither
    /// is zero, and a free region has room for `size + align - 1` locations,
    /// a number that fits in a `u32`.
    pub open spec fn can_allocate(self, size: int, align: int) -> bool {
        &&& size > 0
        &&& align > 0
        &&& size + align - 1 <= u32::MAX
        &&& self.has_room(size + align - 1)
    }

    /// The offset that an allocation of `size` locations with the alignment
    /// `align` gets: the first multiple of `align` in the best fit for
    /// `size + align - 1` locations.
    pub open spec fn allocation_offset(self, size: int, align: int) -> int {
        let start = self.best_fit_start(size + align - 1);
        start + padding(start, align)
    }

    /// The pool after `size` locations with the alignment `align` have been
    /// allocated.
    pub open spec fn allocated(self, size: int, align: int) -> Pool {
        let start = self.best_fit_start(size + align - 1);
        let pad = padding(start, align);
        Pool {
            capacity: self.capacity,
            free: carve(self.free, start, pad, size),
            live: self.live.insert(start + pad, size),
        }
    }

    /// The pool after the live allocation at `offset` has been freed.
    pub open spec fn freed(self, offset: int) -> Pool {
        Pool {
            capacity: self.capacity,
            free: release(self.free, offset, self.live[offset]),
            live: self.live.remove(offset),
        }
    }

    /// The pool after its capacity has grown by `additional`.
    pub open spec fn grown(self, additional: int) -> Pool {
        if additional == 0 {
            self
        } else {
            Pool {
                capacity: self.capacity + additional,
                free: release(self.free, self.capacity, additional),
                live: self.live,
            }
        }
    }

    /// The free space that follows the live allocation at `offset` directly:
    /// the size of the free region that starts where the allocation ends, or
    /// zero if none starts there.
    pub open spec fn room_after(self, offset: int) -> int {
        size_at(self.free, offset + self.live[offset])
    }

    /// The live allocation at `offset` can be resized to `new_size` where it
    /// is: the new size is not zero, and what it adds to the old size is
    /// free directly after the allocation.
    pub open spec fn can_resize(self, offset: int, new_size: int) -> bool {
        new_size > 0 && new_size - self.live[offset] <= self.room_after(offset)
    }

    /// The pool after the live allocation at `offset` has been resized to
    /// `new_size` where it is.
    pub open spec fn resized(self, offset: int, new_size: int) -> Pool {
        let old_size = self.live[offset];
        let end = offset + old_size;
        Pool {
            capacity: self.capacity,
            free: if new_size > old_size {
                carve(self.free, end, 0, new_size - old_size)
            } else if new_size < old_size {
                release(self.free, offset + new_size, old_size - new_size)
            } else {
                self.free
            },
            live: self.live.insert(offset, new_size),
        }
    }
}

} // verus!
