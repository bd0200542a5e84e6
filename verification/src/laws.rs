//! What holds of every pool, whatever was allocated and freed before.
use crate::pool::{
    apart, clear_of, disjoint, is_best_fit, region_fits, separated, size_at, Pool,
};
use crate::steps::{lemma_all_free, lemma_allocated, lemma_freed, lemma_fresh};
use vstd::prelude::*;

verus! {

/// The sizes of the free regions and the sizes of the live allocations add up
/// to the capacity.
pub proof fn lemma_sizes_add_up(pool: Pool)
    requires
        pool.well_formed(),
    ensures
        pool.total_free() + pool.total_live() == pool.capacity,
{
}

/// No two free regions overlap or touch, no two live allocations overlap,
/// and no free region overlaps a live allocation.
pub proof fn lemma_nothing_overlaps(pool: Pool)
    requires
        pool.well_formed(),
    ensures
        separated(pool.free),
        disjoint(pool.live),
        apart(pool.free, pool.live),
{
}

/// Every location of the pool belongs to a free region or to a live
/// allocation.
pub proof fn lemma_every_location_accounted(pool: Pool, at: int)
    requires
        pool.well_formed(),
        0 <= at < pool.capacity,
    ensures
        pool.accounts_for(at),
{
}

/// In a pool in which nothing is allocated, all locations are free, and they
/// are one region.
pub proof fn lemma_fresh_is_one_region(capacity: int)
    requires
        0 < capacity <= u32::MAX,
    ensures
        Pool::fresh(capacity).well_formed(),
        Pool::fresh(capacity).total_free() == capacity,
        Pool::fresh(capacity).largest_free_is(capacity),
{
    lemma_fresh(capacity);
    assert(Pool::fresh(capacity).free.dom().contains(0));
}

/// Freeing the only live allocation leaves the pool as it was when nothing
/// was allocated: all locations are free, and they are one region.
pub proof fn lemma_freeing_the_only_allocation(pool: Pool, offset: int)
    requires
        pool.well_formed(),
        pool.live.dom().contains(offset),
        forall|other: int| pool.live.dom().contains(other) ==> other == offset,
    ensures
        pool.freed(offset) == Pool::fresh(pool.capacity),
        pool.freed(offset).total_free() == pool.capacity,
        pool.freed(offset).largest_free_is(pool.capacity),
{
    let after = pool.freed(offset);
    lemma_freed(pool, offset);
    assert(after.live =~= Map::empty());
    lemma_all_free(after);
    lemma_fresh_is_one_region(pool.capacity);
    assert(after.free =~= Pool::fresh(pool.capacity).free);
}

/// The region at `start` has room for `want` locations, and it is the best
/// fit among the regions that start below `limit`.
pub open spec fn is_best_fit_below(regions: Map<int, int>, start: int, want: int, limit: int) -> bool {
    &&& region_fits(regions, start, want)
    &&& start < limit
    &&& forall|other: int| #[trigger]
        region_fits(regions, other, want) && other < limit ==> regions[start] < regions[other] || (
        regions[start] == regions[other] && start <= other)
}

/// Among the regions that start below `limit`, one is the best fit for a
/// request, if any of them has room for it.
pub proof fn lemma_best_fit_below(regions: Map<int, int>, want: int, limit: int) -> (best: int)
    requires
        forall|start: int| #[trigger] regions.dom().contains(start) ==> 0 <= start,
        exists|start: int| region_fits(regions, start, want) && start < limit,
    ensures
        is_best_fit_below(regions, best, want, limit),
    decreases limit,
{
    let witness = choose|start: int| region_fits(regions, start, want) && start < limit;
    assert(0 <= witness);
    let last = limit - 1;
    if exists|start: int| region_fits(regions, start, want) && start < last {
        let before = lemma_best_fit_below(regions, want, last);
        if region_fits(regions, last, want) && (regions[last] < regions[before]) {
            last
        } else {
            before
        }
    } else {
        assert(witness == last);
        last
    }
}

/// Where a free region has room for a request, one free region is the best
/// fit for it.
pub proof fn lemma_best_fit_exists(pool: Pool, want: int)
    requires
        pool.well_formed(),
        pool.has_room(want),
    ensures
        pool.best_fit(pool.best_fit_start(want), want),
{
    let witness = choose|start: int| pool.fits(start, want);
    assert(region_fits(pool.free, witness, want) && witness < pool.capacity);
    let best = lemma_best_fit_below(pool.free, want, pool.capacity);
    assert(is_best_fit(pool.free, best, want)) by {
        assert forall|other: int| #[trigger] region_fits(pool.free, other, want) implies pool.free[best]
            < pool.free[other] || (pool.free[best] == pool.free[other] && best <= other) by {
            assert(pool.free.dom().contains(other));
            assert(other < pool.capacity);
        }
    }
    assert(pool.best_fit(best, want));
}

/// Whenever `size` locations with the alignment `align` can be allocated,
/// allocating them keeps the pool well formed. The allocation has the size
/// that was asked for, starts at a multiple of `align`, lies in the pool and
/// overlaps no allocation that was live before.
pub proof fn lemma_allocation(pool: Pool, size: int, align: int)
    requires
        pool.well_formed(),
        pool.can_allocate(size, align),
    ensures
        pool.allocated(size, align).well_formed(),
        pool.allocated(size, align).live.contains_pair(pool.allocation_offset(size, align), size),
        pool.allocation_offset(size, align) % align == 0,
        0 <= pool.allocation_offset(size, align),
        pool.allocation_offset(size, align) + size <= pool.capacity,
        clear_of(pool.live, pool.allocation_offset(size, align), pool.allocation_offset(size, align) + size),
        pool.allocated(size, align).total_free() == pool.total_free() - size,
{
    let want = size + align - 1;
    lemma_best_fit_exists(pool, want);
    lemma_allocated(pool, pool.best_fit_start(want), size, align);
    assert(pool.free.dom().contains(pool.best_fit_start(want)));
}

/// Resizing a live allocation to the size it has changes nothing.
pub proof fn lemma_resizing_to_the_same_size(pool: Pool, offset: int)
    requires
        pool.well_formed(),
        pool.live.dom().contains(offset),
    ensures
        pool.can_resize(offset, pool.live[offset]),
        pool.resized(offset, pool.live[offset]) == pool,
{
    assert(pool.live.insert(offset, pool.live[offset]) =~= pool.live);
    assert(0 <= size_at(pool.free, offset + pool.live[offset]));
}

/// Growing the capacity by nothing changes nothing.
pub proof fn lemma_growing_by_nothing(pool: Pool)
    ensures
        pool.grown(0) == pool,
{
}

} // verus!
