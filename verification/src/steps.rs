//! Each step of the allocator keeps a pool well formed.
//!
//! The lemmas here are about sets of regions and about [`Pool`]s only; the
//! allocator calls them once it has shown that its index holds the regions
//! that the step is said to leave.
use crate::pool::{
    apart, carve, clear_of, disjoint, ends_at, holds, lemma_total_beyond, lemma_total_insert,
    lemma_total_of_none, lemma_total_remove, padding, region_holds, release, run_end, run_start,
    separated, total_size, within, Pool,
};
use vstd::arithmetic::div_mod::{
    lemma_fundamental_div_mod, lemma_mod_multiples_vanish, lemma_mod_pos_bound, lemma_small_mod,
};
use vstd::prelude::*;

verus! {

/// In a set of regions that neither overlap nor touch, at most one region
/// ends at a given location, and `run_start` finds it.
pub proof fn lemma_run_start(regions: Map<int, int>, capacity: int, offset: int)
    requires
        within(regions, capacity),
        separated(regions),
    ensures
        run_start(regions, offset) <= offset,
        run_start(regions, offset) < offset ==> ends_at(regions, run_start(regions, offset), offset),
        run_start(regions, offset) == offset ==> forall|start: int| !ends_at(regions, start, offset),
        forall|start: int| ends_at(regions, start, offset) ==> start == run_start(regions, offset),
{
    let found = run_start(regions, offset);
    if exists|start: int| ends_at(regions, start, offset) {
        assert(ends_at(regions, found, offset));
        assert forall|start: int| ends_at(regions, start, offset) implies start == found by {
            if start < found {
                assert(start + regions[start] < found);
            } else if found < start {
                assert(found + regions[found] < start);
            }
        }
    }
}

/// Releasing a range that no free region overlaps leaves free regions that
/// lie in the pool and neither overlap nor touch. Their total has grown by
/// the size of the range, and they hold the locations that the regions held
/// before and the locations of the range.
pub proof fn lemma_release(regions: Map<int, int>, capacity: int, offset: int, size: int)
    requires
        within(regions, capacity),
        separated(regions),
        clear_of(regions, offset, offset + size),
        0 <= offset,
        0 < size,
        offset + size <= capacity,
    ensures
        within(release(regions, offset, size), capacity),
        separated(release(regions, offset, size)),
        total_size(release(regions, offset, size), capacity) == total_size(regions, capacity) + size,
        forall|at: int|
            holds(release(regions, offset, size), at) <==> (holds(regions, at) || offset <= at < offset
                + size),
{
    let start = run_start(regions, offset);
    let end = offset + size;
    let stop = run_end(regions, end);
    let first = regions.remove(start);
    let second = first.remove(end);
    let after = release(regions, offset, size);
    lemma_run_start(regions, capacity, offset);
    assert(!regions.dom().contains(offset)) by {
        if regions.dom().contains(offset) {
            assert(offset + regions[offset] <= offset || end <= offset);
        }
    }
    assert(after == second.insert(start, stop - start));
    lemma_total_remove(regions, capacity, start);
    lemma_total_remove(first, capacity, end);
    lemma_total_insert(second, capacity, start, stop - start);
    assert(within(after, capacity));
    assert(separated(after)) by {
        assert forall|a: int, b: int|
            after.dom().contains(a) && after.dom().contains(b) && a < b implies a + after[a] < b by {
            if a == start {
                assert(regions.dom().contains(b));
                assert(b + regions[b] <= offset || end <= b);
                if start < offset {
                    assert(regions.dom().contains(start));
                }
                if regions.dom().contains(end) {
                    assert(end < b);
                }
            } else if b == start {
                assert(regions.dom().contains(a));
                assert(a + regions[a] <= offset || end <= a);
                assert(!ends_at(regions, a, offset) || a == start);
            } else {
                assert(regions.dom().contains(a) && regions.dom().contains(b));
            }
        }
    }
    assert forall|at: int| holds(after, at) <==> (holds(regions, at) || offset <= at < end) by {
        if holds(after, at) {
            let s = choose|s: int| region_holds(after, s, at);
            if s == start {
                if at < offset {
                    assert(region_holds(regions, start, at));
                } else if at >= end {
                    assert(region_holds(regions, end, at));
                }
            } else {
                assert(region_holds(regions, s, at));
            }
        }
        if holds(regions, at) {
            let s = choose|s: int| region_holds(regions, s, at);
            if s == start || s == end {
                assert(region_holds(after, start, at));
            } else {
                assert(region_holds(after, s, at));
            }
        }
        if offset <= at < end {
            assert(region_holds(after, start, at));
        }
    }
}

/// What [`lemma_release`] says of the locations held, for one location.
pub proof fn lemma_release_holds(regions: Map<int, int>, capacity: int, offset: int, size: int, at: int)
    requires
        within(regions, capacity),
        separated(regions),
        clear_of(regions, offset, offset + size),
        0 <= offset,
        0 < size,
        offset + size <= capacity,
    ensures
        holds(release(regions, offset, size), at) <==> (holds(regions, at) || offset <= at < offset + size),
{
    lemma_release(regions, capacity, offset, size);
}

/// Releasing a range keeps the free regions apart from every set of regions
/// that they were apart from and that the range does not overlap.
pub proof fn lemma_release_apart(
    regions: Map<int, int>,
    others: Map<int, int>,
    capacity: int,
    offset: int,
    size: int,
)
    requires
        within(regions, capacity),
        separated(regions),
        clear_of(regions, offset, offset + size),
        within(others, capacity),
        apart(regions, others),
        clear_of(others, offset, offset + size),
        0 < size,
    ensures
        apart(release(regions, offset, size), others),
{
    let start = run_start(regions, offset);
    let end = offset + size;
    let after = release(regions, offset, size);
    lemma_run_start(regions, capacity, offset);
    assert forall|a: int, b: int| after.dom().contains(a) && others.dom().contains(b) implies a
        + after[a] <= b || b + others[b] <= a by {
        assert(0 < others[b]);
        if a == start {
            assert(b + others[b] <= offset || end <= b);
            if start < offset {
                assert(regions.dom().contains(start));
                assert(start + regions[start] <= b || b + others[b] <= start);
            }
            if regions.dom().contains(end) {
                assert(end + regions[end] <= b || b + others[b] <= end);
            }
        } else {
            assert(regions.dom().contains(a));
            assert(after[a] == regions[a]);
        }
    }
}

/// Taking locations out of a free region leaves free regions that lie in the
/// pool and neither overlap nor touch, and none of them overlaps the range
/// that was taken. Their total has shrunk by the size of the range, and
/// together with the range they hold the locations that the regions held
/// before.
pub proof fn lemma_carve(regions: Map<int, int>, capacity: int, start: int, pad: int, size: int)
    requires
        within(regions, capacity),
        separated(regions),
        regions.dom().contains(start),
        0 <= pad,
        0 < size,
        pad + size <= regions[start],
    ensures
        within(carve(regions, start, pad, size), capacity),
        separated(carve(regions, start, pad, size)),
        clear_of(carve(regions, start, pad, size), start + pad, start + pad + size),
        total_size(carve(regions, start, pad, size), capacity) == total_size(regions, capacity) - size,
        forall|at: int|
            holds(regions, at) <==> (holds(carve(regions, start, pad, size), at) || start + pad <= at
                < start + pad + size),
{
    let rest = regions[start] - pad - size;
    let tail = start + pad + size;
    let without = regions.remove(start);
    let padded = if pad > 0 {
        without.insert(start, pad)
    } else {
        without
    };
    let after = carve(regions, start, pad, size);
    lemma_total_remove(regions, capacity, start);
    lemma_total_insert(without, capacity, start, pad);
    lemma_total_insert(padded, capacity, tail, rest);
    assert(!regions.dom().contains(tail)) by {
        if regions.dom().contains(tail) {
            assert(start + regions[start] < tail);
        }
    }
    assert forall|a: int| after.dom().contains(a) && a != start && a != tail implies regions.dom().contains(
        a,
    ) && after[a] == regions[a] by {}
    assert(within(after, capacity));
    assert(separated(after)) by {
        assert forall|a: int, b: int|
            after.dom().contains(a) && after.dom().contains(b) && a < b implies a + after[a] < b by {
            if a != start && a != tail {
                assert(a < start ==> a + regions[a] < start);
                assert(start < a ==> start + regions[start] < a);
            }
            if b != start && b != tail {
                assert(b < start ==> b + regions[b] < start);
                assert(start < b ==> start + regions[start] < b);
            }
        }
    }
    assert(clear_of(after, start + pad, tail)) by {
        assert forall|a: int| after.dom().contains(a) implies a + after[a] <= start + pad || tail
            <= a by {
            if a != start && a != tail {
                assert(a < start ==> a + regions[a] < start);
                assert(start < a ==> start + regions[start] < a);
            }
        }
    }
    assert forall|at: int| holds(regions, at) <==> (holds(after, at) || start + pad <= at < tail) by {
        if holds(regions, at) {
            let s = choose|s: int| region_holds(regions, s, at);
            if s == start {
                if at < start + pad {
                    assert(region_holds(after, start, at));
                } else if at >= tail {
                    assert(region_holds(after, tail, at));
                }
            } else {
                assert(region_holds(after, s, at));
            }
        }
        if holds(after, at) {
            let s = choose|s: int| region_holds(after, s, at);
            if s == start || s == tail {
                assert(region_holds(regions, start, at));
            } else {
                assert(region_holds(regions, s, at));
            }
        }
        if start + pad <= at < tail {
            assert(region_holds(regions, start, at));
        }
    }
}

/// Taking locations out of a free region keeps the free regions apart from
/// every set of regions that they were apart from.
pub proof fn lemma_carve_apart(
    regions: Map<int, int>,
    others: Map<int, int>,
    start: int,
    pad: int,
    size: int,
)
    requires
        apart(regions, others),
        regions.dom().contains(start),
        0 <= pad,
        0 < size,
        pad + size <= regions[start],
    ensures
        apart(carve(regions, start, pad, size), others),
{
    let after = carve(regions, start, pad, size);
    let tail = start + pad + size;
    assert forall|a: int, b: int| after.dom().contains(a) && others.dom().contains(b) implies a
        + after[a] <= b || b + others[b] <= a by {
        if a == start || a == tail {
            assert(start + regions[start] <= b || b + others[b] <= start);
        } else {
            assert(regions.dom().contains(a) && after[a] == regions[a]);
        }
    }
}

/// The padding in front of an aligned allocation is shorter than the
/// alignment, and the location behind it is a multiple of the alignment.
pub proof fn lemma_padding(start: int, align: int)
    requires
        0 <= start,
        0 < align,
    ensures
        0 <= padding(start, align) < align,
        (start + padding(start, align)) % align == 0,
{
    let rest = start % align;
    lemma_mod_pos_bound(start, align);
    lemma_fundamental_div_mod(start, align);
    if rest == 0 {
        assert(padding(start, align) == 0) by {
            lemma_mod_multiples_vanish(1, 0, align);
            lemma_small_mod(0, align as nat);
        }
    } else {
        lemma_small_mod((align - rest) as nat, align as nat);
        assert(padding(start, align) == align - rest);
        let quotient = start / align;
        assert(start + padding(start, align) == align * (quotient + 1) + 0) by (nonlinear_arith)
            requires
                start == align * quotient + rest,
                padding(start, align) == align - rest,
        ;
        lemma_mod_multiples_vanish(quotient + 1, 0, align);
        lemma_small_mod(0, align as nat);
    }
}

/// Two best fits for one request are the same region.
pub proof fn lemma_best_fit_unique(pool: Pool, first: int, second: int, want: int)
    requires
        pool.best_fit(first, want),
        pool.best_fit(second, want),
    ensures
        first == second,
{
    assert(pool.fits(first, want));
    assert(pool.fits(second, want));
}

/// A pool of a capacity between one and `u32::MAX` in which nothing is
/// allocated is well formed, and all of it is free.
pub proof fn lemma_fresh(capacity: int)
    requires
        0 < capacity <= u32::MAX,
    ensures
        Pool::fresh(capacity).well_formed(),
        Pool::fresh(capacity).total_free() == capacity,
{
    let pool = Pool::fresh(capacity);
    let none = Map::<int, int>::empty();
    lemma_total_of_none(none, capacity);
    lemma_total_insert(none, capacity, 0, capacity);
    assert(pool.free == none.insert(0, capacity));
    assert forall|at: int| 0 <= at < capacity implies #[trigger] pool.accounts_for(at) by {
        assert(region_holds(pool.free, 0, at));
    }
}

/// Allocating from the best fit keeps the pool well formed. The allocation
/// starts at a multiple of the alignment, lies in the pool and overlaps no
/// allocation that was live before; the free total shrinks by its size.
pub proof fn lemma_allocated(pool: Pool, start: int, size: int, align: int)
    requires
        pool.well_formed(),
        0 < size,
        0 < align,
        pool.best_fit(start, size + align - 1),
    ensures
        pool.best_fit_start(size + align - 1) == start,
        pool.can_allocate(size, align),
        pool.allocated(size, align).well_formed(),
        pool.allocated(size, align).total_free() == pool.total_free() - size,
        pool.allocation_offset(size, align) % align == 0,
        pool.allocation_offset(size, align) + size <= pool.capacity,
        start <= pool.allocation_offset(size, align),
        pool.allocation_offset(size, align) + size <= start + pool.free[start],
        !pool.live.dom().contains(pool.allocation_offset(size, align)),
        clear_of(pool.live, pool.allocation_offset(size, align), pool.allocation_offset(size, align) + size),
{
    let want = size + align - 1;
    lemma_best_fit_unique(pool, start, pool.best_fit_start(want), want);
    assert(pool.fits(start, want));
    lemma_padding(start, align);
    let pad = padding(start, align);
    let offset = start + pad;
    let after = pool.allocated(size, align);
    lemma_carve(pool.free, pool.capacity, start, pad, size);
    lemma_carve_apart(pool.free, pool.live, start, pad, size);
    assert(clear_of(pool.live, offset, offset + size)) by {
        assert forall|a: int| pool.live.dom().contains(a) implies a + pool.live[a] <= offset
            || offset + size <= a by {
            assert(start + pool.free[start] <= a || a + pool.live[a] <= start);
        }
    }
    assert(!pool.live.dom().contains(offset)) by {
        if pool.live.dom().contains(offset) {
            assert(offset + pool.live[offset] <= offset || offset + size <= offset);
        }
    }
    lemma_total_insert(pool.live, pool.capacity, offset, size);
    assert(disjoint(after.live));
    assert(apart(after.free, after.live)) by {
        assert forall|a: int, b: int| after.free.dom().contains(a) && after.live.dom().contains(b) implies a
            + after.free[a] <= b || b + after.live[b] <= a by {
            if b == offset {
                assert(a + after.free[a] <= offset || offset + size <= a);
            }
        }
    }
    assert forall|at: int| 0 <= at < after.capacity implies #[trigger] after.accounts_for(at) by {
        assert(pool.accounts_for(at));
        if holds(pool.live, at) {
            let s = choose|s: int| region_holds(pool.live, s, at);
            assert(region_holds(after.live, s, at));
        } else if offset <= at < offset + size {
            assert(region_holds(after.live, offset, at));
        }
    }
}

/// Freeing a live allocation keeps the pool well formed, and the free total
/// grows by the size of the allocation.
pub proof fn lemma_freed(pool: Pool, offset: int)
    requires
        pool.well_formed(),
        pool.live.dom().contains(offset),
    ensures
        pool.freed(offset).well_formed(),
        pool.freed(offset).total_free() == pool.total_free() + pool.live[offset],
        clear_of(pool.free, offset, offset + pool.live[offset]),
{
    let size = pool.live[offset];
    let after = pool.freed(offset);
    assert(clear_of(pool.free, offset, offset + size)) by {
        assert forall|a: int| pool.free.dom().contains(a) implies a + pool.free[a] <= offset
            || offset + size <= a by {
            assert(a + pool.free[a] <= offset || offset + pool.live[offset] <= a);
        }
    }
    assert(clear_of(after.live, offset, offset + size)) by {
        assert forall|a: int| after.live.dom().contains(a) implies a + after.live[a] <= offset
            || offset + size <= a by {
            assert(pool.live.dom().contains(a) && a != offset);
            assert(a < offset ==> a + pool.live[a] <= offset);
            assert(offset < a ==> offset + pool.live[offset] <= a);
        }
    }
    lemma_release(pool.free, pool.capacity, offset, size);
    lemma_release_apart(pool.free, after.live, pool.capacity, offset, size);
    lemma_total_remove(pool.live, pool.capacity, offset);
    assert forall|at: int| 0 <= at < after.capacity implies #[trigger] after.accounts_for(at) by {
        assert(pool.accounts_for(at));
        lemma_release_holds(pool.free, pool.capacity, offset, size, at);
        if holds(pool.live, at) {
            let s = choose|s: int| region_holds(pool.live, s, at);
            if s != offset {
                assert(region_holds(after.live, s, at));
            }
        }
    }
}

/// Growing the capacity keeps the pool well formed, and the free total grows
/// by as much as the capacity.
pub proof fn lemma_grown(pool: Pool, additional: int)
    requires
        pool.well_formed(),
        0 <= additional,
        pool.capacity + additional <= u32::MAX,
    ensures
        pool.grown(additional).well_formed(),
        pool.grown(additional).capacity == pool.capacity + additional,
        pool.grown(additional).total_free() == pool.total_free() + additional,
        additional > 0 ==> clear_of(pool.free, pool.capacity, pool.capacity + additional),
{
    if additional > 0 {
        let after = pool.grown(additional);
        lemma_total_beyond(pool.free, pool.capacity, after.capacity);
        lemma_total_beyond(pool.live, pool.capacity, after.capacity);
        lemma_release(pool.free, after.capacity, pool.capacity, additional);
        lemma_release_apart(pool.free, pool.live, after.capacity, pool.capacity, additional);
        assert forall|at: int| 0 <= at < after.capacity implies #[trigger] after.accounts_for(at) by {
            lemma_release_holds(pool.free, after.capacity, pool.capacity, additional, at);
            if at < pool.capacity {
                assert(pool.accounts_for(at));
            }
        }
    }
}

/// Resizing a live allocation where it is keeps the pool well formed, and the
/// free total changes by what the allocation gives up or takes.
pub proof fn lemma_resized(pool: Pool, offset: int, new_size: int)
    requires
        pool.well_formed(),
        pool.live.dom().contains(offset),
        pool.can_resize(offset, new_size),
    ensures
        pool.resized(offset, new_size).well_formed(),
        pool.resized(offset, new_size).total_free() == pool.total_free() + pool.live[offset] - new_size,
        new_size < pool.live[offset] ==> clear_of(pool.free, offset + new_size, offset + pool.live[offset]),
{
    let old_size = pool.live[offset];
    let end = offset + old_size;
    let after = pool.resized(offset, new_size);
    lemma_total_insert(pool.live, pool.capacity, offset, new_size);
    if new_size > old_size {
        let required = new_size - old_size;
        assert(pool.free.dom().contains(end));
        lemma_carve(pool.free, pool.capacity, end, 0, required);
        lemma_carve_apart(pool.free, pool.live, end, 0, required);
        assert(within(after.live, after.capacity));
        assert(disjoint(after.live)) by {
            assert forall|a: int, b: int|
                after.live.dom().contains(a) && after.live.dom().contains(b) && a < b implies a
                + after.live[a] <= b by {
                if a == offset {
                    assert(offset + pool.live[offset] <= b);
                    assert(end + pool.free[end] <= b || b + pool.live[b] <= end);
                }
            }
        }
        assert(apart(after.free, after.live)) by {
            assert forall|a: int, b: int|
                after.free.dom().contains(a) && after.live.dom().contains(b) implies a + after.free[a]
                <= b || b + after.live[b] <= a by {
                if b == offset {
                    assert(a + after.free[a] <= offset || offset + pool.live[offset] <= a);
                    assert(a + after.free[a] <= end || end + required <= a);
                }
            }
        }
        assert forall|at: int| 0 <= at < after.capacity implies #[trigger] after.accounts_for(at) by {
            assert(pool.accounts_for(at));
            if holds(pool.live, at) {
                let s = choose|s: int| region_holds(pool.live, s, at);
                assert(region_holds(after.live, s, at));
            } else if end <= at < end + required {
                assert(region_holds(after.live, offset, at));
            }
        }
    } else if new_size < old_size {
        let given = old_size - new_size;
        let from = offset + new_size;
        assert(clear_of(pool.free, from, end)) by {
            assert forall|a: int| pool.free.dom().contains(a) implies a + pool.free[a] <= from
                || end <= a by {
                assert(a + pool.free[a] <= offset || offset + pool.live[offset] <= a);
            }
        }
        assert(clear_of(after.live, from, end)) by {
            assert forall|a: int| after.live.dom().contains(a) implies a + after.live[a] <= from
                || end <= a by {
                if a != offset {
                    assert(a < offset ==> a + pool.live[a] <= offset);
                    assert(offset < a ==> offset + pool.live[offset] <= a);
                }
            }
        }
        assert(apart(pool.free, after.live)) by {
            assert forall|a: int, b: int|
                pool.free.dom().contains(a) && after.live.dom().contains(b) implies a + pool.free[a]
                <= b || b + after.live[b] <= a by {
                assert(a + pool.free[a] <= b || b + pool.live[b] <= a);
            }
        }
        lemma_release(pool.free, pool.capacity, from, given);
        lemma_release_apart(pool.free, after.live, pool.capacity, from, given);
        assert forall|at: int| 0 <= at < after.capacity implies #[trigger] after.accounts_for(at) by {
            assert(pool.accounts_for(at));
            lemma_release_holds(pool.free, pool.capacity, from, given, at);
            if holds(pool.live, at) {
                let s = choose|s: int| region_holds(pool.live, s, at);
                if s != offset {
                    assert(region_holds(after.live, s, at));
                } else if at < from {
                    assert(region_holds(after.live, offset, at));
                }
            }
        }
    } else {
        assert(after.live =~= pool.live);
    }
}

/// Where nothing is live, the whole pool is one free region.
pub proof fn lemma_all_free(pool: Pool)
    requires
        pool.well_formed(),
        pool.live =~= Map::empty(),
    ensures
        pool.free =~= Pool::fresh(pool.capacity).free,
{
    assert(pool.accounts_for(0));
    let first = choose|s: int| region_holds(pool.free, s, 0);
    assert(region_holds(pool.free, first, 0));
    assert(first == 0);
    let end = pool.free[0];
    if end < pool.capacity {
        assert(pool.accounts_for(end));
        let next = choose|s: int| region_holds(pool.free, s, end);
        assert(region_holds(pool.free, next, end));
        assert(0 + pool.free[0] < next);
    }
    assert forall|s: int| pool.free.dom().contains(s) implies s == 0 by {
        if s != 0 {
            assert(0 + pool.free[0] < s);
        }
    }
}

} // verus!
