//! The allocator.
use crate::allocation::Allocation;
use crate::error::{Overflow, ReallocateError};
use crate::free_index::FreeIndex;
use crate::region::FreeRegion;
use crate::pool::{
    clear_of, is_largest, lemma_total_bounds, padding, region_fits, size_at, Pool,
};
use crate::size::NonZeroSize;
use crate::steps::{
    lemma_allocated, lemma_freed, lemma_fresh, lemma_grown, lemma_padding, lemma_resized,
};
use vstd::pervasive::unreached;
use vstd::prelude::*;

verus! {

/// An allocator for ranges of an external pool of memory.
///
/// It keeps the free regions of the pool and hands out the best fit for each
/// request. Ranges that are freed are merged with the free regions next to
/// them at once. The allocator never touches the memory itself, and it does
/// nothing to keep two threads apart: whoever shares it has to lock it.
///
/// In contracts the allocator is seen as a [`Pool`]. Which allocations are
/// live is known to the verifier only; nothing of it exists when the program
/// runs.
pub struct Allocator {
    /// The free regions.
    index: FreeIndex,
    /// The capacity of the pool.
    capacity: NonZeroSize,
    /// The sizes of the free regions, added up.
    available: u32,
    /// The live allocations: each offset with the size of the allocation.
    live: Ghost<Map<int, int>>,
}

impl View for Allocator {
    type V = Pool;

    closed spec fn view(&self) -> Pool {
        Pool { capacity: self.capacity@, free: self.index.regions(), live: self.live@ }
    }
}

/// The regions are in `list` as allocations, each once, ordered by size and,
/// where the sizes are equal, by offset.
pub open spec fn reports(regions: Map<int, int>, list: Seq<Allocation>) -> bool {
    &&& forall|i: int|
        0 <= i < list.len() ==> regions.contains_pair(
            (#[trigger] list[i]).offset as int,
            list[i].size@,
        )
    &&& forall|start: int| #[trigger]
        regions.dom().contains(start) ==> exists|i: int|
            0 <= i < list.len() && (#[trigger] list[i]).offset == start
    &&& forall|i: int, j: int|
        0 <= i < j < list.len() ==> (#[trigger] list[i]).size@ < (#[trigger] list[j]).size@ || (
        list[i].size@ == list[j].size@ && list[i].offset < list[j].offset)
}

impl Allocator {
    /// The allocator is consistent: its index holds each free region in both
    /// orders, it has counted the free locations rightly, and its pool is
    /// well formed.
    pub closed spec fn wf(&self) -> bool {
        &&& self.index.wf()
        &&& self.available == self@.total_free()
        &&& self@.well_formed()
    }

    /// The pool of a consistent allocator is well formed.
    pub proof fn lemma_well_formed(&self)
        requires
            self.wf(),
        ensures
            self@.well_formed(),
    {
    }

    /// An allocator for a pool of `capacity` locations, all of them free.
    pub fn new(capacity: u32) -> (allocator: Allocator)
        requires
            capacity > 0,
        ensures
            allocator.wf(),
            allocator@ == Pool::fresh(capacity as int),
            allocator@.total_free() == capacity,
    {
        let capacity = match NonZeroSize::new(capacity) {
            Some(capacity) => capacity,
            None => unreached(),
        };
        let mut allocator = Allocator {
            index: FreeIndex::new(),
            capacity,
            available: capacity.get(),
            live: Ghost(Map::empty()),
        };
        allocator.reset();
        allocator
    }

    /// Allocates `size` locations at the best fit: the smallest free region
    /// that has room for them, and the lowest of these.
    ///
    /// Returns `None` if `size` is zero or if no free region is large
    /// enough; the allocator is then as it was.
    pub fn allocate(&mut self, size: u32) -> (allocation: Option<Allocation>)
        requires
            old(self).wf(),
        ensures
            final(self).wf(),
            allocation.is_some() == old(self)@.can_allocate(size as int, 1),
            allocation.is_none() ==> final(self)@ == old(self)@,
            allocation.is_some() ==> final(self)@ == old(self)@.allocated(size as int, 1),
            allocation.is_some() ==> allocation.unwrap().offset == old(self)@.best_fit_start(
                size as int,
            ) && allocation.unwrap().size@ == size,
            allocation.is_some() ==> old(self)@.best_fit(old(self)@.best_fit_start(size as int), size as int),
            allocation.is_some() ==> allocation.unwrap().end() <= old(self)@.capacity && clear_of(
                old(self)@.live,
                allocation.unwrap().offset as int,
                allocation.unwrap().end(),
            ),
            allocation.is_some() ==> final(self)@.total_free() == old(self)@.total_free() - size,
    {
        proof {
            assert(padding(old(self)@.best_fit_start(size as int), 1) == 0);
        }
        self.alloc_with_align(size, 1)
    }

    /// Allocates `size` locations at a multiple of `align`.
    ///
    /// The allocation comes from the best fit for `size + align - 1`
    /// locations, which has room for it wherever the region starts. What is
    /// left of the region in front of the allocation and behind it stays
    /// free.
    ///
    /// Returns `None` if `size` or `align` is zero, if `size + align - 1`
    /// does not fit in a `u32`, or if no free region is large enough; the
    /// allocator is then as it was.
    pub fn alloc_with_align(&mut self, size: u32, align: u32) -> (allocation: Option<Allocation>)
        requires
            old(self).wf(),
        ensures
            final(self).wf(),
            allocation.is_some() == old(self)@.can_allocate(size as int, align as int),
            allocation.is_none() ==> final(self)@ == old(self)@,
            allocation.is_some() ==> final(self)@ == old(self)@.allocated(size as int, align as int),
            allocation.is_some() ==> allocation.unwrap().offset == old(self)@.allocation_offset(
                size as int,
                align as int,
            ) && allocation.unwrap().size@ == size,
            allocation.is_some() ==> old(self)@.best_fit(
                old(self)@.best_fit_start(size + align - 1),
                size + align - 1,
            ),
            allocation.is_some() ==> allocation.unwrap().offset as int % align as int == 0,
            allocation.is_some() ==> allocation.unwrap().end() <= old(self)@.capacity && clear_of(
                old(self)@.live,
                allocation.unwrap().offset as int,
                allocation.unwrap().end(),
            ),
            allocation.is_some() ==> final(self)@.total_free() == old(self)@.total_free() - size,
    {
        let ghost pool = self@;
        let Some(nonzero_size) = NonZeroSize::new(size) else {
            return None;
        };
        if align == 0 {
            return None;
        }
        let Some(want) = size.checked_add(align - 1) else {
            return None;
        };
        let Some(region) = self.index.find_free_region(want) else {
            proof {
                assert forall|start: int| !pool.fits(start, want as int) by {
                    assert(!region_fits(pool.free, start, want as int));
                }
            }
            return None;
        };
        let misalignment = (align - region.location % align) % align;
        proof {
            assert(pool.best_fit(region.location as int, want as int));
            lemma_allocated(pool, region.location as int, size as int, align as int);
            lemma_padding(region.location as int, align as int);
            assert(misalignment == padding(region.location as int, align as int));
            lemma_total_bounds(pool.allocated(size as int, align as int).free, pool.capacity);
        }
        self.index.carve(region, misalignment, size);
        self.available = self.available - size;
        self.live = Ghost(pool.live.insert(region.location + misalignment, size as int));
        Some(Allocation { offset: region.location + misalignment, size: nonzero_size })
    }

    /// Frees an allocation.
    ///
    /// Its range becomes a free region, in one with the free regions that
    /// touch it. The allocation must be live: one that was returned by this
    /// allocator and has not been freed or resized since.
    ///
    /// That an allocation is live is shown by proof. Nothing looks for a
    /// second `free` when the program runs, so code that is not verified has
    /// to take care itself that it frees no allocation twice.
    pub fn free(&mut self, allocation: Allocation)
        requires
            old(self).wf(),
            old(self)@.live.contains_pair(allocation.offset as int, allocation.size@),
        ensures
            final(self).wf(),
            final(self)@ == old(self)@.freed(allocation.offset as int),
            final(self)@.total_free() == old(self)@.total_free() + allocation.size@,
    {
        let ghost pool = self@;
        let size = allocation.size();
        proof {
            lemma_freed(pool, allocation.offset as int);
            lemma_total_bounds(pool.freed(allocation.offset as int).live, pool.capacity);
        }
        self.index.release(allocation.offset, size);
        self.available = self.available + size;
        self.live = Ghost(pool.live.remove(allocation.offset as int));
    }

    /// Frees every allocation: the whole pool is one free region again.
    pub fn reset(&mut self)
        ensures
            final(self).wf(),
            final(self)@ == Pool::fresh(old(self)@.capacity),
            final(self)@.total_free() == old(self)@.capacity,
    {
        let capacity = self.capacity.get();
        self.index.clear();
        self.available = capacity;
        self.index.insert_free_region(0, capacity);
        self.live = Ghost(Map::empty());
        proof {
            lemma_fresh(capacity as int);
            assert(self@.free =~= Pool::fresh(capacity as int).free);
        }
    }

    /// Adds `additional` locations at the end of the pool. They are free,
    /// in one with a free region that ended where the pool ended.
    ///
    /// Returns `Err` if the capacity would no longer fit in a `u32`; the
    /// allocator is then as it was.
    pub fn grow_capacity(&mut self, additional: u32) -> (result: Result<(), Overflow>)
        requires
            old(self).wf(),
        ensures
            final(self).wf(),
            result.is_ok() == (old(self)@.capacity + additional <= u32::MAX),
            result.is_ok() ==> final(self)@ == old(self)@.grown(additional as int),
            result.is_ok() ==> final(self)@.capacity == old(self)@.capacity + additional,
            result.is_ok() ==> final(self)@.total_free() == old(self)@.total_free() + additional,
            result.is_err() ==> final(self)@ == old(self)@,
            result.is_err() ==> result.unwrap_err().current_capacity@ == old(self)@.capacity
                && result.unwrap_err().additional@ == additional,
    {
        let ghost pool = self@;
        let Some(nonzero_additional) = NonZeroSize::new(additional) else {
            return Ok(());
        };
        let current = self.capacity.get();
        let Some(grown) = current.checked_add(additional) else {
            return Err(Overflow { current_capacity: self.capacity, additional: nonzero_additional });
        };
        let capacity = match NonZeroSize::new(grown) {
            Some(capacity) => capacity,
            None => unreached(),
        };
        proof {
            lemma_grown(pool, additional as int);
            lemma_total_bounds(pool.grown(additional as int).live, grown as int);
        }
        self.capacity = capacity;
        self.index.release(current, additional);
        self.available = self.available + additional;
        Ok(())
    }

    /// Resizes an allocation where it is: the offset stays.
    ///
    /// To grow, the allocation takes what it needs from the front of the
    /// free region that starts where it ends. To shrink, it frees its tail.
    /// The allocation must be live. After a success the old allocation is no
    /// longer live and the returned one is; after a failure the allocator is
    /// as it was.
    ///
    /// Returns `Err(Invalid)` if `new_size` is zero, and
    /// `Err(InsufficientSpace)` if the free space directly behind the
    /// allocation is smaller than what it is to grow by.
    pub fn try_reallocate(&mut self, allocation: Allocation, new_size: u32) -> (result: Result<
        Allocation,
        ReallocateError,
    >)
        requires
            old(self).wf(),
            old(self)@.live.contains_pair(allocation.offset as int, allocation.size@),
        ensures
            final(self).wf(),
            result.is_ok() == old(self)@.can_resize(allocation.offset as int, new_size as int),
            result.is_ok() ==> final(self)@ == old(self)@.resized(allocation.offset as int, new_size as int),
            result.is_ok() ==> result.unwrap().offset == allocation.offset && result.unwrap().size@
                == new_size,
            result.is_ok() ==> final(self)@.total_free() == old(self)@.total_free() + allocation.size@
                - new_size,
            new_size == allocation.size@ ==> result == Ok::<Allocation, ReallocateError>(allocation)
                && final(self)@ == old(self)@,
            result.is_err() ==> final(self)@ == old(self)@,
            (result matches Err(ReallocateError::Invalid)) == (new_size == 0),
            result matches Err(
                ReallocateError::InsufficientSpace { required_additional, available },
            ) ==> required_additional@ == new_size - allocation.size@ && available == old(
                self,
            )@.room_after(allocation.offset as int),
    {
        let ghost pool = self@;
        let Some(nonzero_size) = NonZeroSize::new(new_size) else {
            return Err(ReallocateError::Invalid);
        };
        let old_size = allocation.size();
        if new_size > old_size {
            let Some(required_additional) = NonZeroSize::new(new_size - old_size) else {
                return Err(ReallocateError::Invalid);
            };
            let required = new_size - old_size;
            let end = allocation.offset + old_size;
            let next = match self.index.following_free_region(allocation.offset) {
                Some(next) => next,
                None => {
                    assert(size_at(pool.free, end as int) == 0);
                    return Err(
                        ReallocateError::InsufficientSpace { required_additional, available: 0 },
                    );
                },
            };
            assert(next.location + next.size <= allocation.offset || allocation.offset + pool.live[allocation.offset as int]
                <= next.location);
            if next.location != end {
                assert(size_at(pool.free, end as int) == 0);
                return Err(ReallocateError::InsufficientSpace { required_additional, available: 0 });
            }
            if next.size < required {
                return Err(
                    ReallocateError::InsufficientSpace { required_additional, available: next.size },
                );
            }
            proof {
                lemma_resized(pool, allocation.offset as int, new_size as int);
                lemma_total_bounds(pool.resized(allocation.offset as int, new_size as int).free, pool.capacity);
            }
            self.index.carve(next, 0, required);
            self.available = self.available - required;
            self.live = Ghost(pool.live.insert(allocation.offset as int, new_size as int));
            Ok(Allocation { offset: allocation.offset, size: nonzero_size })
        } else if new_size < old_size {
            let additional = old_size - new_size;
            proof {
                lemma_resized(pool, allocation.offset as int, new_size as int);
                lemma_total_bounds(pool.resized(allocation.offset as int, new_size as int).live, pool.capacity);
            }
            self.index.release(allocation.offset + new_size, additional);
            self.available = self.available + additional;
            self.live = Ghost(pool.live.insert(allocation.offset as int, new_size as int));
            Ok(Allocation { offset: allocation.offset, size: nonzero_size })
        } else {
            proof {
                assert(pool.live.insert(allocation.offset as int, new_size as int) =~= pool.live);
            }
            Ok(allocation)
        }
    }

    /// The capacity of the pool.
    pub fn capacity(&self) -> (capacity: u32)
        ensures
            capacity == self@.capacity,
            capacity > 0,
    {
        self.capacity.get()
    }

    /// How many locations are free. They need not be in one piece, so a
    /// request for as many may still fail.
    pub fn total_available(&self) -> (available: u32)
        requires
            self.wf(),
        ensures
            available == self@.total_free(),
    {
        self.available
    }

    /// The size of the largest free region, or zero if nothing is free.
    pub fn largest_available(&self) -> (largest: u32)
        requires
            self.wf(),
        ensures
            self@.largest_free_is(largest as int),
    {
        match self.index.largest_free_region() {
            Some(region) => {
                proof {
                    assert(is_largest(self@.free, region.location as int));
                    assert(self@.free.dom().contains(region.location as int));
                }
                region.size
            },
            None => 0,
        }
    }

    /// Whether nothing is allocated.
    pub fn is_empty(&self) -> (empty: bool)
        requires
            self.wf(),
        ensures
            empty == (self@.total_free() == self@.capacity),
            empty == self@.nothing_live(),
    {
        proof {
            let pool = self@;
            lemma_total_bounds(pool.live, pool.capacity);
            if pool.nothing_live() {
                crate::pool::lemma_total_of_none(pool.live, pool.capacity);
            } else {
                let offset = choose|offset: int| pool.live.dom().contains(offset);
                assert(size_at(pool.live, offset) <= pool.total_live());
            }
        }
        self.capacity.get() == self.available
    }

    /// The free regions as allocations, ordered by size and, where the sizes
    /// are equal, by offset.
    ///
    /// This is a snapshot for inspection. It is not a way to allocate: the
    /// next call of `allocate` is free to take any of the regions.
    pub fn report_free_regions(&self) -> (list: Vec<Allocation>)
        requires
            self.wf(),
        ensures
            reports(self@.free, list@),
    {
        let regions = self.index.regions_in_order();
        let mut list: Vec<Allocation> = Vec::new();
        let mut i: usize = 0;
        while i < regions.len()
            invariant
                i <= regions.len(),
                list.len() == i,
                self.wf(),
                crate::free_index::lists(self@.free, regions@),
                forall|k: int|
                    0 <= k < i ==> (#[trigger] list@[k]).offset == regions@[k].location && list@[k].size@
                        == regions@[k].size,
            decreases regions.len() - i,
        {
            let region: FreeRegion = regions[i];
            assert(self@.free.contains_pair(regions@[i as int].location as int, regions@[i as int].size as int));
            let size = match NonZeroSize::new(region.size) {
                Some(size) => size,
                None => unreached(),
            };
            list.push(Allocation { offset: region.location, size });
            i = i + 1;
        }
        proof {
            assert forall|start: int| #[trigger] self@.free.dom().contains(start) implies exists|
                k: int,
            |
                0 <= k < list@.len() && (#[trigger] list@[k]).offset == start by {
                let k = choose|k: int| 0 <= k < regions@.len() && (#[trigger] regions@[k]).location == start;
                assert(list@[k].offset == start);
            }
        }
        list
    }
}

} // verus!
