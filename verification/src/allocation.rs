//! The handle that the allocator gives out.
use crate::size::NonZeroSize;
use core::ops::Range;
use vstd::prelude::*;

verus! {

/// A range of the pool that has been handed out: where it starts and how
/// long it is.
///
/// This is a small `Copy` value with no reference to the allocator it came
/// from. It is valid from the call that returned it until it is passed to
/// `free` or to `try_reallocate`. An `Option<Allocation>` is as large as an
/// `Allocation`.
#[derive(Copy, Clone, Debug, Eq, PartialEq, Hash, Ord, PartialOrd)]
pub struct Allocation {
    /// The location of this allocation within the pool.
    pub offset: u32,
    /// The size of this allocation.
    pub size: NonZeroSize,
}

impl Allocation {
    /// The first location past the allocation.
    pub open spec fn end(&self) -> int {
        self.offset + self.size@
    }

    /// The offset of the allocation.
    pub fn offset(&self) -> (offset: u32)
        ensures
            offset == self.offset,
    {
        self.offset
    }

    /// The size of the allocation, which is never zero.
    pub fn size(&self) -> (size: u32)
        ensures
            size == self.size@,
            size > 0,
    {
        self.size.get()
    }

    /// The range from `offset` to `offset + size`, to index a buffer with.
    pub fn range(&self) -> (range: Range<usize>)
        requires
            self.end() <= u32::MAX,
        ensures
            range.start == self.offset,
            range.end == self.end(),
    {
        let end: u32 = self.offset + self.size.get();
        (self.offset as usize)..(end as usize)
    }
}

} // verus!
