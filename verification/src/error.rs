//! What the allocator reports when it cannot do what was asked.
use crate::size::NonZeroSize;
use vstd::prelude::*;

verus! {

/// The pool cannot grow by `additional`: its capacity would no longer fit in
/// a `u32`.
#[derive(Debug, Copy, Clone)]
pub struct Overflow {
    /// The capacity of the pool, which was left as it was.
    pub current_capacity: NonZeroSize,
    /// The growth that was asked for.
    pub additional: NonZeroSize,
}

/// Why an allocation could not be resized in place.
#[derive(Debug, Copy, Clone)]
pub enum ReallocateError {
    /// The free space that follows the allocation directly is too small.
    InsufficientSpace {
        /// By how much the allocation was to grow.
        required_additional: NonZeroSize,
        /// The free space that follows the allocation directly; zero if
        /// there is none.
        available: u32,
    },
    /// The new size was zero.
    Invalid,
}

} // verus!
