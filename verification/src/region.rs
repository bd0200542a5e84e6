//! A free region, and the order in which the index holds the free regions.
use core::cmp::Ordering;
use vstd::prelude::*;
use vstd::std_specs::cmp::PartialOrdSpecImpl;

verus! {

/// A free region of the pool.
#[derive(Copy, Clone, Debug, PartialEq, Eq)]
pub struct FreeRegion {
    /// Where the region starts.
    pub location: u32,
    /// How many locations it has.
    pub size: u32,
}

impl FreeRegion {
    /// The region as the index holds it: its size, then its location.
    pub open spec fn key(&self) -> (u32, u32) {
        (self.size, self.location)
    }

    /// This region comes before `other`: it is smaller, or it is as large
    /// and starts at a lower location.
    pub open spec fn precedes(&self, other: &FreeRegion) -> bool {
        self.size < other.size || (self.size == other.size && self.location < other.location)
    }
}

impl PartialOrd for FreeRegion {
    /// Orders regions by size, and regions of one size by location.
    fn partial_cmp(&self, other: &FreeRegion) -> (order: Option<Ordering>) {
        if self.size < other.size {
            Some(Ordering::Less)
        } else if self.size > other.size {
            Some(Ordering::Greater)
        } else if self.location < other.location {
            Some(Ordering::Less)
        } else if self.location > other.location {
            Some(Ordering::Greater)
        } else {
            Some(Ordering::Equal)
        }
    }
}

impl PartialOrdSpecImpl for FreeRegion {
    open spec fn obeys_partial_cmp_spec() -> bool {
        true
    }

    open spec fn partial_cmp_spec(&self, other: &FreeRegion) -> Option<Ordering> {
        if self.precedes(other) {
            Some(Ordering::Less)
        } else if other.precedes(self) {
            Some(Ordering::Greater)
        } else {
            Some(Ordering::Equal)
        }
    }
}

} // verus!
