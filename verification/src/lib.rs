//! An allocator for offsets in an external pool of memory.
//!
//! The allocator never touches the memory it manages. It hands out
//! [`Allocation`]s, each an offset and a size inside a pool of a fixed
//! capacity, and keeps the unused ranges in an index that is ordered both by
//! size and by location. Allocation is best-fit, and freed ranges are merged
//! with their free neighbours at once.
//!
//! Every function of the library is verified against its contract. The
//! contracts speak of a [`Pool`]: the capacity, the free regions and the live
//! allocations.
pub mod allocation;
pub mod allocator;
pub mod btree;
pub mod error;
pub mod free_index;
pub mod laws;
pub mod pool;
pub mod region;
pub mod size;
pub mod steps;

pub use allocation::Allocation;
pub use allocator::Allocator;
pub use error::{Overflow, ReallocateError};
pub use free_index::FreeIndex;
pub use pool::Pool;
pub use region::FreeRegion;
pub use size::NonZeroSize;
