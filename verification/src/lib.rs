//! Memory allocation that reports failure instead of aborting.
//!
//! A request for memory is checked before it reaches the allocator, the region
//! that comes back is owned by an [`allocation::Allocation`], and every way an
//! operation can fail is an [`error::Error`].

pub mod allocation;
pub mod error;
pub mod heap;
pub mod raw;
pub mod table;
