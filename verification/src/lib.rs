//! A single-level virtual memory manager: logical addresses are split into a
//! page number and an in-page offset, and a bounded pool of physical frames
//! backs the pages, with least-recently-used eviction once every frame is in
//! use.

use vstd::prelude::*;

pub mod decode;
pub mod laws;
pub mod model;
pub mod table;

verus! {

/// Number of logical pages in the address space.
pub const NUM_PAGES: u32 = 256;

/// Number of physical frames backing the pages.
pub const NUM_FRAMES: u32 = 128;

/// Bytes per page (and per frame); a power of two.
pub const PAGE_SIZE: u32 = 256;

/// Everything that can go wrong while processing an address.
#[derive(Clone, Copy, Debug, PartialEq, Eq)]
pub enum VmError {
    /// The logical address lies outside `[0, PAGE_SIZE * NUM_PAGES)`.
    OutOfBounds,
    /// A page number outside `[0, NUM_PAGES)` reached the frame allocator.
    InvalidPageNumber,
    /// The backing store could not supply a full page.
    BackingStoreReadError,
}

} // verus!
