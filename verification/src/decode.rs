//! Address decoding: a flat logical address splits into a page number and an
//! in-page offset; a frame number and an offset combine into a physical
//! address.

use vstd::prelude::*;
use crate::{NUM_FRAMES, NUM_PAGES, PAGE_SIZE, VmError};

verus! {

/// Splits a logical address into `(page_number, page_offset)`.
///
/// Valid addresses lie in `[0, PAGE_SIZE * NUM_PAGES)`; anything at or above
/// that bound is rejected with `OutOfBounds`.
pub fn decode_address(address: u32) -> (r: Result<(u32, u32), VmError>)
    ensures
        address < PAGE_SIZE * NUM_PAGES ==> r == Ok::<(u32, u32), VmError>(
            (address / PAGE_SIZE, address % PAGE_SIZE),
        ),
        address >= PAGE_SIZE * NUM_PAGES ==> r == Err::<(u32, u32), VmError>(VmError::OutOfBounds),
        r is Ok ==> r->Ok_0.0 < NUM_PAGES && r->Ok_0.1 < PAGE_SIZE,
{
    if address >= PAGE_SIZE * NUM_PAGES {
        return Err(VmError::OutOfBounds);
    }
    let page_number = address / PAGE_SIZE;
    let page_offset = address % PAGE_SIZE;
    Ok((page_number, page_offset))
}

/// Combines a frame number and an in-page offset into a physical address.
pub fn physical_address(frame_number: u32, page_offset: u32) -> (r: u32)
    requires
        frame_number < NUM_FRAMES,
        page_offset < PAGE_SIZE,
    ensures
        r == frame_number * PAGE_SIZE + page_offset,
{
    frame_number * PAGE_SIZE + page_offset
}

} // verus!
