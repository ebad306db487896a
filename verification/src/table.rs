//! The executable page table and the frame allocator.
//!
//! `PageTableInfo` holds the page-table entries, the per-frame recency stamps
//! and the per-frame free flags; `get_frame_number` is the allocator, proved
//! to follow `resolve_model` step for step.

use vstd::prelude::*;
use crate::{NUM_FRAMES, NUM_PAGES, VmError};
use crate::model::{
    TableModel, has_free_frame, is_first_free_frame, first_free_frame, is_lru_victim, lru_victim,
    is_owner, owner_of, resolve_model, lemma_first_free_frame_exists,
    lemma_first_free_frame_unique, lemma_lru_victim_exists, lemma_lru_victim_unique,
    lemma_owner_of_owns, lemma_owner_unique, lemma_resolve_preserves_well_formed,
};

verus! {

/// The page table and the frame metadata of one simulation.
pub struct PageTableInfo {
    /// One entry per logical page: the frame backing it, or `None`.
    page_table: Vec<Option<u32>>,
    /// One stamp per frame: the access counter at its last touch.
    access_time: Vec<u32>,
    /// One flag per frame: `true` while no page occupies it.
    free_frame: Vec<bool>,
}

impl View for PageTableInfo {
    type V = TableModel;

    closed spec fn view(&self) -> TableModel {
        TableModel {
            table: self.page_table@,
            recency: self.access_time@,
            free: self.free_frame@,
        }
    }
}

impl PageTableInfo {
    /// A fresh table: every page unmapped, every frame free with stamp zero.
    pub fn new() -> (r: PageTableInfo)
        ensures
            r@ == TableModel::init(),
            r@.well_formed(),
    {
        let mut page_table: Vec<Option<u32>> = Vec::new();
        let mut i: u32 = 0;
        while i < NUM_PAGES
            invariant
                i <= NUM_PAGES,
                page_table@.len() == i,
                forall|p: int| 0 <= p < i ==> page_table@[p] is None,
            decreases NUM_PAGES - i,
        {
            page_table.push(None);
            i = i + 1;
        }
        let mut access_time: Vec<u32> = Vec::new();
        let mut j: u32 = 0;
        while j < NUM_FRAMES
            invariant
                j <= NUM_FRAMES,
                access_time@.len() == j,
                forall|f: int| 0 <= f < j ==> access_time@[f] == 0u32,
            decreases NUM_FRAMES - j,
        {
            access_time.push(0);
            j = j + 1;
        }
        let mut free_frame: Vec<bool> = Vec::new();
        let mut k: u32 = 0;
        while k < NUM_FRAMES
            invariant
                k <= NUM_FRAMES,
                free_frame@.len() == k,
                forall|f: int| 0 <= f < k ==> free_frame@[f] == true,
            decreases NUM_FRAMES - k,
        {
            free_frame.push(true);
            k = k + 1;
        }
        let r = PageTableInfo { page_table, access_time, free_frame };
        proof {
            assert(r@.table =~= TableModel::init().table);
            assert(r@.recency =~= TableModel::init().recency);
            assert(r@.free =~= TableModel::init().free);
            assert(r@ =~= TableModel::init());
        }
        r
    }

    /// Whether `page` currently has a frame.
    pub fn is_mapped(&self, page: u32) -> (r: bool)
        requires
            self@.sized(),
            page < NUM_PAGES,
        ensures
            r == (self@.table[page as int] is Some),
    {
        match self.page_table[page as usize] {
            Some(_) => true,
            None => false,
        }
    }

    /// The frame backing a mapped `page`.
    pub fn frame_of(&self, page: u32) -> (r: u32)
        requires
            self@.sized(),
            page < NUM_PAGES,
            self@.table[page as int] is Some,
        ensures
            Some(r) == self@.table[page as int],
    {
        match self.page_table[page as usize] {
            Some(f) => f,
            None => {
                proof {
                    assert(false);
                }
                0
            },
        }
    }

    /// Whether `frame` is free.
    pub fn is_free(&self, frame: u32) -> (r: bool)
        requires
            self@.sized(),
            frame < NUM_FRAMES,
        ensures
            r == self@.free[frame as int],
    {
        self.free_frame[frame as usize]
    }

    /// The access counter value at `frame`'s last touch.
    pub fn recency(&self, frame: u32) -> (r: u32)
        requires
            self@.sized(),
            frame < NUM_FRAMES,
        ensures
            r == self@.recency[frame as int],
    {
        self.access_time[frame as usize]
    }

    /// Points `page` at `frame`.
    fn map_page(&mut self, page: u32, frame: u32)
        requires
            old(self)@.sized(),
            page < NUM_PAGES,
        ensures
            final(self)@.table == old(self)@.table.update(page as int, Some(frame)),
            final(self)@.recency == old(self)@.recency,
            final(self)@.free == old(self)@.free,
    {
        self.page_table[page as usize] = Some(frame);
    }

    /// Drops `page`'s mapping.
    fn unmap_page(&mut self, page: u32)
        requires
            old(self)@.sized(),
            page < NUM_PAGES,
        ensures
            final(self)@.table == old(self)@.table.update(page as int, None::<u32>),
            final(self)@.recency == old(self)@.recency,
            final(self)@.free == old(self)@.free,
    {
        self.page_table[page as usize] = None;
    }

    /// Sets `frame`'s free flag.
    fn set_free(&mut self, frame: u32, free: bool)
        requires
            old(self)@.sized(),
            frame < NUM_FRAMES,
        ensures
            final(self)@.table == old(self)@.table,
            final(self)@.recency == old(self)@.recency,
            final(self)@.free == old(self)@.free.update(frame as int, free),
    {
        self.free_frame[frame as usize] = free;
    }

    /// Stamps `frame` with the access counter value `t`.
    fn touch(&mut self, frame: u32, t: u32)
        requires
            old(self)@.sized(),
            frame < NUM_FRAMES,
        ensures
            final(self)@.table == old(self)@.table,
            final(self)@.recency == old(self)@.recency.update(frame as int, t),
            final(self)@.free == old(self)@.free,
    {
        self.access_time[frame as usize] = t;
    }
}

/// One reference to `logical_page_number` at access time `access_time`:
/// returns the frame now backing the page and whether the reference faulted,
/// exactly as `resolve_model` says.
///
/// A page number at or above `NUM_PAGES` is rejected with
/// `InvalidPageNumber` and the state is left untouched.
pub fn get_frame_number(
    info: &mut PageTableInfo,
    logical_page_number: u32,
    access_time: u32,
) -> (r: Result<(u32, bool), VmError>)
    requires
        old(info)@.well_formed(),
    ensures
        final(info)@.well_formed(),
        logical_page_number >= NUM_PAGES ==> r == Err::<(u32, bool), VmError>(
            VmError::InvalidPageNumber,
        ) && final(info)@ == old(info)@,
        logical_page_number < NUM_PAGES ==> final(info)@ == resolve_model(
            old(info)@,
            logical_page_number as int,
            access_time,
        ).0,
        logical_page_number < NUM_PAGES ==> r == Ok::<(u32, bool), VmError>(
            (
                resolve_model(old(info)@, logical_page_number as int, access_time).1 as u32,
                resolve_model(old(info)@, logical_page_number as int, access_time).2,
            ),
        ),
{
    if logical_page_number >= NUM_PAGES {
        return Err(VmError::InvalidPageNumber);
    }
    let ghost m0 = info@;
    let ghost page = logical_page_number as int;

    // Free-frame scan: the free frame of lowest index, if any.
    let mut frame_number: u32 = 0;
    let mut free_frame_found: bool = false;
    let mut i: u32 = 0;
    while i < NUM_FRAMES
        invariant
            info@ == m0,
            m0.well_formed(),
            i <= NUM_FRAMES,
            frame_number < NUM_FRAMES,
            free_frame_found ==> is_first_free_frame(m0, frame_number as int),
            !free_frame_found ==> forall|g: int| 0 <= g < i ==> !m0.free[g],
        decreases NUM_FRAMES - i,
    {
        if !free_frame_found && info.is_free(i) {
            frame_number = i;
            free_frame_found = true;
        }
        i = i + 1;
    }

    // LRU scan: the least recency stamp, lowest index among ties; only needed
    // when no frame is free.
    if !free_frame_found {
        let mut min: u32 = 0;
        let mut j: u32 = 0;
        while j < NUM_FRAMES
            invariant
                info@ == m0,
                m0.well_formed(),
                j <= NUM_FRAMES,
                min < NUM_FRAMES,
                forall|g: int| 0 <= g < j ==> m0.recency[min as int] <= m0.recency[g],
                forall|g: int| 0 <= g < min ==> m0.recency[g] > m0.recency[min as int],
            decreases NUM_FRAMES - j,
        {
            if info.recency(j) < info.recency(min) {
                min = j;
            }
            j = j + 1;
        }
        frame_number = min;
        proof {
            assert(is_lru_victim(m0, frame_number as int));
        }
    }

    if info.is_mapped(logical_page_number) {
        // Hit: keep the frame, refresh its stamp, mark it in use.
        let f = info.frame_of(logical_page_number);
        proof {
            assert(m0.table[page] is Some);
            assert(f < NUM_FRAMES);
        }
        info.touch(f, access_time);
        info.set_free(f, false);
        proof {
            lemma_resolve_preserves_well_formed(m0, page, access_time);
            assert(info@ =~= resolve_model(m0, page, access_time).0);
        }
        Ok((f, false))
    } else {
        if free_frame_found {
            // Fault with a free frame: take the lowest-indexed one.
            proof {
                assert(has_free_frame(m0));
                lemma_first_free_frame_exists(m0, frame_number as int);
                lemma_first_free_frame_unique(
                    m0,
                    frame_number as int,
                    first_free_frame(m0),
                );
            }
            info.map_page(logical_page_number, frame_number);
            info.touch(frame_number, access_time);
            info.set_free(frame_number, false);
            proof {
                lemma_resolve_preserves_well_formed(m0, page, access_time);
                assert(info@.table =~= resolve_model(m0, page, access_time).0.table);
                assert(info@ =~= resolve_model(m0, page, access_time).0);
            }
            Ok((frame_number, true))
        } else {
            // Fault under pressure: evict the LRU victim's page, reuse the
            // frame. The reverse lookup finds the page that owns the
            // victim frame.
            proof {
                assert(!has_free_frame(m0));
                lemma_lru_victim_exists(m0);
                lemma_lru_victim_unique(m0, frame_number as int, lru_victim(m0));
                assert(!m0.free[frame_number as int]);
            }
            let mut p: u32 = 0;
            let mut found_owner: bool = false;
            while p < NUM_PAGES && !found_owner
                invariant
                    m0.well_formed(),
                    p <= NUM_PAGES,
                    frame_number < NUM_FRAMES,
                    !found_owner ==> info@ == m0 && forall|q: int|
                        0 <= q < p ==> m0.table[q] != Some(frame_number),
                    found_owner ==> p < NUM_PAGES && is_owner(m0, frame_number, p as int)
                        && info@.table == m0.table.update(p as int, None::<u32>)
                        && info@.recency == m0.recency && info@.free == m0.free,
                decreases NUM_PAGES - p + (if found_owner { 0int } else { 1int }),
            {
                let owns_victim = info.is_mapped(p) && info.frame_of(p) == frame_number;
                if owns_victim {
                    info.unmap_page(p);
                    found_owner = true;
                } else {
                    p = p + 1;
                }
            }
            proof {
                if !found_owner {
                    lemma_owner_of_owns(m0, frame_number);
                    assert(m0.table[owner_of(m0, frame_number)] != Some(frame_number));
                    assert(false);
                }
                lemma_owner_of_owns(m0, frame_number);
                lemma_owner_unique(m0, frame_number, p as int, owner_of(m0, frame_number));
            }
            info.map_page(logical_page_number, frame_number);
            info.touch(frame_number, access_time);
            info.set_free(frame_number, false);
            proof {
                lemma_resolve_preserves_well_formed(m0, page, access_time);
                assert(info@.table =~= resolve_model(m0, page, access_time).0.table);
                assert(info@ =~= resolve_model(m0, page, access_time).0);
            }
            Ok((frame_number, true))
        }
    }
}

} // verus!
