//! Mathematical model of the page table and of one frame-allocation step.
//!
//! `TableModel` is the ghost view of the executable state: the page-table
//! entries, the per-frame recency stamps, and the per-frame free flags.
//! `resolve_model` is the full functional specification of one reference to a
//! logical page; the executable allocator is proved to follow it exactly.

use vstd::prelude::*;
use crate::{NUM_FRAMES, NUM_PAGES};

verus! {

/// Ghost view of the page table and the frame metadata.
#[verifier::ext_equal]
pub ghost struct TableModel {
    /// One entry per logical page: the frame backing it, or `None`.
    pub table: Seq<Option<u32>>,
    /// One stamp per frame: the access counter at its last touch.
    pub recency: Seq<u32>,
    /// One flag per frame: `true` while no page occupies it.
    pub free: Seq<bool>,
}

impl TableModel {
    /// The sequences have their fixed sizes.
    pub open spec fn sized(self) -> bool {
        &&& self.table.len() == NUM_PAGES
        &&& self.recency.len() == NUM_FRAMES
        &&& self.free.len() == NUM_FRAMES
    }

    /// Well-formedness: every mapped frame is a real, in-use frame; no two
    /// pages share a frame; every in-use frame is owned by some page.
    pub open spec fn well_formed(self) -> bool {
        &&& self.sized()
        &&& forall|p: int|
            0 <= p < NUM_PAGES && #[trigger] self.table[p] is Some ==> self.table[p]->Some_0
                < NUM_FRAMES && !self.free[self.table[p]->Some_0 as int]
        &&& forall|p: int, q: int|
            0 <= p < NUM_PAGES && 0 <= q < NUM_PAGES && self.table[p] is Some
                && self.table[p] == self.table[q] ==> p == q
        &&& forall|f: int|
            0 <= f < NUM_FRAMES && !self.free[f] ==> exists|p: int|
                #[trigger] is_owner(self, f as u32, p)
    }

    /// The startup state: nothing mapped, every frame free, all stamps zero.
    pub open spec fn init() -> TableModel {
        TableModel {
            table: Seq::new(NUM_PAGES as nat, |p: int| None),
            recency: Seq::new(NUM_FRAMES as nat, |f: int| 0u32),
            free: Seq::new(NUM_FRAMES as nat, |f: int| true),
        }
    }
}

/// Some frame is still free.
pub open spec fn has_free_frame(m: TableModel) -> bool {
    exists|f: int| 0 <= f < NUM_FRAMES && m.free[f]
}

/// `f` is the free frame of lowest index.
pub open spec fn is_first_free_frame(m: TableModel, f: int) -> bool {
    &&& 0 <= f < NUM_FRAMES
    &&& m.free[f]
    &&& forall|g: int| 0 <= g < f ==> !m.free[g]
}

/// The free frame of lowest index (meaningful only when one exists).
pub open spec fn first_free_frame(m: TableModel) -> int {
    choose|f: int| is_first_free_frame(m, f)
}

/// `v` is the least-recently-used frame, lowest index among ties.
pub open spec fn is_lru_victim(m: TableModel, v: int) -> bool {
    &&& 0 <= v < NUM_FRAMES
    &&& forall|g: int| 0 <= g < NUM_FRAMES ==> m.recency[v] <= m.recency[g]
    &&& forall|g: int| 0 <= g < v ==> m.recency[g] > m.recency[v]
}

/// The least-recently-used frame, lowest index among ties.
pub open spec fn lru_victim(m: TableModel) -> int {
    choose|v: int| is_lru_victim(m, v)
}

/// `p` is a page currently mapped to frame `f` (unique in a well-formed state).
pub open spec fn is_owner(m: TableModel, f: u32, p: int) -> bool {
    &&& 0 <= p < NUM_PAGES
    &&& m.table[p] == Some(f)
}

/// The page mapped to frame `f` (meaningful only when one exists).
pub open spec fn owner_of(m: TableModel, f: u32) -> int {
    choose|p: int| is_owner(m, f, p)
}

/// One reference to `page` at access time `t`: the next state, the frame that
/// backs the page, and whether the reference faulted.
///
/// A mapped page is a hit: its frame is kept and only touched. An unmapped
/// page faults: the free frame of lowest index takes it, or, with no frame
/// free, the least-recently-used frame is evicted — its owner becomes
/// unmapped — and reused.
pub open spec fn resolve_model(m: TableModel, page: int, t: u32) -> (TableModel, int, bool) {
    match m.table[page] {
        Some(f) => (
            TableModel {
                table: m.table,
                recency: m.recency.update(f as int, t),
                free: m.free.update(f as int, false),
            },
            f as int,
            false,
        ),
        None => if has_free_frame(m) {
            let f = first_free_frame(m);
            (
                TableModel {
                    table: m.table.update(page, Some(f as u32)),
                    recency: m.recency.update(f, t),
                    free: m.free.update(f, false),
                },
                f,
                true,
            )
        } else {
            let v = lru_victim(m);
            let q = owner_of(m, v as u32);
            (
                TableModel {
                    table: m.table.update(q, None).update(page, Some(v as u32)),
                    recency: m.recency.update(v, t),
                    free: m.free.update(v, false),
                },
                v,
                true,
            )
        },
    }
}

/// There is exactly one free frame of lowest index.
pub proof fn lemma_first_free_frame_unique(m: TableModel, a: int, b: int)
    requires
        is_first_free_frame(m, a),
        is_first_free_frame(m, b),
    ensures
        a == b,
{
}

/// There is exactly one least-recently-used frame of lowest index.
pub proof fn lemma_lru_victim_unique(m: TableModel, a: int, b: int)
    requires
        is_lru_victim(m, a),
        is_lru_victim(m, b),
    ensures
        a == b,
{
    if a < b {
        assert(m.recency[a] > m.recency[b]);
        assert(m.recency[a] <= m.recency[b]);
    }
    if b < a {
        assert(m.recency[b] > m.recency[a]);
        assert(m.recency[b] <= m.recency[a]);
    }
}

/// In a well-formed state a frame has at most one owner.
pub proof fn lemma_owner_unique(m: TableModel, f: u32, a: int, b: int)
    requires
        m.well_formed(),
        is_owner(m, f, a),
        is_owner(m, f, b),
    ensures
        a == b,
{
}

/// A free frame somewhere means a free frame of lowest index somewhere.
pub proof fn lemma_first_free_frame_exists(m: TableModel, f: int)
    requires
        0 <= f < NUM_FRAMES,
        m.free[f],
    ensures
        is_first_free_frame(m, first_free_frame(m)),
    decreases f,
{
    if forall|g: int| 0 <= g < f ==> !m.free[g] {
        assert(is_first_free_frame(m, f));
    } else {
        let g = choose|g: int| 0 <= g < f && m.free[g];
        lemma_first_free_frame_exists(m, g);
    }
}

/// `v` attains, first among the frames below `n`, their minimum recency.
spec fn is_least_recency_below(m: TableModel, n: int, v: int) -> bool {
    &&& 0 <= v < n
    &&& forall|g: int| 0 <= g < n ==> m.recency[v] <= m.recency[g]
    &&& forall|g: int| 0 <= g < v ==> m.recency[g] > m.recency[v]
}

/// Among the first `n` frames some index attains the minimum recency first.
proof fn lemma_least_recency_prefix(m: TableModel, n: int)
    requires
        m.sized(),
        1 <= n <= NUM_FRAMES,
    ensures
        exists|v: int| is_least_recency_below(m, n, v),
    decreases n,
{
    if n == 1 {
        assert(is_least_recency_below(m, n, 0));
    } else {
        lemma_least_recency_prefix(m, n - 1);
        let k: int = n - 1;
        let v = choose|v: int| is_least_recency_below(m, k, v);
        if m.recency[n - 1] < m.recency[v] {
            assert(is_least_recency_below(m, n, n - 1));
        } else {
            assert(is_least_recency_below(m, n, v));
        }
    }
}

/// A well-sized state always has a least-recently-used victim.
pub proof fn lemma_lru_victim_exists(m: TableModel)
    requires
        m.sized(),
    ensures
        is_lru_victim(m, lru_victim(m)),
{
    lemma_least_recency_prefix(m, NUM_FRAMES as int);
    let v = choose|v: int| is_least_recency_below(m, NUM_FRAMES as int, v);
    assert(is_lru_victim(m, v));
}

/// In a well-formed state every in-use frame's owner is `owner_of`.
pub proof fn lemma_owner_of_owns(m: TableModel, f: u32)
    requires
        m.well_formed(),
        f < NUM_FRAMES,
        !m.free[f as int],
    ensures
        is_owner(m, f, owner_of(m, f)),
{
}

/// One resolve step keeps the state well-formed.
pub proof fn lemma_resolve_preserves_well_formed(m: TableModel, page: int, t: u32)
    requires
        m.well_formed(),
        0 <= page < NUM_PAGES,
    ensures
        resolve_model(m, page, t).0.well_formed(),
{
    let m2 = resolve_model(m, page, t).0;
    match m.table[page] {
        Some(f) => {
            assert(m.table[page] == Some(f));
            assert(f < NUM_FRAMES && !m.free[f as int]);
            assert forall|g: int| 0 <= g < NUM_FRAMES && !m2.free[g] implies exists|p: int|
                #[trigger] is_owner(m2, g as u32, p) by {
                if g == f {
                    assert(is_owner(m2, g as u32, page));
                } else {
                    assert(m2.free[g] == m.free.update(f as int, false)[g]);
                    assert(!m.free[g]);
                    let gu: u32 = g as u32;
                    let p = choose|p: int| is_owner(m, gu, p);
                    assert(is_owner(m2, gu, p));
                }
            }
        },
        None => if has_free_frame(m) {
            let w = choose|f: int| 0 <= f < NUM_FRAMES && m.free[f];
            lemma_first_free_frame_exists(m, w);
            let f = first_free_frame(m);
            assert forall|g: int| 0 <= g < NUM_FRAMES && !m2.free[g] implies exists|p: int|
                #[trigger] is_owner(m2, g as u32, p) by {
                if g == f {
                    assert(is_owner(m2, g as u32, page));
                } else {
                    assert(!m.free[g]);
                    let gu: u32 = g as u32;
                    let p = choose|p: int| is_owner(m, gu, p);
                    assert(is_owner(m2, gu, p));
                }
            }
        } else {
            lemma_lru_victim_exists(m);
            let v = lru_victim(m);
            lemma_owner_of_owns(m, v as u32);
            let q = owner_of(m, v as u32);
            assert forall|g: int| 0 <= g < NUM_FRAMES && !m2.free[g] implies exists|p: int|
                #[trigger] is_owner(m2, g as u32, p) by {
                if g == v {
                    assert(is_owner(m2, g as u32, page));
                } else {
                    assert(!m.free[g]);
                    let gu: u32 = g as u32;
                    let p = choose|p: int| is_owner(m, gu, p);
                    assert(m.table[p] == Some(gu));
                    assert(p != q && p != page);
                    assert(is_owner(m2, gu, p));
                }
            }
        },
    }
}

} // verus!
