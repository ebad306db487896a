//! The guarantees of the allocator, stated and proved over the model.

use vstd::prelude::*;
use crate::{NUM_FRAMES, NUM_PAGES};
use crate::model::{
    TableModel, has_free_frame, is_first_free_frame, first_free_frame, is_lru_victim, lru_victim,
    owner_of, resolve_model, lemma_first_free_frame_exists, lemma_first_free_frame_unique,
    lemma_lru_victim_exists, lemma_owner_of_owns, lemma_owner_unique,
    lemma_resolve_preserves_well_formed,
};

verus! {

/// Free frames fill in ascending index order: while the free frames are
/// exactly those at index `k` and above — the shape a fresh table starts in
/// with `k == 0` — a reference to an unmapped page faults, is assigned frame
/// `k`, and leaves free exactly the frames above `k`. So the first
/// `NUM_FRAMES` distinct page references fault into frames
/// `0, 1, ..., NUM_FRAMES - 1` in order.
pub proof fn lemma_fill_in_ascending_order(m: TableModel, page: int, t: u32, k: int)
    requires
        m.well_formed(),
        0 <= k < NUM_FRAMES,
        forall|f: int| 0 <= f < NUM_FRAMES ==> (m.free[f] <==> f >= k),
        0 <= page < NUM_PAGES,
        m.table[page] is None,
    ensures
        resolve_model(m, page, t).2 == true,
        resolve_model(m, page, t).1 == k,
        resolve_model(m, page, t).0.table == m.table.update(page, Some(k as u32)),
        resolve_model(m, page, t).0.table[page] == Some(k as u32),
        resolve_model(m, page, t).0.recency == m.recency.update(k, t),
        resolve_model(m, page, t).0.well_formed(),
        forall|f: int|
            0 <= f < NUM_FRAMES ==> (resolve_model(m, page, t).0.free[f] <==> f >= k + 1),
{
    assert(m.free[k]);
    assert(has_free_frame(m));
    assert(is_first_free_frame(m, k));
    lemma_first_free_frame_exists(m, k);
    lemma_first_free_frame_unique(m, k, first_free_frame(m));
    lemma_resolve_preserves_well_formed(m, page, t);
}

/// Under full pressure eviction hits exactly the least-recently-used frame:
/// with every frame in use, a reference to an unmapped page faults, the frame
/// with the smallest recency stamp (lowest index among ties) is reused for
/// it, the page that owned that frame becomes unmapped, and no other
/// page-table entry changes.
pub proof fn lemma_eviction_is_lru(m: TableModel, page: int, t: u32)
    requires
        m.well_formed(),
        0 <= page < NUM_PAGES,
        m.table[page] is None,
        forall|f: int| 0 <= f < NUM_FRAMES ==> !m.free[f],
    ensures
        resolve_model(m, page, t).2 == true,
        is_lru_victim(m, resolve_model(m, page, t).1),
        resolve_model(m, page, t).0.table[page] == Some(resolve_model(m, page, t).1 as u32),
        resolve_model(m, page, t).0.well_formed(),
        forall|q: int|
            0 <= q < NUM_PAGES && q != page && m.table[q] == Some(
                resolve_model(m, page, t).1 as u32,
            ) ==> resolve_model(m, page, t).0.table[q] is None,
        forall|q: int|
            0 <= q < NUM_PAGES && q != page && m.table[q] != Some(
                resolve_model(m, page, t).1 as u32,
            ) ==> resolve_model(m, page, t).0.table[q] == m.table[q],
{
    assert(!m.free[0]);
    assert(!has_free_frame(m));
    lemma_lru_victim_exists(m);
    let v = lru_victim(m);
    lemma_owner_of_owns(m, v as u32);
    lemma_resolve_preserves_well_formed(m, page, t);
    assert forall|q: int|
        0 <= q < NUM_PAGES && q != page && m.table[q] == Some(
            resolve_model(m, page, t).1 as u32,
        ) implies resolve_model(m, page, t).0.table[q] is None by {
        lemma_owner_unique(m, v as u32, q, owner_of(m, v as u32));
    }
}

/// A hit: referencing an already-mapped page does not fault, returns the
/// frame that already backs it, refreshes only that frame's recency stamp,
/// and leaves every page-table entry and every free flag unchanged.
pub proof fn lemma_hit_keeps_frame(m: TableModel, page: int, t: u32)
    requires
        m.well_formed(),
        0 <= page < NUM_PAGES,
        m.table[page] is Some,
    ensures
        resolve_model(m, page, t).2 == false,
        m.table[page] == Some(resolve_model(m, page, t).1 as u32),
        resolve_model(m, page, t).0.well_formed(),
        resolve_model(m, page, t).0.table == m.table,
        resolve_model(m, page, t).0.recency == m.recency.update(
            m.table[page]->Some_0 as int,
            t,
        ),
        forall|g: int|
            0 <= g < NUM_FRAMES && g != m.table[page]->Some_0 as int ==> resolve_model(
                m,
                page,
                t,
            ).0.recency[g] == m.recency[g],
        resolve_model(m, page, t).0.free == m.free,
{
    let f = m.table[page]->Some_0;
    assert(f < NUM_FRAMES && !m.free[f as int]);
    lemma_resolve_preserves_well_formed(m, page, t);
    assert(resolve_model(m, page, t).0.free =~= m.free);
}

/// The state after the references `refs`, in order: each entry is a page
/// number and the access time handed to the allocator with it.
pub open spec fn run_refs(m: TableModel, refs: Seq<(u32, u32)>) -> TableModel
    decreases refs.len(),
{
    if refs.len() == 0 {
        m
    } else {
        run_refs(resolve_model(m, refs[0].0 as int, refs[0].1).0, refs.drop_first())
    }
}

/// Distinct fresh page references fill the free frames in ascending index
/// order: while the free frames are exactly those at index `k` and above,
/// referencing pairwise-distinct unmapped pages faults every time and assigns
/// frames `k, k + 1, ...` in order, mapping each page to its frame and
/// leaving every previously mapped page alone.
pub proof fn lemma_distinct_fresh_references_fill_frames(
    m: TableModel,
    refs: Seq<(u32, u32)>,
    k: int,
)
    requires
        m.well_formed(),
        0 <= k,
        k + refs.len() <= NUM_FRAMES,
        forall|f: int| 0 <= f < NUM_FRAMES ==> (m.free[f] <==> f >= k),
        forall|i: int| 0 <= i < refs.len() ==> (#[trigger] refs[i]).0 < NUM_PAGES,
        forall|i: int, j: int|
            0 <= i < j < refs.len() ==> (#[trigger] refs[i]).0 != (#[trigger] refs[j]).0,
        forall|i: int| 0 <= i < refs.len() ==> m.table[(#[trigger] refs[i]).0 as int] is None,
    ensures
        run_refs(m, refs).well_formed(),
        forall|f: int|
            0 <= f < NUM_FRAMES ==> (run_refs(m, refs).free[f] <==> f >= k + refs.len()),
        forall|i: int|
            0 <= i < refs.len() ==> resolve_model(
                run_refs(m, #[trigger] refs.take(i)),
                refs[i].0 as int,
                refs[i].1,
            ).2 == true,
        forall|i: int|
            0 <= i < refs.len() ==> resolve_model(
                run_refs(m, #[trigger] refs.take(i)),
                refs[i].0 as int,
                refs[i].1,
            ).1 == k + i,
        forall|i: int|
            0 <= i < refs.len() ==> run_refs(m, refs).table[(#[trigger] refs[i]).0 as int]
                == Some((k + i) as u32),
        forall|p: int|
            0 <= p < NUM_PAGES && m.table[p] is Some ==> run_refs(m, refs).table[p]
                == m.table[p],
    decreases refs.len(),
{
    if refs.len() > 0 {
        let page = refs[0].0 as int;
        let t = refs[0].1;
        lemma_fill_in_ascending_order(m, page, t, k);
        let m1 = resolve_model(m, page, t).0;
        let rest = refs.drop_first();
        assert(m1.table == m.table.update(page, Some(k as u32)));
        assert forall|i: int| 0 <= i < rest.len() implies m1.table[
            (#[trigger] rest[i]).0 as int
        ] is None by {
            assert(rest[i] == refs[i + 1]);
            assert(refs[i + 1].0 != refs[0].0);
        }
        lemma_distinct_fresh_references_fill_frames(m1, rest, k + 1);
        assert forall|i: int|
            0 <= i < refs.len() implies resolve_model(
            run_refs(m, #[trigger] refs.take(i)),
            refs[i].0 as int,
            refs[i].1,
        ).2 == true && resolve_model(
            run_refs(m, refs.take(i)),
            refs[i].0 as int,
            refs[i].1,
        ).1 == k + i by {
            if i == 0 {
                assert(refs.take(0) =~= Seq::<(u32, u32)>::empty());
                assert(run_refs(m, refs.take(0)) == m);
            } else {
                assert(refs.take(i)[0] == refs[0]);
                assert(refs.take(i).drop_first() =~= rest.take(i - 1));
                assert(run_refs(m, refs.take(i)) == run_refs(m1, rest.take(i - 1)));
                assert(rest[i - 1] == refs[i]);
            }
        }
        assert(run_refs(m, refs) == run_refs(m1, rest));
        assert forall|p: int|
            0 <= p < NUM_PAGES && m.table[p] is Some implies run_refs(m, refs).table[p]
            == m.table[p] by {
            assert(p != page);
            assert(m1.table[p] == m.table[p]);
            assert(m1.table[p] is Some);
        }
        assert forall|i: int|
            0 <= i < refs.len() implies run_refs(m, refs).table[(#[trigger] refs[i]).0 as int]
            == Some((k + i) as u32) by {
            if i == 0 {
                assert(m1.table[page] == Some(k as u32));
            } else {
                assert(rest[i - 1] == refs[i]);
                assert(run_refs(m1, rest).table[rest[i - 1].0 as int] == Some(
                    (k + 1 + (i - 1)) as u32,
                ));
            }
        }
    }
}

/// From a fresh table, the first `NUM_FRAMES` distinct page references each
/// fault and take frames `0, 1, ..., NUM_FRAMES - 1` in ascending order.
pub proof fn lemma_first_references_fill_in_order(refs: Seq<(u32, u32)>)
    requires
        refs.len() <= NUM_FRAMES,
        forall|i: int| 0 <= i < refs.len() ==> (#[trigger] refs[i]).0 < NUM_PAGES,
        forall|i: int, j: int|
            0 <= i < j < refs.len() ==> (#[trigger] refs[i]).0 != (#[trigger] refs[j]).0,
    ensures
        run_refs(TableModel::init(), refs).well_formed(),
        forall|i: int|
            0 <= i < refs.len() ==> resolve_model(
                run_refs(TableModel::init(), #[trigger] refs.take(i)),
                refs[i].0 as int,
                refs[i].1,
            ).2 == true,
        forall|i: int|
            0 <= i < refs.len() ==> resolve_model(
                run_refs(TableModel::init(), #[trigger] refs.take(i)),
                refs[i].0 as int,
                refs[i].1,
            ).1 == i,
        forall|i: int|
            0 <= i < refs.len() ==> run_refs(TableModel::init(), refs).table[
                (#[trigger] refs[i]).0 as int
            ] == Some(i as u32),
{
    lemma_distinct_fresh_references_fill_frames(TableModel::init(), refs, 0);
}

/// The state after referencing `page` once per entry of `times`, in order.
pub open spec fn run_hits(m: TableModel, page: int, times: Seq<u32>) -> TableModel
    decreases times.len(),
{
    if times.len() == 0 {
        m
    } else {
        run_hits(resolve_model(m, page, times[0]).0, page, times.subrange(1, times.len() as int))
    }
}

/// Unfolds one step of `run_hits` on a prefix.
proof fn lemma_run_hits_prefix(m: TableModel, page: int, times: Seq<u32>, i: int)
    requires
        1 <= i <= times.len(),
    ensures
        run_hits(m, page, times.take(i)) == run_hits(
            resolve_model(m, page, times[0]).0,
            page,
            times.subrange(1, times.len() as int).take(i - 1),
        ),
{
    let rest = times.subrange(1, times.len() as int);
    assert(times.take(i).len() == i);
    assert(times.take(i)[0] == times[0]);
    assert(times.take(i).subrange(1, i) =~= rest.take(i - 1));
}

/// Repeated hits are idempotent: referencing a mapped page any number of
/// times in a row never faults, always returns the frame that already backs
/// it, and changes nothing but that frame's recency stamp, which ends at the
/// last access time.
#[verifier::rlimit(100)]
pub proof fn lemma_repeated_hits_idempotent(m: TableModel, page: int, times: Seq<u32>)
    requires
        m.well_formed(),
        0 <= page < NUM_PAGES,
        m.table[page] is Some,
    ensures
        run_hits(m, page, times).well_formed(),
        run_hits(m, page, times).table == m.table,
        run_hits(m, page, times).free == m.free,
        forall|g: int|
            0 <= g < NUM_FRAMES && g != m.table[page]->Some_0 as int ==> run_hits(
                m,
                page,
                times,
            ).recency[g] == m.recency[g],
        times.len() > 0 ==> run_hits(m, page, times).recency[m.table[page]->Some_0 as int]
            == times.last(),
        forall|i: int|
            0 <= i < times.len() ==> resolve_model(
                run_hits(m, page, #[trigger] times.take(i)),
                page,
                times[i],
            ) == (run_hits(m, page, times.take(i + 1)), m.table[page]->Some_0 as int, false),
    decreases times.len(),
{
    if times.len() > 0 {
        let f = m.table[page]->Some_0;
        lemma_hit_keeps_frame(m, page, times[0]);
        let m1 = resolve_model(m, page, times[0]).0;
        let rest = times.subrange(1, times.len() as int);
        lemma_repeated_hits_idempotent(m1, page, rest);
        assert forall|i: int|
            0 <= i < times.len() implies resolve_model(
            run_hits(m, page, #[trigger] times.take(i)),
            page,
            times[i],
        ) == (run_hits(m, page, times.take(i + 1)), f as int, false) by {
            if i == 0 {
                assert(times.take(0) =~= Seq::<u32>::empty());
                assert(run_hits(m, page, times.take(0)) == m);
                lemma_run_hits_prefix(m, page, times, 1);
                assert(rest.take(0) =~= Seq::<u32>::empty());
                assert(run_hits(m, page, times.take(1)) == m1);
            } else {
                lemma_run_hits_prefix(m, page, times, i);
                lemma_run_hits_prefix(m, page, times, i + 1);
                assert(rest[i - 1] == times[i]);
                assert(resolve_model(run_hits(m1, page, rest.take(i - 1)), page, rest[i - 1]) == (
                    run_hits(m1, page, rest.take(i)),
                    m1.table[page]->Some_0 as int,
                    false,
                ));
            }
        }
        assert(run_hits(m, page, times) == run_hits(m1, page, rest));
        if rest.len() > 0 {
            assert(times.last() == rest.last());
        }
    }
}

} // verus!
