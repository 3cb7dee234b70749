//! A heap file: an append-mostly sequence of slotted pages.
use vstd::prelude::*;

use crate::db::storage::page::{
    page_delete, page_lookup, Page, PageError, SlotId, HEADER_SIZE, PAGE_SIZE, SLOT_SIZE,
};

verus! {

/// Most pages a heap file can hold: the bytes of all its pages must be
/// addressable.
pub const MAX_PAGES: usize = usize::MAX / PAGE_SIZE;

#[derive(Debug, Clone, Copy, PartialEq, Eq, Structural)]
pub struct PageId(pub u16);

#[derive(Debug, Clone, Copy, PartialEq, Eq, Structural)]
pub struct RowId {
    pub page_id: PageId,
    pub slot_id: SlotId,
}

#[derive(Debug, Clone, Copy, PartialEq, Eq, Structural)]
pub struct ScanStats {
    pub pages_visited: usize,
    pub slots_visited: usize,
    pub live_records_seen: usize,
    pub deleted_slots_skipped: usize,
}

#[derive(Debug, Clone, Copy, PartialEq, Eq)]
pub struct HeapScanItem<'heap> {
    pub row_id: RowId,
    pub record: &'heap [u8],
}

#[derive(Debug, Clone, PartialEq, Eq)]
pub struct HeapScanResult<'heap> {
    pub items: Vec<HeapScanItem<'heap>>,
    pub stats: ScanStats,
}

/// The row id of slot `slot` of page `page`.
pub open spec fn row_id_of(page: int, slot: int) -> RowId {
    RowId { page_id: PageId(page as u16), slot_id: SlotId(slot as u16) }
}

/// The first page, among pages with `frees` free bytes each, that has at least
/// `need` bytes free; the number of pages when none has.
pub open spec fn first_fit(frees: Seq<int>, need: int) -> int
    decreases frees.len(),
{
    if frees.len() == 0 {
        0
    } else if frees[0] >= need {
        0
    } else {
        1 + first_fit(frees.drop_first(), need)
    }
}

/// `first_fit` lies within the pages; every page before it lacks room, and the
/// page it names, if any, has room.
pub proof fn lemma_first_fit_bounds(frees: Seq<int>, need: int)
    ensures
        0 <= first_fit(frees, need) <= frees.len(),
        forall|j: int| 0 <= j < first_fit(frees, need) ==> #[trigger] frees[j] < need,
        first_fit(frees, need) < frees.len() ==> frees[first_fit(frees, need)] >= need,
    decreases frees.len(),
{
    if frees.len() > 0 && frees[0] < need {
        let rest = frees.drop_first();
        lemma_first_fit_bounds(rest, need);
        assert forall|j: int| 0 <= j < first_fit(frees, need) implies #[trigger] frees[j] < need by {
            if j > 0 {
                assert(frees[j] == rest[j - 1]);
            }
        }
    }
}

/// `first_fit` is the first page with room, or the number of pages.
proof fn lemma_first_fit_is(frees: Seq<int>, need: int, p: int)
    requires
        0 <= p <= frees.len(),
        forall|j: int| 0 <= j < p ==> #[trigger] frees[j] < need,
        p < frees.len() ==> frees[p] >= need,
    ensures
        first_fit(frees, need) == p,
    decreases frees.len(),
{
    if frees.len() > 0 && p > 0 {
        assert forall|j: int| 0 <= j < p - 1 implies #[trigger] frees.drop_first()[j] < need by {
            assert(frees[j + 1] < need);
        }
        lemma_first_fit_is(frees.drop_first(), need, p - 1);
    }
}

/// The outcome of reading row `row` from a heap whose pages hold `pages`.
pub open spec fn heap_lookup(pages: Seq<Seq<(bool, Seq<u8>)>>, row: RowId) -> Result<
    Seq<u8>,
    PageError,
> {
    if row.page_id.0 >= pages.len() {
        Err(PageError::InvalidSlot)
    } else {
        page_lookup(pages[row.page_id.0 as int], row.slot_id.0 as int)
    }
}

/// The pages after deleting row `row`, or the error that refuses it.
pub open spec fn heap_delete(pages: Seq<Seq<(bool, Seq<u8>)>>, row: RowId) -> Result<
    Seq<Seq<(bool, Seq<u8>)>>,
    PageError,
> {
    if row.page_id.0 >= pages.len() {
        Err(PageError::InvalidSlot)
    } else {
        match page_delete(pages[row.page_id.0 as int], row.slot_id.0 as int) {
            Ok(slots) => Ok(pages.update(row.page_id.0 as int, slots)),
            Err(e) => Err(e),
        }
    }
}

/// The live rows of page `page` whose slots are `slots`, in slot order.
pub open spec fn page_rows(page: int, slots: Seq<(bool, Seq<u8>)>) -> Seq<(RowId, Seq<u8>)>
    decreases slots.len(),
{
    if slots.len() == 0 {
        Seq::empty()
    } else {
        let before = page_rows(page, slots.drop_last());
        if slots.last().0 {
            before.push((row_id_of(page, slots.len() - 1), slots.last().1))
        } else {
            before
        }
    }
}

/// The live rows of a heap whose pages hold `pages`, page by page, each page
/// in slot order.
pub open spec fn heap_rows(pages: Seq<Seq<(bool, Seq<u8>)>>) -> Seq<(RowId, Seq<u8>)>
    decreases pages.len(),
{
    if pages.len() == 0 {
        Seq::empty()
    } else {
        heap_rows(pages.drop_last()) + page_rows(pages.len() - 1, pages.last())
    }
}

/// The number of deleted slots among `slots`.
pub open spec fn deleted_in(slots: Seq<(bool, Seq<u8>)>) -> int
    decreases slots.len(),
{
    if slots.len() == 0 {
        0
    } else {
        deleted_in(slots.drop_last()) + if slots.last().0 {
            0int
        } else {
            1int
        }
    }
}

/// The number of slots over all `pages`, deleted ones included.
pub open spec fn slots_in(pages: Seq<Seq<(bool, Seq<u8>)>>) -> int
    decreases pages.len(),
{
    if pages.len() == 0 {
        0
    } else {
        slots_in(pages.drop_last()) + pages.last().len()
    }
}

/// The number of deleted slots over all `pages`.
pub open spec fn deleted_slots_in(pages: Seq<Seq<(bool, Seq<u8>)>>) -> int
    decreases pages.len(),
{
    if pages.len() == 0 {
        0
    } else {
        deleted_slots_in(pages.drop_last()) + deleted_in(pages.last())
    }
}

/// The statistics of a scan over every slot of `pages`.
pub open spec fn full_scan_stats(pages: Seq<Seq<(bool, Seq<u8>)>>) -> ScanStats {
    ScanStats {
        pages_visited: pages.len() as usize,
        slots_visited: slots_in(pages) as usize,
        live_records_seen: heap_rows(pages).len() as usize,
        deleted_slots_skipped: deleted_slots_in(pages) as usize,
    }
}

/// What the items of a scan show: each row id with the bytes of its record.
pub open spec fn items_view<'heap>(items: Seq<HeapScanItem<'heap>>) -> Seq<(RowId, Seq<u8>)> {
    Seq::new(items.len(), |i: int| (items[i].row_id, items[i].record@))
}

/// Unfolds the rows, slot count and deleted count of the first `p + 1` pages.
proof fn lemma_pages_take_step(pages: Seq<Seq<(bool, Seq<u8>)>>, p: int)
    requires
        0 <= p < pages.len(),
    ensures
        heap_rows(pages.take(p + 1)) == heap_rows(pages.take(p)) + page_rows(p, pages[p]),
        slots_in(pages.take(p + 1)) == slots_in(pages.take(p)) + pages[p].len(),
        deleted_slots_in(pages.take(p + 1)) == deleted_slots_in(pages.take(p)) + deleted_in(
            pages[p],
        ),
{
    assert(pages.take(p + 1).drop_last() =~= pages.take(p));
}

/// Unfolds the rows and deleted count of the first `s + 1` slots of a page.
proof fn lemma_slots_take_step(page: int, slots: Seq<(bool, Seq<u8>)>, s: int)
    requires
        0 <= s < slots.len(),
    ensures
        page_rows(page, slots.take(s + 1)) == if slots[s].0 {
            page_rows(page, slots.take(s)).push((row_id_of(page, s), slots[s].1))
        } else {
            page_rows(page, slots.take(s))
        },
        deleted_in(slots.take(s + 1)) == deleted_in(slots.take(s)) + if slots[s].0 {
            0int
        } else {
            1int
        },
{
    assert(slots.take(s + 1).drop_last() =~= slots.take(s));
}

/// Every slot of a page is either a live row or a deleted slot.
proof fn lemma_page_rows_len(page: int, slots: Seq<(bool, Seq<u8>)>)
    ensures
        page_rows(page, slots).len() + deleted_in(slots) == slots.len(),
    decreases slots.len(),
{
    if slots.len() > 0 {
        lemma_page_rows_len(page, slots.drop_last());
    }
}

/// Every slot of a heap is either a live row or a deleted slot.
proof fn lemma_heap_rows_len(pages: Seq<Seq<(bool, Seq<u8>)>>)
    ensures
        heap_rows(pages).len() + deleted_slots_in(pages) == slots_in(pages),
    decreases pages.len(),
{
    if pages.len() > 0 {
        lemma_heap_rows_len(pages.drop_last());
        lemma_page_rows_len(pages.len() - 1, pages.last());
    }
}

/// The position of a row id in scan order: by page, then by slot.
pub open spec fn row_rank(row: RowId) -> int {
    row.page_id.0 * 65536 + row.slot_id.0
}

/// The live rows of one page: each reads back as its bytes, lies on that page
/// below its slot count, the slots rise, and every live slot is listed.
proof fn lemma_page_rows_readable(page: int, slots: Seq<(bool, Seq<u8>)>)
    requires
        0 <= page < 65536,
        slots.len() <= 65536,
    ensures
        forall|i: int|
            0 <= i < page_rows(page, slots).len() ==> {
                &&& (#[trigger] page_rows(page, slots)[i]).0.page_id.0 == page
                &&& page_rows(page, slots)[i].0.slot_id.0 < slots.len()
                &&& page_lookup(slots, page_rows(page, slots)[i].0.slot_id.0 as int) == Ok::<
                    Seq<u8>,
                    PageError,
                >(page_rows(page, slots)[i].1)
            },
        forall|i: int, j: int|
            0 <= i < j < page_rows(page, slots).len() ==> (#[trigger] page_rows(page, slots)[i]).0.slot_id.0
                < (#[trigger] page_rows(page, slots)[j]).0.slot_id.0,
        forall|s: int|
            0 <= s < slots.len() && #[trigger] slots[s].0 ==> exists|i: int|
                0 <= i < page_rows(page, slots).len() && page_rows(page, slots)[i] == (
                    row_id_of(page, s),
                    slots[s].1,
                ),
    decreases slots.len(),
{
    if slots.len() > 0 {
        let prev = slots.drop_last();
        lemma_page_rows_readable(page, prev);
        let rows = page_rows(page, slots);
        let before = page_rows(page, prev);
        let n = slots.len() - 1;
        assert forall|i: int| 0 <= i < rows.len() implies {
            &&& (#[trigger] rows[i]).0.page_id.0 == page
            &&& rows[i].0.slot_id.0 < slots.len()
            &&& page_lookup(slots, rows[i].0.slot_id.0 as int) == Ok::<Seq<u8>, PageError>(rows[i].1)
        } by {
            if i < before.len() {
                assert(rows[i] == before[i]);
                assert(slots[before[i].0.slot_id.0 as int] == prev[before[i].0.slot_id.0 as int]);
            }
        }
        assert forall|s2: int| 0 <= s2 < slots.len() && #[trigger] slots[s2].0 implies exists|i: int|
            0 <= i < rows.len() && rows[i] == (row_id_of(page, s2), slots[s2].1) by {
            if s2 < n {
                assert(prev[s2] == slots[s2]);
                let i = choose|i: int|
                    0 <= i < before.len() && before[i] == (row_id_of(page, s2), prev[s2].1);
                assert(rows[i] == before[i]);
            } else {
                assert(rows[before.len() as int] == (row_id_of(page, s2), slots[s2].1));
            }
        }
        assert forall|i: int, j: int| 0 <= i < j < rows.len() implies (#[trigger] rows[i]).0.slot_id.0
            < (#[trigger] rows[j]).0.slot_id.0 by {
            if j < before.len() {
                assert(rows[i] == before[i] && rows[j] == before[j]);
            } else {
                assert(rows[i] == before[i]);
            }
        }
    }
}

/// What a scan lists: its rows (`heap_rows`) each read back as their bytes,
/// every row that reads back is listed, and the rows come in increasing
/// (page, slot) order, so none twice. This holds for heaps whose pages and
/// slots a `RowId` can number.
pub proof fn heap_rows_are_the_readable_rows(pages: Seq<Seq<(bool, Seq<u8>)>>)
    requires
        pages.len() <= 65536,
        forall|p: int| 0 <= p < pages.len() ==> #[trigger] pages[p].len() <= 65536,
    ensures
        forall|i: int|
            0 <= i < heap_rows(pages).len() ==> heap_lookup(pages, (#[trigger] heap_rows(pages)[i]).0)
                == Ok::<Seq<u8>, PageError>(heap_rows(pages)[i].1),
        forall|row: RowId|
            #[trigger] heap_lookup(pages, row) is Ok ==> exists|i: int|
                0 <= i < heap_rows(pages).len() && heap_rows(pages)[i] == (
                    row,
                    heap_lookup(pages, row)->Ok_0,
                ),
        forall|i: int, j: int|
            0 <= i < j < heap_rows(pages).len() ==> row_rank((#[trigger] heap_rows(pages)[i]).0)
                < row_rank((#[trigger] heap_rows(pages)[j]).0),
{
    lemma_heap_rows_pages(pages);
}

/// `heap_rows_are_the_readable_rows`, with the page bound of every row.
proof fn lemma_heap_rows_pages(pages: Seq<Seq<(bool, Seq<u8>)>>)
    requires
        pages.len() <= 65536,
        forall|p: int| 0 <= p < pages.len() ==> #[trigger] pages[p].len() <= 65536,
    ensures
        forall|i: int|
            0 <= i < heap_rows(pages).len() ==> {
                &&& (#[trigger] heap_rows(pages)[i]).0.page_id.0 < pages.len()
                &&& heap_lookup(pages, heap_rows(pages)[i].0) == Ok::<Seq<u8>, PageError>(
                    heap_rows(pages)[i].1,
                )
            },
        forall|row: RowId|
            #[trigger] heap_lookup(pages, row) is Ok ==> exists|i: int|
                0 <= i < heap_rows(pages).len() && heap_rows(pages)[i] == (
                    row,
                    heap_lookup(pages, row)->Ok_0,
                ),
        forall|i: int, j: int|
            0 <= i < j < heap_rows(pages).len() ==> row_rank((#[trigger] heap_rows(pages)[i]).0)
                < row_rank((#[trigger] heap_rows(pages)[j]).0),
    decreases pages.len(),
{
    if pages.len() > 0 {
        let prev = pages.drop_last();
        let n = pages.len() - 1;
        let last = pages.last();
        assert forall|p: int| 0 <= p < prev.len() implies #[trigger] prev[p].len() <= 65536 by {
            assert(prev[p] == pages[p]);
        }
        lemma_heap_rows_pages(prev);
        assert(pages[n] == last);
        lemma_page_rows_readable(n, last);
        let rows = heap_rows(pages);
        let before = heap_rows(prev);
        let here = page_rows(n, last);
        assert(rows == before + here);
        assert forall|i: int| 0 <= i < rows.len() implies {
            &&& (#[trigger] rows[i]).0.page_id.0 < pages.len()
            &&& heap_lookup(pages, rows[i].0) == Ok::<Seq<u8>, PageError>(rows[i].1)
        } by {
            if i < before.len() {
                assert(rows[i] == before[i]);
                assert(pages[before[i].0.page_id.0 as int] == prev[before[i].0.page_id.0 as int]);
            } else {
                assert(rows[i] == here[i - before.len()]);
            }
        }
        assert forall|row: RowId| #[trigger] heap_lookup(pages, row) is Ok implies exists|i: int|
            0 <= i < rows.len() && rows[i] == (row, heap_lookup(pages, row)->Ok_0) by {
            let bytes = heap_lookup(pages, row)->Ok_0;
            let pid = row.page_id.0 as int;
            if pid < n {
                assert(pages[pid] == prev[pid]);
                assert(heap_lookup(prev, row) == heap_lookup(pages, row));
                let i = choose|i: int| 0 <= i < before.len() && before[i] == (row, heap_lookup(prev, row)->Ok_0);
                assert(rows[i] == before[i]);
            } else {
                let s2 = row.slot_id.0 as int;
                assert(last[s2].0);
                let i = choose|i: int| 0 <= i < here.len() && here[i] == (row_id_of(n, s2), last[s2].1);
                assert(row_id_of(n, s2) == row);
                assert(rows[before.len() + i] == here[i]);
            }
        }
        assert forall|i: int, j: int| 0 <= i < j < rows.len() implies row_rank((#[trigger] rows[i]).0)
            < row_rank((#[trigger] rows[j]).0) by {
            if j < before.len() {
                assert(rows[i] == before[i] && rows[j] == before[j]);
            } else if i >= before.len() {
                assert(rows[i] == here[i - before.len()] && rows[j] == here[j - before.len()]);
            } else {
                assert(rows[i] == before[i] && rows[j] == here[j - before.len()]);
            }
        }
    }
}

/// Read after insert: a record inserted into page `p` (an existing page, or a
/// new page appended at the end) reads back under the row id the insert returns,
/// and every other row reads as it did before. This holds for the pages that a
/// `PageId` can number, those below 65536.
pub proof fn heap_read_after_insert(
    pages: Seq<Seq<(bool, Seq<u8>)>>,
    p: int,
    record: Seq<u8>,
    other: RowId,
)
    requires
        0 <= p <= pages.len(),
        p < 65536,
        p < pages.len() ==> pages[p].len() < 65536,
    ensures
        ({
            let after = if p < pages.len() {
                pages.update(p, pages[p].push((true, record)))
            } else {
                pages.push(seq![(true, record)])
            };
            let slot = if p < pages.len() {
                pages[p].len() as int
            } else {
                0
            };
            &&& heap_lookup(after, row_id_of(p, slot)) == Ok::<Seq<u8>, PageError>(record)
            &&& other != row_id_of(p, slot) ==> heap_lookup(after, other) == heap_lookup(
                pages,
                other,
            )
        }),
{
    let slot = if p < pages.len() {
        pages[p].len() as int
    } else {
        0
    };
    let after = if p < pages.len() {
        pages.update(p, pages[p].push((true, record)))
    } else {
        pages.push(seq![(true, record)])
    };
    assert(row_id_of(p, slot).page_id.0 == p);
    assert(row_id_of(p, slot).slot_id.0 == slot);
    if other != row_id_of(p, slot) && other.page_id.0 == p {
        assert(other.slot_id.0 != slot);
    }
}

/// Tombstones: deleting a live row succeeds; afterwards reading it gives
/// `DeletedSlot`, and every other row reads as it did before.
pub proof fn heap_read_after_delete(pages: Seq<Seq<(bool, Seq<u8>)>>, row: RowId, other: RowId)
    requires
        heap_lookup(pages, row) is Ok,
    ensures
        heap_delete(pages, row) is Ok,
        heap_lookup(heap_delete(pages, row)->Ok_0, row) == Err::<Seq<u8>, PageError>(
            PageError::DeletedSlot,
        ),
        heap_delete(heap_delete(pages, row)->Ok_0, row) == Err::<
            Seq<Seq<(bool, Seq<u8>)>>,
            PageError,
        >(PageError::DeletedSlot),
        other != row ==> heap_lookup(heap_delete(pages, row)->Ok_0, other) == heap_lookup(
            pages,
            other,
        ),
{
    let p = row.page_id.0 as int;
    crate::db::storage::page::page_read_after_delete(pages[p], row.slot_id.0 as int, other.slot_id.0 as int);
}

/// A heap whose pages hold at most 818 slots each holds at most 818 slots per page.
proof fn lemma_slots_bound(pages: Seq<Seq<(bool, Seq<u8>)>>)
    requires
        forall|i: int| 0 <= i < pages.len() ==> #[trigger] pages[i].len() <= 818,
    ensures
        slots_in(pages) <= 818 * pages.len(),
    decreases pages.len(),
{
    if pages.len() > 0 {
        lemma_slots_bound(pages.drop_last());
        assert(pages.last().len() <= 818);
    }
}

/// Counts of deleted slots are never negative.
proof fn lemma_deleted_in_nonneg(slots: Seq<(bool, Seq<u8>)>)
    ensures
        deleted_in(slots) >= 0,
    decreases slots.len(),
{
    if slots.len() > 0 {
        lemma_deleted_in_nonneg(slots.drop_last());
    }
}

/// Counts of deleted slots are never negative.
proof fn lemma_deleted_nonneg(pages: Seq<Seq<(bool, Seq<u8>)>>)
    ensures
        deleted_slots_in(pages) >= 0,
    decreases pages.len(),
{
    if pages.len() > 0 {
        lemma_deleted_nonneg(pages.drop_last());
        lemma_deleted_in_nonneg(pages.last());
    }
}

/// `a` is a prefix of `b`, and `b` of `c`: then `a` is a prefix of `c`.
proof fn lemma_prefix_trans(a: Seq<(RowId, Seq<u8>)>, b: Seq<(RowId, Seq<u8>)>, c: Seq<(RowId, Seq<u8>)>)
    requires
        a.is_prefix_of(b),
        b.is_prefix_of(c),
    ensures
        a.is_prefix_of(c),
{
    assert(a =~= c.subrange(0, a.len() as int)) by {
        assert forall|i: int| 0 <= i < a.len() implies a[i] == c.subrange(0, a.len() as int)[i] by {
            assert(a[i] == b.subrange(0, a.len() as int)[i]);
            assert(b[i] == c.subrange(0, b.len() as int)[i]);
        }
    }
}

/// The live rows of the first `t` slots of a page come first among the page's rows.
proof fn lemma_page_rows_prefix(page: int, slots: Seq<(bool, Seq<u8>)>, t: int)
    requires
        0 <= t <= slots.len(),
    ensures
        page_rows(page, slots.take(t)).is_prefix_of(page_rows(page, slots)),
    decreases slots.len() - t,
{
    if t == slots.len() {
        assert(slots.take(t) =~= slots);
        assert(page_rows(page, slots) =~= page_rows(page, slots).subrange(
            0,
            page_rows(page, slots).len() as int,
        ));
    } else {
        lemma_slots_take_step(page, slots, t);
        lemma_page_rows_prefix(page, slots, t + 1);
        let a = page_rows(page, slots.take(t));
        let b = page_rows(page, slots.take(t + 1));
        assert(a =~= b.subrange(0, a.len() as int));
        lemma_prefix_trans(a, b, page_rows(page, slots));
    }
}

/// The live rows of the first `p + 1` pages come first among the heap's rows.
proof fn lemma_heap_rows_prefix(pages: Seq<Seq<(bool, Seq<u8>)>>, p: int)
    requires
        0 <= p < pages.len(),
    ensures
        (heap_rows(pages.take(p)) + page_rows(p, pages[p])).is_prefix_of(heap_rows(pages)),
    decreases pages.len() - p,
{
    lemma_pages_take_step(pages, p);
    let a = heap_rows(pages.take(p + 1));
    if p + 1 == pages.len() {
        assert(pages.take(p + 1) =~= pages);
        assert(a =~= a.subrange(0, a.len() as int));
    } else {
        lemma_heap_rows_prefix(pages, p + 1);
        lemma_pages_take_step(pages, p + 1);
        let b = heap_rows(pages.take(p + 2));
        assert(a =~= b.subrange(0, a.len() as int));
        lemma_prefix_trans(a, b, heap_rows(pages));
    }
}

/// A visitor gave `answer` for `row`, called on the row's id and bytes.
pub open spec fn answered<'heap, F: FnMut(RowId, &'heap [u8]) -> bool>(
    visitor: F,
    row: (RowId, Seq<u8>),
    answer: bool,
) -> bool {
    exists|bytes: &'heap [u8]| bytes@ == row.1 && #[trigger] call_ensures(visitor, (row.0, bytes), answer)
}

/// The slot of the live row `k` among the slots of page `page`.
pub open spec fn live_slot(page: int, slots: Seq<(bool, Seq<u8>)>, k: int) -> int
    decreases slots.len(),
{
    if slots.len() == 0 {
        0
    } else if k < page_rows(page, slots.drop_last()).len() {
        live_slot(page, slots.drop_last(), k)
    } else {
        slots.len() - 1
    }
}

/// The page index and slot of the live row `k` of `pages`.
pub open spec fn row_place(pages: Seq<Seq<(bool, Seq<u8>)>>, k: int) -> (int, int)
    decreases pages.len(),
{
    if pages.len() == 0 {
        (0, 0)
    } else if k < heap_rows(pages.drop_last()).len() {
        row_place(pages.drop_last(), k)
    } else {
        (
            pages.len() - 1,
            live_slot(pages.len() - 1, pages.last(), k - heap_rows(pages.drop_last()).len()),
        )
    }
}

/// The live row counted after those of the first `s` slots, on a live slot `s`,
/// is at slot `s`.
proof fn lemma_live_slot(page: int, slots: Seq<(bool, Seq<u8>)>, s: int)
    requires
        0 <= s < slots.len(),
        slots[s].0,
    ensures
        live_slot(page, slots, page_rows(page, slots.take(s)).len() as int) == s,
    decreases slots.len(),
{
    let k = page_rows(page, slots.take(s)).len() as int;
    let rest = slots.drop_last();
    if s == slots.len() - 1 {
        assert(slots.take(s) =~= rest);
    } else {
        lemma_slots_take_step(page, slots, s);
        lemma_page_rows_prefix(page, rest, s + 1);
        assert(rest.take(s + 1) =~= slots.take(s + 1));
        assert(rest.take(s) =~= slots.take(s));
        assert(rest[s] == slots[s]);
        lemma_live_slot(page, rest, s);
    }
}

/// The live row `j` of page `p` is the live row numbered after those of the
/// pages before it.
proof fn lemma_row_place(pages: Seq<Seq<(bool, Seq<u8>)>>, p: int, j: int)
    requires
        0 <= p < pages.len(),
        0 <= j < page_rows(p, pages[p]).len(),
    ensures
        row_place(pages, heap_rows(pages.take(p)).len() + j) == (p, live_slot(p, pages[p], j)),
    decreases pages.len(),
{
    let rest = pages.drop_last();
    if p == pages.len() - 1 {
        assert(pages.take(p) =~= rest);
    } else {
        lemma_heap_rows_prefix(rest, p);
        assert(rest.take(p) =~= pages.take(p));
        assert(rest[p] == pages[p]);
        lemma_row_place(rest, p, j);
    }
}

/// Live row `j` of a page is on a live slot, with `j` live rows before it.
proof fn lemma_live_slot_is(page: int, slots: Seq<(bool, Seq<u8>)>, j: int)
    requires
        0 <= j < page_rows(page, slots).len(),
    ensures
        0 <= live_slot(page, slots, j) < slots.len(),
        slots[live_slot(page, slots, j)].0,
        page_rows(page, slots.take(live_slot(page, slots, j))).len() == j,
    decreases slots.len(),
{
    let prev = slots.drop_last();
    if j < page_rows(page, prev).len() {
        lemma_live_slot_is(page, prev, j);
        let s2 = live_slot(page, prev, j);
        assert(prev.take(s2) =~= slots.take(s2));
        assert(prev[s2] == slots[s2]);
    } else {
        assert(slots.take(slots.len() - 1) =~= prev);
    }
}

/// Live row `k` of a heap is on a live slot of a page, with `k` live rows
/// before it in scan order.
proof fn lemma_row_place_is(pages: Seq<Seq<(bool, Seq<u8>)>>, k: int)
    requires
        0 <= k < heap_rows(pages).len(),
    ensures
        0 <= row_place(pages, k).0 < pages.len(),
        0 <= row_place(pages, k).1 < pages[row_place(pages, k).0].len(),
        pages[row_place(pages, k).0][row_place(pages, k).1].0,
        heap_rows(pages.take(row_place(pages, k).0)).len() + page_rows(
            row_place(pages, k).0,
            pages[row_place(pages, k).0].take(row_place(pages, k).1),
        ).len() == k,
    decreases pages.len(),
{
    let prev = pages.drop_last();
    let n = pages.len() - 1;
    if k < heap_rows(prev).len() {
        lemma_row_place_is(prev, k);
        let p = row_place(prev, k).0;
        assert(prev.take(p) =~= pages.take(p));
        assert(prev[p] == pages[p]);
    } else {
        assert(pages.take(n) =~= prev);
        assert(pages[n] == pages.last());
        lemma_live_slot_is(n, pages.last(), k - heap_rows(prev).len());
    }
}

/// The slots of the pages before page `p`, and those of page `p`, are among
/// all slots.
proof fn lemma_slots_prefix(pages: Seq<Seq<(bool, Seq<u8>)>>, p: int)
    requires
        0 <= p < pages.len(),
    ensures
        slots_in(pages.take(p)) + pages[p].len() <= slots_in(pages),
    decreases pages.len(),
{
    let prev = pages.drop_last();
    if p < pages.len() - 1 {
        lemma_slots_prefix(prev, p);
        assert(prev.take(p) =~= pages.take(p));
        assert(prev[p] == pages[p]);
        assert(slots_in(pages) == slots_in(prev) + pages.last().len());
    } else {
        assert(pages.take(p) =~= prev);
    }
}

/// Live row `k` of a heap is the row at the page and slot `row_place` gives.
proof fn lemma_row_at_place(pages: Seq<Seq<(bool, Seq<u8>)>>, k: int)
    requires
        0 <= k < heap_rows(pages).len(),
    ensures
        heap_rows(pages)[k] == (
            row_id_of(row_place(pages, k).0, row_place(pages, k).1),
            pages[row_place(pages, k).0][row_place(pages, k).1].1,
        ),
{
    lemma_row_place_is(pages, k);
    let p = row_place(pages, k).0;
    let s = row_place(pages, k).1;
    let slots = pages[p];
    lemma_heap_rows_prefix(pages, p);
    lemma_page_rows_prefix(p, slots, s + 1);
    lemma_slots_take_step(p, slots, s);
    let a = heap_rows(pages.take(p));
    let whole = page_rows(p, slots);
    let upto = page_rows(p, slots.take(s + 1));
    let j = page_rows(p, slots.take(s)).len() as int;
    assert(upto[j] == (row_id_of(p, s), slots[s].1));
    assert(whole[j] == upto[j]) by {
        assert(upto =~= whole.subrange(0, upto.len() as int));
    }
    let x = a + whole;
    assert(x[k] == whole[j]);
    assert(heap_rows(pages)[k] == x[k]) by {
        assert(x =~= heap_rows(pages).subrange(0, x.len() as int));
    }
}

/// Where a scan that stops on live row `k` stops: it has visited the pages up
/// to and including that row's page, and on that page the slots up to and
/// including the row's own; so `pages_visited` is the row's page number plus
/// one, and a scan stopped on an earlier page never counts the later ones.
/// This holds for heaps whose pages and slots a `RowId` can number.
pub proof fn scan_stop_position(pages: Seq<Seq<(bool, Seq<u8>)>>, k: int)
    requires
        0 <= k < heap_rows(pages).len(),
        pages.len() <= 65536,
        forall|p: int| 0 <= p < pages.len() ==> #[trigger] pages[p].len() <= 65536,
        slots_in(pages) <= usize::MAX,
    ensures
        scan_stats_at(pages, k).pages_visited == heap_rows(pages)[k].0.page_id.0 + 1,
        scan_stats_at(pages, k).pages_visited <= pages.len(),
        scan_stats_at(pages, k).slots_visited == slots_in(
            pages.take(heap_rows(pages)[k].0.page_id.0 as int),
        ) + heap_rows(pages)[k].0.slot_id.0 + 1,
        scan_stats_at(pages, k).live_records_seen == k + 1,
{
    lemma_row_place_is(pages, k);
    lemma_row_at_place(pages, k);
    let p = row_place(pages, k).0;
    let s = row_place(pages, k).1;
    lemma_slots_prefix(pages, p);
    scan_counts(pages, k);
    assert(pages[p].len() <= 65536);
    assert(row_id_of(p, s).slot_id.0 == s);
    assert(row_id_of(p, s).page_id.0 == p);
    lemma_heap_rows_len(pages.take(p));
    lemma_deleted_nonneg(pages.take(p));
    assert(0 <= slots_in(pages.take(p)) + s + 1 <= usize::MAX);
    assert(scan_stats_at(pages, k) == stop_stats(pages, k));
}

/// The counts of a scan of `pages` stopped after live row `k` (or run to the
/// end, when `k` is the number of live rows): it saw `k + 1` live rows (all of
/// them when it ran to the end), and the slots it visited are the live rows it
/// saw and the deleted slots it skipped. This holds for heaps whose slots a
/// `usize` counts.
pub proof fn scan_counts(pages: Seq<Seq<(bool, Seq<u8>)>>, k: int)
    requires
        0 <= k <= heap_rows(pages).len(),
        slots_in(pages) <= usize::MAX,
        pages.len() <= usize::MAX,
    ensures
        scan_stats_at(pages, k).live_records_seen == if k < heap_rows(pages).len() {
            k + 1
        } else {
            k
        },
        scan_stats_at(pages, k).slots_visited == scan_stats_at(pages, k).live_records_seen
            + scan_stats_at(pages, k).deleted_slots_skipped,
        scan_stats_at(pages, k).pages_visited <= pages.len(),
        k == heap_rows(pages).len() ==> scan_stats_at(pages, k) == full_scan_stats(pages),
{
    lemma_heap_rows_len(pages);
    lemma_deleted_nonneg(pages);
    if k < heap_rows(pages).len() {
        lemma_row_place_is(pages, k);
        let p = row_place(pages, k).0;
        let s = row_place(pages, k).1;
        lemma_heap_rows_len(pages.take(p));
        lemma_deleted_nonneg(pages.take(p));
        lemma_page_rows_len(p, pages[p].take(s));
        lemma_deleted_in_nonneg(pages[p].take(s));
        lemma_slots_prefix(pages, p);
    }
}

/// The statistics of a scan that stopped right after the live row `k` of `pages`.
pub open spec fn stop_stats(pages: Seq<Seq<(bool, Seq<u8>)>>, k: int) -> ScanStats {
    let p = row_place(pages, k).0;
    let s = row_place(pages, k).1;
    ScanStats {
        pages_visited: (p + 1) as usize,
        slots_visited: (slots_in(pages.take(p)) + s + 1) as usize,
        live_records_seen: (k + 1) as usize,
        deleted_slots_skipped: (deleted_slots_in(pages.take(p)) + deleted_in(pages[p].take(s))) as usize,
    }
}

/// A scan of `pages` handed the live rows `0..k` to `visitor`, which answered
/// `!stop_on` on each; then it either ran out of rows (`k` is the number of
/// rows), or the visitor answered `stop_on` on row `k`.
pub open spec fn visitor_stopped_at<'heap, F: FnMut(RowId, &'heap [u8]) -> bool>(
    pages: Seq<Seq<(bool, Seq<u8>)>>,
    visitor: F,
    stop_on: bool,
    k: int,
) -> bool {
    &&& 0 <= k <= heap_rows(pages).len()
    &&& forall|j: int| 0 <= j < k ==> answered(visitor, #[trigger] heap_rows(pages)[j], !stop_on)
    &&& k < heap_rows(pages).len() ==> answered(visitor, heap_rows(pages)[k], stop_on)
}

/// The statistics of a scan of `pages` that stopped after live row `k`, or of
/// the whole scan when `k` is the number of live rows.
pub open spec fn scan_stats_at(pages: Seq<Seq<(bool, Seq<u8>)>>, k: int) -> ScanStats {
    if k < heap_rows(pages).len() {
        stop_stats(pages, k)
    } else {
        full_scan_stats(pages)
    }
}

pub struct HeapFile {
    pages: Vec<Page>,
}

impl HeapFile {
    /// Every page is well formed, and the pages fit the address space.
    pub closed spec fn wf(&self) -> bool {
        &&& self.pages@.len() <= MAX_PAGES
        &&& forall|i: int| 0 <= i < self.pages@.len() ==> #[trigger] self.pages@[i].wf()
    }

    /// The free bytes of each page, by page index.
    pub closed spec fn frees(&self) -> Seq<int> {
        Seq::new(self.pages@.len(), |i: int| self.pages@[i].free_space_spec())
    }

    /// A well-formed heap has one free-space amount per page, and a page with
    /// `n` slots has at most `PAGE_SIZE - HEADER_SIZE - SLOT_SIZE * n` bytes
    /// free.
    pub proof fn lemma_frees(&self)
        requires
            self.wf(),
        ensures
            self.frees().len() == self@.len(),
            forall|i: int|
                0 <= i < self@.len() ==> 0 <= #[trigger] self.frees()[i] <= PAGE_SIZE - HEADER_SIZE
                    - SLOT_SIZE * self@[i].len(),
    {
        assert forall|i: int| 0 <= i < self@.len() implies 0 <= #[trigger] self.frees()[i]
            <= PAGE_SIZE - HEADER_SIZE - SLOT_SIZE * self@[i].len() by {
            assert(self.pages@[i].wf());
            self.pages@[i].lemma_wf();
        }
    }

    pub fn new() -> (heap: Self)
        ensures
            heap.wf(),
            heap@ == Seq::<Seq<(bool, Seq<u8>)>>::empty(),
            heap.frees() == Seq::<int>::empty(),
    {
        let heap = HeapFile { pages: Vec::new() };
        assert(heap@ =~= Seq::<Seq<(bool, Seq<u8>)>>::empty());
        assert(heap.frees() =~= Seq::<int>::empty());
        heap
    }

    /// Inserts a record into the first page with room for it and one more slot
    /// entry (`first_fit`); when no page has room, into a new page appended at
    /// the end. The row id numbers the page modulo 65536, the range of a
    /// `PageId`. A record too large even for an empty page gives
    /// `NotEnoughSpace` and no change.
    #[verifier::rlimit(30)]
    pub fn insert(&mut self, record: &[u8]) -> (r: Result<RowId, PageError>)
        requires
            old(self).wf(),
            first_fit(old(self).frees(), record@.len() + SLOT_SIZE) == old(self)@.len() ==> old(
                self,
            )@.len() < MAX_PAGES,
        ensures
            final(self).wf(),
            ({
                let need = record@.len() + SLOT_SIZE;
                let p = first_fit(old(self).frees(), need);
                if p < old(self)@.len() {
                    &&& need <= old(self).frees()[p]
                    &&& r == Ok::<RowId, PageError>(row_id_of(p, old(self)@[p].len() as int))
                    &&& final(self)@ == old(self)@.update(p, old(self)@[p].push((true, record@)))
                    &&& final(self).frees() == old(self).frees().update(p, old(self).frees()[p] - need)
                } else if need <= PAGE_SIZE - HEADER_SIZE {
                    &&& r == Ok::<RowId, PageError>(row_id_of(p, 0))
                    &&& final(self)@ == old(self)@.push(seq![(true, record@)])
                    &&& final(self).frees() == old(self).frees().push(PAGE_SIZE - HEADER_SIZE - need)
                } else {
                    &&& r == Err::<RowId, PageError>(PageError::NotEnoughSpace)
                    &&& *final(self) == *old(self)
                }
            }),
            (r is Err) == (record@.len() + SLOT_SIZE > PAGE_SIZE - HEADER_SIZE),
            0 <= first_fit(old(self).frees(), record@.len() + SLOT_SIZE) <= old(self)@.len(),
            forall|j: int|
                0 <= j < first_fit(old(self).frees(), record@.len() + SLOT_SIZE) ==> #[trigger] old(
                    self,
                ).frees()[j] < record@.len() + SLOT_SIZE,
    {
        proof {
            self.lemma_frees();
        }
        let n = self.pages.len();
        let mut page_index: usize = 0;
        while page_index < n
            invariant
                n == self.pages@.len(),
                self.wf(),
                *self == *old(self),
                page_index <= n,
                forall|j: int| 0 <= j < page_index ==> #[trigger] self.frees()[j] < record@.len()
                    + SLOT_SIZE,
            decreases n - page_index,
        {
            assert(self.pages@[page_index as int].wf());
            let free = self.pages[page_index].free_space();
            if record.len() <= free && SLOT_SIZE <= free - record.len() {
                proof {
                    self.pages@[page_index as int].lemma_wf();
                }
                let result = self.pages[page_index].insert(record);
                let slot_id = match result {
                    Ok(slot_id) => slot_id,
                    Err(error) => {
                        return Err(error);
                    },
                };
                proof {
                    assert forall|i: int| 0 <= i < self.pages@.len() implies #[trigger] self.pages@[
                        i
                    ].wf() by {
                        if i != page_index {
                            assert(old(self).pages@[i].wf());
                        }
                    }
                    assert(self@ =~= old(self)@.update(
                        page_index as int,
                        old(self)@[page_index as int].push((true, record@)),
                    ));
                    assert(self.frees() =~= old(self).frees().update(
                        page_index as int,
                        old(self).frees()[page_index as int] - record@.len() - SLOT_SIZE,
                    ));
                    lemma_first_fit_is(old(self).frees(), record@.len() + SLOT_SIZE, page_index as int);
                }
                return Ok(RowId { page_id: PageId(page_index as u16), slot_id });
            }
            page_index += 1;
        }
        proof {
            lemma_first_fit_is(old(self).frees(), record@.len() + SLOT_SIZE, n as int);
        }
        let mut page = Page::new();
        let slot_id = match page.insert(record) {
            Ok(slot_id) => slot_id,
            Err(error) => {
                return Err(error);
            },
        };
        self.pages.push(page);
        proof {
            assert forall|i: int| 0 <= i < self.pages@.len() implies #[trigger] self.pages@[
                i
            ].wf() by {
                if i < n {
                    assert(old(self).pages@[i].wf());
                }
            }
            assert(page@ =~= seq![(true, record@)]);
            assert(self@ =~= old(self)@.push(seq![(true, record@)]));
            assert(self.frees() =~= old(self).frees().push(
                PAGE_SIZE - HEADER_SIZE - record@.len() - SLOT_SIZE,
            ));
        }
        Ok(RowId { page_id: PageId((self.pages.len() - 1) as u16), slot_id })
    }

    /// The bytes of a row: `InvalidSlot` for a page or slot past the end,
    /// `DeletedSlot` for a deleted row.
    pub fn get(&self, row_id: RowId) -> (r: Result<&[u8], PageError>)
        requires
            self.wf(),
        ensures
            match r {
                Ok(bytes) => heap_lookup(self@, row_id) == Ok::<Seq<u8>, PageError>(bytes@),
                Err(e) => heap_lookup(self@, row_id) == Err::<Seq<u8>, PageError>(e),
            },
    {
        let page_index = row_id.page_id.0 as usize;
        if page_index >= self.pages.len() {
            return Err(PageError::InvalidSlot);
        }
        assert(self.pages@[page_index as int].wf());
        self.pages[page_index].get(row_id.slot_id)
    }

    /// Marks a row deleted: `InvalidSlot` for a page or slot past the end and
    /// `DeletedSlot` for a deleted row, with the heap unchanged.
    pub fn delete(&mut self, row_id: RowId) -> (r: Result<(), PageError>)
        requires
            old(self).wf(),
        ensures
            final(self).wf(),
            final(self).frees() == old(self).frees(),
            match heap_delete(old(self)@, row_id) {
                Ok(pages) => r == Ok::<(), PageError>(()) && final(self)@ == pages,
                Err(e) => r == Err::<(), PageError>(e) && final(self)@ == old(self)@,
            },
    {
        let page_index = row_id.page_id.0 as usize;
        if page_index >= self.pages.len() {
            return Err(PageError::InvalidSlot);
        }
        assert(self.pages@[page_index as int].wf());
        let result = self.pages[page_index].delete(row_id.slot_id);
        proof {
            assert forall|i: int| 0 <= i < self.pages@.len() implies #[trigger] self.pages@[
                i
            ].wf() by {
                if i != page_index {
                    assert(old(self).pages@[i].wf());
                }
            }
            assert(self.frees() =~= old(self).frees());
            assert(self@ =~= old(self)@.update(page_index as int, self.pages@[page_index as int]@));
        }
        result
    }

    /// Visits every slot of every page in order and collects the live rows.
    /// Returns them with the scan's counts: pages and slots visited, live
    /// records seen, deleted slots skipped.
    #[verifier::rlimit(30)]
    pub fn scan(&self) -> (r: Result<HeapScanResult<'_>, PageError>)
        requires
            self.wf(),
        ensures
            match r {
                Ok(result) => {
                    &&& items_view(result.items@) == heap_rows(self@)
                    &&& result.stats == full_scan_stats(self@)
                },
                Err(_) => false,
            },
    {
        let mut stats = ScanStats {
            pages_visited: 0,
            slots_visited: 0,
            live_records_seen: 0,
            deleted_slots_skipped: 0,
        };
        let mut items: Vec<HeapScanItem<'_>> = Vec::new();
        let n = self.pages.len();
        let mut page_index: usize = 0;
        assert(self@.take(0) =~= Seq::<Seq<(bool, Seq<u8>)>>::empty());
        assert(items_view(items@) =~= Seq::<(RowId, Seq<u8>)>::empty());
        while page_index < n
            invariant
                self.wf(),
                n == self.pages@.len(),
                n == self@.len(),
                n <= MAX_PAGES,
                page_index <= n,
                items_view(items@) == heap_rows(self@.take(page_index as int)),
                stats.pages_visited == page_index,
                stats.slots_visited == slots_in(self@.take(page_index as int)),
                stats.deleted_slots_skipped == deleted_slots_in(self@.take(page_index as int)),
                stats.live_records_seen == items@.len(),
                stats.slots_visited <= 818 * page_index,
            decreases n - page_index,
        {
            let page = &self.pages[page_index];
            assert(page.wf());
            proof {
                page.lemma_wf();
                lemma_pages_take_step(self@, page_index as int);
                lemma_heap_rows_len(self@.take(page_index as int));
            }
            stats.pages_visited += 1;
            let count = page.slot_count();
            let mut slot_num: u16 = 0;
            assert(page@.take(0) =~= Seq::<(bool, Seq<u8>)>::empty());
            assert(heap_rows(self@.take(page_index as int)) + page_rows(page_index as int, page@.take(0))
                =~= heap_rows(self@.take(page_index as int)));
            while slot_num < count
                invariant
                    page.wf(),
                    page@ == self@[page_index as int],
                    count == page@.len(),
                    count <= 818,
                    slot_num <= count,
                    page_index < n,
                    n <= MAX_PAGES,
                    items_view(items@) == heap_rows(self@.take(page_index as int)) + page_rows(
                        page_index as int,
                        page@.take(slot_num as int),
                    ),
                    stats.pages_visited == page_index + 1,
                    stats.slots_visited == slots_in(self@.take(page_index as int)) + slot_num,
                    stats.deleted_slots_skipped == deleted_slots_in(self@.take(page_index as int))
                        + deleted_in(page@.take(slot_num as int)),
                    stats.live_records_seen == items@.len(),
                    slots_in(self@.take(page_index as int)) <= 818 * page_index,
                    heap_rows(self@.take(page_index as int)).len() + deleted_slots_in(
                        self@.take(page_index as int),
                    ) == slots_in(self@.take(page_index as int)),
                decreases count - slot_num,
            {
                proof {
                    lemma_slots_take_step(page_index as int, page@, slot_num as int);
                    lemma_page_rows_len(page_index as int, page@.take(slot_num as int));
                }
                stats.slots_visited += 1;
                let slot_id = SlotId(slot_num);
                let row_id = RowId { page_id: PageId(page_index as u16), slot_id };
                match page.get(slot_id) {
                    Ok(record) => {
                        assert(items_view(items@).len() == items@.len());
                        assert(stats.live_records_seen <= 818 * page_index + slot_num);
                        stats.live_records_seen += 1;
                        let ghost before = items@;
                        items.push(HeapScanItem { row_id, record });
                        assert(items_view(items@) =~= items_view(before).push(
                            (row_id, record@),
                        ));
                    },
                    Err(PageError::DeletedSlot) => {
                        stats.deleted_slots_skipped += 1;
                    },
                    Err(error) => {
                        return Err(error);
                    },
                }
                slot_num += 1;
                assert(page@.take(slot_num as int).drop_last() =~= page@.take(slot_num - 1));
            }
            assert(page@.take(count as int) =~= page@);
            page_index += 1;
        }
        assert(self@.take(n as int) =~= self@);
        Ok(HeapScanResult { items, stats })
    }

    /// Visits the live rows in scan order, handing each to `visitor` until it
    /// answers `stop_on`. Returns the counts of the scan up to where it stopped
    /// (every slot, or the slots up to and including the row on which the
    /// visitor answered `stop_on`) and that row, if any.
    #[verifier::rlimit(40)]
    pub fn scan_until<'heap, F>(&'heap self, visitor: F, stop_on: bool) -> (r: Result<
        (ScanStats, Option<HeapScanItem<'heap>>),
        PageError,
    >)
        where
            F: FnMut(RowId, &'heap [u8]) -> bool,
        requires
            self.wf(),
            forall|row: RowId, bytes: &'heap [u8]| call_requires(visitor, (row, bytes)),
        ensures
            r is Ok,
            exists|k: int| #[trigger]
                visitor_stopped_at(self@, visitor, stop_on, k) && {
                    &&& r->Ok_0.0 == scan_stats_at(self@, k)
                    &&& k < heap_rows(self@).len() ==> (r->Ok_0.1 matches Some(item) && (
                    item.row_id, item.record@) == heap_rows(self@)[k])
                    &&& k == heap_rows(self@).len() ==> r->Ok_0.1 is None
                },
    {
        let mut stats = ScanStats {
            pages_visited: 0,
            slots_visited: 0,
            live_records_seen: 0,
            deleted_slots_skipped: 0,
        };
        let ghost pages = self@;
        let mut visit = visitor;
        let ghost mut seen: Seq<(RowId, Seq<u8>)> = Seq::empty();
        let n = self.pages.len();
        let mut page_index: usize = 0;
        assert(pages.take(0) =~= Seq::<Seq<(bool, Seq<u8>)>>::empty());
        while page_index < n
            invariant
                self.wf(),
                pages == self@,
                visit == visitor,
                forall|row: RowId, bytes: &'heap [u8]| call_requires(visitor, (row, bytes)),
                n == self.pages@.len(),
                n == pages.len(),
                n <= MAX_PAGES,
                page_index <= n,
                seen == heap_rows(pages.take(page_index as int)),
                forall|j: int| 0 <= j < seen.len() ==> answered(visitor, #[trigger] seen[j], !stop_on),
                stats.pages_visited == page_index,
                stats.slots_visited == slots_in(pages.take(page_index as int)),
                stats.deleted_slots_skipped == deleted_slots_in(pages.take(page_index as int)),
                stats.live_records_seen == seen.len(),
                stats.slots_visited <= 818 * page_index,
            decreases n - page_index,
        {
            let page = &self.pages[page_index];
            assert(page.wf());
            proof {
                page.lemma_wf();
                lemma_pages_take_step(pages, page_index as int);
                lemma_heap_rows_len(pages.take(page_index as int));
                lemma_heap_rows_prefix(pages, page_index as int);
            }
            stats.pages_visited += 1;
            let count = page.slot_count();
            let mut slot_num: u16 = 0;
            let ghost before = seen;
            assert(page@.take(0) =~= Seq::<(bool, Seq<u8>)>::empty());
            assert(before + page_rows(page_index as int, page@.take(0)) =~= before);
            while slot_num < count
                invariant
                    page.wf(),
                    page@ == pages[page_index as int],
                    pages == self@,
                    visit == visitor,
                    forall|row: RowId, bytes: &'heap [u8]| call_requires(visitor, (row, bytes)),
                    count == page@.len(),
                    count <= 818,
                    slot_num <= count,
                    page_index < n,
                    n == pages.len(),
                    n <= MAX_PAGES,
                    before == heap_rows(pages.take(page_index as int)),
                    (before + page_rows(page_index as int, page@)).is_prefix_of(heap_rows(pages)),
                    seen == before + page_rows(page_index as int, page@.take(slot_num as int)),
                    forall|j: int| 0 <= j < seen.len() ==> answered(visitor, #[trigger] seen[j], !stop_on),
                    stats.pages_visited == page_index + 1,
                    stats.slots_visited == slots_in(pages.take(page_index as int)) + slot_num,
                    stats.deleted_slots_skipped == deleted_slots_in(pages.take(page_index as int))
                        + deleted_in(page@.take(slot_num as int)),
                    stats.live_records_seen == seen.len(),
                    slots_in(pages.take(page_index as int)) <= 818 * page_index,
                    before.len() + deleted_slots_in(pages.take(page_index as int)) == slots_in(
                        pages.take(page_index as int),
                    ),
                decreases count - slot_num,
            {
                proof {
                    lemma_slots_take_step(page_index as int, page@, slot_num as int);
                    lemma_page_rows_len(page_index as int, page@.take(slot_num as int));
                }
                stats.slots_visited += 1;
                let slot_id = SlotId(slot_num);
                let row_id = RowId { page_id: PageId(page_index as u16), slot_id };
                match page.get(slot_id) {
                    Ok(record) => {
                        assert(stats.live_records_seen <= 818 * page_index + slot_num);
                        stats.live_records_seen += 1;
                        let should_continue = visit(row_id, record);
                        proof {
                            let row = (row_id, record@);
                            assert(call_ensures(visitor, (row_id, record), should_continue));
                            assert(visit == visitor);
                            assert(call_ensures(visitor, (row.0, record), should_continue));
                            assert(answered(visitor, row, should_continue));
                            let next = seen.push(row);
                            let k = seen.len() as int;
                            lemma_page_rows_prefix(page_index as int, page@, slot_num + 1);
                            let b = page_rows(page_index as int, page@.take(slot_num + 1));
                            assert(b == page_rows(page_index as int, page@.take(slot_num as int)).push(row));
                            assert(next =~= before + b);
                            assert((before + b).is_prefix_of(before + page_rows(page_index as int, page@))) by {
                                let whole = page_rows(page_index as int, page@);
                                assert(b =~= whole.subrange(0, b.len() as int));
                                assert((before + b) =~= (before + whole).subrange(0, (before + b).len() as int));
                            }
                            lemma_prefix_trans(next, before + page_rows(page_index as int, page@), heap_rows(pages));
                            assert(heap_rows(pages)[k] == next[k]);
                            assert forall|j: int| 0 <= j < k implies heap_rows(pages)[j] == seen[j] by {
                                assert(heap_rows(pages)[j] == next[j]);
                            }
                            seen = next;
                        }
                        if should_continue == stop_on {
                            proof {
                                let k = seen.len() - 1;
                                let j = page_rows(page_index as int, page@.take(slot_num as int)).len() as int;
                                lemma_live_slot(page_index as int, page@, slot_num as int);
                                lemma_page_rows_prefix(page_index as int, page@, slot_num + 1);
                                lemma_row_place(pages, page_index as int, j);
                                assert(row_place(pages, k) == (page_index as int, slot_num as int));
                                assert forall|j: int| 0 <= j < k implies answered(visitor, #[trigger] heap_rows(pages)[j], !stop_on) by {
                                    assert(heap_rows(pages)[j] == seen[j]);
                                }
                                assert(stats == stop_stats(pages, k));
                                assert(visitor_stopped_at(pages, visitor, stop_on, k));
                                assert(heap_rows(pages)[k] == (row_id, record@));
                            }
                            return Ok((stats, Some(HeapScanItem { row_id, record })));
                        }
                    },
                    Err(PageError::DeletedSlot) => {
                        stats.deleted_slots_skipped += 1;
                    },
                    Err(error) => {
                        return Err(error);
                    },
                }
                slot_num += 1;
                assert(page@.take(slot_num as int).drop_last() =~= page@.take(slot_num - 1));
            }
            assert(page@.take(count as int) =~= page@);
            page_index += 1;
        }
        proof {
            assert(pages.take(n as int) =~= pages);
            let k = seen.len() as int;
            assert forall|j: int| 0 <= j < k implies answered(visitor, #[trigger] heap_rows(pages)[j], !stop_on) by {
                assert(heap_rows(pages)[j] == seen[j]);
            }
            assert(visitor_stopped_at(pages, visitor, stop_on, k));
        }
        Ok((stats, None))
    }

    /// Visits the live rows in scan order, handing each to `visitor` until it
    /// returns `false`. Returns the counts of the scan up to where it stopped:
    /// either every slot, or the slots up to and including the row on which
    /// the visitor returned `false`.
    pub fn scan_with<'heap, F>(&'heap self, visitor: F) -> (r: Result<ScanStats, PageError>)
        where
            F: FnMut(RowId, &'heap [u8]) -> bool,
        requires
            self.wf(),
            forall|row: RowId, bytes: &'heap [u8]| call_requires(visitor, (row, bytes)),
        ensures
            r is Ok,
            exists|k: int| #[trigger]
                visitor_stopped_at(self@, visitor, false, k) && r->Ok_0 == scan_stats_at(self@, k),
    {
        match self.scan_until(visitor, false) {
            Ok((stats, _)) => Ok(stats),
            Err(error) => Err(error),
        }
    }

    /// Bounds that every well-formed heap satisfies: each page holds at most
    /// 818 slots, so all counts of a scan fit well inside a `usize`.
    pub proof fn lemma_bounds(&self)
        requires
            self.wf(),
        ensures
            self@.len() <= MAX_PAGES,
            heap_rows(self@).len() + deleted_slots_in(self@) == slots_in(self@),
            slots_in(self@) <= 818 * self@.len(),
            heap_rows(self@).len() <= 818 * MAX_PAGES,
            forall|i: int| 0 <= i < self@.len() ==> #[trigger] self@[i].len() <= 818,
            slots_in(self@) <= usize::MAX,
    {
        let n = self@.len() as int;
        assert(4096 * n <= usize::MAX) by (nonlinear_arith)
            requires
                0 <= n <= usize::MAX / 4096,
        ;
        assert forall|i: int| 0 <= i < self@.len() implies #[trigger] self@[i].len() <= 818 by {
            assert(self.pages@[i].wf());
            self.pages@[i].lemma_wf();
        }
        lemma_slots_bound(self@);
        lemma_heap_rows_len(self@);
        lemma_deleted_nonneg(self@);
    }

    /// The pages, in page-id order.
    pub fn pages(&self) -> (r: &[Page])
        requires
            self.wf(),
        ensures
            r@.len() == self@.len(),
            forall|i: int| 0 <= i < r@.len() ==> #[trigger] r@[i]@ == self@[i] && r@[i].wf(),
    {
        self.pages.as_slice()
    }

    /// The number of pages.
    pub fn page_count(&self) -> (r: usize)
        ensures
            r == self@.len(),
    {
        self.pages.len()
    }
}

impl View for HeapFile {
    type V = Seq<Seq<(bool, Seq<u8>)>>;

    /// The slots of each page, by page index.
    closed spec fn view(&self) -> Seq<Seq<(bool, Seq<u8>)>> {
        Seq::new(self.pages@.len(), |i: int| self.pages@[i]@)
    }
}

impl Default for HeapFile {
    fn default() -> (heap: Self)
        ensures
            heap.wf(),
            heap@ == Seq::<Seq<(bool, Seq<u8>)>>::empty(),
    {
        Self::new()
    }
}

} // verus!
