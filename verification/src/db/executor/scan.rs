//! Sequential scans that look for the first row a predicate accepts.
use vstd::prelude::*;

use crate::db::storage::heap::{
    heap_rows, items_view, scan_counts, scan_stats_at, visitor_stopped_at, full_scan_stats, HeapFile,
    HeapScanItem, RowId, ScanStats,
};
use crate::db::record::{decode_record_spec, decode_user_record, UserRecord};
use crate::db::storage::page::PageError;

verus! {

#[derive(Debug, Clone, Copy, PartialEq, Eq)]
pub struct SeqScanMatch<'heap> {
    pub row_id: RowId,
    pub record: &'heap [u8],
}

#[derive(Debug, Clone, PartialEq, Eq)]
pub struct SeqScanReport<'heap> {
    pub found: Option<SeqScanMatch<'heap>>,
    pub stats: ScanStats,
    pub records_checked_by_predicate: usize,
}

/// The report of a search of `pages` that handed the live rows `0..k` to the
/// predicate and either stopped on row `k` (found) or ran out of rows.
pub open spec fn report_found_at<'heap>(
    pages: Seq<Seq<(bool, Seq<u8>)>>,
    report: SeqScanReport<'heap>,
    k: int,
) -> bool {
    &&& k < heap_rows(pages).len() ==> {
        &&& report.found matches Some(m) && (m.row_id, m.record@) == heap_rows(pages)[k]
        &&& report.records_checked_by_predicate == k + 1
    }
    &&& k == heap_rows(pages).len() ==> {
        &&& report.found is None
        &&& report.records_checked_by_predicate == k
    }
}

/// The first accepted row is unique: for a predicate whose answer depends only
/// on the row id and the record's bytes, two scans that stop at the first
/// accepted row (or run out of rows) stop at the same place. So the
/// materializing and the streaming search report the same row and the same
/// number of predicate checks.
pub proof fn first_match_is_unique<'heap, F: FnMut(RowId, &'heap [u8]) -> bool>(
    pages: Seq<Seq<(bool, Seq<u8>)>>,
    predicate: F,
    k1: int,
    k2: int,
)
    requires
        visitor_stopped_at(pages, predicate, true, k1),
        visitor_stopped_at(pages, predicate, true, k2),
        forall|row: RowId, a: &'heap [u8], b: &'heap [u8], x: bool, y: bool|
            a@ == b@ && #[trigger] call_ensures(predicate, (row, a), x) && #[trigger] call_ensures(
                predicate,
                (row, b),
                y,
            ) ==> x == y,
    ensures
        k1 == k2,
{
    if k1 < k2 {
        let row = heap_rows(pages)[k1];
        assert(crate::db::storage::heap::answered(predicate, row, false));
        assert(crate::db::storage::heap::answered(predicate, row, true));
        let a = choose|bytes: &'heap [u8]| bytes@ == row.1 && #[trigger] call_ensures(predicate, (row.0, bytes), true);
        let b = choose|bytes: &'heap [u8]| bytes@ == row.1 && #[trigger] call_ensures(predicate, (row.0, bytes), false);
        assert(call_ensures(predicate, (row.0, a), true));
        assert(call_ensures(predicate, (row.0, b), false));
    } else if k2 < k1 {
        let row = heap_rows(pages)[k2];
        assert(crate::db::storage::heap::answered(predicate, row, false));
        assert(crate::db::storage::heap::answered(predicate, row, true));
        let a = choose|bytes: &'heap [u8]| bytes@ == row.1 && #[trigger] call_ensures(predicate, (row.0, bytes), true);
        let b = choose|bytes: &'heap [u8]| bytes@ == row.1 && #[trigger] call_ensures(predicate, (row.0, bytes), false);
        assert(call_ensures(predicate, (row.0, a), true));
        assert(call_ensures(predicate, (row.0, b), false));
    }
}

/// The materializing and the streaming search agree: given the reports
/// `materialized` and `streamed` that they return on the same heap, for a
/// predicate whose answer depends only on the row id and the record's bytes,
/// both find the same row (or none) after the same number of predicate checks.
/// The streaming search saw exactly the live records it checked, and its
/// slots are those records plus the deleted slots it skipped; when nothing
/// matched, both report the full scan's counts.
pub proof fn scans_agree<'heap, F: FnMut(RowId, &'heap [u8]) -> bool>(
    heap: HeapFile,
    predicate: F,
    materialized: SeqScanReport<'heap>,
    streamed: SeqScanReport<'heap>,
)
    requires
        heap.wf(),
        forall|row: RowId, a: &'heap [u8], b: &'heap [u8], x: bool, y: bool|
            a@ == b@ && #[trigger] call_ensures(predicate, (row, a), x) && #[trigger] call_ensures(
                predicate,
                (row, b),
                y,
            ) ==> x == y,
        exists|k: int| #[trigger]
            visitor_stopped_at(heap@, predicate, true, k) && {
                &&& report_found_at(heap@, materialized, k)
                &&& materialized.stats == full_scan_stats(heap@)
            },
        exists|k: int| #[trigger]
            visitor_stopped_at(heap@, predicate, true, k) && {
                &&& report_found_at(heap@, streamed, k)
                &&& streamed.stats == scan_stats_at(heap@, k)
            },
    ensures
        streamed.found is None <==> materialized.found is None,
        streamed.found matches Some(a) ==> (materialized.found matches Some(b) && a.row_id
            == b.row_id && a.record@ == b.record@),
        streamed.records_checked_by_predicate == materialized.records_checked_by_predicate,
        streamed.stats.live_records_seen == streamed.records_checked_by_predicate,
        streamed.stats.slots_visited == streamed.stats.live_records_seen
            + streamed.stats.deleted_slots_skipped,
        streamed.found is None ==> streamed.stats == materialized.stats,
{
    let k1 = choose|k: int| #[trigger]
        visitor_stopped_at(heap@, predicate, true, k) && {
            &&& report_found_at(heap@, materialized, k)
            &&& materialized.stats == full_scan_stats(heap@)
        };
    let k2 = choose|k: int| #[trigger]
        visitor_stopped_at(heap@, predicate, true, k) && {
            &&& report_found_at(heap@, streamed, k)
            &&& streamed.stats == scan_stats_at(heap@, k)
        };
    first_match_is_unique(heap@, predicate, k1, k2);
    heap.lemma_bounds();
    scan_counts(heap@, k2);
}

/// Materializes a full heap scan, then hands its live rows in order to
/// `predicate` until it returns `true`. Reports that row (if any), the full
/// scan's counts and how many rows the predicate was asked about.
pub fn seq_scan_first_match<'heap, F>(heap: &'heap HeapFile, predicate: F) -> (r: Result<
    SeqScanReport<'heap>,
    PageError,
>)
    where
        F: FnMut(RowId, &[u8]) -> bool,
    requires
        heap.wf(),
        forall|row: RowId, bytes: &'heap [u8]| call_requires(predicate, (row, bytes)),
    ensures
        r is Ok,
        exists|k: int| #[trigger]
            visitor_stopped_at(heap@, predicate, true, k) && {
                &&& report_found_at(heap@, r->Ok_0, k)
                &&& r->Ok_0.stats == full_scan_stats(heap@)
            },
{
    let scan = match heap.scan() {
        Ok(scan) => scan,
        Err(error) => {
            return Err(error);
        },
    };
    proof {
        heap.lemma_bounds();
    }
    let ghost rows = heap_rows(heap@);
    let mut check = predicate;
    let mut records_checked_by_predicate: usize = 0;
    let n = scan.items.len();
    let mut i: usize = 0;
    while i < n
        invariant
            n == scan.items@.len(),
            items_view(scan.items@) == rows,
            rows == heap_rows(heap@),
            scan.stats == full_scan_stats(heap@),
            check == predicate,
            forall|row: RowId, bytes: &'heap [u8]| call_requires(predicate, (row, bytes)),
            i <= n,
            records_checked_by_predicate == i,
            forall|j: int| 0 <= j < i ==> crate::db::storage::heap::answered(
                predicate,
                #[trigger] rows[j],
                false,
            ),
        decreases n - i,
    {
        let item: HeapScanItem<'heap> = scan.items[i];
        assert(items_view(scan.items@)[i as int] == (item.row_id, item.record@));
        records_checked_by_predicate += 1;
        let accepted = check(item.row_id, item.record);
        proof {
            assert(call_ensures(predicate, (item.row_id, item.record), accepted));
            assert(call_ensures(predicate, (rows[i as int].0, item.record), accepted));
            assert(crate::db::storage::heap::answered(predicate, rows[i as int], accepted));
        }
        if accepted {
            let report = SeqScanReport {
                found: Some(SeqScanMatch { row_id: item.row_id, record: item.record }),
                stats: scan.stats,
                records_checked_by_predicate,
            };
            assert(visitor_stopped_at(heap@, predicate, true, i as int));
            assert(report_found_at(heap@, report, i as int));
            return Ok(report);
        }
        i += 1;
    }
    let report = SeqScanReport { found: None, stats: scan.stats, records_checked_by_predicate };
    assert(visitor_stopped_at(heap@, predicate, true, n as int));
    assert(report_found_at(heap@, report, n as int));
    Ok(report)
}

/// Like `seq_scan_first_match`, but without materializing the scan: hands the
/// live rows to `predicate` as the scan reaches them and stops at the first
/// one it accepts. The counts are those of the scan up to that row.
pub fn seq_scan_first_match_streaming<'heap, F>(heap: &'heap HeapFile, predicate: F) -> (r:
    Result<SeqScanReport<'heap>, PageError>)
    where
        F: FnMut(RowId, &[u8]) -> bool,
    requires
        heap.wf(),
        forall|row: RowId, bytes: &'heap [u8]| call_requires(predicate, (row, bytes)),
    ensures
        r is Ok,
        exists|k: int| #[trigger]
            visitor_stopped_at(heap@, predicate, true, k) && {
                &&& report_found_at(heap@, r->Ok_0, k)
                &&& r->Ok_0.stats == scan_stats_at(heap@, k)
            },
{
    proof {
        heap.lemma_bounds();
    }
    let (stats, stop) = match heap.scan_until(predicate, true) {
        Ok(outcome) => outcome,
        Err(error) => {
            return Err(error);
        },
    };
    let found = match stop {
        Some(item) => Some(SeqScanMatch { row_id: item.row_id, record: item.record }),
        None => None,
    };
    let report = SeqScanReport {
        found,
        stats,
        records_checked_by_predicate: stats.live_records_seen,
    };
    proof {
        let k = choose|k: int|
            #[trigger] visitor_stopped_at(heap@, predicate, true, k) && {
                &&& stats == scan_stats_at(heap@, k)
                &&& k < heap_rows(heap@).len() ==> (stop matches Some(item) && (
                item.row_id, item.record@) == heap_rows(heap@)[k])
                &&& k == heap_rows(heap@).len() ==> stop is None
            };
        assert(report_found_at(heap@, report, k));
    }
    Ok(report)
}

/// The record `bytes` decodes, and its id is not `target`.
pub open spec fn decodes_to_other(bytes: Seq<u8>, target: u64) -> bool {
    match decode_record_spec(bytes) {
        Ok(rec) => rec.0 != target,
        Err(_) => false,
    }
}

/// The position of the first of `items` whose record does not decode, or
/// decodes to id `target`; the number of items when there is none.
pub open spec fn decode_stop<'heap>(items: Seq<HeapScanItem<'heap>>, target: u64) -> int
    decreases items.len(),
{
    if items.len() == 0 {
        0
    } else {
        match decode_record_spec(items[0].record@) {
            Ok(rec) => if rec.0 == target {
                0
            } else {
                1 + decode_stop(items.drop_first(), target)
            },
            Err(_) => 0,
        }
    }
}

/// `decode_stop` is the first position that stops the search.
proof fn lemma_decode_stop_is<'heap>(items: Seq<HeapScanItem<'heap>>, target: u64, k: int)
    requires
        0 <= k <= items.len(),
        forall|j: int| 0 <= j < k ==> #[trigger] decodes_to_other(items[j].record@, target),
        k < items.len() ==> !decodes_to_other(items[k].record@, target),
    ensures
        decode_stop(items, target) == k,
    decreases items.len(),
{
    if items.len() > 0 && k > 0 {
        let rest = items.drop_first();
        assert(decodes_to_other(items[0].record@, target));
        assert forall|j: int| 0 <= j < k - 1 implies #[trigger] decodes_to_other(
            rest[j].record@,
            target,
        ) by {
            assert(rest[j] == items[j + 1]);
        }
        if k < items.len() {
            assert(rest[k - 1] == items[k]);
        }
        lemma_decode_stop_is(rest, target, k - 1);
    }
}

/// Looks for the record with id `target_id` among materialized scan items,
/// decoding them in order until one has it. Returns that item's row id and
/// record, with the number of records decoded; `None` and the number of items
/// when none has it; or the error of the first record that does not decode.
pub fn find_by_id_in_items<'heap>(items: &[HeapScanItem<'heap>], target_id: u64) -> (r: Result<
    (Option<(RowId, UserRecord)>, usize),
    PageError,
>)
    ensures
        ({
            let k = decode_stop(items@, target_id);
            &&& k == items@.len() ==> r == Ok::<(Option<(RowId, UserRecord)>, usize), PageError>(
                (None, k as usize),
            )
            &&& k < items@.len() ==> match decode_record_spec(items@[k].record@) {
                Ok(rec) => r matches Ok((Some((row, record)), n)) && row == items@[k].row_id
                    && record@ == rec && n == k + 1,
                Err(e) => r == Err::<(Option<(RowId, UserRecord)>, usize), PageError>(e),
            }
        }),
{
    let n = items.len();
    let mut i: usize = 0;
    while i < n
        invariant
            n == items@.len(),
            i <= n,
            forall|j: int| 0 <= j < i ==> #[trigger] decodes_to_other(items@[j].record@, target_id),
        decreases n - i,
    {
        let item = items[i];
        match decode_user_record(item.record) {
            Ok(record) => {
                if record.id == target_id {
                    proof {
                        lemma_decode_stop_is(items@, target_id, i as int);
                    }
                    return Ok((Some((item.row_id, record)), i + 1));
                }
            },
            Err(error) => {
                proof {
                    lemma_decode_stop_is(items@, target_id, i as int);
                }
                return Err(error);
            },
        }
        i += 1;
    }
    proof {
        lemma_decode_stop_is(items@, target_id, n as int);
    }
    Ok((None, n))
}

} // verus!
