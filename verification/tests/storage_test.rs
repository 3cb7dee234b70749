use hack_rs::db::executor::scan::{
    find_by_id_in_items, seq_scan_first_match, seq_scan_first_match_streaming,
};
use hack_rs::db::record::{decode_user_record, encode_user_record, UserRecord};
use hack_rs::db::report::{format_bytes, format_key_sample, sample_indexes, truncate};
use hack_rs::db::storage::heap::{HeapFile, HeapScanItem, PageId, RowId};
use hack_rs::db::storage::page::{
    Page, PageError, SlotEntry, SlotId, HEADER_SIZE, PAGE_SIZE, SLOT_DELETED, SLOT_OCCUPIED, SLOT_SIZE,
};

#[test]
fn page_insert_get_delete() {
    let mut page = Page::new();
    assert_eq!(page.free_space(), PAGE_SIZE - HEADER_SIZE);
    let a = page.insert(b"hello").unwrap();
    let b = page.insert(b"world!").unwrap();
    assert_eq!(a, SlotId(0));
    assert_eq!(b, SlotId(1));
    assert_eq!(page.slot_count(), 2);
    assert_eq!(page.free_start() as usize, HEADER_SIZE + 2 * SLOT_SIZE);
    assert_eq!(page.free_end() as usize, PAGE_SIZE - 11);
    assert_eq!(page.get(a).unwrap(), b"hello");
    assert_eq!(page.get(b).unwrap(), b"world!");
    assert_eq!(page.get(SlotId(2)), Err(PageError::InvalidSlot));
    assert_eq!(page.delete(a), Ok(()));
    assert_eq!(page.get(a), Err(PageError::DeletedSlot));
    assert_eq!(page.delete(a), Err(PageError::DeletedSlot));
    assert_eq!(page.delete(SlotId(9)), Err(PageError::InvalidSlot));
    assert_eq!(page.get(b).unwrap(), b"world!");
}

#[test]
fn page_refuses_records_that_do_not_fit() {
    let mut page = Page::new();
    let big = vec![7u8; PAGE_SIZE - HEADER_SIZE - SLOT_SIZE];
    assert_eq!(page.insert(&big), Ok(SlotId(0)));
    assert_eq!(page.free_space(), 0);
    assert_eq!(page.insert(b""), Err(PageError::NotEnoughSpace));
    let mut other = Page::new();
    let too_big = vec![7u8; PAGE_SIZE - HEADER_SIZE - SLOT_SIZE + 1];
    assert_eq!(other.insert(&too_big), Err(PageError::NotEnoughSpace));
    assert_eq!(other.slot_count(), 0);
}

#[test]
fn heap_spills_to_new_pages_and_reuses_free_space() {
    let mut heap = HeapFile::new();
    let big = vec![1u8; 3000];
    let first = heap.insert(&big).unwrap();
    let second = heap.insert(&big).unwrap();
    let small = heap.insert(b"tiny").unwrap();
    assert_eq!(first, RowId { page_id: PageId(0), slot_id: SlotId(0) });
    assert_eq!(second, RowId { page_id: PageId(1), slot_id: SlotId(0) });
    assert_eq!(small, RowId { page_id: PageId(0), slot_id: SlotId(1) });
    assert_eq!(heap.page_count(), 2);
    assert_eq!(heap.get(RowId { page_id: PageId(5), slot_id: SlotId(0) }), Err(PageError::InvalidSlot));
    assert_eq!(heap.insert(&vec![0u8; PAGE_SIZE]), Err(PageError::NotEnoughSpace));
    assert_eq!(heap.page_count(), 2);
}

#[test]
fn heap_scan_reports_live_rows_and_counts() {
    let mut heap = HeapFile::new();
    let r0 = heap.insert(b"a").unwrap();
    let r1 = heap.insert(b"bb").unwrap();
    let r2 = heap.insert(b"ccc").unwrap();
    heap.delete(r1).unwrap();
    let scan = heap.scan().unwrap();
    assert_eq!(scan.items.len(), 2);
    assert_eq!(scan.items[0].row_id, r0);
    assert_eq!(scan.items[0].record, b"a");
    assert_eq!(scan.items[1].row_id, r2);
    assert_eq!(scan.stats.pages_visited, 1);
    assert_eq!(scan.stats.slots_visited, 3);
    assert_eq!(scan.stats.live_records_seen, 2);
    assert_eq!(scan.stats.deleted_slots_skipped, 1);

    let mut seen = 0;
    let stats = heap
        .scan_with(|_row, _bytes| {
            seen += 1;
            false
        })
        .unwrap();
    assert_eq!(seen, 1);
    assert_eq!(stats.slots_visited, 1);
    assert_eq!(stats.live_records_seen, 1);
}

fn heap_of_users() -> HeapFile {
    let mut heap = HeapFile::new();
    for id in 1..=10u64 {
        let record = UserRecord { id, name: format!("user{}", id) };
        heap.insert(&encode_user_record(&record)).unwrap();
    }
    heap.delete(RowId { page_id: PageId(0), slot_id: SlotId(2) }).unwrap();
    heap
}

#[test]
fn seq_scans_find_first_match_with_the_same_row() {
    let heap = heap_of_users();
    let wanted = |_: RowId, bytes: &[u8]| decode_user_record(bytes).unwrap().id == 5;
    let report = seq_scan_first_match(&heap, wanted).unwrap();
    let found = report.found.unwrap();
    assert_eq!(found.row_id, RowId { page_id: PageId(0), slot_id: SlotId(4) });
    assert_eq!(report.records_checked_by_predicate, 4);
    assert_eq!(report.stats.slots_visited, 10);

    let streamed = seq_scan_first_match_streaming(&heap, wanted).unwrap();
    assert_eq!(streamed.found.unwrap().row_id, found.row_id);
    assert_eq!(streamed.records_checked_by_predicate, 4);
    assert_eq!(streamed.stats.slots_visited, 5);
    assert_eq!(streamed.stats.deleted_slots_skipped, 1);

    let none = seq_scan_first_match_streaming(&heap, |_: RowId, _: &[u8]| false).unwrap();
    assert!(none.found.is_none());
    assert_eq!(none.records_checked_by_predicate, 9);
    assert_eq!(none.stats.slots_visited, 10);
}

#[test]
fn record_encoding_layout_and_errors() {
    let record = UserRecord { id: 42, name: "alice".to_string() };
    let bytes = encode_user_record(&record);
    assert_eq!(bytes.len(), 15);
    assert_eq!(&bytes[0..8], &42u64.to_le_bytes());
    assert_eq!(&bytes[8..10], &5u16.to_le_bytes());
    assert_eq!(&bytes[10..], b"alice");
    assert_eq!(decode_user_record(&bytes[..9]), Err(PageError::CorruptPage));
    assert_eq!(decode_user_record(&bytes[..14]), Err(PageError::CorruptPage));
    let mut bad = bytes.clone();
    bad[10] = 0xff;
    assert_eq!(decode_user_record(&bad), Err(PageError::CorruptPage));
    let unicode = UserRecord { id: 1, name: "zoë ✓".to_string() };
    assert_eq!(decode_user_record(&encode_user_record(&unicode)).unwrap(), unicode);
}

#[test]
fn report_helpers_format_exactly() {
    assert_eq!(format_bytes(&[0x00, 0x0f, 0xab]), "00 0f ab");
    assert_eq!(format_bytes(&[]), "");
    assert_eq!(format_key_sample(&[1, 22, 333], 2), "1, 22, ... 1 more");
    assert_eq!(format_key_sample(&[1, 22], 5), "1, 22");
    assert_eq!(format_key_sample(&[7, 8], 0), "... 2 more");
    assert_eq!(sample_indexes(0), Vec::new());
    assert_eq!(sample_indexes(1), vec![("first", 0)]);
    assert_eq!(sample_indexes(2), vec![("first", 0), ("last", 1)]);
    assert_eq!(sample_indexes(5), vec![("first", 0), ("middle", 2), ("last", 4)]);
    assert_eq!(truncate("abcdef", 3), "abc…");
    assert_eq!(truncate("abc", 3), "abc");
    assert_eq!(truncate("héllo", 2), "hé…");
}

#[test]
fn lookup_in_scan_items_decodes_until_the_id_matches() {
    let heap = heap_of_users();
    let scan = heap.scan().unwrap();

    let (found, decoded) = find_by_id_in_items(&scan.items, 5).unwrap();
    let (row, record) = found.unwrap();
    assert_eq!(row, RowId { page_id: PageId(0), slot_id: SlotId(4) });
    assert_eq!(record, UserRecord { id: 5, name: "user5".to_string() });
    assert_eq!(decoded, 4);

    assert_eq!(find_by_id_in_items(&scan.items, u64::MAX).unwrap(), (None, 9));

    let garbage = [1u8, 2, 3];
    let items = [
        scan.items[0],
        HeapScanItem { row_id: RowId { page_id: PageId(3), slot_id: SlotId(0) }, record: &garbage },
        scan.items[1],
    ];
    assert_eq!(find_by_id_in_items(&items, 1).unwrap().1, 1);
    assert_eq!(find_by_id_in_items(&items, 2), Err(PageError::CorruptPage));
}

#[test]
fn page_slot_entries_record_inserts_and_deletes() {
    let mut page = Page::new();
    page.insert(&[7, 8, 9]).unwrap();
    page.insert(&[1, 2]).unwrap();
    assert_eq!(page.read_slot(SlotId(0)), Ok(SlotEntry { offset: 4093, length: 3, flags: SLOT_OCCUPIED }));
    assert_eq!(page.read_slot(SlotId(1)), Ok(SlotEntry { offset: 4091, length: 2, flags: SLOT_OCCUPIED }));
    page.delete(SlotId(0)).unwrap();
    assert_eq!(page.read_slot(SlotId(0)), Ok(SlotEntry { offset: 4093, length: 3, flags: SLOT_DELETED }));
    assert_eq!(page.read_slot(SlotId(1)), Ok(SlotEntry { offset: 4091, length: 2, flags: SLOT_OCCUPIED }));
    assert_eq!(page.free_end(), 4091);
}
