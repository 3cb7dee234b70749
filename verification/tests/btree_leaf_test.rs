use hack_rs::db::index::btree_leaf::{
    BTreeLeafPage, BTreeLeafPageError, LeafCell, BTREE_LEAF_CELL_SIZE, BTREE_LEAF_HEADER_SIZE,
    BTREE_LEAF_MAGIC, BTREE_LEAF_MAX_CELLS, BTREE_LEAF_PAGE_TYPE, BTREE_LEAF_VERSION,
};
use hack_rs::db::storage::heap::{PageId, RowId};
use hack_rs::db::storage::page::{SlotId, PAGE_SIZE};

fn row(page: u16, slot: u16) -> RowId {
    RowId {
        page_id: PageId(page),
        slot_id: SlotId(slot),
    }
}

#[test]
fn byte_backed_leaf_page_initializes_header() {
    let page = BTreeLeafPage::new();

    assert_eq!(page.magic(), BTREE_LEAF_MAGIC);
    assert_eq!(page.page_type(), BTREE_LEAF_PAGE_TYPE);
    assert_eq!(page.version(), BTREE_LEAF_VERSION);
    assert_eq!(page.cell_count(), 0);
    assert_eq!(page.free_start(), BTREE_LEAF_HEADER_SIZE as u16);
    assert_eq!(page.free_end(), PAGE_SIZE as u16);
    assert_eq!(page.right_sibling(), None);
    assert_eq!(page.flags(), 0);
    assert_eq!(page.free_space(), PAGE_SIZE - BTREE_LEAF_HEADER_SIZE);

    assert_eq!(BTREE_LEAF_MAX_CELLS, 291);
    assert_eq!(page.max_cells(), 291);
}

#[test]
fn byte_backed_leaf_cell_encodes_and_decodes_key_and_row_id() {
    let cell = LeafCell {
        key: 7010,
        row_id: row(12, 34),
    };

    let encoded = BTreeLeafPage::encode_cell(cell);

    assert_eq!(encoded.len(), BTREE_LEAF_CELL_SIZE);
    assert_eq!(&encoded[0..8], &7010u64.to_le_bytes());
    assert_eq!(&encoded[8..10], &12u16.to_le_bytes());
    assert_eq!(&encoded[10..12], &34u16.to_le_bytes());

    let decoded = BTreeLeafPage::decode_cell(&encoded);

    assert_eq!(decoded, cell);
}

#[test]
fn leaf_insert_keeps_keys_sorted_and_finds_rows() {
    let mut page = BTreeLeafPage::new();
    for (i, key) in [50u64, 10, 40, 20, 30].iter().enumerate() {
        page.insert(*key, row(1, i as u16)).unwrap();
    }
    assert_eq!(page.keys().unwrap(), vec![10, 20, 30, 40, 50]);
    assert_eq!(page.get(40).unwrap(), Some(row(1, 2)));
    assert_eq!(page.get(35).unwrap(), None);
    assert_eq!(page.find_slot_for_key(30).unwrap(), Ok(2));
    assert_eq!(page.find_slot_for_key(35).unwrap(), Err(3));
    assert_eq!(page.find_slot_for_key(5).unwrap(), Err(0));
    assert_eq!(page.find_slot_for_key(99).unwrap(), Err(5));
    assert_eq!(page.cell_count(), 5);
    assert_eq!(
        page.free_start() as usize,
        BTREE_LEAF_HEADER_SIZE + 5 * 2
    );
    assert_eq!(page.free_end() as usize, PAGE_SIZE - 5 * BTREE_LEAF_CELL_SIZE);
}

#[test]
fn leaf_insert_existing_key_replaces_its_row() {
    let mut page = BTreeLeafPage::new();
    page.insert(7, row(0, 0)).unwrap();
    page.insert(7, row(3, 9)).unwrap();
    assert_eq!(page.cell_count(), 1);
    assert_eq!(page.get(7).unwrap(), Some(row(3, 9)));
    assert_eq!(page.keys().unwrap(), vec![7]);
}

#[test]
fn leaf_range_returns_rows_in_key_order() {
    let mut page = BTreeLeafPage::new();
    for key in [5u64, 1, 9, 3, 7] {
        page.insert(key, row(0, key as u16)).unwrap();
    }
    assert_eq!(
        page.range(3, 7).unwrap(),
        vec![row(0, 3), row(0, 5), row(0, 7)]
    );
    assert_eq!(page.range(4, 4).unwrap(), Vec::<RowId>::new());
    assert_eq!(page.range(8, 2).unwrap(), Vec::<RowId>::new());
    assert_eq!(page.range(0, 100).unwrap().len(), 5);
}

#[test]
fn leaf_page_fills_up_after_max_cells() {
    let mut page = BTreeLeafPage::new();
    for key in 0..BTREE_LEAF_MAX_CELLS as u64 {
        page.insert(key, row(0, 0)).unwrap();
    }
    assert!(!page.has_space_for_entry());
    assert_eq!(page.insert(1_000_000, row(0, 0)), Err(BTreeLeafPageError::NotEnoughSpace));
    assert_eq!(page.cell_count() as usize, BTREE_LEAF_MAX_CELLS);
}

#[test]
fn leaf_raw_slot_and_cell_writes() {
    let mut page = BTreeLeafPage::new();
    assert_eq!(BTreeLeafPage::slot_byte_offset(0), 14);
    assert_eq!(BTreeLeafPage::slot_byte_offset(1), 16);
    page.write_slot(0, 4084);
    assert_eq!(page.read_slot(0), 4084);
    assert_eq!(page.bytes_at(14, 2), &4084u16.to_le_bytes());

    let cell = LeafCell { key: 42, row_id: row(2, 3) };
    let offset = page.write_cell_bytes(cell);
    assert_eq!(offset as usize, PAGE_SIZE - BTREE_LEAF_CELL_SIZE);
    assert_eq!(page.free_end(), offset);
    assert_eq!(page.read_cell_at(offset), cell);
    assert_eq!(page.cell_count(), 0);

    let mut fresh = BTreeLeafPage::new();
    let slot = fresh.append_entry_unsorted(cell);
    assert_eq!(slot, 0);
    assert_eq!(fresh.cell_count(), 1);
    assert_eq!(fresh.read_cell_by_slot(0), Ok(cell));
    assert_eq!(fresh.key_at_slot(0), Ok(42));
    assert_eq!(fresh.read_cell_by_slot(1), Err(BTreeLeafPageError::InvalidSlot));
}

#[test]
fn unsorted_append_on_an_exhausted_page_writes_over_the_header_in_order() {
    let mut page = BTreeLeafPage::new();
    let filler = LeafCell { key: 1, row_id: RowId { page_id: PageId(0), slot_id: SlotId(0) } };
    for _ in 0..340 {
        page.write_cell_bytes(filler);
    }
    assert_eq!(page.free_end(), 16);

    // The cell lands on bytes 4..16: the count, free_start, free_end, sibling
    // and flags fields. The later header writes then land on top of it, and
    // free_start is read back from the cell's key bytes 2..4.
    let cell = LeafCell { key: 0x0003_0000, row_id: RowId { page_id: PageId(7), slot_id: SlotId(9) } };
    let slot = page.append_entry_unsorted(cell);
    assert_eq!(slot, 0);
    assert_eq!(page.cell_count(), 1);
    assert_eq!(page.free_end(), 4);
    assert_eq!(page.read_slot(0), 4);
    assert_eq!(page.free_start(), 5);
}

#[test]
fn insert_reports_a_slot_pointing_past_the_page_and_changes_nothing() {
    let mut page = BTreeLeafPage::new();
    page.append_entry_unsorted(LeafCell { key: 9, row_id: row(0, 0) });
    page.write_slot(0, 4090);
    let before = page.bytes_at(0, PAGE_SIZE).to_vec();
    assert_eq!(page.insert(5, row(1, 1)), Err(BTreeLeafPageError::CorruptPage));
    assert_eq!(page.bytes_at(0, PAGE_SIZE), before.as_slice());
}

#[test]
fn insert_on_a_slot_pointing_into_free_space_opens_the_slot_after_it() {
    let mut page = BTreeLeafPage::new();
    page.append_entry_unsorted(LeafCell { key: 9, row_id: row(0, 0) });
    // Slot 0 now points at zeroed free space, which reads as key 0.
    page.write_slot(0, 100);
    assert_eq!(page.insert(5, row(1, 1)), Ok(()));
    assert_eq!(page.cell_count(), 2);
    assert_eq!(page.keys(), Ok(vec![0, 5]));
    assert_eq!(page.get(5), Ok(Some(row(1, 1))));
}
