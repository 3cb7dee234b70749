use hack_rs::db::record::{decode_user_record, encode_user_record, UserRecord};
use hack_rs::db::table::Table;
use hack_rs::db::storage::page::PageError;

#[test]
fn table_insert_and_get_by_key_round_trips_record_bytes() {
    let mut table = Table::new();
    let record = UserRecord {
        id: 42,
        name: "alice".to_string(),
    };
    let encoded = encode_user_record(&record);

    table.insert(record.id, &encoded).unwrap();

    let raw = table.get_by_key(42).unwrap().unwrap();
    let decoded = decode_user_record(raw).unwrap();

    assert_eq!(decoded, record);
    assert_eq!(table.index_len(), 1);
}

#[test]
fn table_delete_by_key_removes_index_entry_and_tombstones_heap_row() {
    let mut table = Table::new();
    let record = UserRecord {
        id: 7,
        name: "bob".to_string(),
    };
    let encoded = encode_user_record(&record);
    let row_id = table.insert(record.id, &encoded).unwrap();

    assert!(table.delete_by_key(7).unwrap());
    assert!(table.get_by_key(7).unwrap().is_none());
    assert!(table.heap().get(row_id).is_err());
    assert_eq!(table.index_len(), 0);
}

#[test]
fn table_missing_key_and_repeated_delete() {
    let mut table = Table::new();
    assert!(table.get_by_key(1).unwrap().is_none());
    assert!(!table.delete_by_key(1).unwrap());
    table.insert(1, b"abc").unwrap();
    assert!(table.delete_by_key(1).unwrap());
    assert!(!table.delete_by_key(1).unwrap());
    assert_eq!(table.heap().page_count(), 1);
}

#[test]
fn table_refuses_exactly_the_records_too_large_for_a_page() {
    let mut table = Table::new();
    assert_eq!(table.insert(1, &vec![0u8; 4086]), Err(PageError::NotEnoughSpace));
    assert_eq!(table.index_len(), 0);
    let row = table.insert(2, &vec![5u8; 4085]).unwrap();
    assert_eq!(table.get_by_key(2), Ok(Some(&vec![5u8; 4085][..])));
    assert_eq!(table.heap().get(row), Ok(&vec![5u8; 4085][..]));
    assert_eq!(table.index_len(), 1);
}
