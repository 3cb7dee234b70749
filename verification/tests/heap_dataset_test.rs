use hack_rs::db::fixture::{group_by_set, parse_user_record_fixtures, FixtureError};
use hack_rs::db::record::{decode_user_record, encode_user_record};
use hack_rs::db::storage::heap::HeapFile;
use hack_rs::db::storage::page::PageError;

/// A fixture dataset in the project's tab-separated format: a header, comments,
/// blank lines and several hundred records spread over named sets.
fn user_record_fixtures() -> String {
    let mut text = String::from("# user record fixtures\nset\tid\tname\tnote\n\n");
    let sets = [
        ("tiny_basics", 5, "small records for first reads"),
        ("page_pressure", 120, "long names that fill pages quickly"),
        ("benchmark_seed", 200, "enough rows for scan timings"),
        ("deletion_candidates", 25, "rows to tombstone"),
    ];
    let mut id = 1u64;
    for (set, count, note) in sets {
        for i in 0..count {
            let name = if set == "page_pressure" {
                format!("user-{}-{}", i, "x".repeat(180))
            } else {
                format!("user-{}", i)
            };
            text.push_str(&format!("{}\t{}\t{}\t{}\n", set, id, name, note));
            id += 1;
        }
    }
    text
}

#[test]
fn fixture_dataset_loads_hundreds_of_records() {
    let fixtures = parse_user_record_fixtures(&user_record_fixtures()).unwrap();

    assert!(
        fixtures.len() >= 100,
        "fixture dataset should stay large enough for future scans and benchmarks"
    );

    assert!(fixtures.iter().any(|fixture| fixture.set == "tiny_basics"));
    assert!(fixtures
        .iter()
        .any(|fixture| fixture.set == "page_pressure"));
    assert!(fixtures
        .iter()
        .any(|fixture| fixture.set == "benchmark_seed"));
}

#[test]
fn fixture_dataset_round_trips_through_heap_file() {
    let fixtures = parse_user_record_fixtures(&user_record_fixtures()).unwrap();
    let mut heap = HeapFile::new();
    let mut inserted = Vec::new();

    for fixture in fixtures {
        let expected = fixture.to_user_record();
        let encoded = encode_user_record(&expected);
        let row_id = heap.insert(&encoded).unwrap();
        inserted.push((row_id, expected));
    }

    assert!(heap.page_count() > 0);

    for (row_id, expected) in inserted {
        let raw = heap.get(row_id).unwrap();
        let decoded = decode_user_record(raw).unwrap();
        assert_eq!(decoded, expected);
    }
}

#[test]
fn heap_delete_marks_fixture_row_as_deleted() {
    let fixtures = parse_user_record_fixtures(&user_record_fixtures()).unwrap();
    let fixture = fixtures
        .iter()
        .find(|fixture| fixture.set == "deletion_candidates")
        .expect("deletion_candidates fixture set should exist");

    let mut heap = HeapFile::new();
    let record = fixture.to_user_record();
    let encoded = encode_user_record(&record);
    let row_id = heap.insert(&encoded).unwrap();

    assert!(heap.get(row_id).is_ok());

    heap.delete(row_id).unwrap();

    assert!(matches!(heap.get(row_id), Err(PageError::DeletedSlot)));
}

#[test]
fn fixture_parser_handles_line_endings_and_tabs_in_notes() {
    let text = "  # comment\r\n\t set\tid\tname\tnote \r\na\t1\tann\tsee\tthis\r\nb\t+2\tbo\t\n";
    let fixtures = parse_user_record_fixtures(text).unwrap();
    assert_eq!(fixtures.len(), 2);
    assert_eq!(fixtures[0].set, "a");
    assert_eq!(fixtures[0].id, 1);
    assert_eq!(fixtures[0].name, "ann");
    assert_eq!(fixtures[0].note, "see\tthis");
    assert_eq!(fixtures[1].id, 2);
    assert_eq!(fixtures[1].note, "");
}

#[test]
fn fixture_parser_reports_bad_lines_and_ids() {
    match parse_user_record_fixtures("a\t1\tann\tnote\nonly\ttwo\n") {
        Err(FixtureError::BadLine { line_no, line, reason }) => {
            assert_eq!(line_no, 2);
            assert_eq!(line, "only\ttwo");
            assert_eq!(reason, "expected exactly 4 tab-separated fields: set, id, name, note");
        }
        other => panic!("unexpected {:?}", other),
    }
    match parse_user_record_fixtures("\n\na\t12x\tann\tnote\n") {
        Err(FixtureError::BadId { line_no, value }) => {
            assert_eq!(line_no, 3);
            assert_eq!(value, "12x");
        }
        other => panic!("unexpected {:?}", other),
    }
    match parse_user_record_fixtures("a\t18446744073709551616\tann\tnote") {
        Err(FixtureError::BadId { line_no, .. }) => assert_eq!(line_no, 1),
        other => panic!("unexpected {:?}", other),
    }
    assert_eq!(parse_user_record_fixtures("").unwrap().len(), 0);
}

#[test]
fn group_by_set_orders_sets_and_keeps_fixture_order() {
    let text = "b\t1\tx\tn\na\t2\ty\tn\nb\t3\tz\tn\n";
    let groups = group_by_set(parse_user_record_fixtures(text).unwrap());
    assert_eq!(groups.len(), 2);
    assert_eq!(groups[0].0, "a");
    assert_eq!(groups[0].1.iter().map(|f| f.id).collect::<Vec<_>>(), vec![2]);
    assert_eq!(groups[1].0, "b");
    assert_eq!(groups[1].1.iter().map(|f| f.id).collect::<Vec<_>>(), vec![1, 3]);
    assert_eq!(groups.iter().map(|(_, members)| members.len()).sum::<usize>(), 3);
}
