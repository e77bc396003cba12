//! Closing and reopening: the file image round trip, and what open rejects.

use crablite::data_consts::PAGE_SIZE;
use crablite::pager::PagerError;
use crablite::table::{ExecuteResult, Row, Table};

#[test]
fn close_then_reopen_preserves_records_and_order() {
    let mut table = Table::db_open(Vec::new()).expect("an empty file opens");
    assert_eq!(table.insert_row(&Row::new(3, "c", "c@x.com")), ExecuteResult::ExecuteSuccess);
    assert_eq!(table.insert_row(&Row::new(1, "a", "a@x.com")), ExecuteResult::ExecuteSuccess);
    assert_eq!(table.insert_row(&Row::new(2, "b", "b@x.com")), ExecuteResult::ExecuteSuccess);
    table.db_close().expect("close flushes");

    let image = table.pager.file_contents.clone();
    assert!(image.len() % PAGE_SIZE == 0);
    assert!(!image.is_empty());

    let mut reopened = Table::db_open(image).expect("a closed image reopens");
    let rows = reopened.scan_all();
    let ids: Vec<u32> = rows.iter().map(|r| r.id).collect();
    assert_eq!(ids, vec![1, 2, 3]);
    assert_eq!(&rows[0].username[..1], b"a");
    assert_eq!(&rows[1].username[..1], b"b");
    assert_eq!(&rows[2].username[..1], b"c");
}

#[test]
fn reopened_table_accepts_further_inserts() {
    let mut table = Table::db_open(Vec::new()).expect("an empty file opens");
    assert_eq!(table.insert_row(&Row::new(10, "u", "e@x")), ExecuteResult::ExecuteSuccess);
    table.db_close().expect("close flushes");

    let mut reopened = Table::db_open(table.pager.file_contents.clone()).expect("reopens");
    assert_eq!(reopened.insert_row(&Row::new(4, "v", "f@x")), ExecuteResult::ExecuteSuccess);
    assert_eq!(
        reopened.insert_row(&Row::new(10, "u", "e@x")),
        ExecuteResult::ExecuteDuplicateKey
    );
    let ids: Vec<u32> = reopened.scan_all().iter().map(|r| r.id).collect();
    assert_eq!(ids, vec![4, 10]);
}

#[test]
fn close_of_untouched_reopened_table_keeps_the_image() {
    let mut table = Table::db_open(Vec::new()).expect("opens");
    assert_eq!(table.insert_row(&Row::new(1, "a", "a@x")), ExecuteResult::ExecuteSuccess);
    table.db_close().expect("close");
    let image = table.pager.file_contents.clone();

    let mut reopened = Table::db_open(image.clone()).expect("reopens");
    let _ = reopened.scan_all();
    reopened.db_close().expect("close again");
    assert_eq!(reopened.pager.file_contents, image);
}

#[test]
fn file_of_a_page_and_a_half_is_corrupt() {
    let file = vec![0u8; PAGE_SIZE + PAGE_SIZE / 2];
    match Table::db_open(file) {
        Err(PagerError::Corruption) => {},
        other => panic!("a fractional-page file must be rejected as corrupt, got {:?}", other.map(|_| ())),
    }
}

#[test]
fn whole_page_file_of_garbage_is_corrupt() {
    // A whole number of pages, but page 0 is no leaf node.
    let mut file = vec![0u8; PAGE_SIZE];
    file[0] = 7;
    match Table::db_open(file) {
        Err(PagerError::Corruption) => {},
        other => panic!("a garbage root page must be rejected, got {:?}", other.map(|_| ())),
    }
}
