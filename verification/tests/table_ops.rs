//! The table facade: ordered inserts, duplicate and capacity rejection,
//! and the full scan.

use crablite::leaf_node::LEAF_NODE_MAX_CELLS;
use crablite::table::{ExecuteResult, Row, Table};

fn fresh_table() -> Table {
    Table::db_open(Vec::new()).expect("an empty file opens")
}

#[test]
fn scan_returns_keys_in_order_regardless_of_insert_order() {
    let mut table = fresh_table();
    assert_eq!(table.insert_row(&Row::new(3, "c", "c@x.com")), ExecuteResult::ExecuteSuccess);
    assert_eq!(table.insert_row(&Row::new(1, "a", "a@x.com")), ExecuteResult::ExecuteSuccess);
    assert_eq!(table.insert_row(&Row::new(2, "b", "b@x.com")), ExecuteResult::ExecuteSuccess);

    let rows = table.scan_all();
    let ids: Vec<u32> = rows.iter().map(|r| r.id).collect();
    assert_eq!(ids, vec![1, 2, 3]);
}

#[test]
fn scan_of_many_unordered_inserts_ascends_strictly() {
    let mut table = fresh_table();
    for id in [11u32, 2, 7, 1, 13, 5, 3, 12, 4, 9, 6, 10, 8] {
        assert_eq!(table.insert_row(&Row::new(id, "u", "e@x")), ExecuteResult::ExecuteSuccess);
    }
    let rows = table.scan_all();
    assert_eq!(rows.len(), 13);
    for pair in rows.windows(2) {
        assert!(pair[0].id < pair[1].id);
    }
}

#[test]
fn two_insert_orders_scan_identically() {
    let mut forward = fresh_table();
    let mut backward = fresh_table();
    for id in [1u32, 4, 6, 9] {
        assert_eq!(forward.insert_row(&Row::new(id, "u", "e@x")), ExecuteResult::ExecuteSuccess);
    }
    for id in [9u32, 6, 4, 1] {
        assert_eq!(backward.insert_row(&Row::new(id, "u", "e@x")), ExecuteResult::ExecuteSuccess);
    }
    let a = forward.scan_all();
    let b = backward.scan_all();
    assert_eq!(a.len(), b.len());
    for (x, y) in a.iter().zip(b.iter()) {
        assert_eq!(x.id, y.id);
        assert_eq!(x.username, y.username);
        assert_eq!(x.email, y.email);
    }
}

#[test]
fn duplicate_key_is_rejected_and_nothing_changes() {
    let mut table = fresh_table();
    assert_eq!(
        table.insert_row(&Row::new(5, "alice", "a@x.com")),
        ExecuteResult::ExecuteSuccess
    );
    assert_eq!(
        table.insert_row(&Row::new(5, "alice", "a@x.com")),
        ExecuteResult::ExecuteDuplicateKey
    );

    let rows = table.scan_all();
    assert_eq!(rows.len(), 1);
    assert_eq!(rows[0].id, 5);
    assert_eq!(&rows[0].username[..5], b"alice");
}

#[test]
fn duplicate_with_different_fields_still_rejected() {
    let mut table = fresh_table();
    assert_eq!(table.insert_row(&Row::new(5, "alice", "a@x.com")), ExecuteResult::ExecuteSuccess);
    assert_eq!(
        table.insert_row(&Row::new(5, "mallory", "m@z.net")),
        ExecuteResult::ExecuteDuplicateKey
    );
    let rows = table.scan_all();
    assert_eq!(rows.len(), 1);
    // The record that was already there is untouched.
    assert_eq!(&rows[0].username[..5], b"alice");
}

#[test]
fn capacity_is_thirteen_cells() {
    assert_eq!(LEAF_NODE_MAX_CELLS, 13);
}

#[test]
fn insert_past_capacity_fails_and_leaves_count_unchanged() {
    let mut table = fresh_table();
    for id in 0..LEAF_NODE_MAX_CELLS as u32 {
        assert_eq!(table.insert_row(&Row::new(id, "u", "e@x")), ExecuteResult::ExecuteSuccess);
    }
    // One more unique key: the node is full, nothing is written.
    assert_eq!(
        table.insert_row(&Row::new(999, "u", "e@x")),
        ExecuteResult::ExecuteTableFull
    );
    let rows = table.scan_all();
    assert_eq!(rows.len(), LEAF_NODE_MAX_CELLS);
    assert!(rows.iter().all(|r| r.id != 999));
}

#[test]
fn full_table_rejects_even_a_present_key_as_full() {
    // The capacity check comes before the search, as the insert path
    // checks fullness first.
    let mut table = fresh_table();
    for id in 0..LEAF_NODE_MAX_CELLS as u32 {
        assert_eq!(table.insert_row(&Row::new(id, "u", "e@x")), ExecuteResult::ExecuteSuccess);
    }
    assert_eq!(table.insert_row(&Row::new(0, "u", "e@x")), ExecuteResult::ExecuteTableFull);
}

#[test]
fn insert_row_str_builds_and_inserts() {
    let mut table = fresh_table();
    assert_eq!(table.insert_row_str(4, "dave", "d@x.com"), ExecuteResult::ExecuteSuccess);
    let rows = table.scan_all();
    assert_eq!(rows.len(), 1);
    assert_eq!(rows[0].id, 4);
    assert_eq!(&rows[0].username[..4], b"dave");
}

#[test]
fn insert_row_str_rejects_too_long_username() {
    let mut table = fresh_table();
    let long_name = "x".repeat(33);
    assert_eq!(
        table.insert_row_str(1, &long_name, "e@x.com"),
        ExecuteResult::ExecuteFailed
    );
    assert_eq!(table.scan_all().len(), 0);
}

#[test]
fn insert_row_str_rejects_too_long_email() {
    let mut table = fresh_table();
    let long_mail = "y".repeat(256);
    assert_eq!(
        table.insert_row_str(1, "u", &long_mail),
        ExecuteResult::ExecuteFailed
    );
    assert_eq!(table.scan_all().len(), 0);
}

#[test]
fn scan_of_empty_table_is_empty() {
    let mut table = fresh_table();
    assert_eq!(table.scan_all().len(), 0);
}
