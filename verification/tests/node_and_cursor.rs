//! The node layout and the cursor protocol, exercised directly.

use crablite::cursor::Cursor;
use crablite::data_consts::{PAGE_SIZE, ROW_SIZE, TABLE_MAX_PAGES};
use crablite::leaf_node::{LeafNode, NodeError, NodeType, LEAF_NODE_MAX_CELLS};
use crablite::pager::{Pager, PagerError};
use crablite::table::{ExecuteResult, Row, Table};

#[test]
fn initialize_makes_an_empty_leaf() {
    let mut page = vec![0u8; PAGE_SIZE];
    LeafNode::initialize_leaf_node(&mut page);
    assert_eq!(LeafNode::get_node_type(&page), NodeType::NodeLeaf);
    assert_eq!(LeafNode::leaf_node_num_cells_safe(&page), 0);
}

#[test]
fn node_type_round_trips_through_its_byte() {
    let mut page = vec![0u8; PAGE_SIZE];
    LeafNode::set_node_type(&mut page, NodeType::NodeLeaf);
    assert_eq!(page[0], 1);
    assert_eq!(LeafNode::get_node_type(&page), NodeType::NodeLeaf);
    LeafNode::set_node_type(&mut page, NodeType::NodeInternal);
    assert_eq!(page[0], 0);
    assert_eq!(LeafNode::get_node_type(&page), NodeType::NodeInternal);
}

#[test]
fn insert_writes_key_value_and_count() {
    let mut page = vec![0u8; PAGE_SIZE];
    LeafNode::initialize_leaf_node(&mut page);
    let row = Row::new(42, "u", "e@x");
    LeafNode::leaf_node_insert(&mut page, 0, 42, &row).expect("one cell fits");

    assert_eq!(LeafNode::leaf_node_num_cells_safe(&page), 1);
    assert_eq!(LeafNode::leaf_node_key(&page, 0), 42);
    let value = LeafNode::leaf_node_value(&page, 0);
    assert_eq!(value.len(), ROW_SIZE);
    let back = Row::deserialize_row(&value);
    assert_eq!(back.id, 42);
    let cell = LeafNode::leaf_node_cell(&page, 0);
    assert_eq!(&cell[..4], &[42, 0, 0, 0]);
    assert_eq!(&cell[4..], &value[..]);
}

#[test]
fn insert_shifts_cells_right_of_the_position() {
    let mut page = vec![0u8; PAGE_SIZE];
    LeafNode::initialize_leaf_node(&mut page);
    LeafNode::leaf_node_insert(&mut page, 0, 10, &Row::new(10, "a", "a@x")).expect("fits");
    LeafNode::leaf_node_insert(&mut page, 1, 30, &Row::new(30, "c", "c@x")).expect("fits");
    // 20 belongs between them.
    LeafNode::leaf_node_insert(&mut page, 1, 20, &Row::new(20, "b", "b@x")).expect("fits");

    assert_eq!(LeafNode::leaf_node_num_cells_safe(&page), 3);
    assert_eq!(LeafNode::leaf_node_key(&page, 0), 10);
    assert_eq!(LeafNode::leaf_node_key(&page, 1), 20);
    assert_eq!(LeafNode::leaf_node_key(&page, 2), 30);
}

#[test]
fn insert_into_a_full_node_reports_capacity() {
    let mut page = vec![0u8; PAGE_SIZE];
    LeafNode::initialize_leaf_node(&mut page);
    for i in 0..LEAF_NODE_MAX_CELLS as u32 {
        LeafNode::leaf_node_insert(&mut page, i as usize, i, &Row::new(i, "u", "e@x"))
            .expect("within capacity");
    }
    let over = LEAF_NODE_MAX_CELLS as u32;
    assert_eq!(
        LeafNode::leaf_node_insert(&mut page, 0, over, &Row::new(over, "u", "e@x")),
        Err(NodeError::Capacity)
    );
    assert_eq!(LeafNode::leaf_node_num_cells_safe(&page), LEAF_NODE_MAX_CELLS as u32);
}

#[test]
fn wrapping_a_page_borrows_its_bytes() {
    let page = vec![0u8; PAGE_SIZE];
    let node = LeafNode::new(&page);
    assert_eq!(node.node.len(), PAGE_SIZE);
}

#[test]
fn cursor_start_is_at_end_on_an_empty_table() {
    let mut table = Table::db_open(Vec::new()).expect("opens");
    let cursor = Cursor::table_start(&mut table);
    assert_eq!(cursor.page_num, 0);
    assert_eq!(cursor.cell_num, 0);
    assert!(cursor.end_of_table);
}

#[test]
fn cursor_walks_records_in_order() {
    let mut table = Table::db_open(Vec::new()).expect("opens");
    assert_eq!(table.insert_row(&Row::new(2, "b", "b@x")), ExecuteResult::ExecuteSuccess);
    assert_eq!(table.insert_row(&Row::new(1, "a", "a@x")), ExecuteResult::ExecuteSuccess);

    let mut cursor = Cursor::table_start(&mut table);
    assert!(!cursor.end_of_table);
    let first = Row::deserialize_row(&cursor.cursor_value(&mut table));
    assert_eq!(first.id, 1);
    cursor.cursor_advance(&mut table);
    assert!(!cursor.end_of_table);
    let second = Row::deserialize_row(&cursor.cursor_value(&mut table));
    assert_eq!(second.id, 2);
    cursor.cursor_advance(&mut table);
    assert!(cursor.end_of_table);
}

#[test]
fn cursor_end_points_one_past_the_last_record() {
    let mut table = Table::db_open(Vec::new()).expect("opens");
    assert_eq!(table.insert_row(&Row::new(1, "a", "a@x")), ExecuteResult::ExecuteSuccess);
    let cursor = Cursor::table_end(&mut table);
    assert_eq!(cursor.cell_num, 1);
    assert!(cursor.end_of_table);
}

#[test]
fn find_lands_on_a_present_key() {
    let mut table = Table::db_open(Vec::new()).expect("opens");
    for id in [10u32, 20, 30] {
        assert_eq!(table.insert_row(&Row::new(id, "u", "e@x")), ExecuteResult::ExecuteSuccess);
    }
    let cursor = Cursor::table_find(&mut table, 20);
    assert_eq!(cursor.cell_num, 1);
    assert!(!cursor.end_of_table);
}

#[test]
fn find_yields_the_insertion_point_for_an_absent_key() {
    let mut table = Table::db_open(Vec::new()).expect("opens");
    for id in [10u32, 20, 30] {
        assert_eq!(table.insert_row(&Row::new(id, "u", "e@x")), ExecuteResult::ExecuteSuccess);
    }
    let cursor = Cursor::table_find(&mut table, 25);
    assert_eq!(cursor.cell_num, 2);
    assert!(cursor.end_of_table);

    let before_all = Cursor::table_find(&mut table, 5);
    assert_eq!(before_all.cell_num, 0);
    assert!(before_all.end_of_table);

    let past_all = Cursor::table_find(&mut table, 99);
    assert_eq!(past_all.cell_num, 3);
    assert!(past_all.end_of_table);
}

#[test]
fn pager_rejects_a_page_number_past_the_bound() {
    let mut pager = Pager::pager_open(Vec::new()).expect("opens");
    assert_eq!(pager.get_page(TABLE_MAX_PAGES).map(|_| ()), Err(PagerError::Bounds));
}

#[test]
fn flush_of_a_never_loaded_page_reports_it() {
    let mut pager = Pager::pager_open(Vec::new()).expect("opens");
    assert_eq!(pager.pager_flush(0), Err(PagerError::PageMissing));
}

#[test]
fn a_loaded_page_is_served_from_the_cache() {
    // Writes stored back into the cache are what later reads see, without
    // any flush.
    let mut pager = Pager::pager_open(Vec::new()).expect("opens");
    let mut page = pager.get_page(0).expect("in bounds");
    page[17] = 99;
    pager.write_page(0, page);
    let again = pager.get_page(0).expect("in bounds");
    assert_eq!(again[17], 99);
    // The file image itself is untouched until a flush.
    assert!(pager.file_contents.is_empty());
    pager.pager_flush(0).expect("page 0 is loaded");
    assert_eq!(pager.file_contents.len(), PAGE_SIZE);
    assert_eq!(pager.file_contents[17], 99);
}

#[test]
fn get_page_reads_the_file_image_lazily() {
    let mut file = vec![0u8; 2 * PAGE_SIZE];
    file[PAGE_SIZE] = 5;
    let mut pager = Pager::pager_open(file).expect("opens");
    assert_eq!(pager.num_pages, 2);
    let page1 = pager.get_page(1).expect("in bounds");
    assert_eq!(page1[0], 5);
    assert!(page1[1..].iter().all(|&b| b == 0));
}
