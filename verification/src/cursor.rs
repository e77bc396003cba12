//! The cursor: a transient position within the index, used to walk the
//! records in key order and to locate where a key lives or belongs.
//!
//! A cursor is a page number, a cell index, and an end-of-table flag; it is
//! never persisted.  Every operation takes the table it points into as an
//! exclusive borrow, so exactly one live cursor can drive a table at a time,
//! and a structural change to the node invalidates the position it computed.

use vstd::prelude::*;
use crate::data_consts::{PAGE_SIZE, TABLE_MAX_PAGES};
use crate::leaf_node::{
    spec_cell_key, spec_cell_value, spec_leaf_wf, spec_num_cells, LeafNode, NodeType,
    LEAF_NODE_MAX_CELLS,
};
use crate::table::Table;

verus! {

/// A position in the index: which page, which cell, and whether the
/// position is past the last record.
pub struct Cursor {
    pub page_num: usize,
    pub cell_num: usize,
    pub end_of_table: bool,
}

/// A table's pager state as a cursor operation may leave it: the cache may
/// have loaded pages, but every page's effective content, the file image,
/// and the root are unchanged.
pub open spec fn spec_table_preserved(pre: Table, post: Table) -> bool {
    &&& post.pager.wf()
    &&& post.root_page_num == pre.root_page_num
    &&& post.pager.file_contents@ == pre.pager.file_contents@
    &&& forall|m: int|
        0 <= m < TABLE_MAX_PAGES ==> #[trigger] post.pager.page_view(m) == pre.pager.page_view(m)
}

impl Cursor {
    /// A cursor on the first record; at the end of the table already when
    /// the table is empty.
    pub fn table_start(table: &mut Table) -> (c: Cursor)
        requires
            old(table).wf(),
        ensures
            final(table).wf(),
            spec_table_preserved(*old(table), *final(table)),
            final(table).rows() == old(table).rows(),
            c.page_num == old(table).root_page_num,
            c.cell_num == 0,
            c.end_of_table <==> old(table).rows().len() == 0,
    {
        let page_num = table.root_page_num;
        let cell_num: usize = 0;

        let root_node = match table.pager.get_page(page_num) {
            Ok(p) => p,
            Err(_) => {
                // The root is page 0, always within bounds.
                proof {
                    assert(false);
                }
                Vec::new()
            },
        };
        let num_cells = LeafNode::leaf_node_num_cells_safe(&root_node);
        let end_of_table = num_cells == 0;

        Cursor { page_num, cell_num, end_of_table }
    }

    /// A cursor one past the last record: the append point.
    pub fn table_end(table: &mut Table) -> (c: Cursor)
        requires
            old(table).wf(),
        ensures
            final(table).wf(),
            spec_table_preserved(*old(table), *final(table)),
            final(table).rows() == old(table).rows(),
            c.page_num == old(table).root_page_num,
            c.cell_num == old(table).rows().len(),
            c.end_of_table,
    {
        let page_num = table.root_page_num;
        let root_node = match table.pager.get_page(page_num) {
            Ok(p) => p,
            Err(_) => {
                proof {
                    assert(false);
                }
                Vec::new()
            },
        };
        let num_cells = LeafNode::leaf_node_num_cells_safe(&root_node);

        Cursor { page_num, cell_num: num_cells as usize, end_of_table: true }
    }

    /// Binary search over the sorted keys of the leaf at `page_num`: the
    /// index of an exact match, or the leftmost insertion point for an
    /// absent key.
    pub fn leaf_node_find_position(table: &mut Table, page_num: usize, key: u32) -> (r: (
        usize,
        usize,
    ))
        requires
            old(table).pager.wf(),
            page_num < TABLE_MAX_PAGES,
            spec_leaf_wf(old(table).pager.page_view(page_num as int)),
        ensures
            final(table).pager.wf(),
            spec_table_preserved(*old(table), *final(table)),
            r.0 == page_num,
            ({
                let p = old(table).pager.page_view(page_num as int);
                let n = spec_num_cells(p) as int;
                &&& r.1 <= n
                &&& forall|j: int| 0 <= j < r.1 ==> spec_cell_key(p, j) < key
                &&& forall|j: int| r.1 < j < n ==> spec_cell_key(p, j) > key
                &&& r.1 < n ==> spec_cell_key(p, r.1 as int) >= key
                &&& (exists|j: int| 0 <= j < n && spec_cell_key(p, j) == key) <==> (r.1 < n
                    && spec_cell_key(p, r.1 as int) == key)
            }),
    {
        let node = match table.pager.get_page(page_num) {
            Ok(p) => p,
            Err(_) => {
                proof {
                    assert(false);
                }
                Vec::new()
            },
        };
        let ghost p = node@;
        let num_cells = LeafNode::leaf_node_num_cells_safe(&node);
        let n = num_cells as usize;
        proof {
            crate::leaf_node::lemma_max_cells_value();
        }

        let mut min_index: usize = 0;
        let mut max_index: usize = n;

        while min_index != max_index
            invariant
                table.pager.wf(),
                spec_table_preserved(*old(table), *table),
                page_num < TABLE_MAX_PAGES,
                p == old(table).pager.page_view(page_num as int),
                min_index <= max_index <= n,
                n == spec_num_cells(p),
                n <= LEAF_NODE_MAX_CELLS,
                LEAF_NODE_MAX_CELLS == 13,
                node@ == p,
                p.len() == PAGE_SIZE,
                spec_leaf_wf(p),
                forall|j: int| 0 <= j < min_index ==> spec_cell_key(p, j) < key,
                forall|j: int| max_index <= j < n ==> spec_cell_key(p, j) > key,
            decreases max_index - min_index,
        {
            let index = min_index + (max_index - min_index) / 2;
            let key_at_index = LeafNode::leaf_node_key(&node, index);

            if key == key_at_index {
                proof {
                    assert forall|j: int| 0 <= j < index implies spec_cell_key(p, j) < key by {
                        assert(spec_cell_key(p, j) < spec_cell_key(p, index as int));
                    }
                    assert forall|j: int| index < j < n implies spec_cell_key(p, j) > key by {
                        assert(spec_cell_key(p, index as int) < spec_cell_key(p, j));
                    }
                }
                return (page_num, index);
            } else if key < key_at_index {
                max_index = index;
            } else {
                min_index = index + 1;
            }
        }

        (page_num, min_index)
    }

    /// Finds where `key` lives or belongs, routing from the root.  The root
    /// is always the single leaf in this design: internal-node routing does
    /// not exist, and a well-formed table never reaches it.
    pub fn table_find_position(table: &mut Table, key: u32) -> (r: (usize, usize))
        requires
            old(table).wf(),
        ensures
            final(table).wf(),
            spec_table_preserved(*old(table), *final(table)),
            final(table).rows() == old(table).rows(),
            r.0 == old(table).root_page_num,
            ({
                let p = old(table).pager.page_view(old(table).root_page_num as int);
                let n = spec_num_cells(p) as int;
                &&& r.1 <= n
                &&& forall|j: int| 0 <= j < r.1 ==> spec_cell_key(p, j) < key
                &&& forall|j: int| r.1 < j < n ==> spec_cell_key(p, j) > key
                &&& r.1 < n ==> spec_cell_key(p, r.1 as int) >= key
                &&& (exists|j: int| 0 <= j < n && spec_cell_key(p, j) == key) <==> (r.1 < n
                    && spec_cell_key(p, r.1 as int) == key)
            }),
    {
        let root_page_num = table.root_page_num;
        let root_node = match table.pager.get_page(root_page_num) {
            Ok(p) => p,
            Err(_) => {
                proof {
                    assert(false);
                }
                Vec::new()
            },
        };

        if LeafNode::get_node_type(&root_node) == NodeType::NodeLeaf {
            Self::leaf_node_find_position(table, root_page_num, key)
        } else {
            // Internal-node routing is unimplemented by design; a
            // well-formed table's root is a leaf, so this is unreachable.
            proof {
                assert(false);
            }
            (root_page_num, 0)
        }
    }

    /// Binary search returning a cursor: on the exact match when the key is
    /// present, else on its insertion point with `end_of_table` set.
    pub fn leaf_node_find(table: &mut Table, page_num: usize, key: u32) -> (c: Cursor)
        requires
            old(table).pager.wf(),
            page_num < TABLE_MAX_PAGES,
            spec_leaf_wf(old(table).pager.page_view(page_num as int)),
        ensures
            final(table).pager.wf(),
            spec_table_preserved(*old(table), *final(table)),
            c.page_num == page_num,
            ({
                let p = old(table).pager.page_view(page_num as int);
                let n = spec_num_cells(p) as int;
                &&& c.cell_num <= n
                &&& forall|j: int| 0 <= j < c.cell_num ==> spec_cell_key(p, j) < key
                &&& forall|j: int| c.cell_num < j < n ==> spec_cell_key(p, j) > key
                &&& c.cell_num < n ==> spec_cell_key(p, c.cell_num as int) >= key
                &&& (!c.end_of_table <==> (c.cell_num < n && spec_cell_key(p, c.cell_num as int)
                    == key))
                &&& (!c.end_of_table <==> exists|j: int|
                    0 <= j < n && spec_cell_key(p, j) == key)
            }),
    {
        let (found_page_num, cell_num) = Self::leaf_node_find_position(table, page_num, key);
        let node = match table.pager.get_page(found_page_num) {
            Ok(p) => p,
            Err(_) => {
                proof {
                    assert(false);
                }
                Vec::new()
            },
        };
        let num_cells = LeafNode::leaf_node_num_cells_safe(&node);
        let found = if cell_num < num_cells as usize {
            let key_at_index = LeafNode::leaf_node_key(&node, cell_num);
            key_at_index == key
        } else {
            false
        };

        Cursor { page_num: found_page_num, cell_num, end_of_table: !found }
    }

    /// A cursor on the cell where `key` lives or would belong, routing from
    /// the root; `end_of_table` is set exactly when the key is absent.  The
    /// root is always the single leaf: internal-node routing does not
    /// exist, and a well-formed table never reaches it.
    pub fn table_find(table: &mut Table, key: u32) -> (c: Cursor)
        requires
            old(table).wf(),
        ensures
            final(table).wf(),
            spec_table_preserved(*old(table), *final(table)),
            final(table).rows() == old(table).rows(),
            c.page_num == old(table).root_page_num,
            ({
                let p = old(table).pager.page_view(old(table).root_page_num as int);
                let n = spec_num_cells(p) as int;
                &&& c.cell_num <= n
                &&& forall|j: int| 0 <= j < c.cell_num ==> spec_cell_key(p, j) < key
                &&& forall|j: int| c.cell_num < j < n ==> spec_cell_key(p, j) > key
                &&& c.cell_num < n ==> spec_cell_key(p, c.cell_num as int) >= key
                &&& (!c.end_of_table <==> (c.cell_num < n && spec_cell_key(p, c.cell_num as int)
                    == key))
                &&& (!c.end_of_table <==> exists|j: int|
                    0 <= j < n && spec_cell_key(p, j) == key)
            }),
    {
        let root_page_num = table.root_page_num;
        let root_node = match table.pager.get_page(root_page_num) {
            Ok(p) => p,
            Err(_) => {
                proof {
                    assert(false);
                }
                Vec::new()
            },
        };

        if LeafNode::get_node_type(&root_node) == NodeType::NodeLeaf {
            Self::leaf_node_find(table, root_page_num, key)
        } else {
            // Internal-node routing is unimplemented by design; a
            // well-formed table's root is a leaf, so this is unreachable.
            proof {
                assert(false);
            }
            Cursor { page_num: root_page_num, cell_num: 0, end_of_table: true }
        }
    }

    /// A copy of the encoded record under the cursor.
    pub fn cursor_value(&mut self, table: &mut Table) -> (v: Vec<u8>)
        requires
            old(table).wf(),
            old(self).page_num == old(table).root_page_num,
            old(self).cell_num < old(table).rows().len(),
        ensures
            final(table).wf(),
            spec_table_preserved(*old(table), *final(table)),
            final(table).rows() == old(table).rows(),
            *final(self) == *old(self),
            v@ == spec_cell_value(
                old(table).pager.page_view(old(table).root_page_num as int),
                old(self).cell_num as int,
            ),
            v@.len() == crate::data_consts::ROW_SIZE,
    {
        let page = match table.pager.get_page(self.page_num) {
            Ok(p) => p,
            Err(_) => {
                proof {
                    assert(false);
                }
                Vec::new()
            },
        };
        proof {
            crate::leaf_node::lemma_max_cells_value();
            crate::leaf_node::lemma_cell_in_page(old(self).cell_num as int);
        }
        LeafNode::leaf_node_value(&page, self.cell_num)
    }

    /// Moves the cursor one cell forward, marking end-of-table once it
    /// passes the last record.
    pub fn cursor_advance(&mut self, table: &mut Table)
        requires
            old(table).wf(),
            old(self).page_num == old(table).root_page_num,
            old(self).cell_num < old(table).rows().len(),
        ensures
            final(table).wf(),
            spec_table_preserved(*old(table), *final(table)),
            final(table).rows() == old(table).rows(),
            final(self).page_num == old(self).page_num,
            final(self).cell_num == old(self).cell_num + 1,
            final(self).end_of_table <==> (old(self).end_of_table || old(self).cell_num + 1
                >= old(table).rows().len()),
    {
        let node = match table.pager.get_page(self.page_num) {
            Ok(p) => p,
            Err(_) => {
                proof {
                    assert(false);
                }
                Vec::new()
            },
        };
        self.cell_num = self.cell_num + 1;

        let num_cells = LeafNode::leaf_node_num_cells_safe(&node);
        if self.cell_num >= num_cells as usize {
            self.end_of_table = true;
        }
    }
}

} // verus!
