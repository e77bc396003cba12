//! The node layout: one page's bytes read as a self-describing index node.
//!
//! A node is a small header (node kind, root flag, parent page reference,
//! cell count) followed by an array of cells stored contiguously and sorted
//! ascending by key, each cell a 4-byte little-endian key and one encoded
//! record.  Everything here is offset arithmetic over the page's bytes.

use vstd::prelude::*;
use vstd::assert_seqs_equal;
use vstd::bytes::{spec_u32_from_le_bytes, spec_u32_to_le_bytes, u32_from_le_bytes, u32_to_le_bytes};
use vstd::slice::{slice_subrange, slice_to_vec};
use crate::data_consts::{PAGE_SIZE, ROW_SIZE};
use crate::table::{spec_deserialize_row, spec_serialize_row, Row, RowAbs};

verus! {

/// The kind tag a node's first byte carries.  Only leaf nodes are ever
/// built: an internal node would route to children, which this single-node
/// index does not support.
#[derive(Debug, PartialEq, Eq, Structural, Clone, Copy)]
pub enum NodeType {
    NodeInternal,
    NodeLeaf,
}

/// The byte a node kind is stored as.
pub open spec fn spec_node_type_code(t: NodeType) -> u8 {
    match t {
        NodeType::NodeInternal => 0u8,
        NodeType::NodeLeaf => 1u8,
    }
}

// Common node header layout.
pub const NODE_TYPE_SIZE: usize = 1;

pub const NODE_TYPE_OFFSET: usize = 0;

pub const IS_ROOT_SIZE: usize = 1;

pub const IS_ROOT_OFFSET: usize = NODE_TYPE_OFFSET + NODE_TYPE_SIZE;

pub const PARENT_POINTER_SIZE: usize = 4;

pub const PARENT_POINTER_OFFSET: usize = IS_ROOT_OFFSET + IS_ROOT_SIZE;

pub const COMMON_NODE_HEADER_SIZE: usize = NODE_TYPE_SIZE + IS_ROOT_SIZE + PARENT_POINTER_SIZE;

// Leaf node header layout.
pub const LEAF_NODE_NUM_CELL_SIZE: usize = 4;

pub const LEAF_NODE_NUM_CELL_OFFSET: usize = COMMON_NODE_HEADER_SIZE;

pub const LEAF_NODE_HEADER_SIZE: usize = COMMON_NODE_HEADER_SIZE + LEAF_NODE_NUM_CELL_SIZE;

// Leaf node body layout.
pub const LEAF_NODE_KEY_SIZE: usize = 4;

pub const LEAF_NODE_KEY_OFFSET: usize = 0;

pub const LEAF_NODE_VALUE_SIZE: usize = ROW_SIZE;

pub const LEAF_NODE_VALUE_OFFSET: usize = LEAF_NODE_KEY_OFFSET + LEAF_NODE_KEY_SIZE;

pub const LEAF_NODE_CELL_SIZE: usize = LEAF_NODE_KEY_SIZE + LEAF_NODE_VALUE_SIZE;

pub const LEAF_NODE_SPACE_FOR_CELLS: usize = PAGE_SIZE - LEAF_NODE_HEADER_SIZE;

/// How many cells fit in a page's body: the hard capacity of the index.
pub const LEAF_NODE_MAX_CELLS: usize = LEAF_NODE_SPACE_FOR_CELLS / LEAF_NODE_CELL_SIZE;

/// Pins the derived capacity down to its number, so that offset arithmetic
/// over cell indices stays within the page.
pub proof fn lemma_max_cells_value()
    ensures
        LEAF_NODE_HEADER_SIZE == 10,
        LEAF_NODE_KEY_SIZE == 4,
        LEAF_NODE_VALUE_OFFSET == 4,
        LEAF_NODE_VALUE_SIZE == 291,
        LEAF_NODE_CELL_SIZE == 295,
        LEAF_NODE_MAX_CELLS == 13,
        spec_cell_offset(LEAF_NODE_MAX_CELLS as int) == 3845,
{
    assert(LEAF_NODE_SPACE_FOR_CELLS == 4086);
    assert(LEAF_NODE_CELL_SIZE == 295);
    assert(LEAF_NODE_MAX_CELLS == 4086usize / 295usize);
    assert(LEAF_NODE_MAX_CELLS == 13);
}

/// Cell `i`'s span lies after the header and within the page.
pub proof fn lemma_cell_in_page(i: int)
    requires
        0 <= i < LEAF_NODE_MAX_CELLS,
    ensures
        LEAF_NODE_HEADER_SIZE <= spec_cell_offset(i),
        spec_cell_offset(i) + LEAF_NODE_CELL_SIZE <= PAGE_SIZE,
{
    lemma_max_cells_value();
    assert(spec_cell_offset(i) == LEAF_NODE_HEADER_SIZE + i * LEAF_NODE_CELL_SIZE);
    assert(LEAF_NODE_HEADER_SIZE <= LEAF_NODE_HEADER_SIZE + i * LEAF_NODE_CELL_SIZE
        && LEAF_NODE_HEADER_SIZE + i * LEAF_NODE_CELL_SIZE + LEAF_NODE_CELL_SIZE <= PAGE_SIZE)
        by (nonlinear_arith)
        requires
            0 <= i < 13,
            LEAF_NODE_CELL_SIZE == 295,
            LEAF_NODE_HEADER_SIZE == 10,
            PAGE_SIZE == 4096,
    ;
}

/// The node kind byte of a page.
pub open spec fn spec_node_type(p: Seq<u8>) -> u8
    recommends
        p.len() == PAGE_SIZE,
{
    p[NODE_TYPE_OFFSET as int]
}

/// The cell count stored in a page's header.
pub open spec fn spec_num_cells(p: Seq<u8>) -> u32
    recommends
        p.len() == PAGE_SIZE,
{
    spec_u32_from_le_bytes(
        p.subrange(
            LEAF_NODE_NUM_CELL_OFFSET as int,
            LEAF_NODE_NUM_CELL_OFFSET + LEAF_NODE_NUM_CELL_SIZE,
        ),
    )
}

/// Byte offset where cell `i` starts.
pub open spec fn spec_cell_offset(i: int) -> int {
    LEAF_NODE_HEADER_SIZE + i * LEAF_NODE_CELL_SIZE
}

/// The bytes of cell `i`: its key followed by its value.
pub open spec fn spec_cell_bytes(p: Seq<u8>, i: int) -> Seq<u8>
    recommends
        p.len() == PAGE_SIZE,
        0 <= i < LEAF_NODE_MAX_CELLS,
{
    p.subrange(spec_cell_offset(i), spec_cell_offset(i) + LEAF_NODE_CELL_SIZE)
}

/// The key of cell `i`.
pub open spec fn spec_cell_key(p: Seq<u8>, i: int) -> u32
    recommends
        p.len() == PAGE_SIZE,
        0 <= i < LEAF_NODE_MAX_CELLS,
{
    spec_u32_from_le_bytes(spec_cell_bytes(p, i).subrange(0, LEAF_NODE_KEY_SIZE as int))
}

/// The value bytes of cell `i`: one encoded record.
pub open spec fn spec_cell_value(p: Seq<u8>, i: int) -> Seq<u8>
    recommends
        p.len() == PAGE_SIZE,
        0 <= i < LEAF_NODE_MAX_CELLS,
{
    spec_cell_bytes(p, i).subrange(LEAF_NODE_VALUE_OFFSET as int, LEAF_NODE_CELL_SIZE as int)
}

/// A page holds a well-formed leaf node: leaf kind, cell count within
/// capacity, keys strictly ascending (so no two cells share a key), and each
/// cell's key equal to the id of the record it stores.
pub open spec fn spec_leaf_wf(p: Seq<u8>) -> bool {
    &&& p.len() == PAGE_SIZE
    &&& spec_node_type(p) == spec_node_type_code(NodeType::NodeLeaf)
    &&& spec_num_cells(p) <= LEAF_NODE_MAX_CELLS
    &&& forall|i: int, j: int|
        0 <= i < j < spec_num_cells(p) ==> #[trigger] spec_cell_key(p, i)
            < #[trigger] spec_cell_key(p, j)
    &&& forall|i: int|
        0 <= i < spec_num_cells(p) ==> spec_deserialize_row(#[trigger] spec_cell_value(p, i)).id
            == spec_cell_key(p, i)
}

/// The records a leaf node holds, in cell order.
pub open spec fn spec_leaf_rows(p: Seq<u8>) -> Seq<RowAbs>
    recommends
        p.len() == PAGE_SIZE,
{
    Seq::new(spec_num_cells(p) as nat, |i: int| spec_deserialize_row(spec_cell_value(p, i)))
}

/// Two pages that agree byte for byte over cell `i`'s span hold the same
/// cell `i`.
pub proof fn lemma_cell_bytes_agree(p1: Seq<u8>, p2: Seq<u8>, i: int)
    requires
        p1.len() == PAGE_SIZE,
        p2.len() == PAGE_SIZE,
        0 <= i < LEAF_NODE_MAX_CELLS,
        forall|k: int|
            spec_cell_offset(i) <= k < spec_cell_offset(i) + LEAF_NODE_CELL_SIZE ==> p1[k] == p2[k],
    ensures
        spec_cell_bytes(p1, i) == spec_cell_bytes(p2, i),
{
    lemma_max_cells_value();
    assert_seqs_equal!(spec_cell_bytes(p1, i) == spec_cell_bytes(p2, i), k => {
        assert(p1[spec_cell_offset(i) + k] == p2[spec_cell_offset(i) + k]);
    });
}

/// Two pages that agree on the cell-count span hold the same cell count.
pub proof fn lemma_num_cells_agree(p1: Seq<u8>, p2: Seq<u8>)
    requires
        p1.len() == PAGE_SIZE,
        p2.len() == PAGE_SIZE,
        forall|k: int|
            LEAF_NODE_NUM_CELL_OFFSET <= k < LEAF_NODE_NUM_CELL_OFFSET + LEAF_NODE_NUM_CELL_SIZE
                ==> p1[k] == p2[k],
    ensures
        spec_num_cells(p1) == spec_num_cells(p2),
{
    assert_seqs_equal!(
        p1.subrange(LEAF_NODE_NUM_CELL_OFFSET as int,
            LEAF_NODE_NUM_CELL_OFFSET + LEAF_NODE_NUM_CELL_SIZE)
        == p2.subrange(LEAF_NODE_NUM_CELL_OFFSET as int,
            LEAF_NODE_NUM_CELL_OFFSET + LEAF_NODE_NUM_CELL_SIZE));
}

/// A borrowed view of one page's bytes as a node.  The layout operations are
/// associated functions over the page itself.
pub struct LeafNode<'a> {
    pub node: &'a Vec<u8>,
}

impl<'a> LeafNode<'a> {
    /// Wraps a page for reading as a node.
    pub fn new(node: &'a Vec<u8>) -> (r: Self)
        ensures
            r.node@ == node@,
    {
        LeafNode { node }
    }

    /// Reads the cell count out of the header.
    pub fn leaf_node_num_cells_safe(node: &Vec<u8>) -> (n: u32)
        requires
            node@.len() == PAGE_SIZE,
        ensures
            n == spec_num_cells(node@),
    {
        let bytes = slice_subrange(
            node.as_slice(),
            LEAF_NODE_NUM_CELL_OFFSET,
            LEAF_NODE_NUM_CELL_OFFSET + LEAF_NODE_NUM_CELL_SIZE,
        );
        u32_from_le_bytes(bytes)
    }

    /// Writes the cell count into the header.
    pub fn leaf_node_set_num_cells(node: &mut Vec<u8>, n: u32)
        requires
            old(node)@.len() == PAGE_SIZE,
        ensures
            final(node)@.len() == PAGE_SIZE,
            spec_num_cells(final(node)@) == n,
            forall|k: int|
                0 <= k < PAGE_SIZE && !(LEAF_NODE_NUM_CELL_OFFSET <= k < LEAF_NODE_NUM_CELL_OFFSET
                    + LEAF_NODE_NUM_CELL_SIZE) ==> final(node)@[k] == old(node)@[k],
    {
        proof {
            vstd::bytes::lemma_auto_spec_u32_to_from_le_bytes();
        }
        let bytes = u32_to_le_bytes(n);
        Self::write_bytes(node, LEAF_NODE_NUM_CELL_OFFSET, &bytes);
        proof {
            assert(node@.subrange(
                LEAF_NODE_NUM_CELL_OFFSET as int,
                LEAF_NODE_NUM_CELL_OFFSET + LEAF_NODE_NUM_CELL_SIZE,
            ) =~= spec_u32_to_le_bytes(n));
        }
    }

    /// Copies `bytes` over the page starting at `offset`, leaving every
    /// other byte alone.
    fn write_bytes(node: &mut Vec<u8>, offset: usize, bytes: &Vec<u8>)
        requires
            offset + bytes@.len() <= old(node)@.len() <= usize::MAX,
        ensures
            final(node)@.len() == old(node)@.len(),
            forall|k: int|
                0 <= k < old(node)@.len() && !(offset <= k < offset + bytes@.len())
                    ==> final(node)@[k] == old(node)@[k],
            forall|k: int| 0 <= k < bytes@.len() ==> final(node)@[offset + k] == bytes@[k],
    {
        let mut i: usize = 0;
        while i < bytes.len()
            invariant
                i <= bytes@.len(),
                offset + bytes@.len() <= node@.len() <= usize::MAX,
                node@.len() == old(node)@.len(),
                forall|k: int|
                    0 <= k < node@.len() && !(offset <= k < offset + bytes@.len())
                        ==> node@[k] == old(node)@[k],
                forall|k: int| 0 <= k < i ==> node@[offset + k] == bytes@[k],
            decreases bytes@.len() - i,
        {
            let b = bytes[i];
            node[offset + i] = b;
            i = i + 1;
        }
    }

    /// Copies cell `cell_num` out of the page.
    pub fn leaf_node_cell(node: &Vec<u8>, cell_num: usize) -> (r: Vec<u8>)
        requires
            node@.len() == PAGE_SIZE,
            cell_num < LEAF_NODE_MAX_CELLS,
        ensures
            r@ == spec_cell_bytes(node@, cell_num as int),
    {
        proof {
            lemma_max_cells_value();
        }
        let offset = LEAF_NODE_HEADER_SIZE + cell_num * LEAF_NODE_CELL_SIZE;
        slice_to_vec(slice_subrange(node.as_slice(), offset, offset + LEAF_NODE_CELL_SIZE))
    }

    /// Reads the key of cell `cell_num`.
    pub fn leaf_node_key(node: &Vec<u8>, cell_num: usize) -> (k: u32)
        requires
            node@.len() == PAGE_SIZE,
            cell_num < LEAF_NODE_MAX_CELLS,
        ensures
            k == spec_cell_key(node@, cell_num as int),
    {
        proof {
            lemma_max_cells_value();
        }
        let offset = LEAF_NODE_HEADER_SIZE + cell_num * LEAF_NODE_CELL_SIZE;
        let bytes = slice_subrange(node.as_slice(), offset, offset + LEAF_NODE_KEY_SIZE);
        proof {
            assert_seqs_equal!(
                node@.subrange(
                    spec_cell_offset(cell_num as int),
                    spec_cell_offset(cell_num as int) + LEAF_NODE_KEY_SIZE,
                )
                == spec_cell_bytes(node@, cell_num as int).subrange(0, LEAF_NODE_KEY_SIZE as int));
        }
        u32_from_le_bytes(bytes)
    }

    /// Copies the value bytes (one encoded record) of cell `cell_num` out of
    /// the page.
    pub fn leaf_node_value(node: &Vec<u8>, cell_num: usize) -> (v: Vec<u8>)
        requires
            node@.len() == PAGE_SIZE,
            cell_num < LEAF_NODE_MAX_CELLS,
        ensures
            v@ == spec_cell_value(node@, cell_num as int),
    {
        proof {
            lemma_max_cells_value();
        }
        let offset = LEAF_NODE_HEADER_SIZE + cell_num * LEAF_NODE_CELL_SIZE
            + LEAF_NODE_VALUE_OFFSET;
        let v = slice_to_vec(slice_subrange(node.as_slice(), offset, offset + LEAF_NODE_VALUE_SIZE));
        proof {
            assert_seqs_equal!(
                node@.subrange(
                    spec_cell_offset(cell_num as int) + LEAF_NODE_VALUE_OFFSET,
                    spec_cell_offset(cell_num as int) + LEAF_NODE_CELL_SIZE,
                )
                == spec_cell_value(node@, cell_num as int));
        }
        v
    }

    /// Reads the node kind tag.
    pub fn get_node_type(node: &Vec<u8>) -> (t: NodeType)
        requires
            node@.len() == PAGE_SIZE,
        ensures
            spec_node_type_code(t) == 1u8 <==> spec_node_type(node@) == 1u8,
            t == NodeType::NodeLeaf <==> spec_node_type(node@) == 1u8,
    {
        if node[NODE_TYPE_OFFSET] == 1u8 {
            NodeType::NodeLeaf
        } else {
            NodeType::NodeInternal
        }
    }

    /// Writes the node kind tag.
    pub fn set_node_type(node: &mut Vec<u8>, node_type: NodeType)
        requires
            old(node)@.len() == PAGE_SIZE,
        ensures
            final(node)@.len() == PAGE_SIZE,
            spec_node_type(final(node)@) == spec_node_type_code(node_type),
            forall|k: int|
                NODE_TYPE_OFFSET < k < PAGE_SIZE ==> final(node)@[k] == old(node)@[k],
    {
        let code: u8 = match node_type {
            NodeType::NodeInternal => 0u8,
            NodeType::NodeLeaf => 1u8,
        };
        node[NODE_TYPE_OFFSET] = code;
    }

    /// Makes a page an empty leaf: leaf kind, zero cells.  Called once when
    /// a brand-new page becomes the root.
    pub fn initialize_leaf_node(node: &mut Vec<u8>)
        requires
            old(node)@.len() == PAGE_SIZE,
        ensures
            final(node)@.len() == PAGE_SIZE,
            spec_leaf_wf(final(node)@),
            spec_num_cells(final(node)@) == 0,
            spec_leaf_rows(final(node)@) == Seq::<RowAbs>::empty(),
    {
        Self::set_node_type(node, NodeType::NodeLeaf);
        Self::leaf_node_set_num_cells(node, 0);
        proof {
            assert(spec_leaf_rows(node@) =~= Seq::<RowAbs>::empty());
        }
    }

    /// Inserts a cell `(key, value)` at position `cell_num`, shifting every
    /// cell at or after it one slot right (highest first), and bumping the
    /// cell count.  Fails, touching nothing, when the node is full: this
    /// index has no splitting, the capacity is a hard ceiling.
    pub fn leaf_node_insert(node: &mut Vec<u8>, cell_num: usize, key: u32, value: &Row) -> (r:
        Result<(), NodeError>)
        requires
            old(node)@.len() == PAGE_SIZE,
            cell_num <= spec_num_cells(old(node)@),
        ensures
            final(node)@.len() == PAGE_SIZE,
            r is Err <==> spec_num_cells(old(node)@) >= LEAF_NODE_MAX_CELLS,
            r is Err ==> final(node)@ == old(node)@,
            r is Ok ==> ({
                let p0 = old(node)@;
                let p1 = final(node)@;
                let n = spec_num_cells(p0) as int;
                let c = cell_num as int;
                &&& spec_num_cells(p1) == n + 1
                &&& spec_node_type(p1) == spec_node_type(p0)
                &&& forall|k: int| 0 <= k < LEAF_NODE_NUM_CELL_OFFSET ==> p1[k] == p0[k]
                &&& forall|k: int|
                    spec_cell_offset(n + 1) <= k < PAGE_SIZE ==> p1[k] == p0[k]
                &&& forall|j: int|
                    0 <= j < c ==> #[trigger] spec_cell_bytes(p1, j) == spec_cell_bytes(p0, j)
                &&& spec_cell_key(p1, c) == key
                &&& spec_cell_value(p1, c) == spec_serialize_row(value@)
                &&& forall|j: int|
                    c < j <= n ==> #[trigger] spec_cell_bytes(p1, j) == spec_cell_bytes(p0, j - 1)
            }),
    {
        proof {
            lemma_max_cells_value();
            vstd::bytes::lemma_auto_spec_u32_to_from_le_bytes();
        }
        let num_cells = Self::leaf_node_num_cells_safe(node);
        if num_cells as usize >= LEAF_NODE_MAX_CELLS {
            // Node full.
            return Err(NodeError::Capacity);
        }
        let n = num_cells as usize;
        let ghost p0 = node@;

        // Make room for the new cell: move each of the cells at positions
        // cell_num..n one slot right, highest index first, so no source is
        // overwritten before it is copied.
        let mut i: usize = n;
        while i > cell_num
            invariant
                cell_num <= i <= n,
                n < LEAF_NODE_MAX_CELLS,
                LEAF_NODE_MAX_CELLS == 13,
                LEAF_NODE_CELL_SIZE == 295,
                node@.len() == PAGE_SIZE,
                p0.len() == PAGE_SIZE,
                forall|k: int| 0 <= k < LEAF_NODE_HEADER_SIZE ==> node@[k] == p0[k],
                forall|k: int| spec_cell_offset(n + 1) <= k < PAGE_SIZE ==> node@[k] == p0[k],
                forall|j: int|
                    0 <= j <= i ==> #[trigger] spec_cell_bytes(node@, j) == spec_cell_bytes(p0, j),
                forall|j: int|
                    i < j <= n ==> #[trigger] spec_cell_bytes(node@, j) == spec_cell_bytes(
                        p0,
                        j - 1,
                    ),
            decreases i,
        {
            let ghost p_before = node@;
            let cell = Self::leaf_node_cell(node, i - 1);
            let offset = LEAF_NODE_HEADER_SIZE + i * LEAF_NODE_CELL_SIZE;
            Self::write_bytes(node, offset, &cell);
            proof {
                assert forall|k: int| 0 <= k < LEAF_NODE_HEADER_SIZE implies node@[k] == p0[k] by {
                    assert(node@[k] == p_before[k]);
                }
                assert forall|k: int|
                    spec_cell_offset(n + 1) <= k < PAGE_SIZE implies node@[k] == p0[k] by {
                    assert(spec_cell_offset(i as int) + LEAF_NODE_CELL_SIZE <= spec_cell_offset(
                        n + 1,
                    ));
                    assert(node@[k] == p_before[k]);
                }
                assert forall|j: int| 0 <= j <= i - 1 implies #[trigger] spec_cell_bytes(node@, j)
                    == spec_cell_bytes(p0, j) by {
                    assert(spec_cell_offset(j) + LEAF_NODE_CELL_SIZE <= spec_cell_offset(i as int));
                    lemma_cell_bytes_agree(p_before, node@, j);
                }
                assert(spec_cell_bytes(node@, i as int) =~= spec_cell_bytes(p0, i - 1)) by {
                    assert(forall|k: int|
                        0 <= k < LEAF_NODE_CELL_SIZE ==> node@[spec_cell_offset(i as int) + k]
                            == cell@[k]);
                    assert(cell@ == spec_cell_bytes(p_before, i - 1));
                    assert(spec_cell_bytes(p_before, i - 1) == spec_cell_bytes(p0, i - 1));
                }
                assert forall|j: int| i < j <= n implies #[trigger] spec_cell_bytes(node@, j)
                    == spec_cell_bytes(p0, j - 1) by {
                    assert(spec_cell_offset(i as int) + LEAF_NODE_CELL_SIZE <= spec_cell_offset(j));
                    lemma_cell_bytes_agree(p_before, node@, j);
                }
            }
            i = i - 1;
        }

        let ghost p_shifted = node@;
        Self::leaf_node_set_num_cells(node, num_cells + 1);
        proof {
            assert forall|j: int| 0 <= j <= n implies #[trigger] spec_cell_bytes(node@, j)
                == spec_cell_bytes(p_shifted, j) by {
                lemma_cell_bytes_agree(p_shifted, node@, j);
            }
            assert(forall|k: int| 0 <= k < LEAF_NODE_NUM_CELL_OFFSET ==> node@[k] == p0[k]);
            assert(forall|k: int|
                spec_cell_offset(n + 1) <= k < PAGE_SIZE ==> node@[k] == p0[k]);
        }

        let ghost p_counted = node@;
        let key_bytes = u32_to_le_bytes(key);
        let key_offset = LEAF_NODE_HEADER_SIZE + cell_num * LEAF_NODE_CELL_SIZE;
        Self::write_bytes(node, key_offset, &key_bytes);
        proof {
            assert forall|j: int| 0 <= j <= n && j != cell_num implies #[trigger] spec_cell_bytes(
                node@,
                j,
            ) == spec_cell_bytes(p_counted, j) by {
                lemma_cell_bytes_agree(p_counted, node@, j);
            }
            lemma_num_cells_agree(p_counted, node@);
            assert(spec_cell_bytes(node@, cell_num as int).subrange(0, LEAF_NODE_KEY_SIZE as int)
                =~= spec_u32_to_le_bytes(key));
            assert(spec_cell_offset(cell_num as int) + LEAF_NODE_CELL_SIZE <= spec_cell_offset(
                n + 1,
            ));
            assert(forall|k: int| 0 <= k < LEAF_NODE_NUM_CELL_OFFSET ==> node@[k] == p0[k]);
            assert(forall|k: int|
                spec_cell_offset(n + 1) <= k < PAGE_SIZE ==> node@[k] == p0[k]);
        }

        let ghost p_keyed = node@;
        let mut row_buf: Vec<u8> = vec![0u8; ROW_SIZE];
        value.serialize_row(&mut row_buf);
        let value_offset = LEAF_NODE_HEADER_SIZE + cell_num * LEAF_NODE_CELL_SIZE
            + LEAF_NODE_VALUE_OFFSET;
        Self::write_bytes(node, value_offset, &row_buf);
        proof {
            assert forall|j: int| 0 <= j <= n && j != cell_num implies #[trigger] spec_cell_bytes(
                node@,
                j,
            ) == spec_cell_bytes(p_keyed, j) by {
                lemma_cell_bytes_agree(p_keyed, node@, j);
            }
            lemma_num_cells_agree(p_keyed, node@);
            assert(spec_cell_bytes(node@, cell_num as int).subrange(0, LEAF_NODE_KEY_SIZE as int)
                =~= spec_cell_bytes(p_keyed, cell_num as int).subrange(
                0,
                LEAF_NODE_KEY_SIZE as int,
            ));
            assert(spec_cell_value(node@, cell_num as int) =~= spec_serialize_row(value@));
            assert(spec_num_cells(node@) == n + 1);
            assert(spec_node_type(node@) == spec_node_type(p0));
            assert(forall|k: int| 0 <= k < LEAF_NODE_NUM_CELL_OFFSET ==> node@[k] == p0[k]);
            assert(forall|k: int|
                spec_cell_offset(n + 1) <= k < PAGE_SIZE ==> node@[k] == p0[k]);
        }
        Ok(())
    }
}

/// The typed failure of a node-level operation: the node is at its hard
/// cell capacity and cannot take another record.
#[derive(Debug, PartialEq, Eq, Structural, Clone, Copy)]
pub enum NodeError {
    Capacity,
}

} // verus!
