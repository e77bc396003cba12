//! The record type, its fixed-layout binary codec, and (further below, once
//! the rest of the store exists) the table facade.
//!
//! A record is `{ id, username, email }` with the two text fields stored
//! left-justified and zero-padded to their fixed widths.  Its encoded form is
//! the 4-byte little-endian `id` followed by the two fields, 291 bytes in all.

use vstd::prelude::*;
use vstd::assert_seqs_equal;
use vstd::string::StringSliceAdditionalSpecFns;
use vstd::bytes::{spec_u32_from_le_bytes, spec_u32_to_le_bytes, u32_from_le_bytes, u32_to_le_bytes};
use vstd::slice::slice_subrange;
use crate::data_consts::{
    ID_OFFSET, ID_SIZE, USERNAME_OFFSET, USERNAME_SIZE, EMAIL_OFFSET, EMAIL_SIZE, ROW_SIZE,
    PAGE_SIZE, TABLE_MAX_PAGES, spec_zero_extend,
};
use crate::leaf_node::{
    lemma_max_cells_value, spec_cell_bytes, spec_cell_key, spec_cell_offset, spec_cell_value,
    spec_leaf_rows, spec_leaf_wf, spec_num_cells, LeafNode, NodeType, LEAF_NODE_MAX_CELLS,
    LEAF_NODE_NUM_CELL_OFFSET,
};
use crate::pager::{spec_file_page, Pager, PagerError};

verus! {

/// The mathematical value of a record: the key and the two fields as byte
/// sequences of their full fixed widths.
#[verifier::ext_equal]
pub struct RowAbs {
    pub id: u32,
    pub username: Seq<u8>,
    pub email: Seq<u8>,
}

/// A record's fields have their full fixed widths.
pub open spec fn row_abs_wf(r: RowAbs) -> bool {
    &&& r.username.len() == USERNAME_SIZE
    &&& r.email.len() == EMAIL_SIZE
}

/// A record as stored: the key and the two zero-padded fixed-width fields.
#[derive(Debug)]
pub struct Row {
    pub id: u32,
    pub username: [u8; USERNAME_SIZE],
    pub email: [u8; EMAIL_SIZE],
}

impl View for Row {
    type V = RowAbs;

    open spec fn view(&self) -> RowAbs {
        RowAbs { id: self.id, username: self.username@, email: self.email@ }
    }
}

/// The encoded form of a record: little-endian `id`, then the two fields.
pub open spec fn spec_serialize_row(r: RowAbs) -> Seq<u8> {
    spec_u32_to_le_bytes(r.id) + r.username + r.email
}

/// The record read back from the first `ROW_SIZE` bytes of `b`.
pub open spec fn spec_deserialize_row(b: Seq<u8>) -> RowAbs
    recommends
        b.len() >= ROW_SIZE,
{
    RowAbs {
        id: spec_u32_from_le_bytes(b.subrange(ID_OFFSET as int, ID_OFFSET + ID_SIZE)),
        username: b.subrange(USERNAME_OFFSET as int, USERNAME_OFFSET + USERNAME_SIZE),
        email: b.subrange(EMAIL_OFFSET as int, EMAIL_OFFSET + EMAIL_SIZE),
    }
}

/// Decoding an encoded record gives the record back: the codec loses nothing.
pub proof fn lemma_row_round_trip(r: RowAbs)
    requires
        row_abs_wf(r),
    ensures
        spec_serialize_row(r).len() == ROW_SIZE,
        spec_deserialize_row(spec_serialize_row(r)) == r,
{
    vstd::bytes::lemma_auto_spec_u32_to_from_le_bytes();
    let b = spec_serialize_row(r);
    assert_seqs_equal!(b.subrange(ID_OFFSET as int, ID_OFFSET + ID_SIZE) == spec_u32_to_le_bytes(r.id));
    assert_seqs_equal!(b.subrange(USERNAME_OFFSET as int, USERNAME_OFFSET + USERNAME_SIZE) == r.username);
    assert_seqs_equal!(b.subrange(EMAIL_OFFSET as int, EMAIL_OFFSET + EMAIL_SIZE) == r.email);
    assert(spec_deserialize_row(b) =~= r);
}

/// Encoding the record read from a full-length span gives the span back:
/// every 291-byte span is some record's encoding.
pub proof fn lemma_row_round_trip_bytes(b: Seq<u8>)
    requires
        b.len() == ROW_SIZE,
    ensures
        row_abs_wf(spec_deserialize_row(b)),
        spec_serialize_row(spec_deserialize_row(b)) == b,
{
    vstd::bytes::lemma_auto_spec_u32_to_from_le_bytes();
    assert_seqs_equal!(spec_serialize_row(spec_deserialize_row(b)) == b);
}

impl Row {
    /// Builds a record from its parts, zero-padding the text fields out to
    /// their fixed widths.
    pub fn new(id: u32, username: &str, email: &str) -> (r: Row)
        requires
            username.spec_bytes().len() <= USERNAME_SIZE,
            email.spec_bytes().len() <= EMAIL_SIZE,
        ensures
            r@.id == id,
            r@.username == spec_zero_extend(username.spec_bytes(), USERNAME_SIZE as int),
            r@.email == spec_zero_extend(email.spec_bytes(), EMAIL_SIZE as int),
    {
        let mut row = Row { id, username: [0; USERNAME_SIZE], email: [0; EMAIL_SIZE] };

        let username_bytes: &[u8] = username.as_bytes();
        let email_bytes: &[u8] = email.as_bytes();

        let mut i: usize = 0;
        while i < username_bytes.len()
            invariant
                i <= username_bytes@.len() <= USERNAME_SIZE,
                username_bytes@ == username.spec_bytes(),
                row.id == id,
                row.username@.len() == USERNAME_SIZE,
                row.email@.len() == EMAIL_SIZE,
                forall|k: int| 0 <= k < i ==> row.username@[k] == username_bytes@[k],
                forall|k: int| i <= k < USERNAME_SIZE ==> row.username@[k] == 0u8,
                forall|k: int| 0 <= k < EMAIL_SIZE ==> row.email@[k] == 0u8,
            decreases username_bytes@.len() - i,
        {
            row.username[i] = username_bytes[i];
            i = i + 1;
        }

        proof {
            assert(row.username@ =~= spec_zero_extend(username.spec_bytes(), USERNAME_SIZE as int));
        }

        let mut j: usize = 0;
        while j < email_bytes.len()
            invariant
                j <= email_bytes@.len() <= EMAIL_SIZE,
                email_bytes@ == email.spec_bytes(),
                row.id == id,
                row.username@ == spec_zero_extend(username.spec_bytes(), USERNAME_SIZE as int),
                row.email@.len() == EMAIL_SIZE,
                forall|k: int| 0 <= k < j ==> row.email@[k] == email_bytes@[k],
                forall|k: int| j <= k < EMAIL_SIZE ==> row.email@[k] == 0u8,
            decreases email_bytes@.len() - j,
        {
            row.email[j] = email_bytes[j];
            j = j + 1;
        }

        proof {
            assert(row.email@ =~= spec_zero_extend(email.spec_bytes(), EMAIL_SIZE as int));
        }
        row
    }

    /// Writes the record's encoded form over `destination`, which must be
    /// exactly one encoded record long.
    pub fn serialize_row(&self, destination: &mut Vec<u8>)
        requires
            old(destination)@.len() == ROW_SIZE,
        ensures
            final(destination)@ == spec_serialize_row(self@),
    {
        proof {
            vstd::bytes::lemma_auto_spec_u32_to_from_le_bytes();
        }
        let id_bytes = u32_to_le_bytes(self.id);
        let mut i: usize = 0;
        while i < ID_SIZE
            invariant
                i <= ID_SIZE,
                destination@.len() == ROW_SIZE,
                id_bytes@ == spec_u32_to_le_bytes(self.id),
                id_bytes@.len() == ID_SIZE,
                forall|k: int| 0 <= k < i ==> destination@[ID_OFFSET + k] == id_bytes@[k],
            decreases ID_SIZE - i,
        {
            let b = id_bytes[i];
            destination[ID_OFFSET + i] = b;
            i = i + 1;
        }

        let mut j: usize = 0;
        while j < USERNAME_SIZE
            invariant
                j <= USERNAME_SIZE,
                destination@.len() == ROW_SIZE,
                id_bytes@ == spec_u32_to_le_bytes(self.id),
                forall|k: int| 0 <= k < ID_SIZE ==> destination@[ID_OFFSET + k] == id_bytes@[k],
                forall|k: int| 0 <= k < j ==> destination@[USERNAME_OFFSET + k] == self.username@[k],
            decreases USERNAME_SIZE - j,
        {
            let b = self.username[j];
            destination[USERNAME_OFFSET + j] = b;
            j = j + 1;
        }

        let mut m: usize = 0;
        while m < EMAIL_SIZE
            invariant
                m <= EMAIL_SIZE,
                destination@.len() == ROW_SIZE,
                id_bytes@ == spec_u32_to_le_bytes(self.id),
                forall|k: int| 0 <= k < ID_SIZE ==> destination@[ID_OFFSET + k] == id_bytes@[k],
                forall|k: int| 0 <= k < USERNAME_SIZE
                    ==> destination@[USERNAME_OFFSET + k] == self.username@[k],
                forall|k: int| 0 <= k < m ==> destination@[EMAIL_OFFSET + k] == self.email@[k],
            decreases EMAIL_SIZE - m,
        {
            let b = self.email[m];
            destination[EMAIL_OFFSET + m] = b;
            m = m + 1;
        }

        proof {
            assert_seqs_equal!(destination@ == spec_serialize_row(self@), k => {
                if k < ID_OFFSET + ID_SIZE {
                } else if k < USERNAME_OFFSET + USERNAME_SIZE {
                    assert(destination@[USERNAME_OFFSET + (k - USERNAME_OFFSET)]
                        == self.username@[k - USERNAME_OFFSET]);
                } else {
                    assert(destination@[EMAIL_OFFSET + (k - EMAIL_OFFSET)]
                        == self.email@[k - EMAIL_OFFSET]);
                }
            });
        }
    }

    /// Reads a record back out of its encoded form.
    pub fn deserialize_row(source: &[u8]) -> (r: Row)
        requires
            source@.len() >= ROW_SIZE,
        ensures
            r@ == spec_deserialize_row(source@),
    {
        let id = u32_from_le_bytes(slice_subrange(source, ID_OFFSET, ID_OFFSET + ID_SIZE));

        let mut username = [0u8; USERNAME_SIZE];
        let mut i: usize = 0;
        while i < USERNAME_SIZE
            invariant
                i <= USERNAME_SIZE,
                source@.len() >= ROW_SIZE,
                username@.len() == USERNAME_SIZE,
                forall|k: int| 0 <= k < i ==> username@[k] == source@[USERNAME_OFFSET + k],
            decreases USERNAME_SIZE - i,
        {
            username[i] = source[USERNAME_OFFSET + i];
            i = i + 1;
        }

        let mut email = [0u8; EMAIL_SIZE];
        let mut j: usize = 0;
        while j < EMAIL_SIZE
            invariant
                j <= EMAIL_SIZE,
                source@.len() >= ROW_SIZE,
                email@.len() == EMAIL_SIZE,
                forall|k: int| 0 <= k < j ==> email@[k] == source@[EMAIL_OFFSET + k],
            decreases EMAIL_SIZE - j,
        {
            email[j] = source[EMAIL_OFFSET + j];
            j = j + 1;
        }

        let row = Row { id, username, email };
        proof {
            assert(row.username@ =~= source@.subrange(
                USERNAME_OFFSET as int,
                USERNAME_OFFSET + USERNAME_SIZE,
            ));
            assert(row.email@ =~= source@.subrange(EMAIL_OFFSET as int, EMAIL_OFFSET + EMAIL_SIZE));
            assert(source@.subrange(ID_OFFSET as int, ID_OFFSET + ID_SIZE)
                =~= source@.subrange(ID_OFFSET as int, ID_OFFSET + ID_SIZE));
        }
        row
    }

    /// Reads a record out of its encoded form into an existing record.
    pub fn deserialize_row_existing_ref(source: &[u8], destination: &mut Row)
        requires
            source@.len() >= ROW_SIZE,
        ensures
            final(destination)@ == spec_deserialize_row(source@),
    {
        *destination = Self::deserialize_row(source);
    }
}

impl Default for Row {
    /// The all-zero record: key 0 and both fields blank.
    fn default() -> (r: Row)
        ensures
            r@.id == 0,
            r@.username == Seq::<u8>::new(USERNAME_SIZE as nat, |i: int| 0u8),
            r@.email == Seq::<u8>::new(EMAIL_SIZE as nat, |i: int| 0u8),
    {
        let row = Row { id: 0, username: [0; USERNAME_SIZE], email: [0; EMAIL_SIZE] };
        proof {
            assert(row.username@ =~= Seq::<u8>::new(USERNAME_SIZE as nat, |i: int| 0u8));
            assert(row.email@ =~= Seq::<u8>::new(EMAIL_SIZE as nat, |i: int| 0u8));
        }
        row
    }
}

/// The outcome of one caller-facing operation on the table.
#[derive(Debug, PartialEq, Eq, Structural, Clone, Copy)]
pub enum ExecuteResult {
    ExecuteSuccess,
    ExecuteTableFull,
    ExecuteFailed,
    ExecuteDuplicateKey,
}

/// The records a database file holds: the cells of its root leaf, page 0.
pub open spec fn spec_file_rows(file: Seq<u8>) -> Seq<RowAbs> {
    spec_leaf_rows(spec_file_page(file, 0))
}

/// The file's root page holds a well-formed leaf.
pub open spec fn spec_file_root_wf(file: Seq<u8>) -> bool {
    spec_leaf_wf(spec_file_page(file, 0))
}

/// The files an open accepts: a whole number of pages, and, unless brand
/// new, a well-formed root leaf.
pub open spec fn spec_open_ok(file: Seq<u8>) -> bool {
    &&& file.len() as int % (PAGE_SIZE as int) == 0
    &&& (file.len() == 0 || spec_file_root_wf(file))
}

/// The table facade: owns the page store and knows which page is the root.
pub struct Table {
    pub pager: Pager,
    pub root_page_num: usize,
}

impl Table {
    /// The table's invariant: a well-formed store whose root is page 0 and
    /// holds a well-formed leaf.
    pub open spec fn wf(self) -> bool {
        &&& self.pager.wf()
        &&& self.root_page_num == 0
        &&& spec_leaf_wf(self.pager.page_view(0))
    }

    /// The records the table holds, in cell (hence key) order.
    pub open spec fn rows(self) -> Seq<RowAbs> {
        spec_leaf_rows(self.pager.page_view(0))
    }

    /// Checks that a page holds a well-formed leaf: leaf kind, cell count
    /// within capacity, keys strictly ascending, each key equal to its
    /// record's id.
    fn validate_leaf(page: &Vec<u8>) -> (b: bool)
        requires
            page@.len() == PAGE_SIZE,
        ensures
            b == spec_leaf_wf(page@),
    {
        proof {
            lemma_max_cells_value();
        }
        let node_type = LeafNode::get_node_type(page);
        if node_type != NodeType::NodeLeaf {
            return false;
        }
        let num_cells = LeafNode::leaf_node_num_cells_safe(page);
        if num_cells as usize > LEAF_NODE_MAX_CELLS {
            return false;
        }
        let n = num_cells as usize;

        let mut i: usize = 0;
        while i < n
            invariant
                i <= n,
                n == spec_num_cells(page@),
                n <= LEAF_NODE_MAX_CELLS,
                LEAF_NODE_MAX_CELLS == 13,
                page@.len() == PAGE_SIZE,
                forall|k: int|
                    0 <= k < i && k + 1 < n ==> #[trigger] spec_cell_key(page@, k)
                        < spec_cell_key(page@, k + 1),
                forall|k: int|
                    0 <= k < i ==> spec_deserialize_row(#[trigger] spec_cell_value(page@, k)).id
                        == spec_cell_key(page@, k),
            decreases n - i,
        {
            let key = LeafNode::leaf_node_key(page, i);
            if i + 1 < n {
                let next_key = LeafNode::leaf_node_key(page, i + 1);
                if next_key <= key {
                    return false;
                }
            }
            let value = LeafNode::leaf_node_value(page, i);
            proof {
                lemma_max_cells_value();
                crate::leaf_node::lemma_cell_in_page(i as int);
                assert(ROW_SIZE == 291);
                assert(value@.len() == ROW_SIZE);
            }
            let row = Row::deserialize_row(value.as_slice());
            if row.id != key {
                return false;
            }
            i = i + 1;
        }

        proof {
            assert forall|a: int, b2: int| 0 <= a < b2 < n implies spec_cell_key(page@, a)
                < spec_cell_key(page@, b2) by {
                lemma_ascending_pairs(page@, n as int, a, b2);
            }
        }
        true
    }

    /// Opens a table over a file's bytes.  A brand-new (empty) file gets
    /// page 0 initialized as an empty root leaf; an existing file must be a
    /// whole number of pages and carry a well-formed root leaf, else it is
    /// rejected as corrupt.
    pub fn db_open(file_contents: Vec<u8>) -> (r: Result<Table, PagerError>)
        ensures
            r is Ok <==> spec_open_ok(file_contents@),
            r is Err ==> r == Err::<Table, PagerError>(PagerError::Corruption),
            r matches Ok(t) ==> {
                &&& t.wf()
                &&& t.pager.file_contents@ == file_contents@
                &&& t.rows() == if file_contents@.len() == 0 {
                    Seq::<RowAbs>::empty()
                } else {
                    spec_file_rows(file_contents@)
                }
            },
    {
        let ghost file = file_contents@;
        let mut pager = match Pager::pager_open(file_contents) {
            Ok(p) => p,
            Err(_) => {
                return Err(PagerError::Corruption);
            },
        };

        if pager.num_pages == 0 {
            // New database file: make page 0 an empty root leaf.
            let mut root_node = match pager.get_page(0) {
                Ok(p) => p,
                Err(_) => {
                    proof {
                        assert(false);
                    }
                    Vec::new()
                },
            };
            LeafNode::initialize_leaf_node(&mut root_node);
            pager.write_page(0, root_node);
            Ok(Table { pager, root_page_num: 0 })
        } else {
            let root_node = match pager.get_page(0) {
                Ok(p) => p,
                Err(_) => {
                    proof {
                        assert(false);
                    }
                    Vec::new()
                },
            };
            if !Self::validate_leaf(&root_node) {
                return Err(PagerError::Corruption);
            }
            let table = Table { pager, root_page_num: 0 };
            proof {
                assert(table.pager.page_view(0) == spec_file_page(file, 0));
            }
            Ok(table)
        }
    }
}

/// Where a new key belongs in a key-ordered record sequence: the count of
/// records whose id is below it.
pub open spec fn spec_row_insert_pos(rows: Seq<RowAbs>, key: u32) -> int
    decreases rows.len(),
{
    if rows.len() == 0 {
        0
    } else if rows[0].id < key {
        1 + spec_row_insert_pos(rows.drop_first(), key)
    } else {
        0int
    }
}

/// Any index that splits the sequence into ids below the key and ids at or
/// above it is the insert position.
pub proof fn lemma_row_insert_pos_characterized(rows: Seq<RowAbs>, key: u32, c: int)
    requires
        0 <= c <= rows.len(),
        forall|j: int| 0 <= j < c ==> rows[j].id < key,
        forall|j: int| c <= j < rows.len() ==> rows[j].id >= key,
    ensures
        spec_row_insert_pos(rows, key) == c,
    decreases rows.len(),
{
    if rows.len() == 0 {
    } else if rows[0].id < key {
        assert(c >= 1);
        let rest = rows.drop_first();
        assert(forall|j: int| 0 <= j < c - 1 ==> rest[j].id < key);
        assert(forall|j: int| c - 1 <= j < rest.len() ==> rest[j].id >= key);
        lemma_row_insert_pos_characterized(rest, key, c - 1);
    } else {
        assert(c == 0);
    }
}

impl Table {
    /// Inserts a record keyed by its id.  Rejects a full node before
    /// searching; rejects a key already present without touching anything;
    /// otherwise places the record at its ordered position.  The result
    /// says which, exactly: `ExecuteFailed` cannot come out of a
    /// well-formed table.
    pub fn insert_row(&mut self, row_to_insert: &Row) -> (r: ExecuteResult)
        requires
            old(self).wf(),
        ensures
            final(self).wf(),
            final(self).root_page_num == old(self).root_page_num,
            final(self).pager.file_contents@ == old(self).pager.file_contents@,
            r != ExecuteResult::ExecuteSuccess ==> forall|m: int|
                0 <= m < TABLE_MAX_PAGES
                    ==> final(self).pager.page_view(m) == old(self).pager.page_view(m),
            r == ExecuteResult::ExecuteSuccess ==> forall|m: int|
                0 <= m < TABLE_MAX_PAGES && m != old(self).root_page_num
                    ==> final(self).pager.page_view(m) == old(self).pager.page_view(m),
            r == ExecuteResult::ExecuteSuccess ==> ({
                // Only the cell array and the count move: the rest of the
                // node header and the tail of the root page stay byte for
                // byte.
                let p0 = old(self).pager.page_view(0);
                let p1 = final(self).pager.page_view(0);
                &&& forall|k: int| 0 <= k < LEAF_NODE_NUM_CELL_OFFSET ==> p1[k] == p0[k]
                &&& forall|k: int|
                    spec_cell_offset(old(self).rows().len() as int + 1) <= k < PAGE_SIZE ==> p1[k]
                        == p0[k]
            }),
            ({
                let rs = old(self).rows();
                let n = rs.len() as int;
                let key = row_to_insert@.id;
                &&& (r == ExecuteResult::ExecuteTableFull <==> n >= LEAF_NODE_MAX_CELLS)
                &&& (r == ExecuteResult::ExecuteDuplicateKey <==> (n < LEAF_NODE_MAX_CELLS
                    && exists|i: int| 0 <= i < n && #[trigger] rs[i].id == key))
                &&& (r == ExecuteResult::ExecuteSuccess <==> (n < LEAF_NODE_MAX_CELLS && !exists|
                    i: int,
                |
                    0 <= i < n && #[trigger] rs[i].id == key))
                &&& r != ExecuteResult::ExecuteFailed
                &&& (r != ExecuteResult::ExecuteSuccess ==> final(self).rows() == rs)
                &&& (r == ExecuteResult::ExecuteSuccess ==> final(self).rows() == rs.insert(
                    spec_row_insert_pos(rs, key),
                    row_to_insert@,
                ))
            }),
    {
        proof {
            lemma_max_cells_value();
        }
        let ghost p0 = self.pager.page_view(0);
        let ghost rs = self.rows();

        let root_page_num = self.root_page_num;
        let node = match self.pager.get_page(root_page_num) {
            Ok(page) => page,
            Err(_) => {
                proof {
                    assert(false);
                }
                return ExecuteResult::ExecuteFailed;
            },
        };

        let num_cells = LeafNode::leaf_node_num_cells_safe(&node);
        if num_cells as usize >= LEAF_NODE_MAX_CELLS {
            return ExecuteResult::ExecuteTableFull;
        }
        let n = num_cells as usize;

        let key_to_insert = row_to_insert.id;
        let (cursor_page_num, cursor_cell_num) = crate::cursor::Cursor::table_find_position(
            self,
            key_to_insert,
        );
        let c = cursor_cell_num;

        let mut node = match self.pager.get_page(cursor_page_num) {
            Ok(page) => page,
            Err(_) => {
                proof {
                    assert(false);
                }
                return ExecuteResult::ExecuteFailed;
            },
        };
        proof {
            assert(cursor_page_num == 0);
            assert(node@ == p0);
        }

        if c < n {
            let key_at_index = LeafNode::leaf_node_key(&node, c);
            if key_at_index == key_to_insert {
                proof {
                    assert(rs[c as int].id == spec_cell_key(p0, c as int));
                }
                return ExecuteResult::ExecuteDuplicateKey;
            }
        }

        proof {
            // No cell holds this key: below the position keys are smaller,
            // at and above it they are larger.
            assert forall|i: int| 0 <= i < n implies #[trigger] rs[i].id != key_to_insert by {
                assert(rs[i].id == spec_cell_key(p0, i));
            }
        }

        match LeafNode::leaf_node_insert(&mut node, c, key_to_insert, row_to_insert) {
            Ok(()) => {},
            Err(_) => {
                proof {
                    assert(false);
                }
                return ExecuteResult::ExecuteFailed;
            },
        }
        let ghost p1 = node@;
        self.pager.write_page(cursor_page_num, node);

        proof {
            lemma_row_round_trip(row_to_insert@);
            let ci = c as int;
            let ni = n as int;

            assert(spec_num_cells(p1) == ni + 1);
            assert(spec_num_cells(p1) <= LEAF_NODE_MAX_CELLS);

            // Keys and values around the insert point, cell by cell.
            assert forall|j: int| 0 <= j < ci implies spec_cell_key(p1, j) == spec_cell_key(p0, j)
                && spec_cell_value(p1, j) == spec_cell_value(p0, j) by {
                assert(spec_cell_bytes(p1, j) == spec_cell_bytes(p0, j));
            }
            assert forall|j: int| ci < j <= ni implies spec_cell_key(p1, j) == spec_cell_key(
                p0,
                j - 1,
            ) && spec_cell_value(p1, j) == spec_cell_value(p0, j - 1) by {
                assert(spec_cell_bytes(p1, j) == spec_cell_bytes(p0, j - 1));
            }

            // Strict ascent across the new cell.
            assert forall|a: int, b: int| 0 <= a < b < ni + 1 implies spec_cell_key(p1, a)
                < spec_cell_key(p1, b) by {
                if b < ci {
                } else if a < ci && b == ci {
                    assert(spec_cell_key(p0, a) < key_to_insert);
                } else if a < ci && b > ci {
                    assert(spec_cell_key(p1, b) == spec_cell_key(p0, b - 1));
                    assert(spec_cell_key(p0, b - 1) >= key_to_insert);
                    assert(spec_cell_key(p0, b - 1) != key_to_insert);
                } else if a == ci {
                    assert(spec_cell_key(p1, b) == spec_cell_key(p0, b - 1));
                    assert(spec_cell_key(p0, b - 1) >= key_to_insert);
                    assert(spec_cell_key(p0, b - 1) != key_to_insert);
                } else {
                }
            }

            // Every cell's key still matches its record's id.
            assert forall|j: int| 0 <= j < ni + 1 implies spec_deserialize_row(
                #[trigger] spec_cell_value(p1, j),
            ).id == spec_cell_key(p1, j) by {
                if j == ci {
                    assert(spec_cell_value(p1, j) == spec_serialize_row(row_to_insert@));
                }
            }

            assert(self.wf());

            // The record sequence is the old one with the new record at its
            // ordered position.
            assert forall|j: int| 0 <= j < ci implies rs[j].id < key_to_insert by {
                assert(rs[j].id == spec_cell_key(p0, j));
            }
            assert forall|j: int| ci <= j < ni implies rs[j].id >= key_to_insert by {
                assert(rs[j].id == spec_cell_key(p0, j));
            }
            lemma_row_insert_pos_characterized(rs, key_to_insert, ci);
            assert(self.rows() =~= rs.insert(ci, row_to_insert@));
        }

        ExecuteResult::ExecuteSuccess
    }
}

impl Table {
    /// Flushes every loaded page back into the file image, in page-number
    /// order; pages never touched are never written.  The image then holds
    /// exactly the table's records and reopens to them: what `db_open`
    /// accepts and decodes is what stood in the table here.
    pub fn db_close(&mut self) -> (r: Result<(), PagerError>)
        requires
            old(self).wf(),
        ensures
            r is Ok,
            final(self).wf(),
            final(self).rows() == old(self).rows(),
            final(self).pager.pages@ == old(self).pager.pages@,
            spec_open_ok(final(self).pager.file_contents@),
            final(self).pager.file_contents@.len() > 0,
            spec_file_rows(final(self).pager.file_contents@) == old(self).rows(),
            forall|i: int|
                0 <= i < TABLE_MAX_PAGES && old(self).pager.pages@[i] is Some
                    ==> #[trigger] spec_file_page(final(self).pager.file_contents@, i)
                        == old(self).pager.page_view(i),
            forall|i: int|
                0 <= i < TABLE_MAX_PAGES && old(self).pager.pages@[i] is None
                    ==> #[trigger] spec_file_page(final(self).pager.file_contents@, i)
                        == spec_file_page(old(self).pager.file_contents@, i),
    {
        let num_pages = self.pager.num_pages;
        let limit = if num_pages < TABLE_MAX_PAGES {
            num_pages
        } else {
            TABLE_MAX_PAGES
        };

        let mut i: usize = 0;
        while i < limit
            invariant
                self.pager.wf(),
                self.root_page_num == 0,
                i <= limit <= TABLE_MAX_PAGES,
                self.pager.pages@ == old(self).pager.pages@,
                self.pager.num_pages == old(self).pager.num_pages,
                forall|m: int|
                    0 <= m < TABLE_MAX_PAGES ==> #[trigger] self.pager.page_view(m) == old(
                        self,
                    ).pager.page_view(m),
                self.pager.file_contents@.len() >= old(self).pager.file_contents@.len(),
                limit == if old(self).pager.num_pages < TABLE_MAX_PAGES {
                    old(self).pager.num_pages as int
                } else {
                    TABLE_MAX_PAGES as int
                },
                forall|m: int|
                    0 <= m < TABLE_MAX_PAGES && old(self).pager.pages@[m] is Some && m < i
                        ==> #[trigger] spec_file_page(self.pager.file_contents@, m)
                            == old(self).pager.page_view(m),
                forall|m: int|
                    0 <= m < TABLE_MAX_PAGES && (old(self).pager.pages@[m] is None || m >= i)
                        ==> #[trigger] spec_file_page(self.pager.file_contents@, m)
                            == spec_file_page(old(self).pager.file_contents@, m),
            decreases limit - i,
        {
            let loaded = self.pager.pages[i].is_some();
            if loaded {
                match self.pager.pager_flush(i) {
                    Ok(()) => {},
                    Err(_) => {
                        // A loaded page below the capacity always flushes.
                        proof {
                            assert(false);
                        }
                    },
                }
            }
            i = i + 1;
        }

        proof {
            let file = self.pager.file_contents@;
            // Every loaded slot sits below the page count, so the loop
            // flushed it; page 0 in particular now reads back what the
            // table held, whether it was ever loaded or not.
            if old(self).pager.pages@[0] is Some {
                assert(0 < old(self).pager.num_pages);
                assert(limit > 0);
                assert(spec_file_page(file, 0) == old(self).pager.page_view(0));
            } else {
                assert(spec_file_page(file, 0) == old(self).pager.page_view(0));
            }
            assert(spec_leaf_wf(spec_file_page(file, 0)));
            // A well-formed root's kind byte is set, so the file cannot be
            // empty.
            assert(spec_file_page(file, 0)[0] == 1u8);
            assert(file.len() > 0);
        }
        Ok(())
    }

    /// Walks the table from the start and returns every record, in key
    /// order.
    pub fn scan_all(&mut self) -> (out: Vec<Row>)
        requires
            old(self).wf(),
        ensures
            final(self).wf(),
            final(self).rows() == old(self).rows(),
            final(self).pager.file_contents@ == old(self).pager.file_contents@,
            out@.len() == old(self).rows().len(),
            forall|i: int| 0 <= i < out@.len() ==> #[trigger] out@[i]@ == old(self).rows()[i],
    {
        let mut cursor = crate::cursor::Cursor::table_start(self);
        let mut out: Vec<Row> = Vec::new();

        while !cursor.end_of_table
            invariant
                self.wf(),
                self.rows() == old(self).rows(),
                self.root_page_num == old(self).root_page_num,
                self.pager.file_contents@ == old(self).pager.file_contents@,
                crate::cursor::spec_table_preserved(*old(self), *self),
                cursor.page_num == self.root_page_num,
                out@.len() == cursor.cell_num,
                cursor.cell_num <= self.rows().len(),
                cursor.end_of_table <==> cursor.cell_num >= self.rows().len(),
                forall|i: int| 0 <= i < out@.len() ==> #[trigger] out@[i]@ == self.rows()[i],
            decreases self.rows().len() - cursor.cell_num,
        {
            let value = cursor.cursor_value(self);
            proof {
                lemma_max_cells_value();
                crate::leaf_node::lemma_cell_in_page(cursor.cell_num as int);
            }
            let row = Row::deserialize_row(value.as_slice());
            out.push(row);
            cursor.cursor_advance(self);
        }

        out
    }

    /// Builds a record from its parts and inserts it; a field longer than
    /// its fixed width fails outright, touching nothing.
    pub fn insert_row_str(&mut self, id: u32, username: &str, email: &str) -> (r: ExecuteResult)
        requires
            old(self).wf(),
        ensures
            final(self).wf(),
            final(self).pager.file_contents@ == old(self).pager.file_contents@,
            ({
                let rs = old(self).rows();
                let n = rs.len() as int;
                let too_long = username.spec_bytes().len() > USERNAME_SIZE
                    || email.spec_bytes().len() > EMAIL_SIZE;
                let row = RowAbs {
                    id,
                    username: spec_zero_extend(username.spec_bytes(), USERNAME_SIZE as int),
                    email: spec_zero_extend(email.spec_bytes(), EMAIL_SIZE as int),
                };
                &&& (r == ExecuteResult::ExecuteFailed <==> too_long)
                &&& (r == ExecuteResult::ExecuteTableFull <==> (!too_long && n
                    >= LEAF_NODE_MAX_CELLS))
                &&& (r == ExecuteResult::ExecuteDuplicateKey <==> (!too_long && n
                    < LEAF_NODE_MAX_CELLS && exists|i: int|
                    0 <= i < n && #[trigger] rs[i].id == id))
                &&& (r == ExecuteResult::ExecuteSuccess <==> (!too_long && n
                    < LEAF_NODE_MAX_CELLS && !exists|i: int|
                    0 <= i < n && #[trigger] rs[i].id == id))
                &&& (r != ExecuteResult::ExecuteSuccess ==> final(self).rows() == rs)
                &&& (r == ExecuteResult::ExecuteSuccess ==> final(self).rows() == rs.insert(
                    spec_row_insert_pos(rs, id),
                    row,
                ))
            }),
    {
        let username_bytes: &[u8] = username.as_bytes();
        let email_bytes: &[u8] = email.as_bytes();

        if username_bytes.len() > USERNAME_SIZE || email_bytes.len() > EMAIL_SIZE {
            return ExecuteResult::ExecuteFailed;
        }

        let row = Row::new(id, username, email);

        self.insert_row(&row)
    }
}

/// A table's records always stand in strictly ascending key order: whatever
/// order inserts arrived in, a full scan returns them sorted by id, with no
/// key twice.
pub proof fn lemma_rows_sorted(t: Table)
    requires
        t.wf(),
    ensures
        forall|i: int, j: int|
            0 <= i < j < t.rows().len() ==> #[trigger] t.rows()[i].id < #[trigger] t.rows()[j].id,
{
    let p = t.pager.page_view(0);
    assert forall|i: int, j: int| 0 <= i < j < t.rows().len() implies #[trigger] t.rows()[i].id
        < #[trigger] t.rows()[j].id by {
        assert(t.rows()[i].id == spec_cell_key(p, i));
        assert(t.rows()[j].id == spec_cell_key(p, j));
    }
}

/// An ordered insert adds exactly the new record: afterwards the sequence
/// holds a record if and only if it held it before or it is the one
/// inserted.
pub proof fn lemma_insert_contains(s: Seq<RowAbs>, pos: int, v: RowAbs, r: RowAbs)
    requires
        0 <= pos <= s.len(),
    ensures
        s.insert(pos, v).contains(r) <==> (s.contains(r) || r == v),
{
    s.insert_ensures(pos, v);
    let s2 = s.insert(pos, v);
    if s2.contains(r) {
        let i = choose|i: int| 0 <= i < s2.len() && s2[i] == r;
        if i < pos {
            assert(s[i] == r);
        } else if i == pos {
            assert(r == v);
        } else {
            assert(s2[(i - 1) + 1] == s[i - 1]);
            assert(s[i - 1] == r);
        }
    }
    if s.contains(r) {
        let i = choose|i: int| 0 <= i < s.len() && s[i] == r;
        if i < pos {
            assert(s2[i] == r);
        } else {
            assert(s2[i + 1] == r);
        }
    }
    if r == v {
        assert(s2[pos] == r);
    }
}

/// Two strictly key-sorted record sequences that hold the same records are
/// the same sequence.
proof fn lemma_sorted_unique_rows_eq(s1: Seq<RowAbs>, s2: Seq<RowAbs>)
    requires
        forall|i: int, j: int| 0 <= i < j < s1.len() ==> #[trigger] s1[i].id < #[trigger] s1[j].id,
        forall|i: int, j: int| 0 <= i < j < s2.len() ==> #[trigger] s2[i].id < #[trigger] s2[j].id,
        forall|r: RowAbs| #[trigger] s1.contains(r) <==> #[trigger] s2.contains(r),
    ensures
        s1 == s2,
    decreases s1.len(),
{
    if s1.len() == 0 {
        if s2.len() > 0 {
            assert(s2.contains(s2[0]));
            assert(s1.contains(s2[0]));
            assert(false);
        }
        assert(s1 =~= s2);
    } else {
        // The heads are each sequence's record of least id, and the two
        // sequences hold the same records, so the heads are equal.
        assert(s1.contains(s1[0]));
        assert(s2.contains(s1[0]));
        let j = choose|j: int| 0 <= j < s2.len() && s2[j] == s1[0];
        if j > 0 {
            assert(s2[0].id < s2[j].id);
        }
        assert(s2.contains(s2[0]));
        assert(s1.contains(s2[0]));
        let i = choose|i: int| 0 <= i < s1.len() && s1[i] == s2[0];
        if i > 0 {
            assert(s1[0].id < s1[i].id);
        }
        assert(s1[0].id == s2[0].id);
        if j > 0 {
            assert(s2[0].id < s2[j].id);
            assert(false);
        }
        assert(s1[0] == s2[0]);

        // The tails hold the same records (the head cannot recur: ids
        // ascend strictly), so they are equal by induction.
        let t1 = s1.drop_first();
        let t2 = s2.drop_first();
        assert forall|a: int, b: int| 0 <= a < b < t1.len() implies #[trigger] t1[a].id
            < #[trigger] t1[b].id by {
            assert(s1[a + 1].id < s1[b + 1].id);
        }
        assert forall|a: int, b: int| 0 <= a < b < t2.len() implies #[trigger] t2[a].id
            < #[trigger] t2[b].id by {
            assert(s2[a + 1].id < s2[b + 1].id);
        }
        assert forall|r: RowAbs| #[trigger] t1.contains(r) implies #[trigger] t2.contains(r) by {
            let k = choose|k: int| 0 <= k < t1.len() && t1[k] == r;
            assert(s1[k + 1] == r);
            assert(s1.contains(r));
            assert(s2.contains(r));
            let m = choose|m: int| 0 <= m < s2.len() && s2[m] == r;
            if m == 0 {
                assert(r == s1[0]);
                assert(s1[0].id < s1[k + 1].id);
                assert(false);
            }
            assert(t2[m - 1] == r);
        }
        assert forall|r: RowAbs| #[trigger] t2.contains(r) implies #[trigger] t1.contains(r) by {
            let k = choose|k: int| 0 <= k < t2.len() && t2[k] == r;
            assert(s2[k + 1] == r);
            assert(s2.contains(r));
            assert(s1.contains(r));
            let m = choose|m: int| 0 <= m < s1.len() && s1[m] == r;
            if m == 0 {
                assert(r == s2[0]);
                assert(s2[0].id < s2[k + 1].id);
                assert(false);
            }
            assert(t1[m - 1] == r);
        }
        lemma_sorted_unique_rows_eq(t1, t2);
        assert forall|k: int| 0 <= k < s1.len() implies s1[k] == s2[k] by {
            if k > 0 {
                assert(s1[k] == t1[k - 1]);
                assert(s2[k] == t2[k - 1]);
            }
        }
        assert(s1 =~= s2);
    }
}

/// What a table holds decides what a scan returns: two well-formed tables
/// holding the same records hold them in the same order, however their
/// inserts were interleaved — a full scan of either yields the same
/// sequence, so scan output is independent of insertion order.
pub proof fn lemma_rows_determined_by_contents(t1: Table, t2: Table)
    requires
        t1.wf(),
        t2.wf(),
        forall|r: RowAbs| #[trigger] t1.rows().contains(r) <==> #[trigger] t2.rows().contains(r),
    ensures
        t1.rows() == t2.rows(),
{
    lemma_rows_sorted(t1);
    lemma_rows_sorted(t2);
    lemma_sorted_unique_rows_eq(t1.rows(), t2.rows());
}

/// In a span of cells whose every adjacent pair ascends, every pair
/// ascends.
proof fn lemma_ascending_pairs(p: Seq<u8>, n: int, a: int, b: int)
    requires
        p.len() == PAGE_SIZE,
        n <= LEAF_NODE_MAX_CELLS,
        0 <= a < b < n,
        forall|k: int|
            0 <= k < n - 1 ==> #[trigger] spec_cell_key(p, k) < spec_cell_key(p, k + 1),
    ensures
        spec_cell_key(p, a) < spec_cell_key(p, b),
    decreases b - a,
{
    if a + 1 == b {
        assert(spec_cell_key(p, a) < spec_cell_key(p, a + 1));
    } else {
        lemma_ascending_pairs(p, n, a, b - 1);
        assert(spec_cell_key(p, b - 1) < spec_cell_key(p, b));
    }
}

} // verus!

