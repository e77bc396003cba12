//! A single-table, single-process embedded record store: a fixed-size-page
//! file image, a page cache, and one sorted leaf node of fixed-layout records
//! keyed by an unsigned integer.
//!
//! The crate is the storage core alone.  Callers hand it structured requests
//! (a record to insert, a request to enumerate all records) and get back a
//! result code and, for reads, the records.  Reading the backing file and
//! writing it back at close are the caller's business: the core works on the
//! file's bytes.

pub mod data_consts;
pub mod statement;
pub mod input_buffer;
pub mod table;
pub mod pager;
pub mod cursor;
pub mod leaf_node;

pub use input_buffer::InputBuffer;
pub use table::Row;
