//! The structured intent a caller hands the table: which operation, and,
//! for an insert, the record to store.  The text parsing that produces one
//! lives with the caller; the core only consumes the finished statement.

use vstd::prelude::*;
use crate::table::Row;

verus! {

/// Which operation a statement asks for.
#[derive(Debug, PartialEq, Eq, Structural, Clone, Copy)]
pub enum StatementType {
    StatementInsert,
    StatementSelect,
    StatementNone,
}

/// A parsed request: the operation and, for an insert, its record.
pub struct Statement {
    pub statement_type: StatementType,
    pub row_to_insert: Row,
}

impl Default for Statement {
    /// A blank statement: no operation yet, an all-zero record.
    fn default() -> (s: Statement)
        ensures
            s.statement_type == StatementType::StatementNone,
            s.row_to_insert@.id == 0,
    {
        Statement { statement_type: StatementType::StatementNone, row_to_insert: Row::default() }
    }
}

} // verus!
