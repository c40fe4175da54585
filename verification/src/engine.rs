//! The SQL engine boundary: the transaction interface the schema layer
//! validates against. The engine that owns the underlying key-value store
//! implements it; nothing is assumed here about its behaviour.

use crate::error::Error;
use crate::schema::Catalog;
use crate::types::{Expression, Row, Value};
use vstd::prelude::*;

verus! {

/// A transaction mode.
#[derive(Clone, Copy, Debug, PartialEq, Eq, Structural)]
pub enum Mode {
    ReadWrite,
    ReadOnly,
    Snapshot { version: u64 },
}

/// An SQL transaction.
pub trait Transaction: Catalog {
    /// The transaction ID.
    fn id(&self) -> u64;

    /// The transaction mode.
    fn mode(&self) -> Mode;

    /// Commits the transaction.
    fn commit(self) -> Result<(), Error>;

    /// Rolls back the transaction.
    fn rollback(self) -> Result<(), Error>;

    /// Creates a new table row.
    fn create(&mut self, table: &str, row: Row) -> Result<(), Error>;

    /// Deletes a table row.
    fn delete(&mut self, table: &str, id: &Value) -> Result<(), Error>;

    /// Reads a table row, if it exists.
    fn read(&self, table: &str, id: &Value) -> Result<Option<Row>, Error>;

    /// Reads the primary keys an index entry points at, if any.
    fn read_index(&self, table: &str, column: &str, value: &Value) -> Result<
        Vec<Value>,
        Error,
    >;

    /// Scans a table's rows.
    fn scan(&self, table: &str, filter: Option<Expression>) -> Result<Vec<Row>, Error>;

    /// Scans a column's index entries.
    fn scan_index(&self, table: &str, column: &str) -> Result<Vec<(Value, Vec<Value>)>, Error>;

    /// Updates a table row.
    fn update(&mut self, table: &str, id: &Value, row: Row) -> Result<(), Error>;
}

} // verus!
