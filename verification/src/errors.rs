//! Errors of the storage layer.

use vstd::prelude::*;

verus! {

/// What the database engine reported.
#[derive(Debug, PartialEq, Eq)]
pub struct DatabaseErrorInfo {
    /// The message.
    pub message: String,
    /// The code of the error.
    pub code: i32,
}

/// The operation that a failed write belongs to.
#[derive(Debug, Clone, Copy, PartialEq, Eq, Structural)]
pub enum DatabaseWriteOperation {
    /// A cursor appended an entry.
    CursorAppend,
    /// A cursor wrote an entry.
    CursorUpsert,
    /// A cursor added an entry.
    CursorInsert,
    /// A cursor appended a duplicate.
    CursorAppendDup,
    /// A transaction wrote an entry.
    Put,
}

/// A failed write.
#[derive(Debug, PartialEq, Eq)]
pub struct DatabaseWriteError {
    /// What the engine reported.
    pub info: DatabaseErrorInfo,
    /// The operation.
    pub operation: DatabaseWriteOperation,
    /// The table.
    pub table_name: String,
    /// The key that was to be written.
    pub key: Vec<u8>,
}

/// An error of the database.
#[derive(Debug, PartialEq, Eq)]
pub enum DatabaseError {
    /// A database or a table could not be opened.
    Open(DatabaseErrorInfo),
    /// A read failed.
    Read(DatabaseErrorInfo),
    /// A write failed.
    Write(Box<DatabaseWriteError>),
    /// A deletion failed.
    Delete(DatabaseErrorInfo),
    /// A commit failed.
    Commit(DatabaseErrorInfo),
    /// Stored bytes could not be read as a key or a value.
    Decode,
    /// Anything else.
    Other(String),
}

/// An error of a provider of state.
#[derive(Debug, PartialEq, Eq)]
pub enum ProviderError {
    /// The database failed.
    Database(DatabaseError),
    /// The best block is not known.
    BestBlockNotFound,
    /// Anything else.
    Other(String),
}

} // verus!
