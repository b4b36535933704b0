//! Errors of the library.

use vstd::prelude::*;

verus! {

/// What can go wrong. Outside failures are carried as their message text.
#[derive(Debug, PartialEq)]
pub enum Error {
    /// A file could not be read.
    FileRead { path: String, message: String },
    /// A file's records do not form a table.
    CsvParse { path: String, message: String },
    /// The record reader failed.
    Csv { path: String, message: String },
    /// A directory could not be traversed.
    WalkDir(String),
    /// A family has no members.
    FamilyNotFound(String),
    /// A name or path does not denote what was asked for.
    InvalidFamilyName(String),
    /// Two tables disagree on a column.
    ColumnMismatch { expected: String, found: String, path: String },
    /// A row id occurs twice in one file.
    DuplicateRowId { id: i64, path: String },
    /// An input or output operation failed.
    Io(String),
    /// A JSON document could not be read or written.
    Json(String),
}

} // verus!
