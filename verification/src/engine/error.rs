//! What can go wrong when a statement is executed.
use vstd::prelude::*;

use crate::engine::row::RowError;
use crate::sql::ast::{DataType, Value, ValueView};
use crate::storage::pager::StorageError;

verus! {

/// Why a statement could not be executed.
#[derive(Debug)]
pub enum Error {
    /// No database has been selected.
    NoDatabase,
    /// There is a table of this name already.
    TableExists(String),
    /// There is no table of this name.
    NoTable(String),
    /// The table cannot be dropped because of its indexes.
    IndexesExist(String),
    /// There is no index of this name.
    NoIndex(String),
    /// The table has no column of this name.
    NoColumnInTable { column: String, table: String },
    /// There is no column of this name.
    NoColumn(String),
    /// No index can be made on a column of this type.
    NotIndexable { column: String, data_type: DataType },
    /// The number of values is not that of the columns.
    ColumnCount { expected: usize, got: usize },
    /// The value cannot be stored in a column of this type.
    TypeMismatch { value: Value, data_type: DataType },
    /// Two of the columns have the same name.
    DuplicateColumn(String),
    /// There is a database of this name already.
    DatabaseExists(String),
    /// There is no database of this name.
    NoSuchDatabase(String),
    /// A row or a catalog entry cannot be read.
    Row(RowError),
    /// The storage layer failed.
    Storage(StorageError),
}

/// An error, free of its representation.
pub ghost enum ErrorView {
    NoDatabase,
    TableExists(Seq<char>),
    NoTable(Seq<char>),
    IndexesExist(Seq<char>),
    NoIndex(Seq<char>),
    NoColumnInTable { column: Seq<char>, table: Seq<char> },
    NoColumn(Seq<char>),
    NotIndexable { column: Seq<char>, data_type: DataType },
    ColumnCount { expected: nat, got: nat },
    TypeMismatch { value: ValueView, data_type: DataType },
    DuplicateColumn(Seq<char>),
    DatabaseExists(Seq<char>),
    NoSuchDatabase(Seq<char>),
    Row(RowError),
    Storage(StorageError),
}

impl View for Error {
    type V = ErrorView;

    open spec fn view(&self) -> ErrorView {
        match *self {
            Error::NoDatabase => ErrorView::NoDatabase,
            Error::TableExists(s) => ErrorView::TableExists(s@),
            Error::NoTable(s) => ErrorView::NoTable(s@),
            Error::IndexesExist(s) => ErrorView::IndexesExist(s@),
            Error::NoIndex(s) => ErrorView::NoIndex(s@),
            Error::NoColumnInTable { column, table } => ErrorView::NoColumnInTable { column: column@, table: table@ },
            Error::NoColumn(s) => ErrorView::NoColumn(s@),
            Error::NotIndexable { column, data_type } => ErrorView::NotIndexable { column: column@, data_type },
            Error::ColumnCount { expected, got } => ErrorView::ColumnCount {
                expected: expected as nat,
                got: got as nat,
            },
            Error::TypeMismatch { value, data_type } => ErrorView::TypeMismatch { value: value@, data_type },
            Error::DuplicateColumn(s) => ErrorView::DuplicateColumn(s@),
            Error::DatabaseExists(s) => ErrorView::DatabaseExists(s@),
            Error::NoSuchDatabase(s) => ErrorView::NoSuchDatabase(s@),
            Error::Row(e) => ErrorView::Row(e),
            Error::Storage(e) => ErrorView::Storage(e),
        }
    }
}

} // verus!
