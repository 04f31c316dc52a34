//! The ways in which an operation on a store can fail.

use vstd::prelude::*;

verus! {

/// Why an operation on a store failed.
#[derive(Debug, PartialEq, Eq)]
pub enum StoreError {
    /// No record of this id is in the store.
    NotFound { id: i32 },
    /// The place where the store is kept cannot be reached.
    StoreUnavailable { path: String },
    /// What is kept at the place is not a store.
    SchemaError { path: String },
    /// A record names the record `id`, and may not: no such record is in the
    /// store, or, where a folder names its parent, the parent is the folder
    /// itself or lies in it.
    ForeignKeyError { id: i32 },
}

impl Clone for StoreError {
    fn clone(&self) -> (r: Self)
        ensures
            r@ == self@,
    {
        match self {
            StoreError::NotFound { id } => StoreError::NotFound { id: *id },
            StoreError::StoreUnavailable { path } => StoreError::StoreUnavailable {
                path: path.clone(),
            },
            StoreError::SchemaError { path } => StoreError::SchemaError { path: path.clone() },
            StoreError::ForeignKeyError { id } => StoreError::ForeignKeyError { id: *id },
        }
    }
}

/// What an error is in contracts: its kind, with the id or the path it is about.
pub enum StoreErrorView {
    NotFound { id: i32 },
    StoreUnavailable { path: Seq<char> },
    SchemaError { path: Seq<char> },
    ForeignKeyError { id: i32 },
}

impl View for StoreError {
    type V = StoreErrorView;

    open spec fn view(&self) -> StoreErrorView {
        match *self {
            StoreError::NotFound { id } => StoreErrorView::NotFound { id },
            StoreError::StoreUnavailable { path } => StoreErrorView::StoreUnavailable { path: path@ },
            StoreError::SchemaError { path } => StoreErrorView::SchemaError { path: path@ },
            StoreError::ForeignKeyError { id } => StoreErrorView::ForeignKeyError { id },
        }
    }
}

impl StoreError {
    /// Why no store could be opened at `path`. Where a file is there, it is
    /// not a store: `SchemaError`. Where none is, the place cannot be reached:
    /// `StoreUnavailable`.
    pub fn open_failure(path: String, file_is_there: bool) -> (e: StoreError)
        ensures
            e@ == if file_is_there {
                StoreErrorView::SchemaError { path: path@ }
            } else {
                StoreErrorView::StoreUnavailable { path: path@ }
            },
    {
        if file_is_there {
            StoreError::SchemaError { path }
        } else {
            StoreError::StoreUnavailable { path }
        }
    }
}

} // verus!
