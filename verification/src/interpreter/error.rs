use vstd::prelude::*;

use crate::interpreter::expression::{Error, ErrorView};
use crate::interpreter::record::RecordError;

verus! {

/// Why the engine could not answer.
#[derive(Clone, Copy, Debug, PartialEq, Eq, Structural)]
pub enum DatabaseError {
    /// The file ends before the bytes that were to be read.
    Io,
    /// The number of a page is zero or beyond the pages of the file.
    Range,
    /// The file breaks its format.
    Corruption,
    /// The file holds what the engine does not read.
    Unsupported,
    /// The schema has no table or index of the name.
    NotFound,
    /// An expression names a collation that does not exist.
    CollationNotFound,
    /// An expression names a column that its table does not have.
    ColumnNotFound,
    /// An expression reads a column where there is no row.
    NoTableContext,
    /// A row could not hand out the value of a column.
    FailGetColumn,
}

/// `r` with `acc` written before what it holds.
pub open spec fn joined<T>(
    acc: Seq<T>,
    r: core::result::Result<Seq<T>, DatabaseError>,
) -> core::result::Result<Seq<T>, DatabaseError> {
    match r {
        Ok(rest) => Ok(acc + rest),
        Err(e) => Err(e),
    }
}

/// The failure of decoding a record as a failure of the engine.
pub open spec fn record_failure(e: RecordError) -> DatabaseError {
    match e {
        RecordError::Corruption => DatabaseError::Corruption,
        RecordError::Unsupported => DatabaseError::Unsupported,
    }
}

/// The failure of an expression as a failure of the engine.
pub open spec fn expression_failure(e: ErrorView) -> DatabaseError {
    match e {
        ErrorView::CollationNotFound => DatabaseError::CollationNotFound,
        ErrorView::ColumnNotFound => DatabaseError::ColumnNotFound,
        ErrorView::NoTableContext => DatabaseError::NoTableContext,
        ErrorView::FailGetColumn(_) => DatabaseError::FailGetColumn,
    }
}

impl DatabaseError {
    pub fn from_record(e: RecordError) -> (r: DatabaseError)
        ensures
            r == record_failure(e),
    {
        match e {
            RecordError::Corruption => DatabaseError::Corruption,
            RecordError::Unsupported => DatabaseError::Unsupported,
        }
    }

    pub fn from_expression(e: &Error) -> (r: DatabaseError)
        ensures
            r == expression_failure(e@),
    {
        match e {
            Error::CollationNotFound => DatabaseError::CollationNotFound,
            Error::ColumnNotFound => DatabaseError::ColumnNotFound,
            Error::NoTableContext => DatabaseError::NoTableContext,
            Error::FailGetColumn(_) => DatabaseError::FailGetColumn,
        }
    }
}

} // verus!
