//! Failures of index queries.
use vstd::prelude::*;

use crate::object_id::CommitId;
use crate::position::GlobalPosition;

verus! {

/// Failure of an index query.
#[derive(Debug, PartialEq, Eq)]
pub enum IndexError {
    /// The index holds no commit with this identifier.
    CommitNotFound(CommitId),
    /// The index holds an entry with a parent which is not below it.
    InvalidParentPosition {
        /// Position of the parent.
        parent: GlobalPosition,
        /// Position of the entry.
        child: GlobalPosition,
    },
    /// The index could not be read; the text says why.
    Other(String),
}

/// Result of an index query.
pub type IndexResult<T> = Result<T, IndexError>;

} // verus!
