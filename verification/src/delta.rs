//! Storage-neutral records produced by a mutable commit index.
//!
//! These records refer to parents by commit ID. A storage implementation can
//! therefore append a delta against a newer base index and assign its own final
//! positions.
use vstd::prelude::*;

use crate::object_id::{ChangeId, CommitId};
use crate::repo_path::RepoPathBuf;

verus! {

/// Logical records added by one mutable-index overlay.
#[derive(Clone, Debug, Eq, PartialEq)]
pub struct IndexDelta {
    /// New commits in parent-before-child topological order.
    pub commits: Vec<IndexCommitRecord>,
    /// Changed paths for commits for which the optional path index was built.
    ///
    /// No record means that changed paths are unavailable, while a record with
    /// an empty `paths` vector means the commit is known to change no paths.
    pub changed_paths: Vec<ChangedPathRecord>,
}

impl Default for IndexDelta {
    fn default() -> (delta: Self)
        ensures
            delta.commits@ == Seq::<IndexCommitRecord>::empty(),
            delta.changed_paths@ == Seq::<ChangedPathRecord>::empty(),
    {
        IndexDelta { commits: Vec::new(), changed_paths: Vec::new() }
    }
}

impl IndexDelta {
    /// Returns true if the delta contains no graph or changed-path records.
    pub fn is_empty(&self) -> (empty: bool)
        ensures
            empty == (self.commits@.len() == 0 && self.changed_paths@.len() == 0),
    {
        self.commits.is_empty() && self.changed_paths.is_empty()
    }
}

/// A commit graph record independent of persisted index positions.
#[derive(Clone, Debug, Eq, PartialEq)]
pub struct IndexCommitRecord {
    /// Content-addressed commit identifier.
    pub commit_id: CommitId,
    /// Change identifier carried by the commit.
    pub change_id: ChangeId,
    /// Parent commit identifiers.
    pub parent_ids: Vec<CommitId>,
}

/// Optional changed-path data associated with a commit.
#[derive(Clone, Debug, Eq, PartialEq)]
pub struct ChangedPathRecord {
    /// Commit whose changed paths were indexed.
    pub commit_id: CommitId,
    /// Sorted repository paths changed by the commit.
    pub paths: Vec<RepoPathBuf>,
}

} // verus!
