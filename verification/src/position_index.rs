//! Storage-neutral access to a position-ordered commit graph.
use std::sync::Arc;

use vstd::prelude::*;

use crate::error::{IndexError, IndexResult};
use crate::graph::{EntryModel, Graph};
use crate::object_id::{ChangeId, CommitId, HexPrefix, PrefixResolution};
use crate::position::GlobalPosition;
use crate::repo_path::{is_sorted, RepoPathBuf};

verus! {

/// Owned graph data for one indexed commit.
#[derive(Clone, Debug, Eq, PartialEq)]
pub struct IndexGraphEntry {
    /// Commit identifier.
    pub commit_id: CommitId,
    /// Change identifier stored by the commit.
    pub change_id: ChangeId,
    /// Longest parent generation plus one.
    pub generation_number: u32,
    /// Parent positions, all lower than this entry's position.
    pub parent_positions: Vec<GlobalPosition>,
}

impl View for IndexGraphEntry {
    type V = EntryModel;

    open spec fn view(&self) -> EntryModel {
        EntryModel {
            commit_id: self.commit_id@,
            change_id: self.change_id@,
            generation_number: self.generation_number,
            parent_positions: self.parent_positions@,
        }
    }
}

/// A read of the index, which may fail.
pub enum Lookup {
    /// The position of the commit with this identifier.
    CommitId(Seq<u8>),
    /// The entry at this position.
    Entry(GlobalPosition),
    /// The commit whose identifier starts with these hex digits.
    CommitIdPrefix(Seq<u8>),
    /// The commits whose change identifier starts with these hex digits.
    ChangeIdPrefix(Seq<u8>),
    /// The changed paths of the commit at this position.
    ChangedPaths(GlobalPosition),
}

/// What an index answers.
///
/// A read which succeeds gives what the model says. A read may fail with any of
/// the errors which `faults` allows for it, and need not fail each time.
pub struct IndexModel {
    /// The number of indexed commits.
    pub num_commits: u32,
    /// The positions by commit identifier.
    pub positions: Map<Seq<u8>, GlobalPosition>,
    /// The entries by position.
    pub graph: Graph,
    /// The commit identifier which a prefix stands for.
    pub commit_id_prefixes: spec_fn(Seq<u8>) -> PrefixResolution<Seq<u8>>,
    /// The positions which a change identifier prefix stands for.
    pub change_id_prefixes: spec_fn(Seq<u8>) -> PrefixResolution<Seq<GlobalPosition>>,
    /// The changed paths by position, where they were indexed.
    pub changed_paths: spec_fn(GlobalPosition) -> Option<Seq<Seq<char>>>,
    /// The errors with which a read may fail.
    pub faults: spec_fn(Lookup, IndexError) -> bool,
}

/// The model of a prefix resolution to a commit.
pub open spec fn commit_resolution(resolution: PrefixResolution<CommitId>) -> PrefixResolution<
    Seq<u8>,
> {
    match resolution {
        PrefixResolution::NoMatch => PrefixResolution::NoMatch,
        PrefixResolution::SingleMatch(id) => PrefixResolution::SingleMatch(id@),
        PrefixResolution::AmbiguousMatch => PrefixResolution::AmbiguousMatch,
    }
}

/// The model of a prefix resolution to positions.
pub open spec fn positions_resolution(
    resolution: PrefixResolution<Vec<GlobalPosition>>,
) -> PrefixResolution<Seq<GlobalPosition>> {
    match resolution {
        PrefixResolution::NoMatch => PrefixResolution::NoMatch,
        PrefixResolution::SingleMatch(positions) => PrefixResolution::SingleMatch(positions@),
        PrefixResolution::AmbiguousMatch => PrefixResolution::AmbiguousMatch,
    }
}

/// The model of changed paths.
pub open spec fn path_texts(paths: Option<Vec<RepoPathBuf>>) -> Option<Seq<Seq<char>>> {
    match paths {
        Some(paths) => Some(paths@.map_values(|path: RepoPathBuf| path@)),
        None => None,
    }
}

/// The paths, if there are any, are sorted.
pub open spec fn has_sorted_paths(paths: Option<Seq<Seq<char>>>) -> bool {
    match paths {
        Some(texts) => is_sorted(texts),
        None => true,
    }
}

/// A look-up of the position of the commit `id` may give `result`.
pub open spec fn answers_position(
    model: IndexModel,
    id: Seq<u8>,
    result: IndexResult<Option<GlobalPosition>>,
) -> bool {
    match result {
        Ok(Some(position)) => {
            &&& model.positions.dom().contains(id)
            &&& model.positions[id] == position
        },
        Ok(None) => !model.positions.dom().contains(id),
        Err(error) => (model.faults)(Lookup::CommitId(id), error),
    }
}

/// A read of the entry at `position` may give `result`.
pub open spec fn answers_entry(
    model: IndexModel,
    position: GlobalPosition,
    result: IndexResult<IndexGraphEntry>,
) -> bool {
    match result {
        Ok(entry) => {
            &&& model.graph.dom().contains(position)
            &&& model.graph[position] == entry@
        },
        Err(error) => (model.faults)(Lookup::Entry(position), error),
    }
}

/// Provides fallible, storage-neutral access to a position-ordered commit
/// graph.
///
/// Entries and changed paths are owned so implementations may release or evict
/// backing pages as soon as a method returns. Implementations should preserve
/// the invariant that parents have lower positions than their children.
pub trait PositionIndex: Send + Sync {
    /// What this index answers.
    spec fn model(&self) -> IndexModel;

    /// Returns the number of indexed commits.
    fn num_commits(&self) -> (count: u32)
        ensures
            count == self.model().num_commits,
    ;

    /// Resolves an exact commit ID to its global position.
    fn position_by_commit_id(&self, id: &CommitId) -> (result: IndexResult<Option<GlobalPosition>>)
        ensures
            answers_position(self.model(), id@, result),
    ;

    /// Loads the graph entry at `position`.
    fn entry_by_position(&self, position: GlobalPosition) -> (result: IndexResult<IndexGraphEntry>)
        ensures
            answers_entry(self.model(), position, result),
    ;

    /// Resolves a commit-ID prefix across the full index.
    fn resolve_commit_id_prefix(&self, prefix: &HexPrefix) -> (result: IndexResult<
        PrefixResolution<CommitId>,
    >)
        ensures
            match result {
                Ok(resolution) => commit_resolution(resolution) == (
                self.model().commit_id_prefixes)(prefix@),
                Err(error) => (self.model().faults)(Lookup::CommitIdPrefix(prefix@), error),
            },
    ;

    /// Resolves a change-ID prefix to matching commit positions.
    ///
    /// Positions in a single match must be sorted in descending order, and be those
    /// of indexed commits.
    fn resolve_change_id_prefix(&self, prefix: &HexPrefix) -> (result: IndexResult<
        PrefixResolution<Vec<GlobalPosition>>,
    >)
        ensures
            match result {
                Ok(resolution) => {
                    &&& positions_resolution(resolution) == (self.model().change_id_prefixes)(
                        prefix@,
                    )
                    &&& resolution matches PrefixResolution::SingleMatch(positions) ==> {
                        &&& forall|i: int, j: int|
                            0 <= i < j < positions@.len() ==> positions@[i].0 >= positions@[j].0
                        &&& forall|i: int|
                            0 <= i < positions@.len() ==> (#[trigger] positions@[i]).0
                                < self.model().num_commits
                    }
                },
                Err(error) => (self.model().faults)(Lookup::ChangeIdPrefix(prefix@), error),
            },
    ;

    /// Loads sorted changed paths for the commit at `position`.
    ///
    /// Returns `None` if changed paths were not indexed for this commit.
    fn changed_paths(&self, position: GlobalPosition) -> (result: IndexResult<
        Option<Vec<RepoPathBuf>>,
    >)
        ensures
            match result {
                Ok(paths) => {
                    &&& path_texts(paths) == (self.model().changed_paths)(position)
                    &&& has_sorted_paths(path_texts(paths))
                },
                Err(error) => (self.model().faults)(Lookup::ChangedPaths(position), error),
            },
    ;
}

impl<T: PositionIndex + ?Sized> PositionIndex for &T {
    open spec fn model(&self) -> IndexModel {
        T::model(*self)
    }

    fn num_commits(&self) -> (result: u32)
        ensures
            call_ensures(T::num_commits, (*self,), result),
    {
        T::num_commits(*self)
    }

    fn position_by_commit_id(&self, id: &CommitId) -> (result: IndexResult<Option<GlobalPosition>>)
        ensures
            call_ensures(T::position_by_commit_id, (*self, id), result),
    {
        T::position_by_commit_id(*self, id)
    }

    fn entry_by_position(&self, position: GlobalPosition) -> (result: IndexResult<IndexGraphEntry>)
        ensures
            call_ensures(T::entry_by_position, (*self, position), result),
    {
        T::entry_by_position(*self, position)
    }

    fn resolve_commit_id_prefix(&self, prefix: &HexPrefix) -> (result: IndexResult<
        PrefixResolution<CommitId>,
    >)
        ensures
            call_ensures(T::resolve_commit_id_prefix, (*self, prefix), result),
    {
        T::resolve_commit_id_prefix(*self, prefix)
    }

    fn resolve_change_id_prefix(&self, prefix: &HexPrefix) -> (result: IndexResult<
        PrefixResolution<Vec<GlobalPosition>>,
    >)
        ensures
            call_ensures(T::resolve_change_id_prefix, (*self, prefix), result),
    {
        T::resolve_change_id_prefix(*self, prefix)
    }

    fn changed_paths(&self, position: GlobalPosition) -> (result: IndexResult<
        Option<Vec<RepoPathBuf>>,
    >)
        ensures
            call_ensures(T::changed_paths, (*self, position), result),
    {
        T::changed_paths(*self, position)
    }
}

impl<T: PositionIndex + ?Sized> PositionIndex for Arc<T> {
    open spec fn model(&self) -> IndexModel {
        T::model(&**self)
    }

    fn num_commits(&self) -> (result: u32)
        ensures
            call_ensures(T::num_commits, (&**self,), result),
    {
        T::num_commits(self)
    }

    fn position_by_commit_id(&self, id: &CommitId) -> (result: IndexResult<Option<GlobalPosition>>)
        ensures
            call_ensures(T::position_by_commit_id, (&**self, id), result),
    {
        T::position_by_commit_id(self, id)
    }

    fn entry_by_position(&self, position: GlobalPosition) -> (result: IndexResult<IndexGraphEntry>)
        ensures
            call_ensures(T::entry_by_position, (&**self, position), result),
    {
        T::entry_by_position(self, position)
    }

    fn resolve_commit_id_prefix(&self, prefix: &HexPrefix) -> (result: IndexResult<
        PrefixResolution<CommitId>,
    >)
        ensures
            call_ensures(T::resolve_commit_id_prefix, (&**self, prefix), result),
    {
        T::resolve_commit_id_prefix(self, prefix)
    }

    fn resolve_change_id_prefix(&self, prefix: &HexPrefix) -> (result: IndexResult<
        PrefixResolution<Vec<GlobalPosition>>,
    >)
        ensures
            call_ensures(T::resolve_change_id_prefix, (&**self, prefix), result),
    {
        T::resolve_change_id_prefix(self, prefix)
    }

    fn changed_paths(&self, position: GlobalPosition) -> (result: IndexResult<
        Option<Vec<RepoPathBuf>>,
    >)
        ensures
            call_ensures(T::changed_paths, (&**self, position), result),
    {
        T::changed_paths(self, position)
    }
}

} // verus!
