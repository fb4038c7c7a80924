use std::sync::Arc;

use position_index::position_index::IndexModel;
use position_index::{
    ChangeId, ChangedPathRecord, CommitId, GlobalPosition, HexPrefix, IndexCommitRecord,
    IndexDelta, IndexError, IndexGraphEntry, IndexResult, PositionIndex, PositionIndexAdapter,
    PrefixResolution, RepoPathBuf, evaluate_revset,
};

/// A chain of commits in memory, each the child of the one before.
struct Chain {
    ids: Vec<CommitId>,
    paths: Vec<Option<Vec<RepoPathBuf>>>,
    readable: bool,
}

impl PositionIndex for Chain {
    // Only contracts speak of the model; nothing runs it.
    fn model(&self) -> IndexModel {
        unreachable!()
    }

    fn num_commits(&self) -> u32 {
        self.ids.len() as u32
    }

    fn position_by_commit_id(&self, id: &CommitId) -> IndexResult<Option<GlobalPosition>> {
        if !self.readable {
            return Err(IndexError::Other("closed".to_string()));
        }
        Ok(self.ids.iter().position(|other| other == id).map(|i| GlobalPosition(i as u32)))
    }

    fn entry_by_position(&self, position: GlobalPosition) -> IndexResult<IndexGraphEntry> {
        if !self.readable || position.0 >= self.num_commits() {
            return Err(IndexError::Other("closed".to_string()));
        }
        let mut parent_positions: Vec<GlobalPosition> = Vec::new();
        if position.0 > 0 {
            parent_positions.push(GlobalPosition(position.0 - 1));
        }
        Ok(IndexGraphEntry {
            commit_id: self.ids[position.0 as usize].clone(),
            change_id: ChangeId::new(vec![position.0 as u8]),
            generation_number: position.0,
            parent_positions,
        })
    }

    fn resolve_commit_id_prefix(
        &self,
        prefix: &HexPrefix,
    ) -> IndexResult<PrefixResolution<CommitId>> {
        let bytes = prefix.min_prefix_bytes.as_slice();
        let matches: Vec<&CommitId> =
            self.ids.iter().filter(|id| id.as_bytes().starts_with(bytes)).collect();
        match matches.len() {
            0 => Ok(PrefixResolution::NoMatch),
            1 => Ok(PrefixResolution::SingleMatch(matches[0].clone())),
            _ => Ok(PrefixResolution::AmbiguousMatch),
        }
    }

    fn resolve_change_id_prefix(
        &self,
        _prefix: &HexPrefix,
    ) -> IndexResult<PrefixResolution<Vec<GlobalPosition>>> {
        Ok(PrefixResolution::NoMatch)
    }

    fn changed_paths(&self, position: GlobalPosition) -> IndexResult<Option<Vec<RepoPathBuf>>> {
        Ok(self.paths[position.0 as usize].clone())
    }
}

fn id(bytes: &[u8]) -> CommitId {
    CommitId::new(bytes.to_vec())
}

fn path(text: &str) -> RepoPathBuf {
    RepoPathBuf::new(text.to_string())
}

fn chain_of(ids: &[&[u8]]) -> Chain {
    Chain {
        ids: ids.iter().map(|bytes| id(bytes)).collect(),
        paths: ids.iter().map(|_| None).collect(),
        readable: true,
    }
}

fn adapter_of(ids: &[&[u8]]) -> PositionIndexAdapter {
    PositionIndexAdapter::new(Arc::new(chain_of(ids)))
}

fn closed() -> PositionIndexAdapter {
    let mut chain = chain_of(&[&[0x10]]);
    chain.readable = false;
    PositionIndexAdapter::new(Arc::new(chain))
}

fn is_closed<T>(result: IndexResult<T>) -> bool {
    matches!(result, Err(IndexError::Other(text)) if text == "closed")
}

#[test]
fn shortest_prefix_of_a_commit() {
    let adapter = adapter_of(&[&[0x12, 0x34], &[0x12, 0x3f], &[0x1a, 0x00], &[0xff, 0xff]]);
    assert_eq!(adapter.shortest_unique_commit_id_prefix_len(&id(&[0x12, 0x34])), Ok(4));
    assert_eq!(adapter.shortest_unique_commit_id_prefix_len(&id(&[0x1a, 0x00])), Ok(2));
    assert_eq!(adapter.shortest_unique_commit_id_prefix_len(&id(&[0xff, 0xff])), Ok(1));
    // A commit which is not indexed.
    assert_eq!(adapter.shortest_unique_commit_id_prefix_len(&id(&[0x12, 0x00])), Ok(3));
    // A commit whose identifier is a prefix of another one.
    assert_eq!(adapter.shortest_unique_commit_id_prefix_len(&id(&[0x12])), Ok(3));
}

#[test]
fn shortest_prefix_in_a_small_index() {
    assert_eq!(adapter_of(&[]).shortest_unique_commit_id_prefix_len(&id(&[0x12])), Ok(0));
    assert_eq!(adapter_of(&[&[0x12]]).shortest_unique_commit_id_prefix_len(&id(&[0x12])), Ok(0));
    assert_eq!(adapter_of(&[&[0x34]]).shortest_unique_commit_id_prefix_len(&id(&[0x12])), Ok(1));
    assert!(is_closed(closed().shortest_unique_commit_id_prefix_len(&id(&[0x12]))));
}

#[test]
fn shortest_prefix_is_resolved_to_the_commit() {
    let adapter = adapter_of(&[&[0x12, 0x34], &[0x12, 0x3f], &[0x1a, 0x00]]);
    assert_eq!(adapter.shortest_unique_commit_id_prefix_len(&id(&[0x12, 0x3f])), Ok(4));
    let whole = HexPrefix { min_prefix_bytes: vec![0x12, 0x3f], has_odd_byte: false };
    assert_eq!(
        adapter.resolve_commit_id_prefix(&whole),
        Ok(PrefixResolution::SingleMatch(id(&[0x12, 0x3f])))
    );
    let shorter = HexPrefix { min_prefix_bytes: vec![0x12], has_odd_byte: false };
    assert_eq!(adapter.resolve_commit_id_prefix(&shorter), Ok(PrefixResolution::AmbiguousMatch));
    let unknown = HexPrefix { min_prefix_bytes: vec![0x99], has_odd_byte: false };
    assert_eq!(adapter.resolve_commit_id_prefix(&unknown), Ok(PrefixResolution::NoMatch));
}

#[test]
fn known_and_unknown_commits() {
    let adapter = adapter_of(&[&[0x10], &[0x20]]);
    assert_eq!(adapter.has_id(&id(&[0x20])), Ok(true));
    assert_eq!(adapter.has_id(&id(&[0x30])), Ok(false));
    assert!(is_closed(closed().has_id(&id(&[0x10]))));
}

#[test]
fn adapted_graph_queries() {
    let adapter = adapter_of(&[&[0x10], &[0x20], &[0x30]]);
    assert_eq!(adapter.is_ancestor(&id(&[0x10]), &id(&[0x30])), Ok(true));
    assert_eq!(adapter.is_ancestor(&id(&[0x30]), &id(&[0x10])), Ok(false));
    assert_eq!(
        adapter.is_ancestor(&id(&[0x40]), &id(&[0x10])),
        Err(IndexError::CommitNotFound(id(&[0x40])))
    );
    assert_eq!(
        adapter.common_ancestors(&[id(&[0x20])], &[id(&[0x30]), id(&[0x10])]),
        Ok(vec![id(&[0x20])])
    );
    assert_eq!(adapter.all_heads_for_gc(), Ok(vec![id(&[0x30])]));
    let candidates = vec![id(&[0x10]), id(&[0x20])];
    assert_eq!(adapter.heads(&mut candidates.iter()), Ok(vec![id(&[0x20])]));
    assert!(is_closed(closed().all_heads_for_gc()));
}

#[test]
fn changed_paths_of_commits() {
    let mut chain = chain_of(&[&[0x10], &[0x20], &[0x30]]);
    chain.paths[1] = Some(vec![path("a"), path("b/c")]);
    chain.paths[2] = Some(vec![]);
    let adapter = PositionIndexAdapter::new(Arc::new(chain));
    assert_eq!(adapter.changed_paths_in_commit(&id(&[0x10])), Ok(None));
    assert_eq!(
        adapter.changed_paths_in_commit(&id(&[0x20])),
        Ok(Some(vec![path("a"), path("b/c")]))
    );
    assert_eq!(adapter.changed_paths_in_commit(&id(&[0x30])), Ok(Some(vec![])));
    assert_eq!(adapter.changed_paths_in_commit(&id(&[0x40])), Ok(None));
    assert!(is_closed(closed().changed_paths_in_commit(&id(&[0x10]))));
}

#[test]
fn revsets_are_evaluated_over_the_handle() {
    let engine = |expression: &str, store: &Arc<u32>, index: Arc<dyn PositionIndex>| {
        if expression == "all()" {
            Ok(index.num_commits() + **store)
        } else {
            Err(expression.to_string())
        }
    };
    let store = Arc::new(100u32);
    let adapter = adapter_of(&[&[0x10], &[0x20]]);
    assert_eq!(adapter.evaluate_revset("all()", &store, engine), Ok(Box::new(102)));
    assert_eq!(adapter.evaluate_revset("none()", &store, engine), Err("none()".to_string()));
    let handle: Arc<dyn PositionIndex> = Arc::new(chain_of(&[&[0x10]]));
    assert_eq!(evaluate_revset("all()", &store, handle, engine), Ok(Box::new(101)));
}

#[test]
fn deltas_with_and_without_records() {
    assert!(IndexDelta::default().is_empty());
    let commit = IndexCommitRecord {
        commit_id: id(&[0x20]),
        change_id: ChangeId::new(vec![0x01]),
        parent_ids: vec![id(&[0x10])],
    };
    let changed = ChangedPathRecord { commit_id: id(&[0x20]), paths: vec![] };
    let with_commit = IndexDelta { commits: vec![commit.clone()], changed_paths: vec![] };
    let with_paths = IndexDelta { commits: vec![], changed_paths: vec![changed.clone()] };
    let with_both = IndexDelta { commits: vec![commit], changed_paths: vec![changed] };
    assert!(!with_commit.is_empty());
    assert!(!with_paths.is_empty());
    assert!(!with_both.is_empty());
    assert_eq!(with_both.clone(), with_both);
    assert_ne!(with_commit, with_paths);
}

#[test]
fn identifiers_and_paths_keep_what_they_hold() {
    let commit_id = id(&[0xab, 0xcd]);
    assert_eq!(commit_id.as_bytes(), &[0xab, 0xcd]);
    assert!(commit_id.same_as(&commit_id.clone()));
    assert!(!commit_id.same_as(&id(&[0xab])));
    assert!(!commit_id.same_as(&id(&[0xab, 0xce])));
    let change_id = ChangeId::new(vec![0x0f]);
    assert_eq!(change_id.clone().as_bytes(), &[0x0f]);
    assert_eq!(path("dir/file").as_str(), "dir/file");
    assert_eq!(path("dir/file").clone(), path("dir/file"));
    // Paths are ordered by their texts.
    assert!(path("a") < path("a/b"));
    assert!(path("a-b") < path("a/b"));
    assert!(path("a/b") < path("b"));
}
