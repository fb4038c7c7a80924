//! Reads of several commits at once.
use vstd::prelude::*;

use crate::error::{IndexError, IndexResult};
use crate::object_id::CommitId;
use crate::position::GlobalPosition;
use crate::position_index::{IndexModel, Lookup, PositionIndex};

verus! {

/// `error` is a failure to look up the commit identifier `id`, or says that the
/// index does not hold it.
pub open spec fn fails_to_locate(model: IndexModel, id: Seq<u8>, error: IndexError) -> bool {
    ||| (model.faults)(Lookup::CommitId(id), error)
    ||| {
        &&& !model.positions.dom().contains(id)
        &&& error matches IndexError::CommitNotFound(missing) && missing@ == id
    }
}

/// `positions` are the positions of the commits `ids`.
pub open spec fn locates(
    model: IndexModel,
    ids: Seq<Seq<u8>>,
    positions: Seq<GlobalPosition>,
) -> bool {
    &&& positions.len() == ids.len()
    &&& forall|i: int|
        0 <= i < ids.len() ==> model.positions.dom().contains(#[trigger] ids[i])
            && model.positions[ids[i]] == positions[i]
}

/// `error` is a failure to locate the one of `ids` at `i`. Those before it are in
/// the index.
pub open spec fn fails_to_locate_at(
    model: IndexModel,
    ids: Seq<Seq<u8>>,
    i: int,
    error: IndexError,
) -> bool {
    &&& 0 <= i < ids.len()
    &&& fails_to_locate(model, ids[i], error)
    &&& forall|j: int| 0 <= j < i ==> model.positions.dom().contains(#[trigger] ids[j])
}

/// `error` is a failure to locate the first of `ids` which cannot be located.
pub open spec fn fails_to_locate_any(
    model: IndexModel,
    ids: Seq<Seq<u8>>,
    error: IndexError,
) -> bool {
    exists|i: int| #[trigger] fails_to_locate_at(model, ids, i, error)
}

/// `ids` are the identifiers of the commits at `positions`.
pub open spec fn identifies(
    model: IndexModel,
    positions: Seq<GlobalPosition>,
    ids: Seq<Seq<u8>>,
) -> bool {
    &&& ids.len() == positions.len()
    &&& forall|i: int|
        0 <= i < positions.len() ==> model.graph.dom().contains(#[trigger] positions[i])
            && model.graph[positions[i]].commit_id == ids[i]
}

/// `error` is a failure to read the entry at one of `positions`. Those before it
/// have entries.
pub open spec fn fails_to_identify(
    model: IndexModel,
    positions: Seq<GlobalPosition>,
    error: IndexError,
) -> bool {
    exists|i: int|
        0 <= i < positions.len() && (model.faults)(
            Lookup::Entry(#[trigger] positions[i]),
            error,
        ) && forall|j: int| 0 <= j < i ==> model.graph.dom().contains(#[trigger] positions[j])
}

/// The bytes of identifiers.
pub open spec fn id_bytes(ids: Seq<CommitId>) -> Seq<Seq<u8>> {
    ids.map_values(|id: CommitId| id@)
}

/// Resolves a commit ID which has to be in the index.
pub(crate) fn required_position<T: PositionIndex + ?Sized>(index: &T, commit_id: &CommitId) -> (result:
    IndexResult<GlobalPosition>)
    ensures
        match result {
            Ok(position) => {
                &&& index.model().positions.dom().contains(commit_id@)
                &&& index.model().positions[commit_id@] == position
            },
            Err(error) => fails_to_locate(index.model(), commit_id@, error),
        },
{
    match index.position_by_commit_id(commit_id)? {
        Some(position) => Ok(position),
        None => Err(IndexError::CommitNotFound(commit_id.clone())),
    }
}

/// Resolves commit IDs which have to be in the index.
pub(crate) fn required_positions<T: PositionIndex + ?Sized>(index: &T, ids: &[CommitId]) -> (result:
    IndexResult<Vec<GlobalPosition>>)
    ensures
        match result {
            Ok(positions) => locates(index.model(), id_bytes(ids@), positions@),
            Err(error) => fails_to_locate_any(index.model(), id_bytes(ids@), error),
        },
{
    let ghost bytes = id_bytes(ids@);
    let mut positions: Vec<GlobalPosition> = Vec::new();
    let mut i: usize = 0;
    while i < ids.len()
        invariant
            i <= ids@.len(),
            bytes == id_bytes(ids@),
            positions@.len() == i,
            forall|j: int|
                0 <= j < i ==> index.model().positions.dom().contains(#[trigger] bytes[j])
                    && index.model().positions[bytes[j]] == positions@[j],
        decreases ids@.len() - i,
    {
        assert(bytes[i as int] == ids@[i as int]@);
        let position = match required_position(index, &ids[i]) {
            Ok(position) => position,
            Err(error) => {
                assert(fails_to_locate_at(index.model(), bytes, i as int, error));
                return Err(error);
            },
        };
        positions.push(position);
        i += 1;
    }
    Ok(positions)
}

/// Loads the commit IDs at `positions`.
pub(crate) fn commit_ids<T: PositionIndex + ?Sized>(index: &T, positions: &[GlobalPosition]) -> (result:
    IndexResult<Vec<CommitId>>)
    ensures
        match result {
            Ok(ids) => identifies(index.model(), positions@, id_bytes(ids@)),
            Err(error) => fails_to_identify(index.model(), positions@, error),
        },
{
    let mut ids: Vec<CommitId> = Vec::new();
    let mut i: usize = 0;
    while i < positions.len()
        invariant
            i <= positions@.len(),
            ids@.len() == i,
            forall|j: int|
                0 <= j < i ==> index.model().graph.dom().contains(#[trigger] positions@[j])
                    && index.model().graph[positions@[j]].commit_id == ids@[j]@,
        decreases positions@.len() - i,
    {
        let entry = index.entry_by_position(positions[i])?;
        ids.push(entry.commit_id);
        i += 1;
    }
    Ok(ids)
}

} // verus!
