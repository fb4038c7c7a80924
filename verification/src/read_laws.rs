//! What reads of an index answer, and what queries do where a read fails.
use std::sync::Arc;

use vstd::prelude::*;

use crate::all_heads::{fails_on_all, has_first_entries};
use crate::ancestors::{answers_ancestor, fails_on_ancestor};
use crate::commits::{fails_after_taking, fails_on_located_heads, holds_all, is_consistent};
use crate::error::{IndexError, IndexResult};
use crate::graph::{has_parent, is_ordered, Graph};
use crate::heads::{fails_on_heads, fails_on_heads_at, finds_heads, has_entries_above};
use crate::lookup::fails_to_locate_at;
use crate::position::GlobalPosition;
use crate::position_index::{
    answers_entry, answers_position, IndexGraphEntry, IndexModel, Lookup, PositionIndex,
};
use crate::readable_laws::{has_readable_entries, has_readable_ids};

verus! {

/// Every entry has its parents below it, and if it has parents, its generation is
/// the longest of theirs plus one.
pub open spec fn counts_generations(graph: Graph) -> bool {
    forall|position: GlobalPosition| #[trigger]
        graph.dom().contains(position) ==> counts_generation(graph, position)
}

/// The entry at `position` has its parents below it, and if it has parents, its
/// generation is the longest of theirs plus one.
pub open spec fn counts_generation(graph: Graph, position: GlobalPosition) -> bool {
    &&& forall|parent: GlobalPosition| #[trigger]
        has_parent(graph, position, parent) ==> {
            &&& parent.0 < position.0
            &&& graph.dom().contains(parent) ==> graph[parent].generation_number
                < graph[position].generation_number
        }
    &&& graph[position].parent_positions.len() > 0 ==> exists|parent: GlobalPosition| #[trigger]
        has_parent(graph, position, parent) && graph.dom().contains(parent)
            && graph[position].generation_number == graph[parent].generation_number + 1
}

/// A graph which counts generations is ordered.
pub proof fn lemma_counted_is_ordered(graph: Graph)
    requires
        counts_generations(graph),
    ensures
        is_ordered(graph),
{
    assert forall|child: GlobalPosition, parent: GlobalPosition| #[trigger]
        has_parent(graph, child, parent) implies parent.0 < child.0 && (graph.dom().contains(parent)
        ==> graph[parent].generation_number < graph[child].generation_number) by {
        assert(counts_generation(graph, child));
    }
}

/// Reads of an entry give the same each time: the entry if there is one, and one
/// error if there is none.
pub open spec fn repeats_entries(model: IndexModel) -> bool {
    &&& has_readable_entries(model)
    &&& forall|position: GlobalPosition, first: IndexError, second: IndexError|
        #[trigger] (model.faults)(Lookup::Entry(position), first) && #[trigger] (model.faults)(
            Lookup::Entry(position),
            second,
        ) ==> first == second
}

/// Two reads of an entry give the same.
pub open spec fn is_same_answer(
    first: IndexResult<IndexGraphEntry>,
    second: IndexResult<IndexGraphEntry>,
) -> bool {
    match first {
        Ok(entry) => second matches Ok(other) && entry@ == other@,
        Err(error) => second matches Err(other) && error == other,
    }
}

/// An index which gives the same each time gives the same entry, or the same
/// error, when it is read through a reference.
pub proof fn lemma_reference_reads_alike<T: PositionIndex + ?Sized>(
    index: &T,
    position: GlobalPosition,
    inner: IndexResult<IndexGraphEntry>,
    outer: IndexResult<IndexGraphEntry>,
)
    requires
        repeats_entries(index.model()),
        answers_entry(index.model(), position, inner),
        answers_entry(<&T as PositionIndex>::model(&index), position, outer),
    ensures
        is_same_answer(inner, outer),
{
}

/// An index which gives the same each time gives the same entry, or the same
/// error, when it is read through a shared handle.
pub proof fn lemma_handle_reads_alike<T: PositionIndex + ?Sized>(
    index: Arc<T>,
    position: GlobalPosition,
    inner: IndexResult<IndexGraphEntry>,
    outer: IndexResult<IndexGraphEntry>,
)
    requires
        repeats_entries((*index).model()),
        answers_entry((*index).model(), position, inner),
        answers_entry(<Arc<T> as PositionIndex>::model(&index), position, outer),
    ensures
        is_same_answer(inner, outer),
{
}

/// An entry which is read through a reference, from an index whose graph counts
/// generations, has its parents below it, and a generation which is one more than
/// the longest of theirs.
pub proof fn lemma_reference_counts_generations<T: PositionIndex + ?Sized>(
    index: &T,
    position: GlobalPosition,
    entry: IndexGraphEntry,
)
    requires
        counts_generations(index.model().graph),
        answers_entry(<&T as PositionIndex>::model(&index), position, Ok(entry)),
    ensures
        forall|i: int|
            0 <= i < entry.parent_positions@.len() ==> (#[trigger] entry.parent_positions@[i]).0
                < position.0,
        forall|i: int|
            0 <= i < entry.parent_positions@.len() && index.model().graph.dom().contains(
                #[trigger] entry.parent_positions@[i],
            ) ==> index.model().graph[entry.parent_positions@[i]].generation_number
                < entry.generation_number,
        entry.parent_positions@.len() > 0 ==> exists|i: int|
            0 <= i < entry.parent_positions@.len() && index.model().graph.dom().contains(
                #[trigger] entry.parent_positions@[i],
            ) && entry.generation_number
                == index.model().graph[entry.parent_positions@[i]].generation_number + 1,
{
    let graph = index.model().graph;
    let parents = entry.parent_positions@;
    assert(graph[position] == entry@);
    assert(counts_generation(graph, position));
    assert forall|i: int| 0 <= i < parents.len() implies has_parent(
        graph,
        position,
        #[trigger] parents[i],
    ) by {
        assert(parents.contains(parents[i]));
    }
    if parents.len() > 0 {
        let parent = choose|parent: GlobalPosition| #[trigger]
            has_parent(graph, position, parent) && graph.dom().contains(parent)
                && graph[position].generation_number == graph[parent].generation_number + 1;
        let i = parents.index_of(parent);
        assert(parents[i] == parent);
    }
}

/// Where no read fails, a consistent index finds a commit at a position exactly if
/// this is the position of an indexed commit whose entry has the whole ID, and
/// finds none exactly if no indexed commit has the ID.
pub proof fn lemma_found_by_id(
    model: IndexModel,
    id: Seq<u8>,
    located: IndexResult<Option<GlobalPosition>>,
    position: GlobalPosition,
    read: IndexResult<IndexGraphEntry>,
)
    requires
        is_consistent(model),
        has_readable_ids(model),
        has_readable_entries(model),
        answers_position(model, id, located),
        answers_entry(model, position, read),
    ensures
        located == Ok::<Option<GlobalPosition>, IndexError>(Some(position)) <==> position.0
            < model.num_commits && (read matches Ok(entry) && entry.commit_id@ == id),
        located == Ok::<Option<GlobalPosition>, IndexError>(None) <==> forall|p: GlobalPosition|
            p.0 < model.num_commits && #[trigger] model.graph.dom().contains(p)
                ==> model.graph[p].commit_id != id,
        located is Ok,
{
    if model.positions.dom().contains(id) {
        let p = model.positions[id];
        assert(p.0 < model.num_commits && model.graph.dom().contains(p));
    }
}

/// Where no look-up fails, an index finds a commit at the same position, or does
/// not find it, when it is read through a reference; and where no read fails, a
/// consistent index finds it there exactly if the entry read there, of an indexed
/// commit, has its ID.
pub proof fn lemma_reference_finds_by_id<T: PositionIndex + ?Sized>(
    index: &T,
    id: Seq<u8>,
    inner: IndexResult<Option<GlobalPosition>>,
    outer: IndexResult<Option<GlobalPosition>>,
    position: GlobalPosition,
    read: IndexResult<IndexGraphEntry>,
)
    requires
        has_readable_ids(index.model()),
        answers_position(index.model(), id, inner),
        answers_position(<&T as PositionIndex>::model(&index), id, outer),
        answers_entry(<&T as PositionIndex>::model(&index), position, read),
    ensures
        outer == inner,
        is_consistent(index.model()) && has_readable_entries(index.model()) ==> (outer
            == Ok::<Option<GlobalPosition>, IndexError>(Some(position)) <==> position.0
            < index.model().num_commits && (read matches Ok(entry) && entry.commit_id@ == id)),
{
    if is_consistent(index.model()) && has_readable_entries(index.model()) {
        lemma_found_by_id(index.model(), id, outer, position, read);
    }
}

/// Where no look-up fails, an index finds a commit at the same position, or does
/// not find it, when it is read through a shared handle; and where no read fails, a
/// consistent index finds it there exactly if the entry read there, of an indexed
/// commit, has its ID.
pub proof fn lemma_handle_finds_by_id<T: PositionIndex + ?Sized>(
    index: Arc<T>,
    id: Seq<u8>,
    inner: IndexResult<Option<GlobalPosition>>,
    outer: IndexResult<Option<GlobalPosition>>,
    position: GlobalPosition,
    read: IndexResult<IndexGraphEntry>,
)
    requires
        has_readable_ids((*index).model()),
        answers_position((*index).model(), id, inner),
        answers_position(<Arc<T> as PositionIndex>::model(&index), id, outer),
        answers_entry(<Arc<T> as PositionIndex>::model(&index), position, read),
    ensures
        outer == inner,
        is_consistent((*index).model()) && has_readable_entries((*index).model()) ==> (outer
            == Ok::<Option<GlobalPosition>, IndexError>(Some(position)) <==> position.0
            < (*index).model().num_commits && (read matches Ok(entry) && entry.commit_id@ == id)),
{
    if is_consistent((*index).model()) && has_readable_entries((*index).model()) {
        lemma_found_by_id((*index).model(), id, outer, position, read);
    }
}

/// If the entry of the ancestor cannot be read, the search for it fails with the
/// error of this read, whatever the descendant is.
pub proof fn lemma_unreadable_ancestor(
    model: IndexModel,
    ancestor: GlobalPosition,
    descendant: GlobalPosition,
    error: IndexError,
)
    requires
        !model.graph.dom().contains(ancestor),
    ensures
        forall|found: bool| !#[trigger] answers_ancestor(
            model.graph,
            ancestor,
            descendant,
            found,
        ),
        fails_on_ancestor(model, ancestor, descendant, error) <==> (model.faults)(
            Lookup::Entry(ancestor),
            error,
        ),
{
}

/// If a candidate cannot be read, in an index which gives the same each time, the
/// search for heads fails with the error of the highest such candidate.
pub proof fn lemma_unreadable_candidate(
    model: IndexModel,
    candidates: Seq<GlobalPosition>,
    highest: GlobalPosition,
    error: IndexError,
)
    requires
        repeats_entries(model),
        candidates.contains(highest),
        !model.graph.dom().contains(highest),
        has_entries_above(model.graph, candidates, highest),
    ensures
        forall|heads: Seq<GlobalPosition>| !#[trigger] finds_heads(
            model.graph,
            candidates,
            heads,
        ),
        fails_on_heads(model, candidates, error) <==> (model.faults)(
            Lookup::Entry(highest),
            error,
        ),
{
    if fails_on_heads(model, candidates, error) {
        assert forall|heads: Seq<GlobalPosition>, next: GlobalPosition, position: GlobalPosition|
            !#[trigger] fails_on_heads_at(model, candidates, heads, next, position, error) by {}
        let c = choose|c: GlobalPosition| #[trigger]
            candidates.contains(c) && has_entries_above(model.graph, candidates, c) && (
            model.faults)(Lookup::Entry(c), error);
        assert(c == highest);
    }
}

/// If an indexed commit cannot be read, in an index which gives the same each
/// time, the search for all heads fails with the error of the lowest such commit.
pub proof fn lemma_unreadable_commit(
    model: IndexModel,
    lowest: GlobalPosition,
    error: IndexError,
)
    requires
        repeats_entries(model),
        lowest.0 < model.num_commits,
        !model.graph.dom().contains(lowest),
        has_first_entries(model.graph, lowest.0 as int),
    ensures
        !has_first_entries(model.graph, model.num_commits as int),
        fails_on_all(model, error) <==> (model.faults)(Lookup::Entry(lowest), error),
{
    if fails_on_all(model, error) {
        let p = choose|p: GlobalPosition|
            p.0 < model.num_commits && has_first_entries(model.graph, p.0 as int)
                && #[trigger] (model.faults)(Lookup::Entry(p), error);
        assert(p == lowest);
    }
}

/// If the commits before the one at `i` are in the index, that one is not, and
/// no look-up fails, the search for heads fails with the error that this commit is
/// not found, and has taken the commits up to it.
pub proof fn lemma_unknown_candidate(
    model: IndexModel,
    candidates: Seq<Seq<u8>>,
    i: int,
    taken: int,
    error: IndexError,
)
    requires
        has_readable_ids(model),
        0 <= i < candidates.len(),
        !model.positions.dom().contains(candidates[i]),
        holds_all(model, candidates.take(i)),
    ensures
        !holds_all(model, candidates),
        fails_after_taking(model, candidates, taken, error) <==> {
            &&& taken == i + 1
            &&& error matches IndexError::CommitNotFound(id) && id@ == candidates[i]
        },
{
    assert forall|j: int| 0 <= j < i implies model.positions.dom().contains(
        #[trigger] candidates[j],
    ) by {
        assert(candidates.take(i)[j] == candidates[j]);
    }
    assert(!fails_on_located_heads(model, candidates, error));
    if fails_to_locate_at(model, candidates, taken - 1, error) {
        assert(taken - 1 == i);
    }
}

} // verus!
