//! The search for an ancestor, in terms of paths.
use vstd::prelude::*;

use crate::ancestors::{
    answers_ancestor, fails_on_ancestor, fails_on_ancestor_id, has_to_read, is_search_step,
    next_work, searches_in, searches_to, towards, SearchState,
};
use crate::answer_laws::lemma_one_ancestor_answer;
use crate::error::IndexError;
use crate::graph::{
    connected, has_parent, is_ancestor_in, is_ordered, lemma_connected_self, lemma_connected_weaken,
    to_parents, Graph,
};
use crate::path_laws::{lemma_connection_is_path, lemma_path_connects};
use crate::position::GlobalPosition;
use crate::position_index::{IndexModel, Lookup};
use crate::read_laws::repeats_entries;

verus! {

/// In an ordered graph, the search finds exactly the ancestors.
pub proof fn lemma_search_decides_ancestry(
    graph: Graph,
    ancestor: GlobalPosition,
    descendant: GlobalPosition,
    found: bool,
)
    requires
        is_ordered(graph),
        answers_ancestor(graph, ancestor, descendant, found),
    ensures
        found == is_ancestor_in(graph, ancestor, descendant),
        graph.dom().contains(ancestor),
{
}

/// In any graph, where the search finds the ancestor, a path leads to it from the
/// descendant, and everything before it is above it, and of a higher generation.
pub proof fn lemma_found_has_path(
    graph: Graph,
    ancestor: GlobalPosition,
    descendant: GlobalPosition,
) -> (path: Seq<GlobalPosition>)
    requires
        answers_ancestor(graph, ancestor, descendant, true),
    ensures
        path.len() > 0,
        path[0] == descendant,
        path.last() == ancestor,
        forall|i: int|
            0 <= i < path.len() - 1 ==> {
                &&& graph.dom().contains(#[trigger] path[i])
                &&& graph[path[i]].parent_positions.contains(path[i + 1])
                &&& path[i].0 > ancestor.0
                &&& graph[path[i]].generation_number > graph[ancestor].generation_number
            },
{
    let step = towards(graph, ancestor);
    let path = lemma_connection_is_path(step, descendant, ancestor);
    assert forall|i: int| 0 <= i < path.len() - 1 implies {
        &&& graph.dom().contains(#[trigger] path[i])
        &&& graph[path[i]].parent_positions.contains(path[i + 1])
        &&& path[i].0 > ancestor.0
        &&& graph[path[i]].generation_number > graph[ancestor].generation_number
    } by {
        assert(step(path[i], path[i + 1]));
    }
    path
}

/// A path of commits above the ancestor, and of higher generations, is one which
/// the search follows.
proof fn lemma_path_is_searched(
    graph: Graph,
    ancestor: GlobalPosition,
    path: Seq<GlobalPosition>,
)
    requires
        path.len() > 0,
        forall|i: int|
            0 <= i < path.len() - 1 ==> {
                &&& graph.dom().contains(#[trigger] path[i])
                &&& graph[path[i]].parent_positions.contains(path[i + 1])
                &&& path[i].0 > ancestor.0
                &&& graph[path[i]].generation_number > graph[ancestor].generation_number
            },
    ensures
        connected(towards(graph, ancestor), path[0], path.last()),
{
    let step = towards(graph, ancestor);
    assert forall|i: int| 0 <= i < path.len() - 1 implies step(#[trigger] path[i], path[i + 1]) by {
        assert(graph.dom().contains(path[i]));
    }
    lemma_path_connects(step, path);
}

/// In any graph, where such a path leads from the descendant to the ancestor, the
/// search does not deny it.
pub proof fn lemma_path_is_found(
    graph: Graph,
    ancestor: GlobalPosition,
    descendant: GlobalPosition,
    path: Seq<GlobalPosition>,
)
    requires
        path.len() > 0,
        path[0] == descendant,
        path.last() == ancestor,
        forall|i: int|
            0 <= i < path.len() - 1 ==> {
                &&& graph.dom().contains(#[trigger] path[i])
                &&& graph[path[i]].parent_positions.contains(path[i + 1])
                &&& path[i].0 > ancestor.0
                &&& graph[path[i]].generation_number > graph[ancestor].generation_number
            },
    ensures
        !answers_ancestor(graph, ancestor, descendant, false),
{
    lemma_path_is_searched(graph, ancestor, path);
}

/// In any graph, where the search does not find the ancestor, everything above the
/// ancestor to which such a path leads from the descendant has an entry.
pub proof fn lemma_searched_have_entries(
    graph: Graph,
    ancestor: GlobalPosition,
    descendant: GlobalPosition,
    path: Seq<GlobalPosition>,
)
    requires
        answers_ancestor(graph, ancestor, descendant, false),
        path.len() > 0,
        path[0] == descendant,
        path.last().0 > ancestor.0,
        forall|i: int|
            0 <= i < path.len() - 1 ==> {
                &&& graph.dom().contains(#[trigger] path[i])
                &&& graph[path[i]].parent_positions.contains(path[i + 1])
                &&& path[i].0 > ancestor.0
                &&& graph[path[i]].generation_number > graph[ancestor].generation_number
            },
    ensures
        graph.dom().contains(path.last()),
{
    lemma_path_is_searched(graph, ancestor, path);
}

/// Where the search for an ancestor fails, it cannot read the entry of the ancestor,
/// or of an ancestor of the descendant which is above it.
pub proof fn lemma_ancestor_failure_has_cause(
    model: IndexModel,
    ancestor: GlobalPosition,
    descendant: GlobalPosition,
    error: IndexError,
) -> (position: GlobalPosition)
    requires
        fails_on_ancestor(model, ancestor, descendant, error),
    ensures
        (model.faults)(Lookup::Entry(position), error),
        position == ancestor || {
            &&& model.graph.dom().contains(ancestor)
            &&& position.0 > ancestor.0
            &&& is_ancestor_in(model.graph, position, descendant)
        },
{
    if (model.faults)(Lookup::Entry(ancestor), error) {
        ancestor
    } else {
        let state = choose|state: SearchState|
            {
                &&& #[trigger] searches_to(model.graph, ancestor, descendant, state)
                &&& has_to_read(ancestor, state)
                &&& connected(
                    towards(model.graph, ancestor),
                    descendant,
                    state.work.last(),
                )
                &&& (model.faults)(Lookup::Entry(state.work.last()), error)
            };
        lemma_connected_weaken(
            towards(model.graph, ancestor),
            to_parents(model.graph),
            descendant,
            state.work.last(),
        );
        state.work.last()
    }
}

/// Where the search for an ancestor by commit ID fails, the first of the two commits
/// which cannot be located is not in the index and named, or its look-up fails; or
/// both are located, and an entry which is that of the ancestor, or above it and
/// that of an ancestor of the descendant, cannot be read.
pub proof fn lemma_ancestor_id_failure_has_cause(
    model: IndexModel,
    ancestor: Seq<u8>,
    descendant: Seq<u8>,
    error: IndexError,
)
    requires
        fails_on_ancestor_id(model, ancestor, descendant, error),
    ensures
        ({
            let a = model.positions[ancestor];
            let d = model.positions[descendant];
            ||| (model.faults)(Lookup::CommitId(ancestor), error)
            ||| !model.positions.dom().contains(ancestor) && (error matches
                IndexError::CommitNotFound(id) && id@ == ancestor)
            ||| {
                &&& model.positions.dom().contains(ancestor)
                &&& (model.faults)(Lookup::CommitId(descendant), error)
            }
            ||| {
                &&& model.positions.dom().contains(ancestor)
                &&& !model.positions.dom().contains(descendant)
                &&& error matches IndexError::CommitNotFound(id) && id@ == descendant
            }
            ||| {
                &&& model.positions.dom().contains(ancestor)
                &&& model.positions.dom().contains(descendant)
                &&& exists|x: GlobalPosition|
                    #[trigger] (model.faults)(Lookup::Entry(x), error) && (x == a || x.0 > a.0
                        && is_ancestor_in(model.graph, x, d))
            }
        }),
{
    let a = model.positions[ancestor];
    let d = model.positions[descendant];
    if model.positions.dom().contains(ancestor) && model.positions.dom().contains(descendant)
        && fails_on_ancestor(model, a, d, error) {
        let x = lemma_ancestor_failure_has_cause(model, a, d, error);
    }
}

/// The search reads the entry of the descendant, if it is above the ancestor, before
/// any other but that of the ancestor.
pub proof fn lemma_descendant_is_read_first(
    model: IndexModel,
    ancestor: GlobalPosition,
    descendant: GlobalPosition,
    error: IndexError,
)
    requires
        repeats_entries(model),
        model.graph.dom().contains(ancestor),
        descendant.0 > ancestor.0,
        !model.graph.dom().contains(descendant),
        (model.faults)(Lookup::Entry(descendant), error),
    ensures
        forall|found: bool| !#[trigger] answers_ancestor(
            model.graph,
            ancestor,
            descendant,
            found,
        ),
        forall|other: IndexError| #[trigger]
            fails_on_ancestor(model, ancestor, descendant, other) ==> other == error,
{
    let start = SearchState { work: seq![descendant], visited: Set::<u32>::empty() };
    assert(searches_in(model.graph, ancestor, descendant, start, 0));
    assert(searches_to(model.graph, ancestor, descendant, start));
    assert(has_to_read(ancestor, start));
    lemma_connected_self(towards(model.graph, ancestor), descendant);
    assert(fails_on_ancestor(model, ancestor, descendant, error));
    lemma_one_ancestor_answer(model, ancestor, descendant, error);
}

/// After the entry of the descendant, the search reads that of its last parent, if
/// it is above the ancestor.
pub proof fn lemma_last_parent_is_read_next(
    model: IndexModel,
    ancestor: GlobalPosition,
    descendant: GlobalPosition,
    error: IndexError,
)
    requires
        repeats_entries(model),
        model.graph.dom().contains(ancestor),
        model.graph.dom().contains(descendant),
        descendant.0 > ancestor.0,
        model.graph[descendant].generation_number > model.graph[ancestor].generation_number,
        model.graph[descendant].parent_positions.len() > 0,
        model.graph[descendant].parent_positions.last().0 > ancestor.0,
        !model.graph.dom().contains(model.graph[descendant].parent_positions.last()),
        (model.faults)(
            Lookup::Entry(model.graph[descendant].parent_positions.last()),
            error,
        ),
    ensures
        forall|found: bool| !#[trigger] answers_ancestor(
            model.graph,
            ancestor,
            descendant,
            found,
        ),
        forall|other: IndexError| #[trigger]
            fails_on_ancestor(model, ancestor, descendant, other) ==> other == error,
{
    let graph = model.graph;
    let parents = graph[descendant].parent_positions;
    let parent = parents.last();
    let start = SearchState { work: seq![descendant], visited: Set::<u32>::empty() };
    assert(searches_in(graph, ancestor, descendant, start, 0));
    let next = SearchState { work: parents, visited: Set::<u32>::empty().insert(descendant.0) };
    assert(next_work(graph, ancestor, start) =~= parents);
    assert(is_search_step(graph, ancestor, start, next));
    assert(searches_in(graph, ancestor, descendant, next, 1));
    assert(searches_to(graph, ancestor, descendant, next));
    assert(parent != descendant);
    assert(has_to_read(ancestor, next));
    let step = towards(graph, ancestor);
    assert(parents.contains(parent)) by {
        assert(parents[parents.len() - 1] == parent);
    }
    let path = seq![descendant, parent];
    assert forall|i: int| 0 <= i < path.len() - 1 implies step(#[trigger] path[i], path[i + 1]) by {
        assert(has_parent(graph, descendant, parent));
    }
    lemma_path_connects(step, path);
    assert(fails_on_ancestor(model, ancestor, descendant, error));
    lemma_one_ancestor_answer(model, ancestor, descendant, error);
}

} // verus!
