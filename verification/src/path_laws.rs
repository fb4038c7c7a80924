//! Ancestry and the order of a graph, in terms of paths from parent to parent.
use vstd::prelude::*;

use crate::graph::{
    connected, connected_in, has_parent, is_ancestor_in, is_closed, is_ordered, is_topological,
    lemma_connected_prepend, lemma_connected_self, reached, to_parents, Graph, Step,
};
use crate::position::GlobalPosition;

verus! {

/// The positions on the way of `n` steps.
proof fn lemma_path_of(step: Step, from: GlobalPosition, to: GlobalPosition, n: nat) -> (path: Seq<
    GlobalPosition,
>)
    requires
        connected_in(step, from, to, n),
    ensures
        path.len() == n + 1,
        path[0] == from,
        path.last() == to,
        forall|i: int| 0 <= i < path.len() - 1 ==> step(#[trigger] path[i], path[i + 1]),
    decreases n,
{
    if n == 0 {
        seq![from]
    } else {
        let x = choose|x: GlobalPosition|
            #[trigger] step(from, x) && connected_in(step, x, to, (n - 1) as nat);
        let rest = lemma_path_of(step, x, to, (n - 1) as nat);
        let path = seq![from] + rest;
        assert forall|i: int| 0 <= i < path.len() - 1 implies step(
            #[trigger] path[i],
            path[i + 1],
        ) by {
            if i > 0 {
                assert(path[i] == rest[i - 1]);
                assert(path[i + 1] == rest[i]);
            } else {
                assert(path[1] == rest[0]);
            }
        }
        assert(path.last() == rest.last());
        path
    }
}

/// What is connected is connected by a path.
pub proof fn lemma_connection_is_path(step: Step, from: GlobalPosition, to: GlobalPosition) -> (path:
    Seq<GlobalPosition>)
    requires
        connected(step, from, to),
    ensures
        path.len() > 0,
        path[0] == from,
        path.last() == to,
        forall|i: int| 0 <= i < path.len() - 1 ==> step(#[trigger] path[i], path[i + 1]),
{
    let n = choose|n: nat| connected_in(step, from, to, n);
    lemma_path_of(step, from, to, n)
}

/// The ends of a path are connected.
pub proof fn lemma_path_connects(step: Step, path: Seq<GlobalPosition>)
    requires
        path.len() > 0,
        forall|i: int| 0 <= i < path.len() - 1 ==> step(#[trigger] path[i], path[i + 1]),
    ensures
        connected(step, path[0], path.last()),
    decreases path.len(),
{
    if path.len() == 1 {
        lemma_connected_self(step, path[0]);
    } else {
        let rest = path.skip(1);
        assert forall|i: int| 0 <= i < rest.len() - 1 implies step(
            #[trigger] rest[i],
            rest[i + 1],
        ) by {
            assert(rest[i] == path[i + 1]);
            assert(rest[i + 1] == path[i + 1 + 1]);
        }
        lemma_path_connects(step, rest);
        assert(step(path[0], path[1]));
        assert(rest[0] == path[1]);
        assert(rest.last() == path.last());
        lemma_connected_prepend(step, path[0], path[1], path.last());
    }
}

/// What is reached is the end of a path from one of the starts.
pub proof fn lemma_reached_is_path(
    step: Step,
    starts: Set<GlobalPosition>,
    to: GlobalPosition,
) -> (path: Seq<GlobalPosition>)
    requires
        reached(step, starts, to),
    ensures
        path.len() > 0,
        starts.contains(path[0]),
        path.last() == to,
        forall|i: int| 0 <= i < path.len() - 1 ==> step(#[trigger] path[i], path[i + 1]),
{
    let from = choose|from: GlobalPosition|
        starts.contains(from) && #[trigger] connected(step, from, to);
    lemma_connection_is_path(step, from, to)
}

/// The end of a path from one of the starts is reached.
pub proof fn lemma_path_reaches(step: Step, starts: Set<GlobalPosition>, path: Seq<GlobalPosition>)
    requires
        path.len() > 0,
        starts.contains(path[0]),
        forall|i: int| 0 <= i < path.len() - 1 ==> step(#[trigger] path[i], path[i + 1]),
    ensures
        reached(step, starts, path.last()),
{
    lemma_path_connects(step, path);
}

/// From a commit, a path from parent to parent leads to each of its ancestors.
pub proof fn lemma_ancestor_has_path(
    graph: Graph,
    ancestor: GlobalPosition,
    descendant: GlobalPosition,
) -> (path: Seq<GlobalPosition>)
    requires
        is_ancestor_in(graph, ancestor, descendant),
    ensures
        path.len() > 0,
        path[0] == descendant,
        path.last() == ancestor,
        forall|i: int|
            0 <= i < path.len() - 1 ==> graph.dom().contains(#[trigger] path[i])
                && graph[path[i]].parent_positions.contains(path[i + 1]),
{
    let path = lemma_connection_is_path(to_parents(graph), descendant, ancestor);
    assert forall|i: int| 0 <= i < path.len() - 1 implies graph.dom().contains(
        #[trigger] path[i],
    ) && graph[path[i]].parent_positions.contains(path[i + 1]) by {
        assert(to_parents(graph)(path[i], path[i + 1]));
    }
    path
}

/// Every path from parent to parent leads to an ancestor.
pub proof fn lemma_path_leads_to_ancestor(graph: Graph, path: Seq<GlobalPosition>)
    requires
        path.len() > 0,
        forall|i: int|
            0 <= i < path.len() - 1 ==> graph.dom().contains(#[trigger] path[i])
                && graph[path[i]].parent_positions.contains(path[i + 1]),
    ensures
        is_ancestor_in(graph, path.last(), path[0]),
{
    assert forall|i: int| 0 <= i < path.len() - 1 implies to_parents(graph)(
        #[trigger] path[i],
        path[i + 1],
    ) by {
        assert(graph.dom().contains(path[i]));
    }
    lemma_path_connects(to_parents(graph), path);
}

/// A parent is a parent by its place in the list of parents.
pub proof fn lemma_parent_has_place(
    graph: Graph,
    child: GlobalPosition,
    parent: GlobalPosition,
)
    ensures
        has_parent(graph, child, parent) <==> graph.dom().contains(child) && exists|i: int|
            0 <= i < graph[child].parent_positions.len()
                && #[trigger] graph[child].parent_positions[i] == parent,
{
}

/// In a topological graph, and in no other, each parent in each list is below the
/// commit which has the list.
pub proof fn lemma_topological_lists(graph: Graph)
    ensures
        is_topological(graph) <==> forall|child: GlobalPosition, i: int|
            graph.dom().contains(child) && 0 <= i < graph[child].parent_positions.len() ==> (
            #[trigger] graph[child].parent_positions[i]).0 < child.0,
{
    if is_topological(graph) {
        assert forall|child: GlobalPosition, i: int|
            graph.dom().contains(child) && 0 <= i < graph[child].parent_positions.len() implies (
        #[trigger] graph[child].parent_positions[i]).0 < child.0 by {
            assert(has_parent(graph, child, graph[child].parent_positions[i]));
        }
    }
}

/// In a closed graph, and in no other, each parent in each list has an entry.
pub proof fn lemma_closed_lists(graph: Graph)
    ensures
        is_closed(graph) <==> forall|child: GlobalPosition, i: int|
            graph.dom().contains(child) && 0 <= i < graph[child].parent_positions.len()
                ==> graph.dom().contains(#[trigger] graph[child].parent_positions[i]),
{
    if is_closed(graph) {
        assert forall|child: GlobalPosition, i: int|
            graph.dom().contains(child) && 0 <= i
                < graph[child].parent_positions.len() implies graph.dom().contains(
            #[trigger] graph[child].parent_positions[i],
        ) by {
            assert(has_parent(graph, child, graph[child].parent_positions[i]));
        }
    }
}

/// In an ordered graph, and in no other, each parent in each list is below the
/// commit which has the list and, if it has an entry, of a lower generation.
pub proof fn lemma_ordered_lists(graph: Graph)
    ensures
        is_ordered(graph) <==> forall|child: GlobalPosition, i: int|
            graph.dom().contains(child) && 0 <= i < graph[child].parent_positions.len() ==> {
                let parent = #[trigger] graph[child].parent_positions[i];
                &&& parent.0 < child.0
                &&& graph.dom().contains(parent) ==> graph[parent].generation_number
                    < graph[child].generation_number
            },
{
    lemma_topological_lists(graph);
    if is_ordered(graph) {
        assert forall|child: GlobalPosition, i: int|
            graph.dom().contains(child) && 0 <= i < graph[child].parent_positions.len() implies {
            let parent = #[trigger] graph[child].parent_positions[i];
            &&& parent.0 < child.0
            &&& graph.dom().contains(parent) ==> graph[parent].generation_number
                < graph[child].generation_number
        } by {
            assert(has_parent(graph, child, graph[child].parent_positions[i]));
        }
    }
}

} // verus!
