//! Heads among a set of commits, in terms of ancestors and paths.
use vstd::prelude::*;

use crate::error::IndexError;
use crate::graph::{has_parent, is_ancestor_in, is_ordered, lemma_ancestor_reflexive, Graph};
use crate::head_laws::{has_other_descendant, lemma_under_is_ancestor};
use crate::heads::{
    fails_on_heads, fails_on_heads_at, finds_heads, is_covered_from_above, is_lowest_generation,
    lies_under, lowest_generation, stays_below,
};
use crate::path_laws::{lemma_path_reaches, lemma_reached_is_path};
use crate::position::GlobalPosition;
use crate::position_index::{IndexModel, Lookup};
use crate::walk::{falling_above, is_first_invalid, reports_first_invalid};

verus! {

/// In an ordered graph, the heads found run from high to low, and a position is
/// one of them exactly if it is a candidate and an ancestor of no other candidate.
pub proof fn lemma_heads_are_maximal(
    graph: Graph,
    candidates: Seq<GlobalPosition>,
    heads: Seq<GlobalPosition>,
)
    requires
        is_ordered(graph),
        finds_heads(graph, candidates, heads),
    ensures
        forall|i: int, j: int| 0 <= i < j < heads.len() ==> heads[i].0 > heads[j].0,
        forall|x: GlobalPosition| #[trigger]
            heads.contains(x) <==> candidates.contains(x) && forall|d: GlobalPosition|
                candidates.contains(d) && #[trigger] is_ancestor_in(graph, x, d) ==> d == x,
        forall|x: GlobalPosition| #[trigger] candidates.contains(x) ==> graph.dom().contains(x),
{
    assert forall|x: GlobalPosition| #[trigger] heads.contains(x) <==> candidates.contains(x)
        && forall|d: GlobalPosition|
        candidates.contains(d) && #[trigger] is_ancestor_in(graph, x, d) ==> d == x by {
        if candidates.contains(x) && has_other_descendant(graph, candidates, x) {
            let d = choose|d: GlobalPosition|
                candidates.contains(d) && d != x && #[trigger] is_ancestor_in(graph, x, d);
        }
    }
}

/// The lowest generation among candidates is one of theirs, and lower than none of
/// theirs.
proof fn lemma_floor(graph: Graph, candidates: Seq<GlobalPosition>, floor: u32)
    requires
        exists|c: GlobalPosition| #[trigger]
            candidates.contains(c) && graph[c].generation_number == floor,
        forall|c: GlobalPosition| #[trigger]
            candidates.contains(c) ==> graph[c].generation_number >= floor,
    ensures
        lowest_generation(graph, candidates) == floor,
{
    assert(is_lowest_generation(graph, candidates, floor));
    let other = lowest_generation(graph, candidates);
    assert(is_lowest_generation(graph, candidates, other));
    let c = choose|c: GlobalPosition| #[trigger]
        candidates.contains(c) && graph[c].generation_number == floor;
    let d = choose|d: GlobalPosition| #[trigger]
        candidates.contains(d) && graph[d].generation_number == other;
}

/// What lies under a commit is the end of a path from it, which goes down from the
/// second position on, and goes on only above the lowest generation.
proof fn lemma_under_has_path(
    graph: Graph,
    floor: u32,
    head: GlobalPosition,
    position: GlobalPosition,
) -> (path: Seq<GlobalPosition>)
    requires
        graph.dom().contains(head),
        lies_under(graph, floor, head, position),
    ensures
        path.len() >= 2,
        path[0] == head,
        path.last() == position,
        forall|i: int|
            0 <= i < path.len() - 1 ==> graph.dom().contains(#[trigger] path[i])
                && graph[path[i]].parent_positions.contains(path[i + 1]),
        forall|i: int|
            0 < i < path.len() - 1 ==> (#[trigger] path[i]).0 > path[i + 1].0
                && graph[path[i]].generation_number > floor,
{
    let step = falling_above(graph, floor);
    let rest = lemma_reached_is_path(step, graph[head].parent_positions.to_set(), position);
    let path = seq![head] + rest;
    assert(path.last() == rest.last());
    assert forall|i: int| 0 <= i < path.len() - 1 implies graph.dom().contains(
        #[trigger] path[i],
    ) && graph[path[i]].parent_positions.contains(path[i + 1]) && (i > 0 ==> path[i].0 > path[i
        + 1].0 && graph[path[i]].generation_number > floor) by {
        if i > 0 {
            assert(path[i] == rest[i - 1]);
            assert(path[i + 1] == rest[i - 1 + 1]);
            assert(step(rest[i - 1], rest[i - 1 + 1]));
        } else {
            assert(path[1] == rest[0]);
        }
    }
    path
}

/// The end of such a path lies under its start.
proof fn lemma_path_is_under(graph: Graph, floor: u32, path: Seq<GlobalPosition>)
    requires
        path.len() >= 2,
        forall|i: int|
            0 <= i < path.len() - 1 ==> graph.dom().contains(#[trigger] path[i])
                && graph[path[i]].parent_positions.contains(path[i + 1]),
        forall|i: int|
            0 < i < path.len() - 1 ==> (#[trigger] path[i]).0 > path[i + 1].0
                && graph[path[i]].generation_number > floor,
    ensures
        lies_under(graph, floor, path[0], path.last()),
{
    let step = falling_above(graph, floor);
    let rest = path.skip(1);
    let parents = graph[path[0]].parent_positions;
    assert(graph.dom().contains(path[0]));
    assert(parents.contains(path[1]));
    assert(rest[0] == path[1]);
    assert(parents.to_set().contains(rest[0]));
    assert forall|i: int| 0 <= i < rest.len() - 1 implies step(#[trigger] rest[i], rest[i + 1]) by {
        assert(rest[i] == path[i + 1]);
        assert(rest[i + 1] == path[i + 1 + 1]);
        assert(graph.dom().contains(path[i + 1]));
        assert(path[i + 1].0 > path[i + 1 + 1].0);
    }
    lemma_path_reaches(step, parents.to_set(), rest);
    assert(rest.last() == path.last());
}

/// In any graph, the heads found are candidates, and run from high to low.
pub proof fn lemma_heads_are_sorted_candidates(
    graph: Graph,
    candidates: Seq<GlobalPosition>,
    heads: Seq<GlobalPosition>,
)
    requires
        finds_heads(graph, candidates, heads),
    ensures
        forall|i: int, j: int| 0 <= i < j < heads.len() ==> heads[i].0 > heads[j].0,
        forall|x: GlobalPosition| #[trigger] heads.contains(x) ==> candidates.contains(x),
        forall|x: GlobalPosition| #[trigger] candidates.contains(x) ==> graph.dom().contains(x),
{
}

/// In any graph, a candidate which is not one of the heads found lies below one of
/// them: a path leads to it from the head, which goes down from the second position
/// on, and goes on only from commits above the lowest generation of the candidates.
pub proof fn lemma_left_out_is_below_head(
    graph: Graph,
    candidates: Seq<GlobalPosition>,
    heads: Seq<GlobalPosition>,
    floor: u32,
    candidate: GlobalPosition,
) -> (path: Seq<GlobalPosition>)
    requires
        finds_heads(graph, candidates, heads),
        exists|c: GlobalPosition| #[trigger]
            candidates.contains(c) && graph[c].generation_number == floor,
        forall|c: GlobalPosition| #[trigger]
            candidates.contains(c) ==> graph[c].generation_number >= floor,
        candidates.contains(candidate),
        !heads.contains(candidate),
    ensures
        path.len() >= 2,
        heads.contains(path[0]),
        path[0].0 > candidate.0,
        path.last() == candidate,
        forall|i: int|
            0 <= i < path.len() - 1 ==> graph.dom().contains(#[trigger] path[i])
                && graph[path[i]].parent_positions.contains(path[i + 1]),
        forall|i: int|
            0 < i < path.len() - 1 ==> (#[trigger] path[i]).0 > path[i + 1].0
                && graph[path[i]].generation_number > floor,
{
    lemma_floor(graph, candidates, floor);
    assert(is_covered_from_above(graph, floor, heads, candidate));
    let h = choose|h: GlobalPosition|
        heads.contains(h) && h.0 > candidate.0 && #[trigger] lies_under(
            graph,
            floor,
            h,
            candidate,
        );
    assert(candidates.contains(h));
    lemma_under_has_path(graph, floor, h, candidate)
}

/// In any graph, no head lies below another head by such a path.
pub proof fn lemma_no_head_below_head(
    graph: Graph,
    candidates: Seq<GlobalPosition>,
    heads: Seq<GlobalPosition>,
    floor: u32,
    path: Seq<GlobalPosition>,
)
    requires
        finds_heads(graph, candidates, heads),
        exists|c: GlobalPosition| #[trigger]
            candidates.contains(c) && graph[c].generation_number == floor,
        forall|c: GlobalPosition| #[trigger]
            candidates.contains(c) ==> graph[c].generation_number >= floor,
        path.len() >= 2,
        heads.contains(path[0]),
        path[0].0 > path.last().0,
        forall|i: int|
            0 <= i < path.len() - 1 ==> graph.dom().contains(#[trigger] path[i])
                && graph[path[i]].parent_positions.contains(path[i + 1]),
        forall|i: int|
            0 < i < path.len() - 1 ==> (#[trigger] path[i]).0 > path[i + 1].0
                && graph[path[i]].generation_number > floor,
    ensures
        !heads.contains(path.last()),
{
    lemma_floor(graph, candidates, floor);
    lemma_path_is_under(graph, floor, path);
    assert(is_covered_from_above(graph, floor, heads, path.last()));
}

/// In any graph, where such a path leads from a head to a position at or above a
/// lower candidate, there is an entry, and if its generation is above the lowest,
/// all its parents are below it.
pub proof fn lemma_passed_entries_are_sound(
    graph: Graph,
    candidates: Seq<GlobalPosition>,
    heads: Seq<GlobalPosition>,
    floor: u32,
    path: Seq<GlobalPosition>,
    candidate: GlobalPosition,
)
    requires
        finds_heads(graph, candidates, heads),
        exists|c: GlobalPosition| #[trigger]
            candidates.contains(c) && graph[c].generation_number == floor,
        forall|c: GlobalPosition| #[trigger]
            candidates.contains(c) ==> graph[c].generation_number >= floor,
        path.len() >= 2,
        heads.contains(path[0]),
        candidates.contains(candidate),
        candidate.0 < path[0].0,
        candidate.0 <= path.last().0,
        forall|i: int|
            0 <= i < path.len() - 1 ==> graph.dom().contains(#[trigger] path[i])
                && graph[path[i]].parent_positions.contains(path[i + 1]),
        forall|i: int|
            0 < i < path.len() - 1 ==> (#[trigger] path[i]).0 > path[i + 1].0
                && graph[path[i]].generation_number > floor,
    ensures
        graph.dom().contains(path.last()),
        graph[path.last()].generation_number > floor ==> forall|i: int|
            0 <= i < graph[path.last()].parent_positions.len() ==> (
            #[trigger] graph[path.last()].parent_positions[i]).0 < path.last().0,
{
    lemma_floor(graph, candidates, floor);
    lemma_path_is_under(graph, floor, path);
    let x = path.last();
    assert(stays_below(graph, floor, x));
    if graph[x].generation_number > floor {
        assert forall|i: int| 0 <= i < graph[x].parent_positions.len() implies (
        #[trigger] graph[x].parent_positions[i]).0 < x.0 by {
            assert(has_parent(graph, x, graph[x].parent_positions[i]));
        }
    }
}

/// Where the search for heads fails, it cannot read an entry which is an ancestor
/// of a candidate, and not below all candidates, or it names the first parent of
/// such an entry which is not below it.
pub proof fn lemma_heads_failure_has_cause(
    model: IndexModel,
    candidates: Seq<GlobalPosition>,
    error: IndexError,
) -> (cause: (GlobalPosition, GlobalPosition))
    requires
        fails_on_heads(model, candidates, error),
    ensures
        candidates.contains(cause.0),
        is_ancestor_in(model.graph, cause.1, cause.0),
        exists|c: GlobalPosition| #[trigger] candidates.contains(c) && c.0 <= cause.1.0,
        ({
            let x = cause.1;
            let parents = model.graph[x].parent_positions;
            ||| (model.faults)(Lookup::Entry(x), error)
            ||| {
                &&& model.graph.dom().contains(x)
                &&& exists|i: int|
                    {
                        &&& 0 <= i < parents.len()
                        &&& (#[trigger] parents[i]).0 >= x.0
                        &&& forall|j: int| 0 <= j < i ==> parents[j].0 < x.0
                        &&& error == (IndexError::InvalidParentPosition {
                            parent: parents[i],
                            child: x,
                        })
                    }
            }
        }),
{
    if exists|c: GlobalPosition| #[trigger]
        candidates.contains(c) && (model.faults)(Lookup::Entry(c), error) {
        let c = choose|c: GlobalPosition| #[trigger]
            candidates.contains(c) && (model.faults)(Lookup::Entry(c), error);
        lemma_ancestor_reflexive(model.graph, c);
        (c, c)
    } else {
        let (heads, next, x) = choose|
            heads: Seq<GlobalPosition>,
            next: GlobalPosition,
            x: GlobalPosition,
        | #[trigger]
            fails_on_heads_at(model, candidates, heads, next, x, error);
        let floor = lowest_generation(model.graph, candidates);
        let h = choose|h: GlobalPosition|
            heads.contains(h) && #[trigger] lies_under(model.graph, floor, h, x);
        assert(candidates.contains(h));
        lemma_under_is_ancestor(model.graph, floor, h, x);
        if !(model.faults)(Lookup::Entry(x), error) {
            lemma_reported_parent(model.graph[x].parent_positions, x, error);
        }
        (h, x)
    }
}

/// An error which reports the first parent which is not below a commit names this
/// parent and the commit.
pub proof fn lemma_reported_parent(
    parents: Seq<GlobalPosition>,
    child: GlobalPosition,
    error: IndexError,
)
    ensures
        reports_first_invalid(parents, child, error) <==> exists|i: int|
            {
                &&& 0 <= i < parents.len()
                &&& (#[trigger] parents[i]).0 >= child.0
                &&& forall|j: int| 0 <= j < i ==> parents[j].0 < child.0
                &&& error == (IndexError::InvalidParentPosition { parent: parents[i], child })
            },
{
    if reports_first_invalid(parents, child, error) {
        let i = choose|i: int| #[trigger]
            is_first_invalid(parents, child, i) && error == (IndexError::InvalidParentPosition {
                parent: parents[i],
                child,
            });
        assert(parents[i].0 >= child.0);
    }
    if exists|i: int|
        {
            &&& 0 <= i < parents.len()
            &&& (#[trigger] parents[i]).0 >= child.0
            &&& forall|j: int| 0 <= j < i ==> parents[j].0 < child.0
            &&& error == (IndexError::InvalidParentPosition { parent: parents[i], child })
        } {
        let i = choose|i: int|
            {
                &&& 0 <= i < parents.len()
                &&& (#[trigger] parents[i]).0 >= child.0
                &&& forall|j: int| 0 <= j < i ==> parents[j].0 < child.0
                &&& error == (IndexError::InvalidParentPosition { parent: parents[i], child })
            };
        assert(is_first_invalid(parents, child, i));
    }
}

} // verus!
