//! Common ancestors of two sets of commits, in terms of ancestors and paths.
use vstd::prelude::*;

use crate::common::{
    avoiding, fails_on_common_ancestors, goes_on, meets, meets_above, meets_with_heads,
    walk_stays_below, walks_to,
};
use crate::common_laws::{
    is_common_ancestor, is_improvable, lemma_best_common_ancestors, lemma_meets_cover,
    lemma_walks_to_ancestor,
};
use crate::error::IndexError;
use crate::graph::{
    has_parent, is_ancestor_in, is_ordered, is_topological, lemma_ancestor_transitive,
    lemma_reached_start, Graph,
};
use crate::head_laws::{lemma_selected_heads, lemma_under_is_ancestor};
use crate::head_path_laws::{lemma_heads_failure_has_cause, lemma_reported_parent};
use crate::heads::{
    fails_on_heads, finds_heads, is_covered_from_above, lies_under, lowest_generation,
};
use crate::path_laws::{
    lemma_path_leads_to_ancestor, lemma_path_reaches, lemma_reached_is_path,
};
use crate::position::GlobalPosition;
use crate::position_index::{IndexModel, Lookup};
use crate::walk::fails_at;

verus! {

/// In an ordered graph, the common ancestors found run from high to low, and a
/// position is one of them exactly if it is an ancestor of one commit of each set,
/// and of no other position which is.
pub proof fn lemma_common_ancestors_are_best(
    graph: Graph,
    first: Seq<GlobalPosition>,
    second: Seq<GlobalPosition>,
    found: Seq<GlobalPosition>,
    best: Seq<GlobalPosition>,
)
    requires
        is_ordered(graph),
        meets_with_heads(graph, first, second, found, best),
    ensures
        forall|i: int, j: int| 0 <= i < j < best.len() ==> best[i].0 > best[j].0,
        forall|x: GlobalPosition| #[trigger]
            best.contains(x) <==> {
                &&& exists|a: GlobalPosition|
                    first.contains(a) && #[trigger] is_ancestor_in(graph, x, a)
                &&& exists|b: GlobalPosition|
                    second.contains(b) && #[trigger] is_ancestor_in(graph, x, b)
                &&& forall|y: GlobalPosition, a: GlobalPosition, b: GlobalPosition|
                    first.contains(a) && second.contains(b) && #[trigger] is_ancestor_in(
                        graph,
                        y,
                        a,
                    ) && #[trigger] is_ancestor_in(graph, y, b) && is_ancestor_in(graph, x, y)
                        ==> y == x
            },
        forall|x: GlobalPosition| #[trigger] best.contains(x) ==> graph.dom().contains(x),
{
    lemma_best_common_ancestors(graph, first, second, found, best);
    assert forall|x: GlobalPosition| #[trigger] best.contains(x) <==> {
        &&& exists|a: GlobalPosition|
            first.contains(a) && #[trigger] is_ancestor_in(graph, x, a)
        &&& exists|b: GlobalPosition|
            second.contains(b) && #[trigger] is_ancestor_in(graph, x, b)
        &&& forall|y: GlobalPosition, a: GlobalPosition, b: GlobalPosition|
            first.contains(a) && second.contains(b) && #[trigger] is_ancestor_in(graph, y, a)
                && #[trigger] is_ancestor_in(graph, y, b) && is_ancestor_in(graph, x, y) ==> y == x
    } by {
        if is_improvable(graph, first, second, x) {
            let y = choose|y: GlobalPosition|
                y != x && is_common_ancestor(graph, first, second, y) && #[trigger] is_ancestor_in(
                    graph,
                    x,
                    y,
                );
            let a = choose|a: GlobalPosition|
                first.contains(a) && #[trigger] is_ancestor_in(graph, y, a);
            let b = choose|b: GlobalPosition|
                second.contains(b) && #[trigger] is_ancestor_in(graph, y, b);
        } else {
            assert forall|y: GlobalPosition, a: GlobalPosition, b: GlobalPosition|
                first.contains(a) && second.contains(b) && #[trigger] is_ancestor_in(graph, y, a)
                    && #[trigger] is_ancestor_in(graph, y, b) && is_ancestor_in(
                    graph,
                    x,
                    y,
                ) implies y == x by {
                assert(is_common_ancestor(graph, first, second, y));
            }
        }
    }
    assert forall|x: GlobalPosition| #[trigger] best.contains(x) implies graph.dom().contains(
        x,
    ) by {
        assert(found.contains(x));
    }
}

/// In any graph, what is found is an ancestor of one commit of each set, and has an
/// entry, and runs from high to low.
pub proof fn lemma_common_ancestors_are_common(
    graph: Graph,
    first: Seq<GlobalPosition>,
    second: Seq<GlobalPosition>,
    found: Seq<GlobalPosition>,
    best: Seq<GlobalPosition>,
    x: GlobalPosition,
)
    requires
        meets_with_heads(graph, first, second, found, best),
        best.contains(x),
    ensures
        forall|i: int, j: int| 0 <= i < j < best.len() ==> best[i].0 > best[j].0,
        exists|a: GlobalPosition| first.contains(a) && #[trigger] is_ancestor_in(graph, x, a),
        exists|b: GlobalPosition| second.contains(b) && #[trigger] is_ancestor_in(graph, x, b),
        graph.dom().contains(x),
{
    assert(found.contains(x));
    lemma_walks_to_ancestor(graph, first, found, x);
    lemma_walks_to_ancestor(graph, second, found, x);
}

/// Where parents are below their children, every common ancestor is an ancestor of
/// one which is found, whatever the generations are.
pub proof fn lemma_common_ancestors_cover(
    graph: Graph,
    first: Seq<GlobalPosition>,
    second: Seq<GlobalPosition>,
    found: Seq<GlobalPosition>,
    best: Seq<GlobalPosition>,
    a: GlobalPosition,
    b: GlobalPosition,
    x: GlobalPosition,
)
    requires
        is_topological(graph),
        meets_with_heads(graph, first, second, found, best),
        first.contains(a),
        second.contains(b),
        is_ancestor_in(graph, x, a),
        is_ancestor_in(graph, x, b),
    ensures
        exists|y: GlobalPosition| best.contains(y) && #[trigger] is_ancestor_in(graph, x, y),
{
    assert(is_common_ancestor(graph, first, second, x));
    lemma_meets_cover(graph, first, second, found, x);
    let f = choose|f: GlobalPosition| found.contains(f) && #[trigger] is_ancestor_in(graph, x, f);
    if best.contains(f) {
    } else {
        let floor = lowest_generation(graph, found);
        assert(is_covered_from_above(graph, floor, best, f));
        let h = choose|h: GlobalPosition|
            best.contains(h) && h.0 > f.0 && #[trigger] lies_under(graph, floor, h, f);
        assert(found.contains(h));
        lemma_under_is_ancestor(graph, floor, h, f);
        lemma_ancestor_transitive(graph, x, f, h);
    }
}

/// In any graph, the common ancestors found are the heads of where walks down from
/// the two sets meet.
pub proof fn lemma_common_ancestors_are_heads(
    graph: Graph,
    first: Seq<GlobalPosition>,
    second: Seq<GlobalPosition>,
    found: Seq<GlobalPosition>,
    best: Seq<GlobalPosition>,
)
    requires
        meets_with_heads(graph, first, second, found, best),
    ensures
        finds_heads(graph, found, best),
        forall|i: int, j: int| 0 <= i < j < found.len() ==> found[i].0 > found[j].0,
{
    if is_ordered(graph) {
        lemma_selected_heads(graph, found, best);
    }
}

/// In any graph, walks meet at a position exactly if a path leads down to it from a
/// commit of each set, which does not pass another position where they meet.
pub proof fn lemma_meeting_has_paths(
    graph: Graph,
    first: Seq<GlobalPosition>,
    second: Seq<GlobalPosition>,
    found: Seq<GlobalPosition>,
    best: Seq<GlobalPosition>,
    x: GlobalPosition,
) -> (paths: (Seq<GlobalPosition>, Seq<GlobalPosition>))
    requires
        meets_with_heads(graph, first, second, found, best),
        found.contains(x),
    ensures
        paths.0.len() > 0,
        paths.1.len() > 0,
        first.contains(paths.0[0]),
        second.contains(paths.1[0]),
        paths.0.last() == x,
        paths.1.last() == x,
        forall|i: int|
            0 <= i < paths.0.len() - 1 ==> {
                &&& graph.dom().contains(#[trigger] paths.0[i])
                &&& graph[paths.0[i]].parent_positions.contains(paths.0[i + 1])
                &&& paths.0[i + 1].0 < paths.0[i].0
                &&& !found.contains(paths.0[i])
            },
        forall|i: int|
            0 <= i < paths.1.len() - 1 ==> {
                &&& graph.dom().contains(#[trigger] paths.1[i])
                &&& graph[paths.1[i]].parent_positions.contains(paths.1[i + 1])
                &&& paths.1[i + 1].0 < paths.1[i].0
                &&& !found.contains(paths.1[i])
            },
{
    let step = avoiding(graph, found);
    assert(walks_to(graph, first, found, x));
    assert(walks_to(graph, second, found, x));
    let one = lemma_reached_is_path(step, first.to_set(), x);
    let two = lemma_reached_is_path(step, second.to_set(), x);
    assert forall|i: int| 0 <= i < one.len() - 1 implies {
        &&& graph.dom().contains(#[trigger] one[i])
        &&& graph[one[i]].parent_positions.contains(one[i + 1])
        &&& one[i + 1].0 < one[i].0
        &&& !found.contains(one[i])
    } by {
        assert(step(one[i], one[i + 1]));
    }
    assert forall|i: int| 0 <= i < two.len() - 1 implies {
        &&& graph.dom().contains(#[trigger] two[i])
        &&& graph[two[i]].parent_positions.contains(two[i + 1])
        &&& two[i + 1].0 < two[i].0
        &&& !found.contains(two[i])
    } by {
        assert(step(two[i], two[i + 1]));
    }
    (one, two)
}

/// In any graph, walks meet wherever such paths lead.
pub proof fn lemma_paths_meet(
    graph: Graph,
    first: Seq<GlobalPosition>,
    second: Seq<GlobalPosition>,
    found: Seq<GlobalPosition>,
    best: Seq<GlobalPosition>,
    one: Seq<GlobalPosition>,
    two: Seq<GlobalPosition>,
)
    requires
        meets_with_heads(graph, first, second, found, best),
        one.len() > 0,
        two.len() > 0,
        first.contains(one[0]),
        second.contains(two[0]),
        one.last() == two.last(),
        forall|i: int|
            0 <= i < one.len() - 1 ==> {
                &&& graph.dom().contains(#[trigger] one[i])
                &&& graph[one[i]].parent_positions.contains(one[i + 1])
                &&& one[i + 1].0 < one[i].0
                &&& !found.contains(one[i])
            },
        forall|i: int|
            0 <= i < two.len() - 1 ==> {
                &&& graph.dom().contains(#[trigger] two[i])
                &&& graph[two[i]].parent_positions.contains(two[i + 1])
                &&& two[i + 1].0 < two[i].0
                &&& !found.contains(two[i])
            },
    ensures
        found.contains(one.last()),
{
    let step = avoiding(graph, found);
    assert forall|i: int| 0 <= i < one.len() - 1 implies step(#[trigger] one[i], one[i + 1]) by {
        assert(graph.dom().contains(one[i]));
    }
    assert forall|i: int| 0 <= i < two.len() - 1 implies step(#[trigger] two[i], two[i + 1]) by {
        assert(graph.dom().contains(two[i]));
    }
    lemma_path_reaches(step, first.to_set(), one);
    lemma_path_reaches(step, second.to_set(), two);
    assert(walks_to(graph, first, found, one.last()));
    assert(walks_to(graph, second, found, one.last()));
}

/// In any graph, where a path leads down from a commit of the first set to a
/// position which is an ancestor of none of the second, but above one of them,
/// there is an entry, and all its parents are below it.
pub proof fn lemma_common_walk_is_sound(
    graph: Graph,
    first: Seq<GlobalPosition>,
    second: Seq<GlobalPosition>,
    found: Seq<GlobalPosition>,
    best: Seq<GlobalPosition>,
    path: Seq<GlobalPosition>,
    b: GlobalPosition,
)
    requires
        meets_with_heads(graph, first, second, found, best) || meets_with_heads(
            graph,
            second,
            first,
            found,
            best,
        ),
        path.len() > 0,
        first.contains(path[0]),
        forall|i: int|
            0 <= i < path.len() - 1 ==> graph.dom().contains(#[trigger] path[i])
                && graph[path[i]].parent_positions.contains(path[i + 1]) && path[i + 1].0
                < path[i].0,
        second.contains(b),
        b.0 < path.last().0,
        forall|c: GlobalPosition|
            second.contains(c) ==> !#[trigger] is_ancestor_in(graph, path.last(), c),
    ensures
        graph.dom().contains(path.last()),
        forall|i: int|
            0 <= i < graph[path.last()].parent_positions.len() ==> (
            #[trigger] graph[path.last()].parent_positions[i]).0 < path.last().0,
{
    let x = path.last();
    let step = avoiding(graph, found);
    assert forall|i: int| 0 <= i < path.len() - 1 implies step(#[trigger] path[i], path[i + 1]) by {
        assert(graph.dom().contains(path[i]));
        if found.contains(path[i]) {
            lemma_walks_to_ancestor(graph, second, found, path[i]);
            let c = choose|c: GlobalPosition|
                second.contains(c) && #[trigger] is_ancestor_in(graph, path[i], c);
            let rest = path.skip(i);
            assert forall|j: int| 0 <= j < rest.len() - 1 implies graph.dom().contains(
                #[trigger] rest[j],
            ) && graph[rest[j]].parent_positions.contains(rest[j + 1]) by {
                assert(rest[j] == path[j + i]);
                assert(rest[j + 1] == path[j + i + 1]);
                assert(graph.dom().contains(path[j + i]));
            }
            lemma_path_leads_to_ancestor(graph, rest);
            assert(rest.last() == x && rest[0] == path[i]);
            lemma_ancestor_transitive(graph, x, path[i], c);
        }
    }
    assert(first.to_set().contains(path[0]));
    lemma_path_reaches(step, first.to_set(), path);
    if walks_to(graph, second, found, x) {
        lemma_walks_to_ancestor(graph, second, found, x);
    }
    assert(second.to_set().contains(b));
    lemma_reached_start(step, second.to_set(), b);
    assert(walks_to(graph, second, found, b));
    assert(goes_on(graph, first, second, found, x));
    assert forall|i: int| 0 <= i < graph[x].parent_positions.len() implies (
    #[trigger] graph[x].parent_positions[i]).0 < x.0 by {
        assert(has_parent(graph, x, graph[x].parent_positions[i]));
    }
}

/// Where the search for common ancestors fails, it cannot read an entry which is an
/// ancestor of a commit of the sets, and not below all ancestors of either set, or
/// it names the first parent of such an entry which is not below it.
pub proof fn lemma_common_failure_has_cause(
    model: IndexModel,
    first: Seq<GlobalPosition>,
    second: Seq<GlobalPosition>,
    error: IndexError,
) -> (cause: (GlobalPosition, GlobalPosition))
    requires
        fails_on_common_ancestors(model, first, second, error),
    ensures
        first.contains(cause.0) || second.contains(cause.0),
        is_ancestor_in(model.graph, cause.1, cause.0),
        exists|a: GlobalPosition, y: GlobalPosition|
            first.contains(a) && #[trigger] is_ancestor_in(model.graph, y, a) && y.0 <= cause.1.0,
        exists|b: GlobalPosition, y: GlobalPosition|
            second.contains(b) && #[trigger] is_ancestor_in(model.graph, y, b) && y.0 <= cause.1.0,
        ({
            let x = cause.1;
            let parents = model.graph[x].parent_positions;
            ||| (model.faults)(Lookup::Entry(x), error)
            ||| {
                &&& model.graph.dom().contains(x)
                &&& exists|i: int|
                    {
                        &&& 0 <= i < parents.len()
                        &&& (#[trigger] parents[i]).0 >= x.0
                        &&& forall|j: int| 0 <= j < i ==> parents[j].0 < x.0
                        &&& error == (IndexError::InvalidParentPosition {
                            parent: parents[i],
                            child: x,
                        })
                    }
            }
        }),
{
    let graph = model.graph;
    if exists|found: Seq<GlobalPosition>| #[trigger]
        meets(graph, first, second, found) && fails_on_heads(model, found, error) {
        let found = choose|found: Seq<GlobalPosition>| #[trigger]
            meets(graph, first, second, found) && fails_on_heads(model, found, error);
        let cause = lemma_heads_failure_has_cause(model, found, error);
        lemma_walks_to_ancestor(graph, first, found, cause.0);
        let a = choose|a: GlobalPosition|
            first.contains(a) && #[trigger] is_ancestor_in(graph, cause.0, a);
        lemma_ancestor_transitive(graph, cause.1, cause.0, a);
        lemma_walks_to_ancestor(graph, second, found, cause.0);
        let b = choose|b: GlobalPosition|
            second.contains(b) && #[trigger] is_ancestor_in(graph, cause.0, b);
        lemma_ancestor_transitive(graph, cause.1, cause.0, b);
        (a, cause.1)
    } else {
        let (found, x) = choose|found: Seq<GlobalPosition>, x: GlobalPosition|
            {
                &&& #[trigger] meets_above(graph, first, second, found, x.0 + 1)
                &&& walk_stays_below(graph, first, second, found, x.0 + 1)
                &&& goes_on(graph, first, second, found, x) || goes_on(
                    graph,
                    second,
                    first,
                    found,
                    x,
                )
                &&& #[trigger] fails_at(model, x, error)
            };
        if !(model.faults)(Lookup::Entry(x), error) {
            lemma_reported_parent(graph[x].parent_positions, x, error);
        }
        if goes_on(graph, first, second, found, x) {
            lemma_walks_to_ancestor(graph, first, found, x);
            let a = choose|a: GlobalPosition|
                first.contains(a) && #[trigger] is_ancestor_in(graph, x, a);
            let y = choose|y: GlobalPosition|
                y.0 < x.0 && #[trigger] walks_to(graph, second, found, y);
            lemma_walks_to_ancestor(graph, second, found, y);
            (a, x)
        } else {
            lemma_walks_to_ancestor(graph, second, found, x);
            let b = choose|b: GlobalPosition|
                second.contains(b) && #[trigger] is_ancestor_in(graph, x, b);
            let y = choose|y: GlobalPosition|
                y.0 < x.0 && #[trigger] walks_to(graph, first, found, y);
            lemma_walks_to_ancestor(graph, first, found, y);
            (b, x)
        }
    }
}

} // verus!
