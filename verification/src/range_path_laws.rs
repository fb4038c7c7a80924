//! The heads of a filtered range of commits, in terms of ancestors and paths.
use std::ops::Range;

use vstd::prelude::*;

use crate::error::IndexError;
use crate::graph::{
    has_parent, is_ancestor_in, is_topological, lemma_ancestor_antisymmetric,
    lemma_ancestor_is_below, lemma_ancestor_reflexive, lemma_ancestor_transitive,
    lemma_reached_start, lemma_reached_step, reached, Graph,
};
use crate::path_laws::{
    lemma_path_leads_to_ancestor, lemma_path_reaches, lemma_reached_is_path,
};
use crate::position::GlobalPosition;
use crate::position_index::{IndexModel, Lookup};
use crate::range::{
    clipped, comes_from, fails_after_calls, fails_before_asking, fails_in_range, fails_on_asking,
    filter_answers, is_clippable, is_excluded, is_range_selection, is_under_head, is_under_roots,
    is_unwanted, is_wanted, lemma_wanted_is_reachable, may_be_asked, new_calls, past_rejected,
    range_stays_below, selects_range, selects_range_above, to_parents_in,
};
use crate::range_laws::{
    is_below_kept, is_heads_of_range, is_in_range, lemma_falls_to_ancestors, lemma_range_heads,
    lemma_under_head_is_ancestor,
};
use crate::walk::{fails_at, falling, is_first_invalid, parents_below, reports_first_invalid};

verus! {

/// The items in a range are those whose indexes are at least its start and below its
/// end, in order.
pub proof fn lemma_clipped_items<T>(items: Seq<T>, range: Range<u32>)
    ensures
        forall|i: int|
            range.start <= i < range.end && i < items.len() ==> clipped(items, range)[i
                - range.start] == #[trigger] items[i],
        range.start <= range.end && range.end <= items.len() ==> clipped(items, range).len()
            == range.end - range.start,
        range.start <= items.len() && items.len() <= range.end ==> clipped(items, range).len()
            == items.len() - range.start,
        range.start >= items.len() || range.start >= range.end ==> clipped(items, range).len()
            == 0,
{
}

/// An item is in a range exactly if it is at an index which is at least its start
/// and below its end.
pub proof fn lemma_in_range_by_index<T>(items: Seq<T>, range: Range<u32>, item: T)
    ensures
        clipped(items, range).contains(item) <==> exists|i: int|
            range.start <= i < range.end && i < items.len() && #[trigger] items[i] == item,
{
    lemma_clipped_items(items, range);
    let part = clipped(items, range);
    if part.contains(item) {
        let k = part.index_of(item);
        assert(items[k + range.start] == item);
    }
    if exists|i: int|
        range.start <= i < range.end && i < items.len() && #[trigger] items[i] == item {
        let i = choose|i: int|
            range.start <= i < range.end && i < items.len() && #[trigger] items[i] == item;
        assert(part[i - range.start] == item);
    }
}

/// A range can be taken of items unless it starts behind its end, and ends before
/// the items do.
pub proof fn lemma_can_be_clipped<T>(items: Seq<T>, range: Range<u32>)
    ensures
        is_clippable(items, range) <==> range.start <= range.end || items.len() <= range.end,
{
}

/// What a record has more than before is what was added.
pub proof fn lemma_added_calls(before: Seq<GlobalPosition>, added: Seq<GlobalPosition>)
    ensures
        new_calls(before, before + added) == added,
{
    assert(new_calls(before, before + added) =~= added);
}

/// An error comes from an index error exactly if the conversion may give it.
pub proof fn lemma_converted_error<E: From<IndexError>>(error: E, cause: IndexError)
    ensures
        comes_from(error, cause) <==> call_ensures(E::from, (cause,), error),
{
}

/// What the filter may be asked about has an entry, is the end of a path from one
/// of the heads through parents in range, and where parents are below their
/// children, it is an ancestor of no root.
pub proof fn lemma_may_be_asked_has_path(
    graph: Graph,
    roots: Seq<GlobalPosition>,
    heads: Seq<GlobalPosition>,
    range: Range<u32>,
    x: GlobalPosition,
) -> (path: Seq<GlobalPosition>)
    requires
        may_be_asked(graph, roots, heads, range, x),
    ensures
        graph.dom().contains(x),
        path.len() > 0,
        heads.contains(path[0]),
        path.last() == x,
        forall|i: int|
            0 <= i < path.len() - 1 ==> graph.dom().contains(#[trigger] path[i]) && exists|k: int|
                range.start <= k < range.end && k < graph[path[i]].parent_positions.len()
                    && #[trigger] graph[path[i]].parent_positions[k] == path[i + 1],
        is_topological(graph) ==> forall|r: GlobalPosition|
            roots.contains(r) ==> !#[trigger] is_ancestor_in(graph, x, r),
{
    if is_topological(graph) {
        lemma_falls_to_ancestors(graph, roots, x);
    }
    lemma_reachable_has_path(graph, heads, range, x)
}

/// What is reached through parents in range is the end of such a path.
proof fn lemma_reachable_has_path(
    graph: Graph,
    heads: Seq<GlobalPosition>,
    range: Range<u32>,
    x: GlobalPosition,
) -> (path: Seq<GlobalPosition>)
    requires
        reached(to_parents_in(graph, range), heads.to_set(), x),
    ensures
        path.len() > 0,
        heads.contains(path[0]),
        path.last() == x,
        forall|i: int|
            0 <= i < path.len() - 1 ==> graph.dom().contains(#[trigger] path[i]) && exists|k: int|
                range.start <= k < range.end && k < graph[path[i]].parent_positions.len()
                    && #[trigger] graph[path[i]].parent_positions[k] == path[i + 1],
{
    let step = to_parents_in(graph, range);
    let path = lemma_reached_is_path(step, heads.to_set(), x);
    assert forall|i: int| 0 <= i < path.len() - 1 implies graph.dom().contains(#[trigger] path[i])
        && exists|k: int|
        range.start <= k < range.end && k < graph[path[i]].parent_positions.len()
            && #[trigger] graph[path[i]].parent_positions[k] == path[i + 1] by {
        assert(step(path[i], path[i + 1]));
        lemma_in_range_by_index(graph[path[i]].parent_positions, range, path[i + 1]);
    }
    path
}

/// The end of such a path is reached, where parents are below their children.
proof fn lemma_path_is_reachable(
    graph: Graph,
    heads: Seq<GlobalPosition>,
    range: Range<u32>,
    path: Seq<GlobalPosition>,
)
    requires
        is_topological(graph),
        path.len() > 0,
        heads.contains(path[0]),
        forall|i: int|
            0 <= i < path.len() - 1 ==> graph.dom().contains(#[trigger] path[i]) && exists|k: int|
                range.start <= k < range.end && k < graph[path[i]].parent_positions.len()
                    && #[trigger] graph[path[i]].parent_positions[k] == path[i + 1],
    ensures
        reached(to_parents_in(graph, range), heads.to_set(), path.last()),
{
    let step = to_parents_in(graph, range);
    assert forall|i: int| 0 <= i < path.len() - 1 implies step(#[trigger] path[i], path[i + 1]) by {
        assert(graph.dom().contains(path[i]));
        let k = choose|k: int|
            range.start <= k < range.end && k < graph[path[i]].parent_positions.len()
                && #[trigger] graph[path[i]].parent_positions[k] == path[i + 1];
        lemma_in_range_by_index(graph[path[i]].parent_positions, range, path[i + 1]);
        assert(has_parent(graph, path[i], path[i + 1]));
    }
    lemma_path_reaches(step, heads.to_set(), path);
}

/// Where parents are below their children, and with a filter which decides by
/// position, what the search finds runs from high to low, is kept by the filter,
/// has an entry, is an ancestor of no root and of nothing else which is found, and
/// is the end of a path from one of the heads through parents in range.
pub proof fn lemma_found_is_in_range<E, F: FnMut(GlobalPosition) -> Result<bool, E>>(
    graph: Graph,
    roots: Seq<GlobalPosition>,
    heads: Seq<GlobalPosition>,
    range: Range<u32>,
    filter: F,
    keep: spec_fn(GlobalPosition) -> bool,
    found: Seq<GlobalPosition>,
    x: GlobalPosition,
) -> (path: Seq<GlobalPosition>)
    requires
        is_topological(graph),
        forall|p: GlobalPosition, kept: bool| #[trigger]
            call_ensures(filter, (p,), Ok::<bool, E>(kept)) ==> kept == keep(p),
        is_range_selection(graph, roots, heads, range, filter, found),
        found.contains(x),
    ensures
        forall|i: int, j: int| 0 <= i < j < found.len() ==> found[i].0 > found[j].0,
        keep(x),
        graph.dom().contains(x),
        forall|r: GlobalPosition| roots.contains(r) ==> !#[trigger] is_ancestor_in(graph, x, r),
        forall|y: GlobalPosition|
            found.contains(y) && #[trigger] is_ancestor_in(graph, x, y) ==> y == x,
        path.len() > 0,
        heads.contains(path[0]),
        path.last() == x,
        forall|i: int|
            0 <= i < path.len() - 1 ==> graph.dom().contains(#[trigger] path[i]) && exists|k: int|
                range.start <= k < range.end && k < graph[path[i]].parent_positions.len()
                    && #[trigger] graph[path[i]].parent_positions[k] == path[i + 1],
{
    lemma_range_heads(graph, roots, heads, range, filter, keep, found);
    assert(is_in_range(graph, roots, heads, range, x));
    let asked = choose|asked: Seq<GlobalPosition>| #[trigger]
        selects_range(graph, roots, heads, range, filter, asked, found);
    assert(asked.contains(x));
    assert forall|y: GlobalPosition|
        found.contains(y) && #[trigger] is_ancestor_in(graph, x, y) implies y == x by {
        if y != x {
            assert(is_below_kept(graph, roots, heads, range, keep, x));
        }
    }
    lemma_reachable_has_path(graph, heads, range, x)
}

/// Where parents are below their children, and with a filter which decides by
/// position, everything which is kept by the filter, is an ancestor of no root, and
/// is the end of a path from one of the heads through parents in range, is an
/// ancestor of something which is found.
pub proof fn lemma_found_covers_range<E, F: FnMut(GlobalPosition) -> Result<bool, E>>(
    graph: Graph,
    roots: Seq<GlobalPosition>,
    heads: Seq<GlobalPosition>,
    range: Range<u32>,
    filter: F,
    keep: spec_fn(GlobalPosition) -> bool,
    found: Seq<GlobalPosition>,
    path: Seq<GlobalPosition>,
)
    requires
        is_topological(graph),
        forall|p: GlobalPosition, kept: bool| #[trigger]
            call_ensures(filter, (p,), Ok::<bool, E>(kept)) ==> kept == keep(p),
        is_range_selection(graph, roots, heads, range, filter, found),
        path.len() > 0,
        heads.contains(path[0]),
        forall|i: int|
            0 <= i < path.len() - 1 ==> graph.dom().contains(#[trigger] path[i]) && exists|k: int|
                range.start <= k < range.end && k < graph[path[i]].parent_positions.len()
                    && #[trigger] graph[path[i]].parent_positions[k] == path[i + 1],
        keep(path.last()),
        forall|r: GlobalPosition|
            roots.contains(r) ==> !#[trigger] is_ancestor_in(graph, path.last(), r),
    ensures
        exists|f: GlobalPosition|
            found.contains(f) && #[trigger] is_ancestor_in(graph, path.last(), f),
{
    let x = path.last();
    lemma_path_is_reachable(graph, heads, range, path);
    lemma_range_heads(graph, roots, heads, range, filter, keep, found);
    lemma_kept_is_below_found(graph, roots, heads, range, keep, found, x);
}

/// Everything of the range which is kept is an ancestor of a head of it.
proof fn lemma_kept_is_below_found(
    graph: Graph,
    roots: Seq<GlobalPosition>,
    heads: Seq<GlobalPosition>,
    range: Range<u32>,
    keep: spec_fn(GlobalPosition) -> bool,
    found: Seq<GlobalPosition>,
    x: GlobalPosition,
)
    requires
        is_topological(graph),
        is_heads_of_range(graph, roots, heads, range, keep, found),
        is_in_range(graph, roots, heads, range, x),
        keep(x),
    ensures
        exists|f: GlobalPosition| found.contains(f) && #[trigger] is_ancestor_in(graph, x, f),
    decreases u32::MAX - x.0,
{
    if found.contains(x) {
        lemma_ancestor_reflexive(graph, x);
    } else {
        let y = choose|y: GlobalPosition|
            y != x && is_in_range(graph, roots, heads, range, y) && keep(y)
                && #[trigger] is_ancestor_in(graph, x, y);
        lemma_ancestor_is_below(graph, x, y);
        lemma_kept_is_below_found(graph, roots, heads, range, keep, found, y);
        let f = choose|f: GlobalPosition| found.contains(f) && #[trigger] is_ancestor_in(graph, y, f);
        lemma_ancestor_transitive(graph, x, y, f);
    }
}

/// A selection of a range comes from calls of the filter.
pub proof fn lemma_selection_has_calls<E, F: FnMut(GlobalPosition) -> Result<bool, E>>(
    graph: Graph,
    roots: Seq<GlobalPosition>,
    heads: Seq<GlobalPosition>,
    range: Range<u32>,
    filter: F,
    found: Seq<GlobalPosition>,
) -> (asked: Seq<GlobalPosition>)
    requires
        is_range_selection(graph, roots, heads, range, filter, found),
    ensures
        selects_range(graph, roots, heads, range, filter, asked, found),
{
    choose|asked: Seq<GlobalPosition>| #[trigger]
        selects_range(graph, roots, heads, range, filter, asked, found)
}

/// In any graph, the filter is asked from high to low, about commits which have
/// entries; what it accepts is found, from high to low, and what it rejects is not.
/// The parents in range of what it rejects are below it.
pub proof fn lemma_calls_decide(
    graph: Graph,
    roots: Seq<GlobalPosition>,
    heads: Seq<GlobalPosition>,
    range: Range<u32>,
    asked: Seq<GlobalPosition>,
    found: Seq<GlobalPosition>,
)
    requires
        selects_range_above(graph, roots, heads, range, asked, found, 0),
        range_stays_below(graph, roots, heads, range, asked, found, 0),
    ensures
        forall|i: int, j: int| 0 <= i < j < asked.len() ==> asked[i].0 > asked[j].0,
        forall|i: int, j: int| 0 <= i < j < found.len() ==> found[i].0 > found[j].0,
        forall|x: GlobalPosition| #[trigger] found.contains(x) ==> asked.contains(x),
        forall|x: GlobalPosition| #[trigger] asked.contains(x) ==> graph.dom().contains(x),
        forall|x: GlobalPosition, k: int|
            asked.contains(x) && !found.contains(x) && range.start <= k < range.end && k
                < graph[x].parent_positions.len() ==> (
            #[trigger] graph[x].parent_positions[k]).0 < x.0,
{
    assert forall|x: GlobalPosition, k: int|
        asked.contains(x) && !found.contains(x) && range.start <= k < range.end && k
            < graph[x].parent_positions.len() implies (#[trigger] graph[x].parent_positions[k]).0
        < x.0 by {
        let q = graph[x].parent_positions[k];
        lemma_in_range_by_index(graph[x].parent_positions, range, q);
        assert(clipped(graph[x].parent_positions, range).contains(q));
    }
}

/// The answers of the filter are those which its calls may give.
pub proof fn lemma_calls_are_answered<E, F: FnMut(GlobalPosition) -> Result<bool, E>>(
    graph: Graph,
    roots: Seq<GlobalPosition>,
    heads: Seq<GlobalPosition>,
    range: Range<u32>,
    filter: F,
    asked: Seq<GlobalPosition>,
    found: Seq<GlobalPosition>,
)
    requires
        selects_range(graph, roots, heads, range, filter, asked, found),
    ensures
        selects_range_above(graph, roots, heads, range, asked, found, 0),
        range_stays_below(graph, roots, heads, range, asked, found, 0),
        forall|x: GlobalPosition| #[trigger]
            asked.contains(x) ==> call_ensures(filter, (x,), Ok::<bool, E>(found.contains(x))),
{
}

/// Where parents are below their children, what the filter is asked about is an
/// ancestor of no root, of nothing else which is found, and is the end of a path
/// from one of the heads, through parents in range of commits which the filter was
/// asked about and rejected.
pub proof fn lemma_asked_has_path(
    graph: Graph,
    roots: Seq<GlobalPosition>,
    heads: Seq<GlobalPosition>,
    range: Range<u32>,
    asked: Seq<GlobalPosition>,
    found: Seq<GlobalPosition>,
    x: GlobalPosition,
) -> (path: Seq<GlobalPosition>)
    requires
        is_topological(graph),
        selects_range_above(graph, roots, heads, range, asked, found, 0),
        asked.contains(x),
    ensures
        forall|r: GlobalPosition| roots.contains(r) ==> !#[trigger] is_ancestor_in(graph, x, r),
        forall|y: GlobalPosition|
            found.contains(y) && #[trigger] is_ancestor_in(graph, x, y) ==> y == x,
        path.len() > 0,
        heads.contains(path[0]),
        path.last() == x,
        forall|i: int|
            0 <= i < path.len() - 1 ==> {
                &&& asked.contains(#[trigger] path[i])
                &&& !found.contains(path[i])
                &&& exists|k: int|
                    range.start <= k < range.end && k < graph[path[i]].parent_positions.len()
                        && #[trigger] graph[path[i]].parent_positions[k] == path[i + 1]
            },
{
    lemma_falls_to_ancestors(graph, roots, x);
    assert forall|y: GlobalPosition|
        found.contains(y) && #[trigger] is_ancestor_in(graph, x, y) implies y == x by {
        if y != x {
            assert(asked.contains(y));
            lemma_ancestor_is_below(graph, x, y);
            lemma_under_head_is_ancestor(graph, y, x);
            assert(is_unwanted(graph, roots, found, x));
        }
    }
    let step = past_rejected(graph, range, asked, found);
    let path = lemma_reached_is_path(step, heads.to_set(), x);
    assert forall|i: int| 0 <= i < path.len() - 1 implies {
        &&& asked.contains(#[trigger] path[i])
        &&& !found.contains(path[i])
        &&& exists|k: int|
            range.start <= k < range.end && k < graph[path[i]].parent_positions.len()
                && #[trigger] graph[path[i]].parent_positions[k] == path[i + 1]
    } by {
        assert(step(path[i], path[i + 1]));
        lemma_in_range_by_index(graph[path[i]].parent_positions, range, path[i + 1]);
    }
    path
}

/// Where parents are below their children, the filter is asked about everything
/// which is an ancestor of no root, and of nothing else which is found, and is the
/// end of a path from one of the heads, through parents in range of commits which
/// are not found.
pub proof fn lemma_path_is_asked(
    graph: Graph,
    roots: Seq<GlobalPosition>,
    heads: Seq<GlobalPosition>,
    range: Range<u32>,
    asked: Seq<GlobalPosition>,
    found: Seq<GlobalPosition>,
    path: Seq<GlobalPosition>,
)
    requires
        is_topological(graph),
        selects_range_above(graph, roots, heads, range, asked, found, 0),
        path.len() > 0,
        heads.contains(path[0]),
        forall|i: int|
            0 <= i < path.len() - 1 ==> {
                &&& graph.dom().contains(#[trigger] path[i])
                &&& !found.contains(path[i])
                &&& exists|k: int|
                    range.start <= k < range.end && k < graph[path[i]].parent_positions.len()
                        && #[trigger] graph[path[i]].parent_positions[k] == path[i + 1]
            },
        forall|r: GlobalPosition|
            roots.contains(r) ==> !#[trigger] is_ancestor_in(graph, path.last(), r),
        forall|y: GlobalPosition|
            found.contains(y) && #[trigger] is_ancestor_in(graph, path.last(), y) ==> y
                == path.last(),
    ensures
        asked.contains(path.last()),
    decreases path.len(),
{
    let x = path.last();
    let step = past_rejected(graph, range, asked, found);
    assert(heads.to_set().contains(path[0]));
    if path.len() == 1 {
        lemma_reached_start(step, heads.to_set(), x);
    } else {
        let before = path.drop_last();
        let c = before.last();
        assert(c == path[path.len() - 2]);
        assert(graph.dom().contains(c));
        let k = choose|k: int|
            range.start <= k < range.end && k < graph[c].parent_positions.len()
                && #[trigger] graph[c].parent_positions[k] == path[path.len() - 2 + 1];
        assert(has_parent(graph, c, x));
        let two = seq![c, x];
        assert(graph[c].parent_positions.contains(x));
        assert forall|i: int| 0 <= i < two.len() - 1 implies graph.dom().contains(
            #[trigger] two[i],
        ) && graph[two[i]].parent_positions.contains(two[i + 1]) by {}
        lemma_path_leads_to_ancestor(graph, two);
        assert(is_ancestor_in(graph, x, c));
        assert forall|r: GlobalPosition| roots.contains(r) implies !#[trigger] is_ancestor_in(
            graph,
            before.last(),
            r,
        ) by {
            if is_ancestor_in(graph, c, r) {
                lemma_ancestor_transitive(graph, x, c, r);
            }
        }
        assert forall|y: GlobalPosition|
            found.contains(y) && #[trigger] is_ancestor_in(
                graph,
                before.last(),
                y,
            ) implies y == before.last() by {
            lemma_ancestor_transitive(graph, x, c, y);
            assert(y == x);
            lemma_ancestor_antisymmetric(graph, x, c);
        }
        assert forall|i: int| 0 <= i < before.len() - 1 implies {
            &&& graph.dom().contains(#[trigger] before[i])
            &&& !found.contains(before[i])
            &&& exists|k: int|
                range.start <= k < range.end && k < graph[before[i]].parent_positions.len()
                    && #[trigger] graph[before[i]].parent_positions[k] == before[i + 1]
        } by {
            assert(before[i] == path[i]);
            assert(before[i + 1] == path[i + 1]);
        }
        lemma_path_is_asked(graph, roots, heads, range, asked, found, before);
        assert(is_wanted(graph, heads, range, asked, found, c));
        lemma_in_range_by_index(graph[c].parent_positions, range, x);
        assert(step(c, x));
        lemma_reached_step(step, heads.to_set(), c, x);
    }
    assert(is_wanted(graph, heads, range, asked, found, x));
    lemma_falls_to_ancestors(graph, roots, x);
    if is_unwanted(graph, roots, found, x) {
        let h = choose|h: GlobalPosition|
            found.contains(h) && h.0 > x.0 && #[trigger] is_under_head(graph, h, x);
        assert(asked.contains(h));
        lemma_under_head_is_ancestor(graph, h, x);
    }
}

/// In any graph, where a path leads down from a root to a position which is at or
/// above one of the heads, there is an entry, and all its parents are below it.
pub proof fn lemma_root_walk_is_sound(
    graph: Graph,
    roots: Seq<GlobalPosition>,
    heads: Seq<GlobalPosition>,
    range: Range<u32>,
    asked: Seq<GlobalPosition>,
    found: Seq<GlobalPosition>,
    path: Seq<GlobalPosition>,
    head: GlobalPosition,
)
    requires
        range_stays_below(graph, roots, heads, range, asked, found, 0),
        path.len() > 0,
        roots.contains(path[0]),
        forall|i: int|
            0 <= i < path.len() - 1 ==> graph.dom().contains(#[trigger] path[i])
                && graph[path[i]].parent_positions.contains(path[i + 1]) && path[i + 1].0
                < path[i].0,
        heads.contains(head),
        head.0 <= path.last().0,
    ensures
        graph.dom().contains(path.last()),
        forall|i: int|
            0 <= i < graph[path.last()].parent_positions.len() ==> (
            #[trigger] graph[path.last()].parent_positions[i]).0 < path.last().0,
{
    let x = path.last();
    let step = falling(graph);
    assert forall|i: int| 0 <= i < path.len() - 1 implies step(#[trigger] path[i], path[i + 1]) by {
        assert(graph.dom().contains(path[i]));
    }
    lemma_path_reaches(step, roots.to_set(), path);
    assert(is_under_roots(graph, roots, x));
    assert(heads.to_set().contains(head));
    lemma_reached_start(past_rejected(graph, range, asked, found), heads.to_set(), head);
    assert(is_wanted(graph, heads, range, asked, found, head));
    assert(parents_below(graph, x));
    assert forall|i: int| 0 <= i < graph[x].parent_positions.len() implies (
    #[trigger] graph[x].parent_positions[i]).0 < x.0 by {
        assert(has_parent(graph, x, graph[x].parent_positions[i]));
    }
}

/// In any graph, what the filter is asked about is the end of a path down from one
/// of the heads, through parents in range of commits which the filter was asked
/// about and rejected.
pub proof fn lemma_asked_has_path_down(
    graph: Graph,
    roots: Seq<GlobalPosition>,
    heads: Seq<GlobalPosition>,
    range: Range<u32>,
    asked: Seq<GlobalPosition>,
    found: Seq<GlobalPosition>,
    x: GlobalPosition,
) -> (path: Seq<GlobalPosition>)
    requires
        selects_range_above(graph, roots, heads, range, asked, found, 0),
        asked.contains(x),
    ensures
        path.len() > 0,
        heads.contains(path[0]),
        path.last() == x,
        forall|i: int|
            0 <= i < path.len() - 1 ==> {
                &&& asked.contains(#[trigger] path[i])
                &&& !found.contains(path[i])
                &&& path[i + 1].0 < path[i].0
                &&& exists|k: int|
                    range.start <= k < range.end && k < graph[path[i]].parent_positions.len()
                        && #[trigger] graph[path[i]].parent_positions[k] == path[i + 1]
            },
{
    let step = past_rejected(graph, range, asked, found);
    let path = lemma_reached_is_path(step, heads.to_set(), x);
    assert forall|i: int| 0 <= i < path.len() - 1 implies {
        &&& asked.contains(#[trigger] path[i])
        &&& !found.contains(path[i])
        &&& path[i + 1].0 < path[i].0
        &&& exists|k: int|
            range.start <= k < range.end && k < graph[path[i]].parent_positions.len()
                && #[trigger] graph[path[i]].parent_positions[k] == path[i + 1]
    } by {
        assert(step(path[i], path[i + 1]));
        lemma_in_range_by_index(graph[path[i]].parent_positions, range, path[i + 1]);
    }
    path
}

/// In any graph, the filter is not asked about what a path leads down to from a
/// root.
pub proof fn lemma_below_root_is_not_asked(
    graph: Graph,
    roots: Seq<GlobalPosition>,
    heads: Seq<GlobalPosition>,
    range: Range<u32>,
    asked: Seq<GlobalPosition>,
    found: Seq<GlobalPosition>,
    path: Seq<GlobalPosition>,
)
    requires
        selects_range_above(graph, roots, heads, range, asked, found, 0),
        path.len() > 0,
        roots.contains(path[0]),
        forall|i: int|
            0 <= i < path.len() - 1 ==> graph.dom().contains(#[trigger] path[i])
                && graph[path[i]].parent_positions.contains(path[i + 1]) && path[i + 1].0
                < path[i].0,
    ensures
        !asked.contains(path.last()),
{
    let step = falling(graph);
    assert forall|i: int| 0 <= i < path.len() - 1 implies step(#[trigger] path[i], path[i + 1]) by {
        assert(graph.dom().contains(path[i]));
    }
    lemma_path_reaches(step, roots.to_set(), path);
    assert(is_under_roots(graph, roots, path.last()));
}

/// In any graph, the filter is not asked about what is below something found, and to
/// which a path leads from it, down from the second position on.
pub proof fn lemma_below_found_is_not_asked(
    graph: Graph,
    roots: Seq<GlobalPosition>,
    heads: Seq<GlobalPosition>,
    range: Range<u32>,
    asked: Seq<GlobalPosition>,
    found: Seq<GlobalPosition>,
    path: Seq<GlobalPosition>,
)
    requires
        selects_range_above(graph, roots, heads, range, asked, found, 0),
        path.len() >= 2,
        found.contains(path[0]),
        path[0].0 > path.last().0,
        forall|i: int|
            0 <= i < path.len() - 1 ==> graph.dom().contains(#[trigger] path[i])
                && graph[path[i]].parent_positions.contains(path[i + 1]) && (i > 0 ==> path[i
                + 1].0 < path[i].0),
    ensures
        !asked.contains(path.last()),
{
    let step = falling(graph);
    let rest = path.skip(1);
    assert(graph.dom().contains(path[0]));
    assert(rest[0] == path[1]);
    assert(graph[path[0]].parent_positions.to_set().contains(rest[0]));
    assert forall|i: int| 0 <= i < rest.len() - 1 implies step(#[trigger] rest[i], rest[i + 1]) by {
        assert(rest[i] == path[i + 1]);
        assert(rest[i + 1] == path[i + 1 + 1]);
        assert(graph.dom().contains(path[i + 1]));
    }
    lemma_path_reaches(step, graph[path[0]].parent_positions.to_set(), rest);
    assert(rest.last() == path.last());
    assert(is_under_head(graph, path[0], path.last()));
    assert(is_unwanted(graph, roots, found, path.last()));
}

/// In any graph, the filter is asked about everything else to which a path leads
/// down from one of the heads, through parents in range of commits which the filter
/// was asked about and rejected.
pub proof fn lemma_path_down_is_asked(
    graph: Graph,
    roots: Seq<GlobalPosition>,
    heads: Seq<GlobalPosition>,
    range: Range<u32>,
    asked: Seq<GlobalPosition>,
    found: Seq<GlobalPosition>,
    path: Seq<GlobalPosition>,
)
    requires
        selects_range_above(graph, roots, heads, range, asked, found, 0),
        path.len() > 0,
        heads.contains(path[0]),
        forall|i: int|
            0 <= i < path.len() - 1 ==> {
                &&& asked.contains(#[trigger] path[i])
                &&& !found.contains(path[i])
                &&& path[i + 1].0 < path[i].0
                &&& exists|k: int|
                    range.start <= k < range.end && k < graph[path[i]].parent_positions.len()
                        && #[trigger] graph[path[i]].parent_positions[k] == path[i + 1]
            },
        forall|other: Seq<GlobalPosition>|
            other.len() > 0 && #[trigger] other.last() == path.last() && roots.contains(other[0])
                ==> !(forall|i: int|
                0 <= i < other.len() - 1 ==> graph.dom().contains(#[trigger] other[i])
                    && graph[other[i]].parent_positions.contains(other[i + 1]) && other[i + 1].0
                    < other[i].0),
        forall|other: Seq<GlobalPosition>|
            other.len() >= 2 && #[trigger] other.last() == path.last() && found.contains(other[0])
                && other[0].0 > other.last().0 ==> !(forall|i: int|
                0 <= i < other.len() - 1 ==> graph.dom().contains(#[trigger] other[i])
                    && graph[other[i]].parent_positions.contains(other[i + 1]) && (i > 0
                    ==> other[i + 1].0 < other[i].0)),
    ensures
        asked.contains(path.last()),
{
    let x = path.last();
    let step = past_rejected(graph, range, asked, found);
    assert forall|i: int| 0 <= i < path.len() - 1 implies step(#[trigger] path[i], path[i + 1]) by {
        assert(asked.contains(path[i]));
        lemma_in_range_by_index(graph[path[i]].parent_positions, range, path[i + 1]);
    }
    lemma_path_reaches(step, heads.to_set(), path);
    assert(is_wanted(graph, heads, range, asked, found, x));
    if is_under_roots(graph, roots, x) {
        let other = lemma_reached_is_path(falling(graph), roots.to_set(), x);
        assert forall|i: int| 0 <= i < other.len() - 1 implies graph.dom().contains(
            #[trigger] other[i],
        ) && graph[other[i]].parent_positions.contains(other[i + 1]) && other[i + 1].0
            < other[i].0 by {
            assert(falling(graph)(other[i], other[i + 1]));
        }
        assert(other.last() == x);
    } else if is_unwanted(graph, roots, found, x) {
        let h = choose|h: GlobalPosition|
            found.contains(h) && h.0 > x.0 && #[trigger] is_under_head(graph, h, x);
        assert(asked.contains(h));
        let rest = lemma_reached_is_path(
            falling(graph),
            graph[h].parent_positions.to_set(),
            x,
        );
        let other = seq![h] + rest;
        assert(other.last() == x);
        assert forall|i: int| 0 <= i < other.len() - 1 implies graph.dom().contains(
            #[trigger] other[i],
        ) && graph[other[i]].parent_positions.contains(other[i + 1]) && (i > 0 ==> other[i + 1].0
            < other[i].0) by {
            if i > 0 {
                assert(other[i] == rest[i - 1]);
                assert(other[i + 1] == rest[i - 1 + 1]);
                assert(falling(graph)(rest[i - 1], rest[i - 1 + 1]));
            } else {
                assert(other[1] == rest[0]);
            }
        }
    }
}

/// When the search for the heads of a range fails, the filter was asked from high to
/// low about commits which have entries, and each call but the last was answered.
pub proof fn lemma_calls_before_failure<
    E: From<IndexError>,
    F: FnMut(GlobalPosition) -> Result<bool, E>,
>(
    model: IndexModel,
    roots: Seq<GlobalPosition>,
    heads: Seq<GlobalPosition>,
    range: Range<u32>,
    filter: F,
    calls: Seq<GlobalPosition>,
    error: E,
)
    requires
        fails_after_calls(model, roots, heads, range, filter, calls, error),
    ensures
        forall|i: int, j: int| 0 <= i < j < calls.len() ==> calls[i].0 > calls[j].0,
        forall|i: int|
            0 <= i < calls.len() ==> model.graph.dom().contains(#[trigger] calls[i]),
        forall|i: int|
            0 <= i < calls.len() - 1 ==> call_ensures(
                filter,
                (#[trigger] calls[i],),
                Ok::<bool, E>(true),
            ) || call_ensures(filter, (calls[i],), Ok::<bool, E>(false)),
{
    let (asked, found, position) = choose|
        asked: Seq<GlobalPosition>,
        found: Seq<GlobalPosition>,
        position: GlobalPosition,
    |
        {
            &&& selects_range_above(
                model.graph,
                roots,
                heads,
                range,
                asked,
                found,
                position.0 + 1,
            )
            &&& filter_answers(filter, asked, found)
            &&& #[trigger] is_wanted(model.graph, heads, range, asked, found, position)
            &&& calls == asked || calls == asked.push(position) && fails_on_asking(
                model,
                roots,
                range,
                filter,
                found,
                position,
                error,
            )
        };
    assert forall|i: int| 0 <= i < asked.len() implies asked.contains(#[trigger] asked[i]) by {}
    assert forall|i: int, j: int| 0 <= i < j < calls.len() implies calls[i].0 > calls[j].0 by {
        assert(calls[i] == asked[i]);
        assert(asked.contains(asked[i]));
    }
    assert forall|i: int| 0 <= i < calls.len() - 1 implies call_ensures(
        filter,
        (#[trigger] calls[i],),
        Ok::<bool, E>(true),
    ) || call_ensures(filter, (calls[i],), Ok::<bool, E>(false)) by {
        assert(calls[i] == asked[i]);
        assert(asked.contains(asked[i]));
        assert(call_ensures(filter, (calls[i],), Ok::<bool, E>(found.contains(calls[i]))));
    }
    assert forall|i: int| 0 <= i < calls.len() implies model.graph.dom().contains(
        #[trigger] calls[i],
    ) by {
        if i < asked.len() {
            assert(calls[i] == asked[i]);
            assert(asked.contains(asked[i]));
        }
    }
}

/// Where the search for the heads of a range fails, it is at the end of a path from
/// one of the heads through parents in range, and the error is one which a call of
/// the filter with this position may give, or is converted from an index error. This
/// is one with which the read of an entry may fail, or one which names a parent of
/// an entry which is not below it; and the entry is the one at this position, or not
/// below it and that of an ancestor of a root or of a head.
pub proof fn lemma_range_failure_has_cause<
    E: From<IndexError>,
    F: FnMut(GlobalPosition) -> Result<bool, E>,
>(
    model: IndexModel,
    roots: Seq<GlobalPosition>,
    heads: Seq<GlobalPosition>,
    range: Range<u32>,
    filter: F,
    error: E,
) -> (result: (Seq<GlobalPosition>, GlobalPosition, IndexError))
    requires
        fails_in_range(model, roots, heads, range, filter, error),
    ensures
        result.0.len() > 0,
        heads.contains(result.0[0]),
        forall|i: int|
            0 <= i < result.0.len() - 1 ==> model.graph.dom().contains(#[trigger] result.0[i])
                && exists|k: int|
                range.start <= k < range.end && k
                    < model.graph[result.0[i]].parent_positions.len()
                    && #[trigger] model.graph[result.0[i]].parent_positions[k] == result.0[i + 1],
        ({
            let at = result.0.last();
            let x = result.1;
            let cause = result.2;
            ||| {
                &&& model.graph.dom().contains(at)
                &&& call_ensures(filter, (at,), Err::<bool, E>(error))
                &&& is_topological(model.graph) ==> forall|r: GlobalPosition|
                    roots.contains(r) ==> !#[trigger] is_ancestor_in(model.graph, at, r)
            }
            ||| {
                &&& call_ensures(E::from, (cause,), error)
                &&& x == at || x.0 >= at.0 && exists|s: GlobalPosition|
                    (roots.contains(s) || heads.contains(s)) && #[trigger] is_ancestor_in(
                        model.graph,
                        x,
                        s,
                    )
                &&& {
                    ||| (model.faults)(Lookup::Entry(x), cause)
                    ||| {
                        &&& model.graph.dom().contains(x)
                        &&& exists|i: int|
                            {
                                &&& 0 <= i < model.graph[x].parent_positions.len()
                                &&& (#[trigger] model.graph[x].parent_positions[i]).0 >= x.0
                                &&& cause == (IndexError::InvalidParentPosition {
                                    parent: model.graph[x].parent_positions[i],
                                    child: x,
                                })
                            }
                    }
                }
            }
        }),
{
    let graph = model.graph;
    let calls = choose|calls: Seq<GlobalPosition>| #[trigger]
        fails_after_calls(model, roots, heads, range, filter, calls, error);
    let (asked, found, position) = choose|
        asked: Seq<GlobalPosition>,
        found: Seq<GlobalPosition>,
        position: GlobalPosition,
    |
        {
            &&& selects_range_above(graph, roots, heads, range, asked, found, position.0 + 1)
            &&& #[trigger] is_wanted(graph, heads, range, asked, found, position)
            &&& fails_before_asking(model, roots, found, position, error) || fails_on_asking(
                model,
                roots,
                range,
                filter,
                found,
                position,
                error,
            )
        };
    lemma_wanted_is_reachable(graph, heads, range, asked, found, position);
    let path = lemma_reachable_has_path(graph, heads, range, position);
    if is_topological(graph) {
        lemma_falls_to_ancestors(graph, roots, position);
    }
    if fails_before_asking(model, roots, found, position, error) {
        if exists|cause: IndexError|
            (model.faults)(Lookup::Entry(position), cause) && #[trigger] comes_from(error, cause) {
            let cause = choose|cause: IndexError|
                (model.faults)(Lookup::Entry(position), cause) && #[trigger] comes_from(
                    error,
                    cause,
                );
            (path, position, cause)
        } else {
            let (x, cause) = choose|x: GlobalPosition, cause: IndexError|
                {
                    &&& x.0 >= position.0
                    &&& is_excluded(graph, roots, found, x)
                    &&& #[trigger] fails_at(model, x, cause)
                    &&& #[trigger] comes_from(error, cause)
                };
            lemma_excluded_is_ancestor(graph, roots, heads, range, asked, found, position, x);
            if !(model.faults)(Lookup::Entry(x), cause) {
                let parents = graph[x].parent_positions;
                let i = choose|i: int| #[trigger]
                    is_first_invalid(parents, x, i) && cause
                        == (IndexError::InvalidParentPosition { parent: parents[i], child: x });
                assert(graph[x].parent_positions[i].0 >= x.0);
            }
            (path, x, cause)
        }
    } else if call_ensures(filter, (position,), Err::<bool, E>(error)) {
        (path, position, IndexError::Other(arbitrary()))
    } else {
        let parents = clipped(graph[position].parent_positions, range);
        let cause = choose|cause: IndexError|
            reports_first_invalid(parents, position, cause) && #[trigger] comes_from(error, cause);
        let k = choose|k: int| #[trigger]
            is_first_invalid(parents, position, k) && cause
                == (IndexError::InvalidParentPosition { parent: parents[k], child: position });
        assert(parents.contains(parents[k]));
        lemma_in_range_by_index(graph[position].parent_positions, range, parents[k]);
        let i = choose|i: int|
            range.start <= i < range.end && i < graph[position].parent_positions.len()
                && #[trigger] graph[position].parent_positions[i] == parents[k];
        assert(graph[position].parent_positions[i].0 >= position.0);
        (path, position, cause)
    }
}

/// What is left out is an ancestor of a root or of a head.
proof fn lemma_excluded_is_ancestor(
    graph: Graph,
    roots: Seq<GlobalPosition>,
    heads: Seq<GlobalPosition>,
    range: Range<u32>,
    asked: Seq<GlobalPosition>,
    found: Seq<GlobalPosition>,
    position: GlobalPosition,
    x: GlobalPosition,
)
    requires
        selects_range_above(graph, roots, heads, range, asked, found, position.0 + 1),
        is_excluded(graph, roots, found, x),
    ensures
        exists|s: GlobalPosition|
            (roots.contains(s) || heads.contains(s)) && #[trigger] is_ancestor_in(graph, x, s),
{
    let step = falling(graph);
    if is_under_roots(graph, roots, x) {
        let path = lemma_reached_is_path(step, roots.to_set(), x);
        assert forall|i: int| 0 <= i < path.len() - 1 implies graph.dom().contains(
            #[trigger] path[i],
        ) && graph[path[i]].parent_positions.contains(path[i + 1]) by {
            assert(step(path[i], path[i + 1]));
        }
        lemma_path_leads_to_ancestor(graph, path);
    } else {
        let h = choose|h: GlobalPosition|
            found.contains(h) && #[trigger] is_under_head(graph, h, x);
        assert(asked.contains(h));
        let rest = lemma_reached_is_path(step, graph[h].parent_positions.to_set(), x);
        let path = seq![h] + rest;
        assert(path.last() == x);
        assert forall|i: int| 0 <= i < path.len() - 1 implies graph.dom().contains(
            #[trigger] path[i],
        ) && graph[path[i]].parent_positions.contains(path[i + 1]) by {
            if i > 0 {
                assert(path[i] == rest[i - 1]);
                assert(path[i + 1] == rest[i - 1 + 1]);
                assert(step(rest[i - 1], rest[i - 1 + 1]));
            } else {
                assert(path[1] == rest[0]);
            }
        }
        lemma_path_leads_to_ancestor(graph, path);
        assert(is_ancestor_in(graph, x, h));
        lemma_wanted_is_reachable(graph, heads, range, asked, found, h);
        let way = lemma_reachable_has_path(graph, heads, range, h);
        assert forall|i: int| 0 <= i < way.len() - 1 implies graph.dom().contains(
            #[trigger] way[i],
        ) && graph[way[i]].parent_positions.contains(way[i + 1]) by {
            let k = choose|k: int|
                range.start <= k < range.end && k < graph[way[i]].parent_positions.len()
                    && #[trigger] graph[way[i]].parent_positions[k] == way[i + 1];
            assert(graph[way[i]].parent_positions[k] == way[i + 1]);
        }
        lemma_path_leads_to_ancestor(graph, way);
        lemma_ancestor_transitive(graph, x, h, way[0]);
        assert(heads.contains(way[0]));
    }
}

} // verus!
