//! When queries of an index succeed.
use std::ops::Range;

use vstd::prelude::*;

use crate::all_heads::{fails_on_all, has_first_entries};
use crate::ancestors::{fails_on_ancestor, fails_on_ancestor_id, towards};
use crate::commits::{
    fails_to_name_common_ancestors, fails_to_name_heads, holds_all, finds_entries, positions_of,
};
use crate::common::{
    avoiding, fails_on_common_ancestors, goes_on, meets, meets_above, meets_with_heads, walks_to,
};
use crate::error::IndexError;
use crate::graph::{
    connected, has_parent, is_closed, is_topological, lemma_connected_keeps, reached, Graph, Step,
};
use crate::heads::{
    fails_on_heads, fails_on_heads_at, lies_under, finds_heads, lowest_generation,
};
use crate::lookup::{fails_to_identify, fails_to_locate_any};
use crate::position::GlobalPosition;
use crate::position_index::{IndexModel, Lookup};
use crate::range::{
    clip, clipped, comes_from, fails_after_calls, fails_before_asking, fails_in_range,
    fails_on_asking, filter_answers, is_excluded, is_under_head, is_under_roots, is_wanted,
    past_rejected, range_stays_below, selects_range_above,
};
use crate::walk::{fails_at, falling, falling_above, reports_first_invalid};

verus! {

/// No look-up of a commit ID fails.
pub open spec fn has_readable_ids(model: IndexModel) -> bool {
    forall|id: Seq<u8>, error: IndexError| !(#[trigger] (model.faults)(
        Lookup::CommitId(id),
        error,
    ))
}

/// No read of an entry which exists fails.
pub open spec fn has_readable_entries(model: IndexModel) -> bool {
    forall|position: GlobalPosition, error: IndexError|
        model.graph.dom().contains(position) ==> !(#[trigger] (model.faults)(
            Lookup::Entry(position),
            error,
        ))
}

/// The graph has an entry at each of `positions`.
pub open spec fn has_entries(graph: Graph, positions: Seq<GlobalPosition>) -> bool {
    forall|p: GlobalPosition| #[trigger] positions.contains(p) ==> graph.dom().contains(p)
}

/// Where parents have entries, steps to parents stay in the graph.
proof fn lemma_connected_stays(graph: Graph, step: Step, from: GlobalPosition, to: GlobalPosition)
    requires
        is_closed(graph),
        forall|x: GlobalPosition, y: GlobalPosition| #[trigger]
            step(x, y) ==> has_parent(graph, x, y),
        graph.dom().contains(from),
        connected(step, from, to),
    ensures
        graph.dom().contains(to),
{
    let kept = |x: GlobalPosition| graph.dom().contains(x);
    assert forall|x: GlobalPosition, y: GlobalPosition|
        kept(x) && #[trigger] step(x, y) implies kept(y) by {
        assert(has_parent(graph, x, y));
    }
    lemma_connected_keeps(step, kept, from, to);
}

/// Where parents have entries, a walk to parents stays in the graph.
proof fn lemma_reached_stays(
    graph: Graph,
    step: Step,
    starts: Seq<GlobalPosition>,
    position: GlobalPosition,
)
    requires
        is_closed(graph),
        forall|x: GlobalPosition, y: GlobalPosition| #[trigger]
            step(x, y) ==> has_parent(graph, x, y),
        has_entries(graph, starts),
        reached(step, starts.to_set(), position),
    ensures
        graph.dom().contains(position),
{
    let from = choose|from: GlobalPosition|
        starts.to_set().contains(from) && #[trigger] connected(step, from, position);
    assert(starts.contains(from));
    lemma_connected_stays(graph, step, from, position);
}

/// Where parents have entries, those of one entry do.
proof fn lemma_parents_have_entries(graph: Graph, child: GlobalPosition)
    requires
        is_closed(graph),
        graph.dom().contains(child),
    ensures
        has_entries(graph, graph[child].parent_positions),
{
    assert forall|p: GlobalPosition| #[trigger]
        graph[child].parent_positions.contains(p) implies graph.dom().contains(p) by {
        assert(has_parent(graph, child, p));
    }
}

/// Where parents are below their children, no parent is reported.
proof fn lemma_no_invalid_parent(
    graph: Graph,
    child: GlobalPosition,
    parents: Seq<GlobalPosition>,
    error: IndexError,
)
    requires
        is_topological(graph),
        graph.dom().contains(child),
        forall|p: GlobalPosition| #[trigger]
            parents.contains(p) ==> graph[child].parent_positions.contains(p),
    ensures
        !reports_first_invalid(parents, child, error),
{
    assert forall|i: int| 0 <= i < parents.len() implies (#[trigger] parents[i]).0 < child.0 by {
        assert(parents.contains(parents[i]));
        assert(has_parent(graph, child, parents[i]));
    }
}

/// Where entries are readable and parents are below their children, nothing is
/// wrong with an entry.
proof fn lemma_no_failure_at(model: IndexModel, position: GlobalPosition, error: IndexError)
    requires
        is_topological(model.graph),
        has_readable_entries(model),
        model.graph.dom().contains(position),
    ensures
        !fails_at(model, position, error),
{
    lemma_no_invalid_parent(
        model.graph,
        position,
        model.graph[position].parent_positions,
        error,
    );
}

/// Where entries are readable and parents have entries, the search for an
/// ancestor succeeds.
pub proof fn lemma_ancestor_search_succeeds(
    model: IndexModel,
    ancestor: GlobalPosition,
    descendant: GlobalPosition,
    error: IndexError,
)
    requires
        is_closed(model.graph),
        has_readable_entries(model),
        model.graph.dom().contains(ancestor),
        model.graph.dom().contains(descendant),
    ensures
        !fails_on_ancestor(model, ancestor, descendant, error),
{
    let step = towards(model.graph, ancestor);
    assert forall|x: GlobalPosition| #[trigger]
        connected(step, descendant, x) implies model.graph.dom().contains(x) by {
        lemma_connected_stays(model.graph, step, descendant, x);
    }
}

/// Where look-ups succeed, the commits found have entries, entries are readable
/// and parents have entries, the search for an ancestor fails exactly if one of
/// the commits is not in the index, and says so of the first which is not.
pub proof fn lemma_ancestor_id_search_succeeds(
    model: IndexModel,
    ancestor: Seq<u8>,
    descendant: Seq<u8>,
    error: IndexError,
)
    requires
        is_closed(model.graph),
        has_readable_ids(model),
        has_readable_entries(model),
        finds_entries(model),
    ensures
        fails_on_ancestor_id(model, ancestor, descendant, error) <==> {
            let missing = if !model.positions.dom().contains(ancestor) {
                ancestor
            } else {
                descendant
            };
            &&& !model.positions.dom().contains(missing)
            &&& error matches IndexError::CommitNotFound(id) && id@ == missing
        },
{
    if model.positions.dom().contains(ancestor) && model.positions.dom().contains(descendant) {
        lemma_ancestor_search_succeeds(
            model,
            model.positions[ancestor],
            model.positions[descendant],
            error,
        );
    }
}

/// Where entries are readable, and parents have entries and are below their
/// children, the search for heads succeeds.
pub proof fn lemma_heads_succeed(
    model: IndexModel,
    candidates: Seq<GlobalPosition>,
    error: IndexError,
)
    requires
        is_topological(model.graph),
        is_closed(model.graph),
        has_readable_entries(model),
        has_entries(model.graph, candidates),
    ensures
        !fails_on_heads(model, candidates, error),
{
    let graph = model.graph;
    let floor = lowest_generation(graph, candidates);
    if fails_on_heads(model, candidates, error) {
        let (heads, next, x) = choose|
            heads: Seq<GlobalPosition>,
            next: GlobalPosition,
            x: GlobalPosition,
        | #[trigger]
            fails_on_heads_at(model, candidates, heads, next, x, error);
        let h = choose|h: GlobalPosition|
            heads.contains(h) && #[trigger] lies_under(graph, floor, h, x);
        assert(candidates.contains(h));
        lemma_parents_have_entries(graph, h);
        lemma_reached_stays(
            graph,
            falling_above(graph, floor),
            graph[h].parent_positions,
            x,
        );
        lemma_no_failure_at(model, x, error);
    }
}

/// Where entries are readable and each of the commits has one, the search for all
/// heads succeeds.
pub proof fn lemma_all_heads_succeed(model: IndexModel, error: IndexError)
    requires
        has_readable_entries(model),
        has_first_entries(model.graph, model.num_commits as int),
    ensures
        !fails_on_all(model, error),
{
}

/// Where parents have entries, the walks of the search for common ancestors stay
/// in the graph.
proof fn lemma_walk_stays(
    graph: Graph,
    starts: Seq<GlobalPosition>,
    found: Seq<GlobalPosition>,
    x: GlobalPosition,
)
    requires
        is_closed(graph),
        has_entries(graph, starts),
        walks_to(graph, starts, found, x),
    ensures
        graph.dom().contains(x),
{
    lemma_reached_stays(graph, avoiding(graph, found), starts, x);
}

/// Where entries are readable, and parents have entries and are below their
/// children, the search for common ancestors succeeds.
pub proof fn lemma_common_ancestors_succeed(
    model: IndexModel,
    first: Seq<GlobalPosition>,
    second: Seq<GlobalPosition>,
    error: IndexError,
)
    requires
        is_topological(model.graph),
        is_closed(model.graph),
        has_readable_entries(model),
        has_entries(model.graph, first),
        has_entries(model.graph, second),
    ensures
        !fails_on_common_ancestors(model, first, second, error),
{
    let graph = model.graph;
    assert forall|found: Seq<GlobalPosition>, x: GlobalPosition|
        goes_on(graph, first, second, found, x) || goes_on(
            graph,
            second,
            first,
            found,
            x,
        ) implies !(#[trigger] meets_above(graph, first, second, found, x.0 + 1)
        && #[trigger] fails_at(model, x, error)) by {
        if goes_on(graph, first, second, found, x) {
            lemma_walk_stays(graph, first, found, x);
        } else {
            lemma_walk_stays(graph, second, found, x);
        }
        lemma_no_failure_at(model, x, error);
    }
    assert forall|found: Seq<GlobalPosition>| #[trigger]
        meets(graph, first, second, found) implies !fails_on_heads(model, found, error) by {
        assert forall|x: GlobalPosition| #[trigger] found.contains(x) implies graph.dom().contains(
            x,
        ) by {
            lemma_walk_stays(graph, first, found, x);
        }
        lemma_heads_succeed(model, found, error);
    }
}

/// Where entries are readable, and parents have entries and are below their
/// children, the search for the heads of a range succeeds with a filter which does
/// not fail.
pub proof fn lemma_range_search_succeeds<
    E: From<IndexError>,
    F: FnMut(GlobalPosition) -> Result<bool, E>,
>(
    model: IndexModel,
    roots: Seq<GlobalPosition>,
    heads: Seq<GlobalPosition>,
    range: Range<u32>,
    filter: F,
    error: E,
)
    requires
        is_topological(model.graph),
        is_closed(model.graph),
        has_readable_entries(model),
        has_entries(model.graph, roots),
        has_entries(model.graph, heads),
        forall|p: GlobalPosition| !#[trigger] call_ensures(filter, (p,), Err::<bool, E>(error)),
    ensures
        !fails_in_range(model, roots, heads, range, filter, error),
{
    if fails_in_range(model, roots, heads, range, filter, error) {
        let calls = choose|calls: Seq<GlobalPosition>| #[trigger]
            fails_after_calls(model, roots, heads, range, filter, calls, error);
        let (asked, found, position) = choose|
            asked: Seq<GlobalPosition>,
            found: Seq<GlobalPosition>,
            position: GlobalPosition,
        |
            {
                &&& selects_range_above(
                    model.graph,
                    roots,
                    heads,
                    range,
                    asked,
                    found,
                    position.0 + 1,
                )
                &&& range_stays_below(
                    model.graph,
                    roots,
                    heads,
                    range,
                    asked,
                    found,
                    position.0 + 1,
                )
                &&& filter_answers(filter, asked, found)
                &&& #[trigger] is_wanted(model.graph, heads, range, asked, found, position)
                &&& {
                    ||| {
                        &&& calls == asked
                        &&& fails_before_asking(model, roots, found, position, error)
                    }
                    ||| {
                        &&& calls == asked.push(position)
                        &&& fails_on_asking(
                            model,
                            roots,
                            range,
                            filter,
                            found,
                            position,
                            error,
                        )
                    }
                }
            };
        lemma_range_step_succeeds(
            model,
            roots,
            heads,
            range,
            filter,
            asked,
            found,
            position,
            error,
        );
    }
}

/// No step of the search for the heads of a range fails.
proof fn lemma_range_step_succeeds<
    E: From<IndexError>,
    F: FnMut(GlobalPosition) -> Result<bool, E>,
>(
    model: IndexModel,
    roots: Seq<GlobalPosition>,
    heads: Seq<GlobalPosition>,
    range: Range<u32>,
    filter: F,
    asked: Seq<GlobalPosition>,
    found: Seq<GlobalPosition>,
    position: GlobalPosition,
    error: E,
)
    requires
        is_topological(model.graph),
        is_closed(model.graph),
        has_readable_entries(model),
        has_entries(model.graph, roots),
        has_entries(model.graph, heads),
        forall|p: GlobalPosition| !#[trigger] call_ensures(filter, (p,), Err::<bool, E>(error)),
        selects_range_above(model.graph, roots, heads, range, asked, found, position.0 + 1),
        is_wanted(model.graph, heads, range, asked, found, position),
    ensures
        !fails_before_asking(model, roots, found, position, error),
        !fails_on_asking(model, roots, range, filter, found, position, error),
{
    let graph = model.graph;
    let parents = clipped(graph[position].parent_positions, range);
    assert forall|x: GlobalPosition, cause: IndexError|
        is_excluded(graph, roots, found, x) implies !(#[trigger] fails_at(model, x, cause)
        && #[trigger] comes_from(error, cause)) by {
        if is_under_roots(graph, roots, x) {
            lemma_reached_stays(graph, falling(graph), roots, x);
        } else {
            let h = choose|h: GlobalPosition|
                found.contains(h) && #[trigger] is_under_head(graph, h, x);
            assert(asked.contains(h));
            lemma_parents_have_entries(graph, h);
            lemma_reached_stays(graph, falling(graph), graph[h].parent_positions, x);
        }
        lemma_no_failure_at(model, x, cause);
    }
    let step = past_rejected(graph, range, asked, found);
    assert forall|x: GlobalPosition, y: GlobalPosition| #[trigger] step(x, y) implies has_parent(
        graph,
        x,
        y,
    ) by {
        lemma_clipped_are_parents(graph[x].parent_positions, range, y);
    }
    lemma_reached_stays(graph, step, heads, position);
    assert forall|p: GlobalPosition| #[trigger]
        parents.contains(p) implies graph[position].parent_positions.contains(p) by {
        lemma_clipped_are_parents(graph[position].parent_positions, range, p);
    }
    assert forall|cause: IndexError| !(#[trigger] reports_first_invalid(
        parents,
        position,
        cause,
    )) by {
        lemma_no_invalid_parent(graph, position, parents, cause);
    }
}

/// The items in a range are items.
proof fn lemma_clipped_are_parents(
    items: Seq<GlobalPosition>,
    range: Range<u32>,
    item: GlobalPosition,
)
    requires
        clipped(items, range).contains(item),
    ensures
        items.contains(item),
{
    let i = clipped(items, range).index_of(item);
    assert(items[i + clip(range.start, items.len())] == item);
}

/// Where look-ups succeed, the commits found have entries, entries are readable,
/// and parents have entries and are below their children, the search for heads by commit ID
/// fails exactly if one of the commits is not in the index.
pub proof fn lemma_named_heads_succeed(
    model: IndexModel,
    candidates: Seq<Seq<u8>>,
    error: IndexError,
)
    requires
        is_topological(model.graph),
        is_closed(model.graph),
        has_readable_ids(model),
        has_readable_entries(model),
        finds_entries(model),
    ensures
        fails_to_name_heads(model, candidates, error) <==> fails_to_locate_any(
            model,
            candidates,
            error,
        ),
{
    let given = positions_of(model, candidates);
    if holds_all(model, candidates) {
        lemma_located_have_entries(model, candidates);
        lemma_heads_succeed(model, given, error);
        assert forall|heads: Seq<GlobalPosition>| #[trigger]
            finds_heads(model.graph, given, heads) implies !fails_to_identify(
            model,
            heads,
            error,
        ) by {
            assert forall|i: int| 0 <= i < heads.len() implies !(model.faults)(
                Lookup::Entry(#[trigger] heads[i]),
                error,
            ) by {
                assert(heads.contains(heads[i]));
            }
        }
    }
}

/// The commits found have entries.
proof fn lemma_located_have_entries(model: IndexModel, ids: Seq<Seq<u8>>)
    requires
        finds_entries(model),
        holds_all(model, ids),
    ensures
        has_entries(model.graph, positions_of(model, ids)),
{
    let positions = positions_of(model, ids);
    assert forall|p: GlobalPosition| #[trigger] positions.contains(p) implies model.graph.dom().contains(
        p,
    ) by {
        let i = positions.index_of(p);
        assert(model.positions.dom().contains(ids[i]));
    }
}

/// Where look-ups succeed, the commits found have entries, entries are readable,
/// and parents have entries and are below their children, the search for common ancestors by
/// commit ID fails exactly if one of the commits is not in
/// the index.
pub proof fn lemma_named_common_ancestors_succeed(
    model: IndexModel,
    first: Seq<Seq<u8>>,
    second: Seq<Seq<u8>>,
    error: IndexError,
)
    requires
        is_topological(model.graph),
        is_closed(model.graph),
        has_readable_ids(model),
        has_readable_entries(model),
        finds_entries(model),
    ensures
        fails_to_name_common_ancestors(model, first, second, error) <==> fails_to_locate_any(
            model,
            first,
            error,
        ) || holds_all(model, first) && fails_to_locate_any(model, second, error),
{
    let one = positions_of(model, first);
    let two = positions_of(model, second);
    if holds_all(model, first) && holds_all(model, second) {
        lemma_located_have_entries(model, first);
        lemma_located_have_entries(model, second);
        lemma_common_ancestors_succeed(model, one, two, error);
        assert forall|found: Seq<GlobalPosition>, best: Seq<GlobalPosition>| #[trigger]
            meets_with_heads(model.graph, one, two, found, best) implies !fails_to_identify(
            model,
            best,
            error,
        ) by {
            assert forall|i: int| 0 <= i < best.len() implies !(model.faults)(
                Lookup::Entry(#[trigger] best[i]),
                error,
            ) by {
                assert(best.contains(best[i]));
                assert(found.contains(best[i]));
            }
        }
    }
}

} // verus!
