//! An index and a filter which give the same each time have one answer to the
//! search for the heads of a range, errors included.
use std::ops::Range;

use vstd::prelude::*;

use crate::answer_laws::{lemma_one_failure, lemma_one_invalid_parent};
use crate::error::IndexError;
use crate::frontier::lemma_reached_agree;
use crate::graph::Graph;
use crate::head_laws::lemma_descending_unique;
use crate::position::GlobalPosition;
use crate::position_index::IndexModel;
use crate::range::{
    clipped, comes_from, fails_after_calls, fails_before_asking, fails_on_asking, filter_answers,
    is_excluded, is_range_selection, is_under_head, is_under_roots, is_unwanted, is_wanted,
    past_rejected, range_stays_below, selects_range, selects_range_above,
};
use crate::range_laws::lemma_range_agrees;
use crate::read_laws::repeats_entries;
use crate::walk::{fails_at, is_first_invalid, parents_below, reports_first_invalid};

verus! {

/// The filter gives one answer for each position.
pub open spec fn decides<E, F: FnMut(GlobalPosition) -> Result<bool, E>>(filter: F) -> bool {
    forall|p: GlobalPosition, first: Result<bool, E>, second: Result<bool, E>|
        #[trigger] call_ensures(filter, (p,), first) && #[trigger] call_ensures(
            filter,
            (p,),
            second,
        ) ==> first == second
}

/// Each index error is converted to one error.
pub open spec fn converts_alike<E: From<IndexError>>() -> bool {
    forall|cause: IndexError, first: E, second: E|
        #[trigger] comes_from(first, cause) && #[trigger] comes_from(second, cause) ==> first
            == second
}

/// The search fails at the wanted `position`, when the filter was asked about
/// `calls`.
spec fn fails_at_wanted<E: From<IndexError>, F: FnMut(GlobalPosition) -> Result<bool, E>>(
    model: IndexModel,
    roots: Seq<GlobalPosition>,
    heads: Seq<GlobalPosition>,
    range: Range<u32>,
    filter: F,
    calls: Seq<GlobalPosition>,
    asked: Seq<GlobalPosition>,
    found: Seq<GlobalPosition>,
    position: GlobalPosition,
    error: E,
) -> bool {
    &&& selects_range_above(model.graph, roots, heads, range, asked, found, position.0 + 1)
    &&& range_stays_below(model.graph, roots, heads, range, asked, found, position.0 + 1)
    &&& filter_answers(filter, asked, found)
    &&& is_wanted(model.graph, heads, range, asked, found, position)
    &&& {
        ||| {
            &&& calls == asked
            &&& fails_before_asking(model, roots, found, position, error)
        }
        ||| {
            &&& calls == asked.push(position)
            &&& fails_on_asking(model, roots, range, filter, found, position, error)
        }
    }
}

/// Two searches with a filter which decides agree from `bound` on.
proof fn lemma_searches_agree<E, F: FnMut(GlobalPosition) -> Result<bool, E>>(
    graph: Graph,
    roots: Seq<GlobalPosition>,
    heads: Seq<GlobalPosition>,
    range: Range<u32>,
    filter: F,
    asked1: Seq<GlobalPosition>,
    found1: Seq<GlobalPosition>,
    bound1: int,
    asked2: Seq<GlobalPosition>,
    found2: Seq<GlobalPosition>,
    bound2: int,
    bound: int,
)
    requires
        decides(filter),
        selects_range_above(graph, roots, heads, range, asked1, found1, bound1),
        selects_range_above(graph, roots, heads, range, asked2, found2, bound2),
        filter_answers(filter, asked1, found1),
        filter_answers(filter, asked2, found2),
        bound >= bound1,
        bound >= bound2,
    ensures
        forall|y: GlobalPosition|
            y.0 >= bound ==> (#[trigger] asked1.contains(y) <==> asked2.contains(y)),
        forall|y: GlobalPosition|
            y.0 >= bound ==> (#[trigger] found1.contains(y) <==> found2.contains(y)),
{
    let keep = |p: GlobalPosition| call_ensures(filter, (p,), Ok::<bool, E>(true));
    assert forall|p: GlobalPosition| #[trigger] asked1.contains(p) implies found1.contains(p)
        == keep(p) by {
        assert(call_ensures(filter, (p,), Ok::<bool, E>(found1.contains(p))));
    }
    assert forall|p: GlobalPosition| #[trigger] asked2.contains(p) implies found2.contains(p)
        == keep(p) by {
        assert(call_ensures(filter, (p,), Ok::<bool, E>(found2.contains(p))));
    }
    lemma_range_agrees(
        graph,
        roots,
        heads,
        range,
        keep,
        asked1,
        found1,
        bound1,
        asked2,
        found2,
        bound2,
        bound,
    );
}

/// What is wanted at `position` does not depend on what is below it.
proof fn lemma_wanted_agrees(
    graph: Graph,
    heads: Seq<GlobalPosition>,
    range: Range<u32>,
    asked: Seq<GlobalPosition>,
    found: Seq<GlobalPosition>,
    asked2: Seq<GlobalPosition>,
    found2: Seq<GlobalPosition>,
    position: GlobalPosition,
)
    requires
        forall|y: GlobalPosition|
            y.0 > position.0 ==> (#[trigger] asked.contains(y) <==> asked2.contains(y)),
        forall|y: GlobalPosition|
            y.0 > position.0 ==> (#[trigger] found.contains(y) <==> found2.contains(y)),
        is_wanted(graph, heads, range, asked, found, position),
    ensures
        is_wanted(graph, heads, range, asked2, found2, position),
{
    let step = past_rejected(graph, range, asked, found);
    let other = past_rejected(graph, range, asked2, found2);
    assert forall|y: GlobalPosition, z: GlobalPosition|
        y.0 > position.0 && #[trigger] step(y, z) implies other(y, z) by {
        assert(asked.contains(y) && !found.contains(y));
    }
    lemma_reached_agree(step, other, heads.to_set(), position);
}

/// Where the walk through what is left out fails, one which goes further fails as
/// well.
proof fn lemma_excluded_cannot_pass(
    model: IndexModel,
    roots: Seq<GlobalPosition>,
    heads: Seq<GlobalPosition>,
    range: Range<u32>,
    found: Seq<GlobalPosition>,
    position: GlobalPosition,
    x: GlobalPosition,
    cause: IndexError,
    asked2: Seq<GlobalPosition>,
    found2: Seq<GlobalPosition>,
    bound: int,
)
    requires
        repeats_entries(model),
        forall|y: GlobalPosition| #[trigger]
            found.contains(y) ==> found2.contains(y) && y.0 > position.0,
        is_wanted(model.graph, heads, range, asked2, found2, position),
        bound <= position.0,
        x.0 >= position.0,
        is_excluded(model.graph, roots, found, x),
        fails_at(model, x, cause),
    ensures
        !range_stays_below(model.graph, roots, heads, range, asked2, found2, bound),
{
    lemma_one_failure(model, x, cause, cause);
    if !is_under_roots(model.graph, roots, x) {
        let h = choose|h: GlobalPosition|
            found.contains(h) && #[trigger] is_under_head(model.graph, h, x);
        assert(found2.contains(h));
    }
}

/// Where the search fails, one which goes further fails as well.
proof fn lemma_search_cannot_pass<
    E: From<IndexError>,
    F: FnMut(GlobalPosition) -> Result<bool, E>,
>(
    model: IndexModel,
    roots: Seq<GlobalPosition>,
    heads: Seq<GlobalPosition>,
    range: Range<u32>,
    filter: F,
    calls: Seq<GlobalPosition>,
    asked: Seq<GlobalPosition>,
    found: Seq<GlobalPosition>,
    position: GlobalPosition,
    error: E,
    asked2: Seq<GlobalPosition>,
    found2: Seq<GlobalPosition>,
    bound: int,
)
    requires
        repeats_entries(model),
        decides(filter),
        fails_at_wanted(
            model,
            roots,
            heads,
            range,
            filter,
            calls,
            asked,
            found,
            position,
            error,
        ),
        selects_range_above(model.graph, roots, heads, range, asked2, found2, bound),
        filter_answers(filter, asked2, found2),
        bound <= position.0,
    ensures
        !range_stays_below(model.graph, roots, heads, range, asked2, found2, bound),
{
    let graph = model.graph;
    lemma_searches_agree(
        graph,
        roots,
        heads,
        range,
        filter,
        asked,
        found,
        position.0 + 1,
        asked2,
        found2,
        bound,
        position.0 + 1,
    );
    lemma_wanted_agrees(graph, heads, range, asked, found, asked2, found2, position);
    assert forall|y: GlobalPosition| #[trigger] found.contains(y) implies found2.contains(y) && y.0
        > position.0 by {
        assert(asked.contains(y));
    }
    if exists|x: GlobalPosition, cause: IndexError|
        x.0 >= position.0 && is_excluded(graph, roots, found, x) && #[trigger] fails_at(
            model,
            x,
            cause,
        ) {
        let (x, cause) = choose|x: GlobalPosition, cause: IndexError|
            x.0 >= position.0 && is_excluded(graph, roots, found, x) && #[trigger] fails_at(
                model,
                x,
                cause,
            );
        lemma_excluded_cannot_pass(
            model,
            roots,
            heads,
            range,
            found,
            position,
            x,
            cause,
            asked2,
            found2,
            bound,
        );
    } else {
        assert(!is_unwanted(graph, roots, found, position));
        if is_unwanted(graph, roots, found2, position) {
            let h = choose|h: GlobalPosition|
                found2.contains(h) && h.0 > position.0 && #[trigger] is_under_head(
                    graph,
                    h,
                    position,
                );
            assert(found.contains(h));
        }
        assert(asked2.contains(position));
        assert(call_ensures(
            filter,
            (position,),
            Ok::<bool, E>(found2.contains(position)),
        ));
        if range_stays_below(graph, roots, heads, range, asked2, found2, bound) {
            let parents = clipped(graph[position].parent_positions, range);
            let cause = choose|cause: IndexError|
                reports_first_invalid(parents, position, cause) && #[trigger] comes_from(
                    error,
                    cause,
                );
            let i = choose|i: int| #[trigger]
                is_first_invalid(parents, position, i) && cause
                    == (IndexError::InvalidParentPosition {
                    parent: parents[i],
                    child: position,
                });
            assert(parents.contains(parents[i]));
        }
    }
}

/// At one position the search fails with one error.
proof fn lemma_step_fails_alike<
    E: From<IndexError>,
    F: FnMut(GlobalPosition) -> Result<bool, E>,
>(
    model: IndexModel,
    roots: Seq<GlobalPosition>,
    range: Range<u32>,
    filter: F,
    found: Seq<GlobalPosition>,
    position: GlobalPosition,
    error: E,
    other: E,
)
    requires
        repeats_entries(model),
        decides(filter),
        converts_alike::<E>(),
    ensures
        fails_before_asking(model, roots, found, position, error) && fails_before_asking(
            model,
            roots,
            found,
            position,
            other,
        ) ==> other == error,
        fails_on_asking(model, roots, range, filter, found, position, error) && fails_on_asking(
            model,
            roots,
            range,
            filter,
            found,
            position,
            other,
        ) ==> other == error,
        !(fails_before_asking(model, roots, found, position, error) && fails_on_asking(
            model,
            roots,
            range,
            filter,
            found,
            position,
            other,
        )),
{
    let graph = model.graph;
    assert forall|x: GlobalPosition, cause: IndexError| #[trigger]
        fails_at(model, x, cause) implies !parents_below(graph, x) by {
        lemma_one_failure(model, x, cause, cause);
    }
    assert forall|x: GlobalPosition, first: IndexError, second: IndexError|
        #[trigger] fails_at(model, x, first) && #[trigger] fails_at(
            model,
            x,
            second,
        ) implies first == second by {
        lemma_one_failure(model, x, first, second);
    }
    let parents = clipped(graph[position].parent_positions, range);
    assert forall|first: IndexError, second: IndexError|
        #[trigger] reports_first_invalid(parents, position, first)
            && #[trigger] reports_first_invalid(parents, position, second) implies first
        == second by {
        lemma_one_invalid_parent(parents, position, first, second);
    }
}

/// In an index which gives the same each time, with a filter and a conversion of
/// errors which do so, the search for the heads of a range has one answer: it does
/// not both succeed and fail, and fails with one error, after the same calls of
/// the filter.
pub proof fn lemma_one_range_answer<
    E: From<IndexError>,
    F: FnMut(GlobalPosition) -> Result<bool, E>,
>(
    model: IndexModel,
    roots: Seq<GlobalPosition>,
    heads: Seq<GlobalPosition>,
    range: Range<u32>,
    filter: F,
    calls: Seq<GlobalPosition>,
    error: E,
)
    requires
        repeats_entries(model),
        decides(filter),
        converts_alike::<E>(),
        fails_after_calls(model, roots, heads, range, filter, calls, error),
    ensures
        forall|found: Seq<GlobalPosition>| !#[trigger] is_range_selection(
            model.graph,
            roots,
            heads,
            range,
            filter,
            found,
        ),
        forall|other_calls: Seq<GlobalPosition>, other: E| #[trigger]
            fails_after_calls(model, roots, heads, range, filter, other_calls, other)
                ==> other_calls == calls && other == error,
{
    let graph = model.graph;
    let (asked, found, position) = lemma_failure_state(
        model,
        roots,
        heads,
        range,
        filter,
        calls,
        error,
    );
    assert forall|selected: Seq<GlobalPosition>| !#[trigger] is_range_selection(
        graph,
        roots,
        heads,
        range,
        filter,
        selected,
    ) by {
        if is_range_selection(graph, roots, heads, range, filter, selected) {
            let asked2 = choose|asked2: Seq<GlobalPosition>| #[trigger]
                selects_range(graph, roots, heads, range, filter, asked2, selected);
            lemma_search_cannot_pass(
                model,
                roots,
                heads,
                range,
                filter,
                calls,
                asked,
                found,
                position,
                error,
                asked2,
                selected,
                0,
            );
        }
    }
    assert forall|other_calls: Seq<GlobalPosition>, other: E| #[trigger]
        fails_after_calls(
            model,
            roots,
            heads,
            range,
            filter,
            other_calls,
            other,
        ) implies other_calls == calls && other == error by {
        let (asked2, found2, position2) = lemma_failure_state(
            model,
            roots,
            heads,
            range,
            filter,
            other_calls,
            other,
        );
        if position.0 > position2.0 {
            lemma_search_cannot_pass(
                model,
                roots,
                heads,
                range,
                filter,
                calls,
                asked,
                found,
                position,
                error,
                asked2,
                found2,
                position2.0 + 1,
            );
        } else if position2.0 > position.0 {
            lemma_search_cannot_pass(
                model,
                roots,
                heads,
                range,
                filter,
                other_calls,
                asked2,
                found2,
                position2,
                other,
                asked,
                found,
                position.0 + 1,
            );
        } else {
            assert(position == position2);
            lemma_searches_agree(
                graph,
                roots,
                heads,
                range,
                filter,
                asked,
                found,
                position.0 + 1,
                asked2,
                found2,
                position.0 + 1,
                position.0 + 1,
            );
            assert forall|y: GlobalPosition| #[trigger] asked.contains(y) <==> asked2.contains(
                y,
            ) by {}
            assert forall|y: GlobalPosition| #[trigger] found.contains(y) <==> found2.contains(
                y,
            ) by {
                if found.contains(y) {
                    assert(asked.contains(y));
                }
                if found2.contains(y) {
                    assert(asked2.contains(y));
                }
            }
            lemma_descending_unique(asked, asked2);
            lemma_descending_unique(found, found2);
            lemma_step_fails_alike(
                model,
                roots,
                range,
                filter,
                found,
                position,
                error,
                other,
            );
            lemma_step_fails_alike(
                model,
                roots,
                range,
                filter,
                found,
                position,
                other,
                error,
            );
        }
    }
}

/// The state in which a search fails.
proof fn lemma_failure_state<
    E: From<IndexError>,
    F: FnMut(GlobalPosition) -> Result<bool, E>,
>(
    model: IndexModel,
    roots: Seq<GlobalPosition>,
    heads: Seq<GlobalPosition>,
    range: Range<u32>,
    filter: F,
    calls: Seq<GlobalPosition>,
    error: E,
) -> (state: (Seq<GlobalPosition>, Seq<GlobalPosition>, GlobalPosition))
    requires
        fails_after_calls(model, roots, heads, range, filter, calls, error),
    ensures
        fails_at_wanted(
            model,
            roots,
            heads,
            range,
            filter,
            calls,
            state.0,
            state.1,
            state.2,
            error,
        ),
{
    choose|asked: Seq<GlobalPosition>, found: Seq<GlobalPosition>, position: GlobalPosition|
        {
            &&& selects_range_above(
                model.graph,
                roots,
                heads,
                range,
                asked,
                found,
                position.0 + 1,
            )
            &&& range_stays_below(
                model.graph,
                roots,
                heads,
                range,
                asked,
                found,
                position.0 + 1,
            )
            &&& filter_answers(filter, asked, found)
            &&& #[trigger] is_wanted(model.graph, heads, range, asked, found, position)
            &&& {
                ||| {
                    &&& calls == asked
                    &&& fails_before_asking(model, roots, found, position, error)
                }
                ||| {
                    &&& calls == asked.push(position)
                    &&& fails_on_asking(model, roots, range, filter, found, position, error)
                }
            }
        }
}

} // verus!
