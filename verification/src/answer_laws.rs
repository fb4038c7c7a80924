//! An index which gives the same each time has one answer to each query, errors
//! included.
use vstd::prelude::*;

use crate::all_heads::{fails_on_all, has_first_entries};
use crate::ancestors::{
    answers_ancestor, fails_on_ancestor, has_to_read, is_search_step, searches_in, searches_to,
    towards, SearchState,
};
use crate::common::{
    avoiding, fails_on_common_ancestors, goes_on, lemma_walks_agree, meets, meets_above,
    meets_with_heads, walk_stays_below, walks_to,
};
use crate::common_laws::lemma_meets_unique;
use crate::error::IndexError;
use crate::graph::{
    connected, has_parent, leads_down, lemma_connected_first, lemma_connected_prepend,
    lemma_connected_self, Graph, Step,
};
use crate::heads::{
    covered_stay_below, fails_above, fails_on_heads, fails_on_heads_at, has_entries_above,
    is_covered, is_covered_from_above, lies_under, lowest_generation, selects_heads,
    selects_heads_above, stays_below, sweep_stays_below,
};
use crate::position::GlobalPosition;
use crate::position_index::{IndexModel, Lookup};
use crate::read_laws::{lemma_unreadable_candidate, lemma_unreadable_commit, repeats_entries};
use crate::walk::{fails_at, is_first_invalid, parents_below, reports_first_invalid};

verus! {

/// The search can go on from `state`.
spec fn goes_on_from(graph: Graph, ancestor: GlobalPosition, state: SearchState) -> bool {
    &&& state.work.len() > 0
    &&& state.work.last() != ancestor
    &&& has_to_read(ancestor, state) ==> graph.dom().contains(state.work.last())
}

/// The same number of steps leads to the same state.
proof fn lemma_same_steps(
    graph: Graph,
    ancestor: GlobalPosition,
    descendant: GlobalPosition,
    first: SearchState,
    second: SearchState,
    n: nat,
)
    requires
        searches_in(graph, ancestor, descendant, first, n),
        searches_in(graph, ancestor, descendant, second, n),
    ensures
        first.work == second.work,
        first.visited == second.visited,
    decreases n,
{
    if n > 0 {
        let before1 = choose|before: SearchState| #[trigger]
            is_search_step(graph, ancestor, before, first) && searches_in(
                graph,
                ancestor,
                descendant,
                before,
                (n - 1) as nat,
            );
        let before2 = choose|before: SearchState| #[trigger]
            is_search_step(graph, ancestor, before, second) && searches_in(
                graph,
                ancestor,
                descendant,
                before,
                (n - 1) as nat,
            );
        lemma_same_steps(graph, ancestor, descendant, before1, before2, (n - 1) as nat);
    }
}

/// A search of more steps goes on after fewer.
proof fn lemma_earlier_state(
    graph: Graph,
    ancestor: GlobalPosition,
    descendant: GlobalPosition,
    state: SearchState,
    n: nat,
    k: nat,
) -> (earlier: SearchState)
    requires
        k < n,
        searches_in(graph, ancestor, descendant, state, n),
    ensures
        searches_in(graph, ancestor, descendant, earlier, k),
        goes_on_from(graph, ancestor, earlier),
    decreases n,
{
    let before = choose|before: SearchState| #[trigger]
        is_search_step(graph, ancestor, before, state) && searches_in(
            graph,
            ancestor,
            descendant,
            before,
            (n - 1) as nat,
        );
    if k == n - 1 {
        before
    } else {
        lemma_earlier_state(graph, ancestor, descendant, before, (n - 1) as nat, k)
    }
}

/// A search ends in one state.
proof fn lemma_search_ends_once(
    graph: Graph,
    ancestor: GlobalPosition,
    descendant: GlobalPosition,
    first: SearchState,
    second: SearchState,
)
    requires
        searches_to(graph, ancestor, descendant, first),
        searches_to(graph, ancestor, descendant, second),
        !goes_on_from(graph, ancestor, first),
        !goes_on_from(graph, ancestor, second),
    ensures
        first.work == second.work,
        first.visited == second.visited,
{
    let n = choose|n: nat| searches_in(graph, ancestor, descendant, first, n);
    let m = choose|m: nat| searches_in(graph, ancestor, descendant, second, m);
    if n < m {
        let earlier = lemma_earlier_state(graph, ancestor, descendant, second, m, n);
        lemma_same_steps(graph, ancestor, descendant, first, earlier, n);
    } else if m < n {
        let earlier = lemma_earlier_state(graph, ancestor, descendant, first, n, m);
        lemma_same_steps(graph, ancestor, descendant, second, earlier, m);
    } else {
        lemma_same_steps(graph, ancestor, descendant, first, second, n);
    }
}

/// In an index which gives the same each time, the search for an ancestor has one
/// answer: it does not both succeed and fail, and fails with one error.
pub proof fn lemma_one_ancestor_answer(
    model: IndexModel,
    ancestor: GlobalPosition,
    descendant: GlobalPosition,
    error: IndexError,
)
    requires
        repeats_entries(model),
        fails_on_ancestor(model, ancestor, descendant, error),
    ensures
        forall|found: bool| !#[trigger] answers_ancestor(
            model.graph,
            ancestor,
            descendant,
            found,
        ),
        forall|other: IndexError| #[trigger]
            fails_on_ancestor(model, ancestor, descendant, other) ==> other == error,
{
    let graph = model.graph;
    if graph.dom().contains(ancestor) {
        let state = choose|state: SearchState|
            {
                &&& #[trigger] searches_to(graph, ancestor, descendant, state)
                &&& has_to_read(ancestor, state)
                &&& connected(
                    towards(graph, ancestor),
                    descendant,
                    state.work.last(),
                )
                &&& (model.faults)(Lookup::Entry(state.work.last()), error)
            };
        assert forall|found: bool| !#[trigger] answers_ancestor(
            graph,
            ancestor,
            descendant,
            found,
        ) by {
            if answers_ancestor(graph, ancestor, descendant, found) {
                let end = choose|end: SearchState|
                    {
                        &&& #[trigger] searches_to(graph, ancestor, descendant, end)
                        &&& if found {
                            end.work.len() > 0 && end.work.last() == ancestor
                        } else {
                            end.work.len() == 0
                        }
                    };
                lemma_search_ends_once(graph, ancestor, descendant, state, end);
            }
        }
        assert forall|other: IndexError| #[trigger]
            fails_on_ancestor(model, ancestor, descendant, other) implies other == error by {
            let end = choose|end: SearchState|
                {
                    &&& #[trigger] searches_to(graph, ancestor, descendant, end)
                    &&& has_to_read(ancestor, end)
                    &&& connected(
                        towards(graph, ancestor),
                        descendant,
                        end.work.last(),
                    )
                    &&& (model.faults)(Lookup::Entry(end.work.last()), other)
                };
            lemma_search_ends_once(graph, ancestor, descendant, state, end);
        }
    }
}

/// There is one first invalid parent.
pub proof fn lemma_one_invalid_parent(
    parents: Seq<GlobalPosition>,
    child: GlobalPosition,
    first: IndexError,
    second: IndexError,
)
    requires
        reports_first_invalid(parents, child, first),
        reports_first_invalid(parents, child, second),
    ensures
        first == second,
{
    let i = choose|i: int| #[trigger]
        is_first_invalid(parents, child, i) && first == (IndexError::InvalidParentPosition {
            parent: parents[i],
            child,
        });
    let j = choose|j: int| #[trigger]
        is_first_invalid(parents, child, j) && second == (IndexError::InvalidParentPosition {
            parent: parents[j],
            child,
        });
    assert(i == j) by {
        if i < j {
            assert(parents[i].0 < child.0);
        }
        if j < i {
            assert(parents[j].0 < child.0);
        }
    }
}

/// What is reported is a parent which is not below its child.
proof fn lemma_reported_is_not_below(graph: Graph, child: GlobalPosition, error: IndexError)
    requires
        graph.dom().contains(child),
        reports_first_invalid(graph[child].parent_positions, child, error),
    ensures
        !parents_below(graph, child),
{
    let parents = graph[child].parent_positions;
    let i = choose|i: int| #[trigger]
        is_first_invalid(parents, child, i) && error == (IndexError::InvalidParentPosition {
            parent: parents[i],
            child,
        });
    assert(parents.contains(parents[i]));
    assert(has_parent(graph, child, parents[i]));
}

/// In an index which gives the same each time, an entry fails with one error, and
/// something is wrong with it.
pub proof fn lemma_one_failure(
    model: IndexModel,
    position: GlobalPosition,
    first: IndexError,
    second: IndexError,
)
    requires
        repeats_entries(model),
        fails_at(model, position, first),
    ensures
        !parents_below(model.graph, position),
        fails_at(model, position, second) ==> first == second,
{
    if model.graph.dom().contains(position) {
        lemma_reported_is_not_below(model.graph, position, first);
        if fails_at(model, position, second) {
            lemma_one_invalid_parent(
                model.graph[position].parent_positions,
                position,
                first,
                second,
            );
        }
    }
}

/// Heads which are selected down to different bounds agree.
proof fn lemma_selections_agree(
    graph: Graph,
    candidates: Seq<GlobalPosition>,
    first: Seq<GlobalPosition>,
    first_bound: int,
    second: Seq<GlobalPosition>,
    second_bound: int,
    c: GlobalPosition,
)
    requires
        selects_heads_above(graph, candidates, first, first_bound),
        selects_heads_above(graph, candidates, second, second_bound),
        c.0 >= first_bound,
        c.0 >= second_bound,
    ensures
        first.contains(c) <==> second.contains(c),
    decreases u32::MAX - c.0,
{
    let floor = lowest_generation(graph, candidates);
    if is_covered_from_above(graph, floor, first, c) {
        let h = choose|h: GlobalPosition|
            first.contains(h) && h.0 > c.0 && #[trigger] lies_under(graph, floor, h, c);
        lemma_selections_agree(graph, candidates, first, first_bound, second, second_bound, h);
        assert(is_covered_from_above(graph, floor, second, c));
    }
    if is_covered_from_above(graph, floor, second, c) {
        let h = choose|h: GlobalPosition|
            second.contains(h) && h.0 > c.0 && #[trigger] lies_under(graph, floor, h, c);
        lemma_selections_agree(graph, candidates, first, first_bound, second, second_bound, h);
        assert(is_covered_from_above(graph, floor, first, c));
    }
}

/// Where the search for heads fails, a search which goes further fails as well.
proof fn lemma_sweep_cannot_pass(
    model: IndexModel,
    candidates: Seq<GlobalPosition>,
    heads: Seq<GlobalPosition>,
    next: GlobalPosition,
    position: GlobalPosition,
    error: IndexError,
    further: Seq<GlobalPosition>,
    bound: int,
)
    requires
        repeats_entries(model),
        fails_on_heads_at(model, candidates, heads, next, position, error),
        selects_heads_above(model.graph, candidates, further, bound),
        bound <= next.0,
    ensures
        !sweep_stays_below(model.graph, candidates, further, bound),
{
    let graph = model.graph;
    let floor = lowest_generation(graph, candidates);
    lemma_not_above(model, floor, position, error);
    let h = choose|h: GlobalPosition|
        heads.contains(h) && #[trigger] lies_under(graph, floor, h, position);
    lemma_selections_agree(graph, candidates, heads, next.0 + 1, further, bound, h);
    assert(further.contains(h) && candidates.contains(next));
}

/// Something is wrong with an entry which fails.
proof fn lemma_not_above(
    model: IndexModel,
    floor: u32,
    position: GlobalPosition,
    error: IndexError,
)
    requires
        repeats_entries(model),
        fails_above(model, floor, position, error),
    ensures
        !stays_below(model.graph, floor, position),
{
    if model.graph.dom().contains(position) {
        lemma_reported_is_not_below(model.graph, position, error);
    }
}

/// In an index which gives the same each time, the search for heads has one
/// answer: it does not both succeed and fail, and fails with one error.
pub proof fn lemma_one_heads_answer(
    model: IndexModel,
    candidates: Seq<GlobalPosition>,
    error: IndexError,
)
    requires
        repeats_entries(model),
        fails_on_heads(model, candidates, error),
    ensures
        forall|heads: Seq<GlobalPosition>| #[trigger]
            selects_heads(model.graph, candidates, heads) && (forall|c: GlobalPosition| #[trigger]
                candidates.contains(c) ==> model.graph.dom().contains(c))
                ==> !sweep_stays_below(model.graph, candidates, heads, 0),
        forall|other: IndexError| #[trigger]
            fails_on_heads(model, candidates, other) ==> other == error,
{
    let graph = model.graph;
    let floor = lowest_generation(graph, candidates);
    if exists|c: GlobalPosition| #[trigger]
        candidates.contains(c) && has_entries_above(graph, candidates, c) && (model.faults)(
            Lookup::Entry(c),
            error,
        ) {
        let c = choose|c: GlobalPosition| #[trigger]
            candidates.contains(c) && has_entries_above(graph, candidates, c) && (model.faults)(
                Lookup::Entry(c),
                error,
            );
        assert(!graph.dom().contains(c));
        assert forall|other: IndexError| #[trigger]
            fails_on_heads(model, candidates, other) implies other == error by {
            lemma_unreadable_candidate(model, candidates, c, other);
        }
    } else {
        let (heads, next, x) = choose|
            heads: Seq<GlobalPosition>,
            next: GlobalPosition,
            x: GlobalPosition,
        | #[trigger]
            fails_on_heads_at(model, candidates, heads, next, x, error);
        assert forall|full: Seq<GlobalPosition>| #[trigger]
            selects_heads(graph, candidates, full) implies !sweep_stays_below(
            graph,
            candidates,
            full,
            0,
        ) by {
            assert(selects_heads_above(graph, candidates, full, 0));
            lemma_sweep_cannot_pass(model, candidates, heads, next, x, error, full, 0);
        }
        assert forall|other: IndexError| #[trigger]
            fails_on_heads(model, candidates, other) implies other == error by {
            let (heads2, next2, x2) = choose|
                heads2: Seq<GlobalPosition>,
                next2: GlobalPosition,
                x2: GlobalPosition,
            | #[trigger]
                fails_on_heads_at(model, candidates, heads2, next2, x2, other);
            lemma_sweep_fails_alike(
                model,
                candidates,
                heads,
                next,
                x,
                error,
                heads2,
                next2,
                x2,
                other,
            );
        }
    }
}

/// The walks of the search for heads fail with one error.
proof fn lemma_sweep_fails_alike(
    model: IndexModel,
    candidates: Seq<GlobalPosition>,
    heads: Seq<GlobalPosition>,
    next: GlobalPosition,
    x: GlobalPosition,
    error: IndexError,
    heads2: Seq<GlobalPosition>,
    next2: GlobalPosition,
    x2: GlobalPosition,
    other: IndexError,
)
    requires
        repeats_entries(model),
        fails_on_heads_at(model, candidates, heads, next, x, error),
        fails_on_heads_at(model, candidates, heads2, next2, x2, other),
    ensures
        other == error,
{
    let graph = model.graph;
    let floor = lowest_generation(graph, candidates);
    if next.0 > next2.0 {
        lemma_sweep_cannot_pass(
            model,
            candidates,
            heads,
            next,
            x,
            error,
            heads2,
            next2.0 + 1,
        );
    } else if next2.0 > next.0 {
        lemma_sweep_cannot_pass(
            model,
            candidates,
            heads2,
            next2,
            x2,
            other,
            heads,
            next.0 + 1,
        );
    } else {
        lemma_covered_alike(graph, candidates, floor, heads, heads2, next.0 + 1, x);
        lemma_covered_alike(graph, candidates, floor, heads2, heads, next.0 + 1, x2);
        lemma_highest_failure(model, floor, heads, x, error, heads2, x2, other);
    }
}

/// The highest entry which fails does so with one error.
proof fn lemma_highest_failure(
    model: IndexModel,
    floor: u32,
    heads: Seq<GlobalPosition>,
    x: GlobalPosition,
    error: IndexError,
    heads2: Seq<GlobalPosition>,
    x2: GlobalPosition,
    other: IndexError,
)
    requires
        repeats_entries(model),
        is_covered(model.graph, floor, heads, x2),
        is_covered(model.graph, floor, heads2, x),
        covered_stay_below(model.graph, floor, heads, x.0 + 1),
        covered_stay_below(model.graph, floor, heads2, x2.0 + 1),
        fails_above(model, floor, x, error),
        fails_above(model, floor, x2, other),
    ensures
        other == error,
{
    lemma_not_above(model, floor, x, error);
    lemma_not_above(model, floor, x2, other);
    assert(x == x2);
    if model.graph.dom().contains(x) {
        lemma_one_invalid_parent(model.graph[x].parent_positions, x, error, other);
    }
}

/// Heads which are selected down to the same bound cover the same.
proof fn lemma_covered_alike(
    graph: Graph,
    candidates: Seq<GlobalPosition>,
    floor: u32,
    first: Seq<GlobalPosition>,
    second: Seq<GlobalPosition>,
    bound: int,
    x: GlobalPosition,
)
    requires
        selects_heads_above(graph, candidates, first, bound),
        selects_heads_above(graph, candidates, second, bound),
        is_covered(graph, floor, first, x),
    ensures
        is_covered(graph, floor, second, x),
{
    let h = choose|h: GlobalPosition|
        first.contains(h) && #[trigger] lies_under(graph, floor, h, x);
    lemma_selections_agree(graph, candidates, first, bound, second, bound, h);
    assert(second.contains(h));
}

/// A walk which comes below `x`, but not to it, does so by steps from above `x`.
proof fn lemma_comes_below(
    step: Step,
    other: Step,
    from: GlobalPosition,
    y: GlobalPosition,
    x: GlobalPosition,
) -> (z: GlobalPosition)
    requires
        leads_down(step),
        forall|a: GlobalPosition, b: GlobalPosition|
            a.0 > x.0 && #[trigger] step(a, b) ==> other(a, b),
        connected(step, from, y),
        !connected(step, from, x),
        y.0 < x.0,
    ensures
        z.0 < x.0,
        connected(other, from, z),
    decreases from.0,
{
    lemma_connected_self(step, from);
    lemma_connected_self(other, from);
    if from.0 < x.0 {
        from
    } else {
        assert(from != x);
        let w = lemma_connected_first(step, from, y);
        if connected(step, w, x) {
            lemma_connected_prepend(step, from, w, x);
        }
        let z = lemma_comes_below(step, other, w, y, x);
        lemma_connected_prepend(other, from, w, z);
        z
    }
}

/// What meets from one bound on agrees with what meets from another.
proof fn lemma_meetings_agree(
    graph: Graph,
    first: Seq<GlobalPosition>,
    second: Seq<GlobalPosition>,
    found1: Seq<GlobalPosition>,
    bound1: int,
    found2: Seq<GlobalPosition>,
    bound2: int,
    x: GlobalPosition,
)
    requires
        meets_above(graph, first, second, found1, bound1),
        meets_above(graph, first, second, found2, bound2),
        x.0 >= bound1,
        x.0 >= bound2,
    ensures
        found1.contains(x) <==> found2.contains(x),
    decreases u32::MAX - x.0,
{
    assert forall|y: GlobalPosition| y.0 > x.0 implies (#[trigger] found1.contains(y)
        <==> found2.contains(y)) by {
        lemma_meetings_agree(graph, first, second, found1, bound1, found2, bound2, y);
    }
    if found1.contains(x) {
        lemma_walks_agree(graph, first, found1, found2, x);
        lemma_walks_agree(graph, second, found1, found2, x);
    }
    if found2.contains(x) {
        lemma_walks_agree(graph, first, found2, found1, x);
        lemma_walks_agree(graph, second, found2, found1, x);
    }
}

/// A walk goes on from `x` whatever is found below.
proof fn lemma_goes_on_further(
    graph: Graph,
    starts: Seq<GlobalPosition>,
    others: Seq<GlobalPosition>,
    found: Seq<GlobalPosition>,
    further: Seq<GlobalPosition>,
    x: GlobalPosition,
)
    requires
        forall|y: GlobalPosition|
            y.0 > x.0 ==> (#[trigger] found.contains(y) <==> further.contains(y)),
        goes_on(graph, starts, others, found, x),
    ensures
        goes_on(graph, starts, others, further, x),
{
    lemma_walks_agree(graph, starts, found, further, x);
    if walks_to(graph, others, further, x) {
        lemma_walks_agree(graph, others, further, found, x);
    }
    let step = avoiding(graph, found);
    let other = avoiding(graph, further);
    let y = choose|y: GlobalPosition| y.0 < x.0 && #[trigger] walks_to(graph, others, found, y);
    let from = choose|from: GlobalPosition|
        others.to_set().contains(from) && #[trigger] connected(step, from, y);
    assert(!connected(step, from, x));
    assert forall|a: GlobalPosition, b: GlobalPosition| a.0 > x.0 && #[trigger] step(
        a,
        b,
    ) implies other(a, b) by {
        assert(!found.contains(a));
    }
    let z = lemma_comes_below(step, other, from, y, x);
    assert(walks_to(graph, others, further, z));
}

/// The search for common ancestors fails at `x`.
spec fn fails_to_go_on(
    model: IndexModel,
    first: Seq<GlobalPosition>,
    second: Seq<GlobalPosition>,
    found: Seq<GlobalPosition>,
    x: GlobalPosition,
    error: IndexError,
) -> bool {
    &&& meets_above(model.graph, first, second, found, x.0 + 1)
    &&& walk_stays_below(model.graph, first, second, found, x.0 + 1)
    &&& goes_on(model.graph, first, second, found, x) || goes_on(
        model.graph,
        second,
        first,
        found,
        x,
    )
    &&& fails_at(model, x, error)
}

/// Where the search for common ancestors fails, one which goes further fails as
/// well.
proof fn lemma_walk_cannot_pass(
    model: IndexModel,
    first: Seq<GlobalPosition>,
    second: Seq<GlobalPosition>,
    found: Seq<GlobalPosition>,
    x: GlobalPosition,
    error: IndexError,
    further: Seq<GlobalPosition>,
    bound: int,
)
    requires
        repeats_entries(model),
        fails_to_go_on(model, first, second, found, x, error),
        meets_above(model.graph, first, second, further, bound),
        bound <= x.0,
    ensures
        !walk_stays_below(model.graph, first, second, further, bound),
{
    let graph = model.graph;
    assert forall|y: GlobalPosition| y.0 > x.0 implies (#[trigger] found.contains(y)
        <==> further.contains(y)) by {
        lemma_meetings_agree(graph, first, second, found, x.0 + 1, further, bound, y);
    }
    lemma_one_failure(model, x, error, error);
    if goes_on(graph, first, second, found, x) {
        lemma_goes_on_further(graph, first, second, found, further, x);
    } else {
        lemma_goes_on_further(graph, second, first, found, further, x);
    }
}

/// In an index which gives the same each time, the search for common ancestors
/// has one answer: it does not both succeed and fail, and fails with one error.
pub proof fn lemma_one_common_ancestors_answer(
    model: IndexModel,
    first: Seq<GlobalPosition>,
    second: Seq<GlobalPosition>,
    error: IndexError,
)
    requires
        repeats_entries(model),
        fails_on_common_ancestors(model, first, second, error),
    ensures
        forall|found: Seq<GlobalPosition>, heads: Seq<GlobalPosition>| !#[trigger] meets_with_heads(
            model.graph,
            first,
            second,
            found,
            heads,
        ),
        forall|other: IndexError| #[trigger]
            fails_on_common_ancestors(model, first, second, other) ==> other == error,
{
    let graph = model.graph;
    assert forall|found: Seq<GlobalPosition>, heads: Seq<GlobalPosition>| !#[trigger] meets_with_heads(
        graph,
        first,
        second,
        found,
        heads,
    ) by {
        if meets_with_heads(graph, first, second, found, heads) {
            lemma_common_fails(model, first, second, error, found);
            assert(fails_on_heads(model, found, error));
            lemma_one_heads_answer(model, found, error);
            assert(selects_heads(graph, found, heads));
        }
    }
    assert forall|other: IndexError| #[trigger]
        fails_on_common_ancestors(model, first, second, other) implies other == error by {
        lemma_common_fails_alike(model, first, second, error, other);
    }
}

/// If the walks meet, the failure comes from the search for heads.
proof fn lemma_common_fails(
    model: IndexModel,
    first: Seq<GlobalPosition>,
    second: Seq<GlobalPosition>,
    error: IndexError,
    found: Seq<GlobalPosition>,
)
    requires
        repeats_entries(model),
        fails_on_common_ancestors(model, first, second, error),
        meets(model.graph, first, second, found),
        walk_stays_below(model.graph, first, second, found, 0),
    ensures
        fails_on_heads(model, found, error),
{
    if exists|met: Seq<GlobalPosition>| #[trigger]
        meets(model.graph, first, second, met) && walk_stays_below(
            model.graph,
            first,
            second,
            met,
            0,
        ) && fails_on_heads(model, met, error) {
        let met = choose|met: Seq<GlobalPosition>| #[trigger]
            meets(model.graph, first, second, met) && walk_stays_below(
                model.graph,
                first,
                second,
                met,
                0,
            ) && fails_on_heads(model, met, error);
        lemma_meets_unique(model.graph, first, second, met, found);
    } else {
        let (met, x) = choose|met: Seq<GlobalPosition>, x: GlobalPosition|
            {
                &&& #[trigger] meets_above(model.graph, first, second, met, x.0 + 1)
                &&& walk_stays_below(model.graph, first, second, met, x.0 + 1)
                &&& goes_on(model.graph, first, second, met, x) || goes_on(
                    model.graph,
                    second,
                    first,
                    met,
                    x,
                )
                &&& #[trigger] fails_at(model, x, error)
            };
        lemma_walk_cannot_pass(model, first, second, met, x, error, found, 0);
    }
}

/// The search for common ancestors fails with one error.
proof fn lemma_common_fails_alike(
    model: IndexModel,
    first: Seq<GlobalPosition>,
    second: Seq<GlobalPosition>,
    error: IndexError,
    other: IndexError,
)
    requires
        repeats_entries(model),
        fails_on_common_ancestors(model, first, second, error),
        fails_on_common_ancestors(model, first, second, other),
    ensures
        other == error,
{
    let graph = model.graph;
    if exists|met: Seq<GlobalPosition>| #[trigger]
        meets(graph, first, second, met) && walk_stays_below(graph, first, second, met, 0) {
        let met = choose|met: Seq<GlobalPosition>| #[trigger]
            meets(graph, first, second, met) && walk_stays_below(graph, first, second, met, 0);
        lemma_common_fails(model, first, second, error, met);
        lemma_common_fails(model, first, second, other, met);
        lemma_one_heads_answer(model, met, error);
    } else {
        let (met, x) = choose|met: Seq<GlobalPosition>, x: GlobalPosition|
            {
                &&& #[trigger] meets_above(graph, first, second, met, x.0 + 1)
                &&& walk_stays_below(graph, first, second, met, x.0 + 1)
                &&& goes_on(graph, first, second, met, x) || goes_on(
                    graph,
                    second,
                    first,
                    met,
                    x,
                )
                &&& #[trigger] fails_at(model, x, error)
            };
        let (met2, x2) = choose|met: Seq<GlobalPosition>, x: GlobalPosition|
            {
                &&& #[trigger] meets_above(graph, first, second, met, x.0 + 1)
                &&& walk_stays_below(graph, first, second, met, x.0 + 1)
                &&& goes_on(graph, first, second, met, x) || goes_on(
                    graph,
                    second,
                    first,
                    met,
                    x,
                )
                &&& #[trigger] fails_at(model, x, other)
            };
        if x.0 > x2.0 {
            lemma_walk_cannot_pass(model, first, second, met, x, error, met2, x2.0 + 1);
        } else if x2.0 > x.0 {
            lemma_walk_cannot_pass(model, first, second, met2, x2, other, met, x.0 + 1);
        } else {
            assert(x == x2);
            lemma_one_failure(model, x, error, other);
        }
    }
}

/// In an index which gives the same each time, the search for all heads has one
/// answer: it does not both succeed and fail, and fails with one error.
pub proof fn lemma_one_all_heads_answer(model: IndexModel, error: IndexError)
    requires
        repeats_entries(model),
        fails_on_all(model, error),
    ensures
        !has_first_entries(model.graph, model.num_commits as int),
        forall|other: IndexError| #[trigger] fails_on_all(model, other) ==> other == error,
{
    let p = choose|p: GlobalPosition|
        p.0 < model.num_commits && has_first_entries(model.graph, p.0 as int) && #[trigger] (
        model.faults)(Lookup::Entry(p), error);
    assert forall|other: IndexError| #[trigger] fails_on_all(model, other) implies other
        == error by {
        lemma_unreadable_commit(model, p, other);
    }
}

} // verus!
