//! What the heads of a filtered range of commits are.
use std::ops::Range;

use vstd::prelude::*;

use crate::common_laws::is_ancestor_of_any;
use crate::frontier::lemma_reached_agree;
use crate::graph::{
    connected, has_parent, is_ancestor_in, is_topological, lemma_ancestor_antisymmetric,
    lemma_ancestor_is_below, lemma_ancestor_reflexive, lemma_ancestor_transitive,
    lemma_connected_first, lemma_connected_prepend, lemma_connected_weaken, lemma_reached_start,
    lemma_reached_step, reached, to_parents, Graph,
};
use crate::head_laws::{has_other_descendant, is_heads_of, lemma_descending_unique};
use crate::position::{descending, GlobalPosition};
use crate::range::{
    clip, clipped, is_range_selection, is_under_head, is_under_roots, is_unwanted, is_wanted,
    lemma_wanted_is_reachable, past_rejected, selects_range, selects_range_above, to_parents_in,
};
use crate::walk::falling;

verus! {

/// `position` can be reached from `heads` through parents in `range`, and is an
/// ancestor of none of `roots`.
pub open spec fn is_in_range(
    graph: Graph,
    roots: Seq<GlobalPosition>,
    heads: Seq<GlobalPosition>,
    range: Range<u32>,
    position: GlobalPosition,
) -> bool {
    &&& reached(to_parents_in(graph, range), heads.to_set(), position)
    &&& !is_ancestor_of_any(graph, position, roots)
}

/// `position` is an ancestor of another position of the range which the filter
/// keeps.
pub open spec fn is_below_kept(
    graph: Graph,
    roots: Seq<GlobalPosition>,
    heads: Seq<GlobalPosition>,
    range: Range<u32>,
    keep: spec_fn(GlobalPosition) -> bool,
    position: GlobalPosition,
) -> bool {
    exists|y: GlobalPosition|
        y != position && is_in_range(graph, roots, heads, range, y) && keep(y)
            && #[trigger] is_ancestor_in(graph, position, y)
}

/// `found` are the heads of what the filter keeps of the range, from high to low.
pub open spec fn is_heads_of_range(
    graph: Graph,
    roots: Seq<GlobalPosition>,
    heads: Seq<GlobalPosition>,
    range: Range<u32>,
    keep: spec_fn(GlobalPosition) -> bool,
    found: Seq<GlobalPosition>,
) -> bool {
    &&& descending(found)
    &&& forall|x: GlobalPosition| #[trigger]
        found.contains(x) <==> is_in_range(graph, roots, heads, range, x) && keep(x)
            && !is_below_kept(graph, roots, heads, range, keep, x)
}

/// `range` leaves out no parent.
pub open spec fn keeps_all_parents(graph: Graph, range: Range<u32>) -> bool {
    &&& range.start == 0
    &&& forall|p: GlobalPosition| #[trigger]
        graph.dom().contains(p) ==> graph[p].parent_positions.len() <= range.end
}

/// Where parents are below their children, falling steps are steps to parents.
pub proof fn lemma_falls_to_ancestors(
    graph: Graph,
    starts: Seq<GlobalPosition>,
    position: GlobalPosition,
)
    requires
        is_topological(graph),
    ensures
        reached(falling(graph), starts.to_set(), position) <==> is_ancestor_of_any(
            graph,
            position,
            starts,
        ),
{
    if reached(falling(graph), starts.to_set(), position) {
        let from = choose|from: GlobalPosition|
            starts.to_set().contains(from) && #[trigger] connected(
                falling(graph),
                from,
                position,
            );
        lemma_connected_weaken(falling(graph), to_parents(graph), from, position);
        assert(is_ancestor_in(graph, position, from));
    }
    if is_ancestor_of_any(graph, position, starts) {
        let from = choose|from: GlobalPosition|
            starts.contains(from) && #[trigger] is_ancestor_in(graph, position, from);
        assert forall|x: GlobalPosition, y: GlobalPosition| #[trigger]
            to_parents(graph)(x, y) implies falling(graph)(x, y) by {
            assert(has_parent(graph, x, y));
        }
        lemma_connected_weaken(to_parents(graph), falling(graph), from, position);
        assert(starts.to_set().contains(from));
    }
}

/// Where parents are below their children, what lies under a commit are its proper ancestors.
pub proof fn lemma_under_head_is_ancestor(
    graph: Graph,
    head: GlobalPosition,
    position: GlobalPosition,
)
    requires
        is_topological(graph),
        graph.dom().contains(head),
    ensures
        is_under_head(graph, head, position) <==> head != position && is_ancestor_in(
            graph,
            position,
            head,
        ),
{
    let parents = graph[head].parent_positions;
    lemma_falls_to_ancestors(graph, parents, position);
    if is_under_head(graph, head, position) {
        let from = choose|from: GlobalPosition|
            parents.contains(from) && #[trigger] is_ancestor_in(graph, position, from);
        assert(has_parent(graph, head, from));
        lemma_connected_prepend(to_parents(graph), head, from, position);
        if from != position {
            lemma_ancestor_is_below(graph, position, from);
        }
    }
    if head != position && is_ancestor_in(graph, position, head) {
        let x = lemma_connected_first(to_parents(graph), head, position);
        assert(has_parent(graph, head, x));
        assert(is_ancestor_in(graph, position, x));
    }
}

/// What is reached through parents in `range` is an ancestor.
proof fn lemma_reachable_is_ancestor(
    graph: Graph,
    range: Range<u32>,
    from: GlobalPosition,
    position: GlobalPosition,
)
    requires
        connected(to_parents_in(graph, range), from, position),
    ensures
        is_ancestor_in(graph, position, from),
{
    let step = to_parents_in(graph, range);
    assert forall|c: GlobalPosition, q: GlobalPosition| #[trigger] step(c, q) implies to_parents(
        graph,
    )(c, q) by {
        let parents = graph[c].parent_positions;
        let i = clipped(parents, range).index_of(q);
        assert(parents[i + clip(range.start, parents.len())] == q);
    }
    lemma_connected_weaken(step, to_parents(graph), from, position);
}

/// Where parents are below their children and `range` leaves out no parent, what
/// can be reached from `heads` through parents in `range` are their ancestors.
pub proof fn lemma_full_range(
    graph: Graph,
    heads: Seq<GlobalPosition>,
    range: Range<u32>,
    position: GlobalPosition,
)
    requires
        is_topological(graph),
        keeps_all_parents(graph, range),
    ensures
        reached(to_parents_in(graph, range), heads.to_set(), position) <==> is_ancestor_of_any(
            graph,
            position,
            heads,
        ),
{
    let step = to_parents_in(graph, range);
    if reached(step, heads.to_set(), position) {
        let from = choose|from: GlobalPosition|
            heads.to_set().contains(from) && #[trigger] connected(step, from, position);
        lemma_reachable_is_ancestor(graph, range, from, position);
    }
    if is_ancestor_of_any(graph, position, heads) {
        let from = choose|from: GlobalPosition|
            heads.contains(from) && #[trigger] is_ancestor_in(graph, position, from);
        assert forall|c: GlobalPosition, q: GlobalPosition| #[trigger]
            to_parents(graph)(c, q) implies step(c, q) by {
            assert(has_parent(graph, c, q));
            assert(clipped(graph[c].parent_positions, range) =~= graph[c].parent_positions);
        }
        lemma_connected_weaken(to_parents(graph), step, from, position);
        assert(heads.to_set().contains(from));
    }
}

/// What the search wants leads to everything which can be reached and is not
/// below the roots: the filter is asked about it, or something above it was
/// found.
proof fn lemma_range_covers(
    graph: Graph,
    roots: Seq<GlobalPosition>,
    heads: Seq<GlobalPosition>,
    range: Range<u32>,
    asked: Seq<GlobalPosition>,
    found: Seq<GlobalPosition>,
    from: GlobalPosition,
    x: GlobalPosition,
)
    requires
        is_topological(graph),
        selects_range_above(graph, roots, heads, range, asked, found, 0),
        is_wanted(graph, heads, range, asked, found, from),
        connected(to_parents_in(graph, range), from, x),
        !is_ancestor_of_any(graph, x, roots),
    ensures
        asked.contains(x) || is_ancestor_of_any(graph, x, found),
    decreases from.0,
{
    lemma_reachable_is_ancestor(graph, range, from, x);
    lemma_falls_to_ancestors(graph, roots, from);
    if is_under_roots(graph, roots, from) {
        let r = choose|r: GlobalPosition|
            roots.contains(r) && #[trigger] is_ancestor_in(graph, from, r);
        lemma_ancestor_transitive(graph, x, from, r);
    } else if is_unwanted(graph, roots, found, from) {
        let h = choose|h: GlobalPosition|
            found.contains(h) && h.0 > from.0 && #[trigger] is_under_head(graph, h, from);
        assert(asked.contains(h));
        lemma_under_head_is_ancestor(graph, h, from);
        lemma_ancestor_transitive(graph, x, from, h);
    } else {
        assert(asked.contains(from));
        if from != x && !found.contains(from) {
            let z = lemma_connected_first(to_parents_in(graph, range), from, x);
            let step = past_rejected(graph, range, asked, found);
            assert(step(from, z));
            lemma_reached_step(step, heads.to_set(), from, z);
            lemma_range_covers(graph, roots, heads, range, asked, found, z, x);
        }
    }
}

/// Where parents are below their children, and with a filter which decides by
/// position, the search finds the heads of what the filter keeps of the range.
pub proof fn lemma_range_heads<E, F: FnMut(GlobalPosition) -> Result<bool, E>>(
    graph: Graph,
    roots: Seq<GlobalPosition>,
    heads: Seq<GlobalPosition>,
    range: Range<u32>,
    filter: F,
    keep: spec_fn(GlobalPosition) -> bool,
    found: Seq<GlobalPosition>,
)
    requires
        is_topological(graph),
        forall|p: GlobalPosition, kept: bool| #[trigger]
            call_ensures(filter, (p,), Ok::<bool, E>(kept)) ==> kept == keep(p),
        is_range_selection(graph, roots, heads, range, filter, found),
    ensures
        is_heads_of_range(graph, roots, heads, range, keep, found),
{
    let asked = choose|asked: Seq<GlobalPosition>| #[trigger]
        selects_range(graph, roots, heads, range, filter, asked, found);
    let steps = to_parents_in(graph, range);
    assert forall|x: GlobalPosition| #[trigger] asked.contains(x) implies is_in_range(
        graph,
        roots,
        heads,
        range,
        x,
    ) && found.contains(x) == keep(x) by {
        lemma_wanted_is_reachable(graph, heads, range, asked, found, x);
        lemma_falls_to_ancestors(graph, roots, x);
        assert(call_ensures(filter, (x,), Ok::<bool, E>(found.contains(x))));
    }
    assert forall|x: GlobalPosition|
        is_in_range(graph, roots, heads, range, x) && #[trigger] keep(
            x,
        ) implies is_ancestor_of_any(graph, x, found) by {
        let s = choose|s: GlobalPosition|
            heads.to_set().contains(s) && #[trigger] connected(steps, s, x);
        lemma_reached_start(past_rejected(graph, range, asked, found), heads.to_set(), s);
        lemma_range_covers(graph, roots, heads, range, asked, found, s, x);
        if asked.contains(x) {
            lemma_ancestor_reflexive(graph, x);
        }
    }
    assert forall|x: GlobalPosition| #[trigger] found.contains(x) <==> is_in_range(
        graph,
        roots,
        heads,
        range,
        x,
    ) && keep(x) && !is_below_kept(graph, roots, heads, range, keep, x) by {
        if found.contains(x) {
            assert(asked.contains(x));
            if is_below_kept(graph, roots, heads, range, keep, x) {
                let y = choose|y: GlobalPosition|
                    y != x && is_in_range(graph, roots, heads, range, y) && keep(y)
                        && #[trigger] is_ancestor_in(graph, x, y);
                assert(is_ancestor_of_any(graph, y, found));
                let f = choose|f: GlobalPosition|
                    found.contains(f) && #[trigger] is_ancestor_in(graph, y, f);
                assert(asked.contains(f));
                lemma_ancestor_transitive(graph, x, y, f);
                if f == x {
                    lemma_ancestor_antisymmetric(graph, x, y);
                }
                lemma_ancestor_is_below(graph, x, f);
                lemma_under_head_is_ancestor(graph, f, x);
                assert(is_unwanted(graph, roots, found, x));
            }
        }
        if is_in_range(graph, roots, heads, range, x) && keep(x) && !is_below_kept(
            graph,
            roots,
            heads,
            range,
            keep,
            x,
        ) {
            assert(is_ancestor_of_any(graph, x, found));
            let f = choose|f: GlobalPosition|
                found.contains(f) && #[trigger] is_ancestor_in(graph, x, f);
            assert(asked.contains(f));
            assert(f == x);
        }
    }
}

/// Where parents are below their children, and with a filter which keeps
/// everything, the heads of a range are the heads among the positions where it
/// starts, but for the ancestors of its roots.
pub proof fn lemma_unfiltered_range_heads(
    graph: Graph,
    roots: Seq<GlobalPosition>,
    positions: Seq<GlobalPosition>,
    range: Range<u32>,
    keep: spec_fn(GlobalPosition) -> bool,
    found: Seq<GlobalPosition>,
    heads: Seq<GlobalPosition>,
)
    requires
        is_topological(graph),
        forall|p: GlobalPosition| #[trigger] keep(p),
        is_heads_of_range(graph, roots, positions, range, keep, found),
        is_heads_of(graph, positions, heads),
    ensures
        descending(found),
        forall|x: GlobalPosition| #[trigger]
            found.contains(x) <==> heads.contains(x) && !is_ancestor_of_any(graph, x, roots),
        roots.len() == 0 ==> found == heads,
{
    let steps = to_parents_in(graph, range);
    assert forall|x: GlobalPosition|
        positions.contains(x) && !is_ancestor_of_any(
            graph,
            x,
            roots,
        ) implies #[trigger] is_in_range(graph, roots, positions, range, x) by {
        assert(positions.to_set().contains(x));
        lemma_reached_start(steps, positions.to_set(), x);
    }
    assert forall|x: GlobalPosition, d: GlobalPosition|
        !is_ancestor_of_any(graph, x, roots) && #[trigger] is_ancestor_in(
            graph,
            x,
            d,
        ) implies !is_ancestor_of_any(graph, d, roots) by {
        if is_ancestor_of_any(graph, d, roots) {
            let r = choose|r: GlobalPosition|
                roots.contains(r) && #[trigger] is_ancestor_in(graph, d, r);
            lemma_ancestor_transitive(graph, x, d, r);
        }
    }
    assert forall|x: GlobalPosition| #[trigger] found.contains(x) <==> heads.contains(x)
        && !is_ancestor_of_any(graph, x, roots) by {
        if found.contains(x) {
            let d = choose|d: GlobalPosition|
                positions.to_set().contains(d) && #[trigger] connected(steps, d, x);
            lemma_reachable_is_ancestor(graph, range, d, x);
            assert(is_in_range(graph, roots, positions, range, d) && keep(d));
            assert(d == x);
            if has_other_descendant(graph, positions, x) {
                let e = choose|e: GlobalPosition|
                    positions.contains(e) && e != x && #[trigger] is_ancestor_in(graph, x, e);
                assert(is_in_range(graph, roots, positions, range, e) && keep(e));
            }
        }
        if heads.contains(x) && !is_ancestor_of_any(graph, x, roots) {
            assert(is_in_range(graph, roots, positions, range, x) && keep(x));
            if is_below_kept(graph, roots, positions, range, keep, x) {
                let y = choose|y: GlobalPosition|
                    y != x && is_in_range(graph, roots, positions, range, y) && keep(y)
                        && #[trigger] is_ancestor_in(graph, x, y);
                let d = choose|d: GlobalPosition|
                    positions.to_set().contains(d) && #[trigger] connected(steps, d, y);
                lemma_reachable_is_ancestor(graph, range, d, y);
                lemma_ancestor_transitive(graph, x, y, d);
                if d == x {
                    lemma_ancestor_antisymmetric(graph, x, y);
                }
                assert(has_other_descendant(graph, positions, x));
            }
        }
    }
    if roots.len() == 0 {
        assert forall|x: GlobalPosition| !is_ancestor_of_any(graph, x, roots) by {}
        lemma_descending_unique(found, heads);
    }
}

/// Two searches which agree on what is above `position` agree on it.
proof fn lemma_range_agrees_at(
    graph: Graph,
    roots: Seq<GlobalPosition>,
    heads: Seq<GlobalPosition>,
    range: Range<u32>,
    asked1: Seq<GlobalPosition>,
    found1: Seq<GlobalPosition>,
    bound1: int,
    asked2: Seq<GlobalPosition>,
    found2: Seq<GlobalPosition>,
    bound2: int,
    position: GlobalPosition,
)
    requires
        selects_range_above(graph, roots, heads, range, asked1, found1, bound1),
        selects_range_above(graph, roots, heads, range, asked2, found2, bound2),
        forall|y: GlobalPosition|
            y.0 > position.0 ==> (#[trigger] asked1.contains(y) <==> asked2.contains(y)),
        forall|y: GlobalPosition|
            y.0 > position.0 ==> (#[trigger] found1.contains(y) <==> found2.contains(y)),
        asked1.contains(position),
        position.0 >= bound2,
    ensures
        asked2.contains(position),
{
    let step1 = past_rejected(graph, range, asked1, found1);
    let step2 = past_rejected(graph, range, asked2, found2);
    assert forall|y: GlobalPosition, z: GlobalPosition|
        y.0 > position.0 && #[trigger] step1(y, z) implies step2(y, z) by {
        assert(asked1.contains(y) && !found1.contains(y));
    }
    lemma_reached_agree(step1, step2, heads.to_set(), position);
    assert(is_wanted(graph, heads, range, asked2, found2, position));
    if is_unwanted(graph, roots, found2, position) && !is_under_roots(graph, roots, position) {
        let h = choose|h: GlobalPosition|
            found2.contains(h) && h.0 > position.0 && #[trigger] is_under_head(
                graph,
                h,
                position,
            );
        assert(found1.contains(h));
        assert(is_unwanted(graph, roots, found1, position));
    }
}

/// Two searches with a filter which decides by position agree from `bound` on.
pub proof fn lemma_range_agrees(
    graph: Graph,
    roots: Seq<GlobalPosition>,
    heads: Seq<GlobalPosition>,
    range: Range<u32>,
    keep: spec_fn(GlobalPosition) -> bool,
    asked1: Seq<GlobalPosition>,
    found1: Seq<GlobalPosition>,
    bound1: int,
    asked2: Seq<GlobalPosition>,
    found2: Seq<GlobalPosition>,
    bound2: int,
    bound: int,
)
    requires
        selects_range_above(graph, roots, heads, range, asked1, found1, bound1),
        selects_range_above(graph, roots, heads, range, asked2, found2, bound2),
        forall|p: GlobalPosition| #[trigger]
            asked1.contains(p) ==> found1.contains(p) == keep(p),
        forall|p: GlobalPosition| #[trigger]
            asked2.contains(p) ==> found2.contains(p) == keep(p),
        bound >= bound1,
        bound >= bound2,
    ensures
        forall|y: GlobalPosition|
            y.0 >= bound ==> (#[trigger] asked1.contains(y) <==> asked2.contains(y)),
        forall|y: GlobalPosition|
            y.0 >= bound ==> (#[trigger] found1.contains(y) <==> found2.contains(y)),
    decreases u32::MAX + 1 - bound,
{
    if bound <= u32::MAX {
        lemma_range_agrees(
            graph,
            roots,
            heads,
            range,
            keep,
            asked1,
            found1,
            bound1,
            asked2,
            found2,
            bound2,
            bound + 1,
        );
        assert forall|y: GlobalPosition| y.0 >= bound implies (#[trigger] asked1.contains(y)
            <==> asked2.contains(y)) by {
            if y.0 == bound {
                if asked1.contains(y) {
                    lemma_range_agrees_at(
                        graph,
                        roots,
                        heads,
                        range,
                        asked1,
                        found1,
                        bound1,
                        asked2,
                        found2,
                        bound2,
                        y,
                    );
                }
                if asked2.contains(y) {
                    lemma_range_agrees_at(
                        graph,
                        roots,
                        heads,
                        range,
                        asked2,
                        found2,
                        bound2,
                        asked1,
                        found1,
                        bound1,
                        y,
                    );
                }
            }
        }
        assert forall|y: GlobalPosition| y.0 >= bound implies (#[trigger] found1.contains(y)
            <==> found2.contains(y)) by {
            assert(asked1.contains(y) <==> asked2.contains(y));
        }
    }
}

/// With a filter which decides by position, there is one result of the search,
/// whatever the graph and the range of parents.
pub proof fn lemma_range_unique<E, F: FnMut(GlobalPosition) -> Result<bool, E>>(
    graph: Graph,
    roots: Seq<GlobalPosition>,
    heads: Seq<GlobalPosition>,
    range: Range<u32>,
    filter: F,
    keep: spec_fn(GlobalPosition) -> bool,
    first: Seq<GlobalPosition>,
    second: Seq<GlobalPosition>,
)
    requires
        forall|p: GlobalPosition, kept: bool| #[trigger]
            call_ensures(filter, (p,), Ok::<bool, E>(kept)) ==> kept == keep(p),
        is_range_selection(graph, roots, heads, range, filter, first),
        is_range_selection(graph, roots, heads, range, filter, second),
    ensures
        first == second,
{
    let asked1 = choose|asked: Seq<GlobalPosition>| #[trigger]
        selects_range(graph, roots, heads, range, filter, asked, first);
    let asked2 = choose|asked: Seq<GlobalPosition>| #[trigger]
        selects_range(graph, roots, heads, range, filter, asked, second);
    assert forall|p: GlobalPosition| #[trigger] asked1.contains(p) implies first.contains(p)
        == keep(p) by {
        assert(call_ensures(filter, (p,), Ok::<bool, E>(first.contains(p))));
    }
    assert forall|p: GlobalPosition| #[trigger] asked2.contains(p) implies second.contains(p)
        == keep(p) by {
        assert(call_ensures(filter, (p,), Ok::<bool, E>(second.contains(p))));
    }
    lemma_range_agrees(
        graph,
        roots,
        heads,
        range,
        keep,
        asked1,
        first,
        0,
        asked2,
        second,
        0,
        0,
    );
    lemma_descending_unique(first, second);
}

} // verus!
