//! What the common ancestors of two sets of commits are.
use vstd::prelude::*;

use crate::common::{
    avoiding, lemma_walks_agree, meets, meets_with_heads, walks_to,
};
use crate::graph::{
    connected, has_parent, is_ancestor_in, is_ordered, is_topological, lemma_ancestor_antisymmetric,
    lemma_ancestor_reflexive, lemma_ancestor_transitive, lemma_connected_first,
    lemma_connected_prepend, lemma_connected_self, lemma_connected_weaken, to_parents, Graph,
};
use crate::head_laws::{
    has_other_descendant, is_heads_of, lemma_descending_unique, lemma_heads_unique,
    lemma_selected_heads,
};
use crate::position::{descending, GlobalPosition};

verus! {

/// `position` is an ancestor of one of `positions`.
pub open spec fn is_ancestor_of_any(
    graph: Graph,
    position: GlobalPosition,
    positions: Seq<GlobalPosition>,
) -> bool {
    exists|d: GlobalPosition|
        positions.contains(d) && #[trigger] is_ancestor_in(graph, position, d)
}

/// `position` is an ancestor of one of `first` and of one of `second`.
pub open spec fn is_common_ancestor(
    graph: Graph,
    first: Seq<GlobalPosition>,
    second: Seq<GlobalPosition>,
    position: GlobalPosition,
) -> bool {
    is_ancestor_of_any(graph, position, first) && is_ancestor_of_any(graph, position, second)
}

/// `position` is an ancestor of a common ancestor other than itself.
pub open spec fn is_improvable(
    graph: Graph,
    first: Seq<GlobalPosition>,
    second: Seq<GlobalPosition>,
    position: GlobalPosition,
) -> bool {
    exists|y: GlobalPosition|
        y != position && is_common_ancestor(graph, first, second, y) && #[trigger] is_ancestor_in(
            graph,
            position,
            y,
        )
}

/// `best` are the common ancestors which are not ancestors of another one, from
/// high to low.
pub open spec fn is_best_common_ancestors(
    graph: Graph,
    first: Seq<GlobalPosition>,
    second: Seq<GlobalPosition>,
    best: Seq<GlobalPosition>,
) -> bool {
    &&& descending(best)
    &&& forall|x: GlobalPosition| #[trigger]
        best.contains(x) <==> is_common_ancestor(graph, first, second, x) && !is_improvable(
            graph,
            first,
            second,
            x,
        )
}

/// Where a walk comes to is an ancestor of one of its starts.
pub proof fn lemma_walks_to_ancestor(
    graph: Graph,
    starts: Seq<GlobalPosition>,
    found: Seq<GlobalPosition>,
    x: GlobalPosition,
)
    requires
        walks_to(graph, starts, found, x),
    ensures
        is_ancestor_of_any(graph, x, starts),
{
    let step = avoiding(graph, found);
    let from = choose|from: GlobalPosition|
        starts.to_set().contains(from) && #[trigger] connected(step, from, x);
    lemma_connected_weaken(step, to_parents(graph), from, x);
    assert(is_ancestor_in(graph, x, from));
}

/// Where parents are below their children, a walk comes to an ancestor of one of its starts, unless
/// something which it avoids is in between.
proof fn lemma_walks_to_or_stops(
    graph: Graph,
    starts: Seq<GlobalPosition>,
    found: Seq<GlobalPosition>,
    x: GlobalPosition,
)
    requires
        is_topological(graph),
        is_ancestor_of_any(graph, x, starts),
    ensures
        walks_to(graph, starts, found, x) || is_ancestor_of_any(graph, x, found),
{
    let from = choose|from: GlobalPosition|
        starts.contains(from) && #[trigger] is_ancestor_in(graph, x, from);
    lemma_connected_or_stops(graph, found, from, x);
    assert(starts.to_set().contains(from));
}

proof fn lemma_connected_or_stops(
    graph: Graph,
    found: Seq<GlobalPosition>,
    from: GlobalPosition,
    x: GlobalPosition,
)
    requires
        is_topological(graph),
        is_ancestor_in(graph, x, from),
    ensures
        connected(avoiding(graph, found), from, x) || is_ancestor_of_any(graph, x, found),
    decreases from.0,
{
    let step = avoiding(graph, found);
    if from == x {
        lemma_connected_self(step, x);
    } else if !found.contains(from) {
        let z = lemma_connected_first(to_parents(graph), from, x);
        assert(has_parent(graph, from, z));
        lemma_connected_or_stops(graph, found, z, x);
        if connected(step, z, x) {
            lemma_connected_prepend(step, from, z, x);
        }
    }
}

/// Where parents are below their children, every common ancestor is an ancestor of a position where
/// the walks meet.
pub proof fn lemma_meets_cover(
    graph: Graph,
    first: Seq<GlobalPosition>,
    second: Seq<GlobalPosition>,
    found: Seq<GlobalPosition>,
    x: GlobalPosition,
)
    requires
        is_topological(graph),
        meets(graph, first, second, found),
        is_common_ancestor(graph, first, second, x),
    ensures
        is_ancestor_of_any(graph, x, found),
{
    lemma_walks_to_or_stops(graph, first, found, x);
    lemma_walks_to_or_stops(graph, second, found, x);
    if !is_ancestor_of_any(graph, x, found) {
        assert(found.contains(x));
        lemma_ancestor_reflexive(graph, x);
    }
}

/// In an ordered graph, the heads of where the walks meet are the best common
/// ancestors.
pub proof fn lemma_best_common_ancestors(
    graph: Graph,
    first: Seq<GlobalPosition>,
    second: Seq<GlobalPosition>,
    found: Seq<GlobalPosition>,
    heads: Seq<GlobalPosition>,
)
    requires
        is_ordered(graph),
        meets_with_heads(graph, first, second, found, heads),
    ensures
        is_best_common_ancestors(graph, first, second, heads),
{
    lemma_selected_heads(graph, found, heads);
    assert forall|f: GlobalPosition| #[trigger] found.contains(f) implies is_common_ancestor(
        graph,
        first,
        second,
        f,
    ) by {
        lemma_walks_to_ancestor(graph, first, found, f);
        lemma_walks_to_ancestor(graph, second, found, f);
    }
    assert forall|x: GlobalPosition| #[trigger] heads.contains(x) <==> is_common_ancestor(
        graph,
        first,
        second,
        x,
    ) && !is_improvable(graph, first, second, x) by {
        if heads.contains(x) {
            assert(found.contains(x));
            if is_improvable(graph, first, second, x) {
                let y = choose|y: GlobalPosition|
                    y != x && is_common_ancestor(graph, first, second, y)
                        && #[trigger] is_ancestor_in(graph, x, y);
                lemma_meets_cover(graph, first, second, found, y);
                let f = choose|f: GlobalPosition|
                    found.contains(f) && #[trigger] is_ancestor_in(graph, y, f);
                lemma_ancestor_transitive(graph, x, y, f);
                if f == x {
                    lemma_ancestor_antisymmetric(graph, x, y);
                }
                assert(has_other_descendant(graph, found, x));
            }
        }
        if is_common_ancestor(graph, first, second, x) && !is_improvable(graph, first, second, x) {
            lemma_meets_cover(graph, first, second, found, x);
            let f = choose|f: GlobalPosition|
                found.contains(f) && #[trigger] is_ancestor_in(graph, x, f);
            assert(f == x);
            if has_other_descendant(graph, found, x) {
                let d = choose|d: GlobalPosition|
                    found.contains(d) && d != x && #[trigger] is_ancestor_in(graph, x, d);
                assert(is_common_ancestor(graph, first, second, d));
            }
        }
    }
}

/// There is one way for the walks to meet.
pub proof fn lemma_meets_unique(
    graph: Graph,
    first: Seq<GlobalPosition>,
    second: Seq<GlobalPosition>,
    found: Seq<GlobalPosition>,
    other: Seq<GlobalPosition>,
)
    requires
        meets(graph, first, second, found),
        meets(graph, first, second, other),
    ensures
        found == other,
{
    assert forall|x: GlobalPosition| #[trigger] found.contains(x) <==> other.contains(x) by {
        lemma_meets_agree(graph, first, second, found, other, x);
    }
    lemma_descending_unique(found, other);
}

proof fn lemma_meets_agree(
    graph: Graph,
    first: Seq<GlobalPosition>,
    second: Seq<GlobalPosition>,
    found: Seq<GlobalPosition>,
    other: Seq<GlobalPosition>,
    x: GlobalPosition,
)
    requires
        meets(graph, first, second, found),
        meets(graph, first, second, other),
    ensures
        found.contains(x) <==> other.contains(x),
    decreases u32::MAX - x.0,
{
    assert forall|y: GlobalPosition| y.0 > x.0 implies (#[trigger] found.contains(y)
        <==> other.contains(y)) by {
        lemma_meets_agree(graph, first, second, found, other, y);
    }
    assert forall|y: GlobalPosition| y.0 > x.0 implies (#[trigger] other.contains(y)
        <==> found.contains(y)) by {
        lemma_meets_agree(graph, first, second, found, other, y);
    }
    if found.contains(x) {
        lemma_walks_agree(graph, first, found, other, x);
        lemma_walks_agree(graph, second, found, other, x);
    }
    if other.contains(x) {
        lemma_walks_agree(graph, first, other, found, x);
        lemma_walks_agree(graph, second, other, found, x);
    }
}

/// The common ancestors of two sets are the same whichever set comes first, and
/// the same each time.
pub proof fn lemma_common_ancestors_symmetric(
    graph: Graph,
    first: Seq<GlobalPosition>,
    second: Seq<GlobalPosition>,
    found: Seq<GlobalPosition>,
    heads: Seq<GlobalPosition>,
    swapped_found: Seq<GlobalPosition>,
    swapped_heads: Seq<GlobalPosition>,
)
    requires
        meets_with_heads(graph, first, second, found, heads),
        meets_with_heads(graph, second, first, swapped_found, swapped_heads),
    ensures
        swapped_heads == heads,
{
    assert(meets(graph, first, second, swapped_found));
    lemma_meets_unique(graph, first, second, found, swapped_found);
    lemma_heads_unique(graph, found, swapped_found, heads, swapped_heads);
}

/// The common ancestors of two sets are the same each time.
pub proof fn lemma_common_ancestors_unique(
    graph: Graph,
    first: Seq<GlobalPosition>,
    second: Seq<GlobalPosition>,
    found: Seq<GlobalPosition>,
    heads: Seq<GlobalPosition>,
    again_found: Seq<GlobalPosition>,
    again_heads: Seq<GlobalPosition>,
)
    requires
        meets_with_heads(graph, first, second, found, heads),
        meets_with_heads(graph, first, second, again_found, again_heads),
    ensures
        again_heads == heads,
{
    lemma_meets_unique(graph, first, second, found, again_found);
    lemma_heads_unique(graph, found, again_found, heads, again_heads);
}

/// Where parents are below their children, the best common ancestor of two commits is the first of
/// them exactly if it is an ancestor of the second.
pub proof fn lemma_common_ancestor_of_descendant(
    graph: Graph,
    first: GlobalPosition,
    second: GlobalPosition,
    best: Seq<GlobalPosition>,
)
    requires
        is_topological(graph),
        is_best_common_ancestors(graph, seq![first], seq![second], best),
    ensures
        best == seq![first] <==> is_ancestor_in(graph, first, second),
{
    let one = seq![first];
    let two = seq![second];
    assert(one[0] == first);
    assert(two[0] == second);
    assert(one.contains(first));
    assert(two.contains(second));
    if best == one {
        assert(best.contains(first));
        let d = choose|d: GlobalPosition|
            two.contains(d) && #[trigger] is_ancestor_in(graph, first, d);
        assert(d == second);
    }
    if is_ancestor_in(graph, first, second) {
        lemma_ancestor_reflexive(graph, first);
        assert(is_common_ancestor(graph, one, two, first));
        assert forall|x: GlobalPosition| #[trigger] best.contains(x) <==> one.contains(x) by {
            if is_common_ancestor(graph, one, two, x) {
                let d = choose|d: GlobalPosition|
                    one.contains(d) && #[trigger] is_ancestor_in(graph, x, d);
                assert(d == first);
                if x != first {
                    assert(is_improvable(graph, one, two, x));
                } else if is_improvable(graph, one, two, x) {
                    let y = choose|y: GlobalPosition|
                        y != x && is_common_ancestor(graph, one, two, y)
                            && #[trigger] is_ancestor_in(graph, x, y);
                    let e = choose|e: GlobalPosition|
                        one.contains(e) && #[trigger] is_ancestor_in(graph, y, e);
                    assert(e == first);
                    lemma_ancestor_antisymmetric(graph, x, y);
                }
            }
        }
        lemma_descending_unique(best, one);
    }
}

/// Where parents are below their children, the best common ancestors of a set and itself are its
/// heads.
pub proof fn lemma_common_ancestors_of_same(
    graph: Graph,
    positions: Seq<GlobalPosition>,
    best: Seq<GlobalPosition>,
    heads: Seq<GlobalPosition>,
)
    requires
        is_topological(graph),
        is_best_common_ancestors(graph, positions, positions, best),
        is_heads_of(graph, positions, heads),
    ensures
        best == heads,
{
    assert forall|x: GlobalPosition| #[trigger] best.contains(x) <==> heads.contains(x) by {
        lemma_ancestor_reflexive(graph, x);
        if best.contains(x) {
            let d = choose|d: GlobalPosition|
                positions.contains(d) && #[trigger] is_ancestor_in(graph, x, d);
            lemma_ancestor_reflexive(graph, d);
            assert(is_common_ancestor(graph, positions, positions, d));
            assert(d == x);
            if has_other_descendant(graph, positions, x) {
                let e = choose|e: GlobalPosition|
                    positions.contains(e) && e != x && #[trigger] is_ancestor_in(graph, x, e);
                lemma_ancestor_reflexive(graph, e);
                assert(is_common_ancestor(graph, positions, positions, e));
            }
        }
        if heads.contains(x) {
            assert(is_common_ancestor(graph, positions, positions, x));
            if is_improvable(graph, positions, positions, x) {
                let y = choose|y: GlobalPosition|
                    y != x && is_common_ancestor(graph, positions, positions, y)
                        && #[trigger] is_ancestor_in(graph, x, y);
                let d = choose|d: GlobalPosition|
                    positions.contains(d) && #[trigger] is_ancestor_in(graph, y, d);
                lemma_ancestor_transitive(graph, x, y, d);
                if d == x {
                    lemma_ancestor_antisymmetric(graph, x, y);
                }
                assert(has_other_descendant(graph, positions, x));
            }
        }
    }
    lemma_descending_unique(best, heads);
}

} // verus!
