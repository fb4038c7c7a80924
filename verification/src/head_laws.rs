//! What the heads among a set of commits are, and how they relate to it.
use vstd::prelude::*;

use crate::graph::{
    connected, has_parent, is_ancestor_in, is_ordered, is_topological, lemma_ancestor_generation,
    lemma_ancestor_is_below, lemma_ancestor_reflexive, lemma_ancestor_transitive,
    lemma_connected_first, lemma_connected_prepend, lemma_connected_self, lemma_connected_weaken,
    to_parents, Graph,
};
use crate::heads::{
    is_covered_from_above, is_lowest_generation, lies_under, lowest_generation, selects_heads,
};
use crate::position::{descending, GlobalPosition};
use crate::walk::falling_above;

verus! {

/// `heads` are those of `candidates` which are not ancestors of another
/// candidate, from high to low.
pub open spec fn is_heads_of(
    graph: Graph,
    candidates: Seq<GlobalPosition>,
    heads: Seq<GlobalPosition>,
) -> bool {
    &&& descending(heads)
    &&& forall|c: GlobalPosition| #[trigger]
        heads.contains(c) <==> candidates.contains(c) && !has_other_descendant(
            graph,
            candidates,
            c,
        )
}

/// `position` is an ancestor of one of `candidates` other than itself.
pub open spec fn has_other_descendant(
    graph: Graph,
    candidates: Seq<GlobalPosition>,
    position: GlobalPosition,
) -> bool {
    exists|d: GlobalPosition|
        candidates.contains(d) && d != position && #[trigger] is_ancestor_in(graph, position, d)
}

/// Some position has the lowest generation.
pub proof fn lemma_lowest_generation(graph: Graph, positions: Seq<GlobalPosition>)
    requires
        positions.len() > 0,
    ensures
        is_lowest_generation(graph, positions, lowest_generation(graph, positions)),
{
    lemma_lowest_generation_exists(graph, positions);
}

proof fn lemma_lowest_generation_exists(graph: Graph, positions: Seq<GlobalPosition>)
    requires
        positions.len() > 0,
    ensures
        exists|floor: u32| is_lowest_generation(graph, positions, floor),
    decreases positions.len(),
{
    let last = positions.last();
    let rest = positions.drop_last();
    assert(positions.contains(last));
    if rest.len() == 0 {
        assert forall|p: GlobalPosition| #[trigger] positions.contains(p) implies p == last by {}
        assert(is_lowest_generation(graph, positions, graph[last].generation_number));
    } else {
        lemma_lowest_generation_exists(graph, rest);
        let floor = choose|floor: u32| is_lowest_generation(graph, rest, floor);
        let p = choose|p: GlobalPosition| #[trigger]
            rest.contains(p) && graph[p].generation_number == floor;
        assert(positions.contains(p)) by {
            assert(positions[rest.index_of(p)] == p);
        }
        assert forall|q: GlobalPosition| #[trigger] positions.contains(q) implies q == last
            || rest.contains(q) by {
            let i = positions.index_of(q);
            if i < rest.len() {
                assert(rest[i] == q);
            }
        }
        if graph[last].generation_number < floor {
            assert(is_lowest_generation(graph, positions, graph[last].generation_number));
        } else {
            assert(is_lowest_generation(graph, positions, floor));
        }
    }
}

/// In an ordered graph, a walk to an ancestor never has to go below the
/// ancestor's generation.
pub proof fn lemma_connected_above(
    graph: Graph,
    floor: u32,
    ancestor: GlobalPosition,
    descendant: GlobalPosition,
)
    requires
        is_ordered(graph),
        is_ancestor_in(graph, ancestor, descendant),
        graph.dom().contains(ancestor),
        graph[ancestor].generation_number >= floor,
    ensures
        connected(falling_above(graph, floor), descendant, ancestor),
    decreases descendant.0,
{
    let step = falling_above(graph, floor);
    if descendant == ancestor {
        lemma_connected_self(step, ancestor);
    } else {
        let x = lemma_connected_first(to_parents(graph), descendant, ancestor);
        assert(has_parent(graph, descendant, x));
        lemma_connected_above(graph, floor, ancestor, x);
        lemma_ancestor_generation(graph, ancestor, descendant);
        lemma_connected_prepend(step, descendant, x, ancestor);
    }
}

/// What lies under a commit is an ancestor of it.
pub proof fn lemma_under_is_ancestor(
    graph: Graph,
    floor: u32,
    head: GlobalPosition,
    position: GlobalPosition,
)
    requires
        graph.dom().contains(head),
        lies_under(graph, floor, head, position),
    ensures
        is_ancestor_in(graph, position, head),
        is_topological(graph) ==> position.0 < head.0,
{
    let step = falling_above(graph, floor);
    let parents = graph[head].parent_positions.to_set();
    let from = choose|from: GlobalPosition|
        parents.contains(from) && #[trigger] connected(step, from, position);
    lemma_connected_weaken(step, to_parents(graph), from, position);
    assert(has_parent(graph, head, from));
    lemma_connected_prepend(to_parents(graph), head, from, position);
    if is_topological(graph) && from != position {
        lemma_ancestor_is_below(graph, position, from);
    }
}

/// In an ordered graph, a proper ancestor whose generation is not below the
/// floor lies under its descendants.
pub proof fn lemma_ancestor_is_under(
    graph: Graph,
    floor: u32,
    ancestor: GlobalPosition,
    descendant: GlobalPosition,
)
    requires
        is_ordered(graph),
        is_ancestor_in(graph, ancestor, descendant),
        ancestor != descendant,
        graph.dom().contains(ancestor),
        graph[ancestor].generation_number >= floor,
    ensures
        lies_under(graph, floor, descendant, ancestor),
{
    let x = lemma_connected_first(to_parents(graph), descendant, ancestor);
    assert(has_parent(graph, descendant, x));
    lemma_connected_above(graph, floor, ancestor, x);
    assert(graph[descendant].parent_positions.to_set().contains(x));
}

/// In an ordered graph, the selected heads are the candidates which are not
/// ancestors of another candidate.
pub proof fn lemma_selected_heads(
    graph: Graph,
    candidates: Seq<GlobalPosition>,
    heads: Seq<GlobalPosition>,
)
    requires
        is_ordered(graph),
        forall|c: GlobalPosition| #[trigger] candidates.contains(c) ==> graph.dom().contains(c),
        selects_heads(graph, candidates, heads),
    ensures
        is_heads_of(graph, candidates, heads),
{
    let floor = lowest_generation(graph, candidates);
    if candidates.len() > 0 {
        lemma_lowest_generation(graph, candidates);
    }
    assert forall|c: GlobalPosition| #[trigger] heads.contains(c) <==> candidates.contains(c)
        && !has_other_descendant(graph, candidates, c) by {
        if candidates.contains(c) {
            if has_other_descendant(graph, candidates, c) {
                let d = choose|d: GlobalPosition|
                    candidates.contains(d) && d != c && #[trigger] is_ancestor_in(graph, c, d);
                lemma_ancestor_is_below(graph, c, d);
                lemma_ancestor_is_under(graph, floor, c, d);
                if !heads.contains(d) {
                    assert(is_covered_from_above(graph, floor, heads, d));
                    let h = choose|h: GlobalPosition|
                        heads.contains(h) && h.0 > d.0 && #[trigger] lies_under(
                            graph,
                            floor,
                            h,
                            d,
                        );
                    assert(candidates.contains(h));
                    lemma_under_is_ancestor(graph, floor, h, d);
                    lemma_ancestor_transitive(graph, c, d, h);
                    lemma_ancestor_is_under(graph, floor, c, h);
                    assert(is_covered_from_above(graph, floor, heads, c));
                } else {
                    assert(is_covered_from_above(graph, floor, heads, c));
                }
            }
            if is_covered_from_above(graph, floor, heads, c) {
                let h = choose|h: GlobalPosition|
                    heads.contains(h) && h.0 > c.0 && #[trigger] lies_under(graph, floor, h, c);
                assert(candidates.contains(h));
                lemma_under_is_ancestor(graph, floor, h, c);
            }
        }
    }
}

/// Two descending sequences with the same members are the same.
pub proof fn lemma_descending_unique(first: Seq<GlobalPosition>, second: Seq<GlobalPosition>)
    requires
        descending(first),
        descending(second),
        forall|p: GlobalPosition| #[trigger] first.contains(p) <==> second.contains(p),
    ensures
        first == second,
    decreases first.len(),
{
    if first.len() == 0 {
        if second.len() > 0 {
            assert(second.contains(second[0]));
            assert(first.contains(second[0]));
        }
        assert(first =~= second);
    } else {
        assert(first.contains(first.last()));
        assert(second.contains(first.last()));
        assert(second.contains(second.last()));
        assert(first.contains(second.last()));
        let i = second.index_of(first.last());
        let j = first.index_of(second.last());
        assert(first.last() == second.last());
        let a = first.drop_last();
        let b = second.drop_last();
        assert forall|p: GlobalPosition| #[trigger] a.contains(p) <==> b.contains(p) by {
            if a.contains(p) {
                assert(first[a.index_of(p)] == p);
                assert(first.contains(p));
                let k = second.index_of(p);
                assert(b[k] == p);
            }
            if b.contains(p) {
                assert(second[b.index_of(p)] == p);
                assert(second.contains(p));
                assert(first.contains(p));
                let k = first.index_of(p);
                assert(a[k] == p);
            }
        }
        lemma_descending_unique(a, b);
        assert(first =~= a.push(first.last()));
        assert(second =~= b.push(second.last()));
    }
}

/// The heads depend only on which positions are candidates: neither their order
/// nor how often they occur matters. In particular, the same candidates have
/// the same heads each time.
pub proof fn lemma_heads_unique(
    graph: Graph,
    first: Seq<GlobalPosition>,
    second: Seq<GlobalPosition>,
    first_heads: Seq<GlobalPosition>,
    second_heads: Seq<GlobalPosition>,
)
    requires
        forall|c: GlobalPosition| #[trigger] first.contains(c) <==> second.contains(c),
        selects_heads(graph, first, first_heads),
        selects_heads(graph, second, second_heads),
    ensures
        first_heads == second_heads,
{
    let floor = lowest_generation(graph, first);
    if first.len() > 0 {
        assert(first.contains(first[0]));
        assert(second.contains(first[0]));
        lemma_lowest_generation(graph, first);
        lemma_lowest_generation(graph, second);
        let p = choose|p: GlobalPosition| #[trigger]
            first.contains(p) && graph[p].generation_number == floor;
        assert(second.contains(p));
        let q = choose|q: GlobalPosition| #[trigger]
            second.contains(q) && graph[q].generation_number == lowest_generation(graph, second);
        assert(first.contains(q));
        assert(lowest_generation(graph, second) == floor);
    }
    assert forall|c: GlobalPosition| #[trigger] first_heads.contains(c) <==> second_heads.contains(
        c,
    ) by {
        lemma_heads_agree(graph, floor, first, second, first_heads, second_heads, c);
    }
    lemma_descending_unique(first_heads, second_heads);
}

proof fn lemma_heads_agree(
    graph: Graph,
    floor: u32,
    first: Seq<GlobalPosition>,
    second: Seq<GlobalPosition>,
    first_heads: Seq<GlobalPosition>,
    second_heads: Seq<GlobalPosition>,
    c: GlobalPosition,
)
    requires
        forall|c: GlobalPosition| #[trigger] first.contains(c) <==> second.contains(c),
        selects_heads(graph, first, first_heads),
        selects_heads(graph, second, second_heads),
        first.len() > 0 ==> lowest_generation(graph, first) == floor && lowest_generation(
            graph,
            second,
        ) == floor,
    ensures
        first_heads.contains(c) <==> second_heads.contains(c),
    decreases u32::MAX - c.0,
{
    if first.contains(c) {
        if is_covered_from_above(graph, floor, first_heads, c) {
            let h = choose|h: GlobalPosition|
                first_heads.contains(h) && h.0 > c.0 && #[trigger] lies_under(graph, floor, h, c);
            lemma_heads_agree(graph, floor, first, second, first_heads, second_heads, h);
            assert(is_covered_from_above(graph, floor, second_heads, c));
        }
        if is_covered_from_above(graph, floor, second_heads, c) {
            let h = choose|h: GlobalPosition|
                second_heads.contains(h) && h.0 > c.0 && #[trigger] lies_under(graph, floor, h, c);
            lemma_heads_agree(graph, floor, first, second, first_heads, second_heads, h);
            assert(is_covered_from_above(graph, floor, first_heads, c));
        }
    }
}

/// Where parents are below their children, every candidate is an ancestor of a head.
pub proof fn lemma_heads_cover(
    graph: Graph,
    candidates: Seq<GlobalPosition>,
    heads: Seq<GlobalPosition>,
    candidate: GlobalPosition,
)
    requires
        is_topological(graph),
        is_heads_of(graph, candidates, heads),
        candidates.contains(candidate),
    ensures
        exists|h: GlobalPosition|
            heads.contains(h) && #[trigger] is_ancestor_in(graph, candidate, h),
    decreases u32::MAX - candidate.0,
{
    if heads.contains(candidate) {
        lemma_ancestor_reflexive(graph, candidate);
    } else {
        let d = choose|d: GlobalPosition|
            candidates.contains(d) && d != candidate && #[trigger] is_ancestor_in(
                graph,
                candidate,
                d,
            );
        lemma_ancestor_is_below(graph, candidate, d);
        lemma_heads_cover(graph, candidates, heads, d);
        let h = choose|h: GlobalPosition|
            heads.contains(h) && #[trigger] is_ancestor_in(graph, d, h);
        lemma_ancestor_transitive(graph, candidate, d, h);
    }
}

/// No head is an ancestor of another head.
pub proof fn lemma_heads_independent(
    graph: Graph,
    candidates: Seq<GlobalPosition>,
    heads: Seq<GlobalPosition>,
    first: GlobalPosition,
    second: GlobalPosition,
)
    requires
        is_heads_of(graph, candidates, heads),
        heads.contains(first),
        heads.contains(second),
        is_ancestor_in(graph, first, second),
    ensures
        first == second,
{
}

/// The heads of heads are the same heads.
pub proof fn lemma_heads_idempotent(
    graph: Graph,
    candidates: Seq<GlobalPosition>,
    heads: Seq<GlobalPosition>,
    again: Seq<GlobalPosition>,
)
    requires
        is_heads_of(graph, candidates, heads),
        is_heads_of(graph, heads, again),
    ensures
        again == heads,
{
    assert forall|c: GlobalPosition| #[trigger] again.contains(c) <==> heads.contains(c) by {
        if heads.contains(c) && has_other_descendant(graph, heads, c) {
            let d = choose|d: GlobalPosition|
                heads.contains(d) && d != c && #[trigger] is_ancestor_in(graph, c, d);
            assert(candidates.contains(d));
        }
    }
    lemma_descending_unique(again, heads);
}

} // verus!
