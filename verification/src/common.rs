//! Common ancestors of two sets of commits.
use vstd::multiset::Multiset;
use vstd::prelude::*;

use crate::common_laws::{is_best_common_ancestors, lemma_best_common_ancestors};
use crate::error::{IndexError, IndexResult};
use crate::frontier::{
    is_frontier, lemma_frontier_advances, lemma_frontier_ahead, lemma_frontier_reached,
    lemma_frontier_starts, lemma_frontier_waits, lemma_reached_agree,
};
use crate::graph::{
    connected, has_parent, is_expansion, is_ordered, lemma_connected_weaken, reached, Graph, Step,
};
use crate::heads::{fails_on_heads, heads_positions, selects_heads, sweep_stays_below};
use crate::heap::{rank, PositionHeap};
use crate::position::{descending, lemma_push_contains, GlobalPosition};
use crate::position_index::{IndexModel, PositionIndex};
use crate::queue::{dedup_pop, lemma_highest_of_dom, lemma_items, lemma_popped};
use crate::walk::{
    fails_at, falling, lemma_expansion_sinks, parents_below, shift_to_parents,
};

verus! {

broadcast use {vstd::multiset::group_multiset_axioms, vstd::seq_lib::group_to_multiset_ensures};

/// The steps from a commit which is not one of `found` to those of its parents
/// which are below it.
pub open spec fn avoiding(graph: Graph, found: Seq<GlobalPosition>) -> Step {
    |child: GlobalPosition, parent: GlobalPosition|
        {
            &&& has_parent(graph, child, parent)
            &&& parent.0 < child.0
            &&& !found.contains(child)
        }
}

/// A walk from `starts` which does not go on from `found` comes to `position`.
pub open spec fn walks_to(
    graph: Graph,
    starts: Seq<GlobalPosition>,
    found: Seq<GlobalPosition>,
    position: GlobalPosition,
) -> bool {
    reached(avoiding(graph, found), starts.to_set(), position)
}

/// `found` are the positions, from `bound` on, where a walk from `first` and a
/// walk from `second` meet, from high to low. Neither walk goes on from where
/// they meet.
pub open spec fn meets_above(
    graph: Graph,
    first: Seq<GlobalPosition>,
    second: Seq<GlobalPosition>,
    found: Seq<GlobalPosition>,
    bound: int,
) -> bool {
    &&& descending(found)
    &&& forall|x: GlobalPosition| #[trigger]
        found.contains(x) <==> x.0 >= bound && walks_to(graph, first, found, x) && walks_to(
            graph,
            second,
            found,
            x,
        )
}

/// `found` are all positions where a walk from `first` and a walk from `second`
/// meet, from high to low.
pub open spec fn meets(
    graph: Graph,
    first: Seq<GlobalPosition>,
    second: Seq<GlobalPosition>,
    found: Seq<GlobalPosition>,
) -> bool {
    meets_above(graph, first, second, found, 0)
}

/// The walk from `starts` goes on from `position`: the other walk does not come
/// there, but to a lower position.
pub open spec fn goes_on(
    graph: Graph,
    starts: Seq<GlobalPosition>,
    others: Seq<GlobalPosition>,
    found: Seq<GlobalPosition>,
    position: GlobalPosition,
) -> bool {
    &&& walks_to(graph, starts, found, position)
    &&& !walks_to(graph, others, found, position)
    &&& exists|y: GlobalPosition| y.0 < position.0 && #[trigger] walks_to(graph, others, found, y)
}

/// The walk from `starts` has done everything from `bound` on, and goes on from
/// `queue`.
spec fn walked(
    graph: Graph,
    starts: Seq<GlobalPosition>,
    found: Seq<GlobalPosition>,
    bound: int,
    queue: Set<GlobalPosition>,
) -> bool {
    is_frontier(avoiding(graph, found), starts.to_set(), bound, queue)
}

/// What a walk comes to does not depend on what was found below it.
pub proof fn lemma_walks_agree(
    graph: Graph,
    starts: Seq<GlobalPosition>,
    first: Seq<GlobalPosition>,
    second: Seq<GlobalPosition>,
    x: GlobalPosition,
)
    requires
        forall|y: GlobalPosition|
            y.0 > x.0 ==> (#[trigger] first.contains(y) <==> second.contains(y)),
        walks_to(graph, starts, first, x),
    ensures
        walks_to(graph, starts, second, x),
{
    let step = avoiding(graph, first);
    let other = avoiding(graph, second);
    assert forall|y: GlobalPosition, z: GlobalPosition|
        y.0 > x.0 && #[trigger] step(y, z) implies other(y, z) by {
        assert(!first.contains(y));
    }
    lemma_reached_agree(step, other, starts.to_set(), x);
}

/// The walks meet: neither goes on from there.
proof fn lemma_walk_meets(
    graph: Graph,
    starts: Seq<GlobalPosition>,
    found: Seq<GlobalPosition>,
    bound: int,
    before: Set<GlobalPosition>,
    after: Set<GlobalPosition>,
    position: GlobalPosition,
)
    requires
        walked(graph, starts, found, bound, before),
        before.contains(position),
        forall|q: GlobalPosition| #[trigger] before.contains(q) ==> q.0 <= position.0,
        forall|q: GlobalPosition| #[trigger]
            after.contains(q) <==> before.contains(q) && q != position,
    ensures
        walked(graph, starts, found.push(position), position.0 as int, after),
        position.0 < bound,
        walks_to(graph, starts, found, position),
        forall|x: GlobalPosition|
            position.0 < x.0 && x.0 < bound ==> !#[trigger] walks_to(graph, starts, found, x),
        forall|x: GlobalPosition|
            x.0 >= position.0 ==> (#[trigger] walks_to(graph, starts, found.push(position), x)
                <==> walks_to(graph, starts, found, x)),
{
    let more = found.push(position);
    let step = avoiding(graph, found);
    let next = avoiding(graph, more);
    lemma_push_contains(found, position);
    assert forall|y: GlobalPosition, z: GlobalPosition| y != position implies (#[trigger] step(y, z)
        <==> next(y, z)) by {
        assert(more.contains(y) <==> found.contains(y) || y == position);
    }
    assert(more.contains(position));
    lemma_frontier_advances(step, next, starts.to_set(), bound, before, after, position);
}

/// The state of both walks: everything from `bound` on is done, and the walks
/// met there at `found`.
spec fn converges(
    graph: Graph,
    first: Seq<GlobalPosition>,
    second: Seq<GlobalPosition>,
    found: Seq<GlobalPosition>,
    bound: int,
    first_queue: Set<GlobalPosition>,
    second_queue: Set<GlobalPosition>,
) -> bool {
    &&& walked(graph, first, found, bound, first_queue)
    &&& walked(graph, second, found, bound, second_queue)
    &&& meets_above(graph, first, second, found, bound)
    &&& walk_stays_below(graph, first, second, found, bound)
}

/// From `bound` on, everything from which a walk goes on has an entry, and its
/// parents below it.
pub open spec fn walk_stays_below(
    graph: Graph,
    first: Seq<GlobalPosition>,
    second: Seq<GlobalPosition>,
    found: Seq<GlobalPosition>,
    bound: int,
) -> bool {
    &&& forall|x: GlobalPosition|
        x.0 >= bound && #[trigger] goes_on(graph, first, second, found, x) ==> parents_below(
            graph,
            x,
        )
    &&& forall|x: GlobalPosition|
        x.0 >= bound && #[trigger] goes_on(graph, second, first, found, x) ==> parents_below(
            graph,
            x,
        )
}

/// The order of the two walks does not matter.
proof fn lemma_converges_swap(
    graph: Graph,
    first: Seq<GlobalPosition>,
    second: Seq<GlobalPosition>,
    found: Seq<GlobalPosition>,
    bound: int,
    first_queue: Set<GlobalPosition>,
    second_queue: Set<GlobalPosition>,
)
    requires
        converges(graph, first, second, found, bound, first_queue, second_queue),
    ensures
        converges(graph, second, first, found, bound, second_queue, first_queue),
{
}

/// The first walk goes on.
proof fn lemma_converge_goes_on(
    graph: Graph,
    first: Seq<GlobalPosition>,
    second: Seq<GlobalPosition>,
    found: Seq<GlobalPosition>,
    bound: int,
    before: Set<GlobalPosition>,
    after: Set<GlobalPosition>,
    other_queue: Set<GlobalPosition>,
    position: GlobalPosition,
)
    requires
        converges(graph, first, second, found, bound, before, other_queue),
        is_expansion(falling(graph), before, after, position),
        parents_below(graph, position),
        forall|q: GlobalPosition| #[trigger] before.contains(q) ==> q.0 <= position.0,
        forall|q: GlobalPosition| #[trigger] other_queue.contains(q) ==> q.0 < position.0,
    ensures
        converges(graph, first, second, found, position.0 as int, after, other_queue),
{
    let step = avoiding(graph, found);
    assert(before.contains(position));
    assert(!found.contains(position));
    assert forall|x: GlobalPosition| #[trigger] after.contains(x) <==> (before.contains(x) && x
        != position) || step(position, x) by {
        assert(falling(graph)(position, x) <==> step(position, x));
    }
    lemma_frontier_advances(step, step, first.to_set(), bound, before, after, position);
    lemma_frontier_waits(step, second.to_set(), bound, other_queue, position);
}

/// The first walk fails to go on.
proof fn lemma_converge_fails(
    graph: Graph,
    first: Seq<GlobalPosition>,
    second: Seq<GlobalPosition>,
    found: Seq<GlobalPosition>,
    bound: int,
    queue: Set<GlobalPosition>,
    other_queue: Set<GlobalPosition>,
    position: GlobalPosition,
    other: GlobalPosition,
)
    requires
        converges(graph, first, second, found, bound, queue, other_queue),
        queue.contains(position),
        other_queue.contains(other),
        other.0 < position.0,
        forall|q: GlobalPosition| #[trigger] queue.contains(q) ==> q.0 <= position.0,
        forall|q: GlobalPosition| #[trigger] other_queue.contains(q) ==> q.0 <= other.0,
    ensures
        meets_above(graph, first, second, found, position.0 + 1),
        walk_stays_below(graph, first, second, found, position.0 + 1),
        goes_on(graph, first, second, found, position),
{
    let step = avoiding(graph, found);
    assert forall|x: GlobalPosition| position.0 < x.0 && x.0 < bound implies !#[trigger] walks_to(
        graph,
        first,
        found,
        x,
    ) by {
        if walks_to(graph, first, found, x) {
            lemma_frontier_ahead(step, first.to_set(), bound, queue, x);
        }
    }
    assert forall|x: GlobalPosition| position.0 < x.0 && x.0 < bound implies !#[trigger] walks_to(
        graph,
        second,
        found,
        x,
    ) by {
        if walks_to(graph, second, found, x) {
            lemma_frontier_ahead(step, second.to_set(), bound, other_queue, x);
        }
    }
    lemma_frontier_reached(step, first.to_set(), bound, queue, position);
    lemma_frontier_reached(step, second.to_set(), bound, other_queue, other);
    assert(walks_to(graph, second, found, other));
    lemma_frontier_waits(step, second.to_set(), bound, other_queue, position);
}

/// The walks meet.
proof fn lemma_converge_meets(
    graph: Graph,
    first: Seq<GlobalPosition>,
    second: Seq<GlobalPosition>,
    found: Seq<GlobalPosition>,
    bound: int,
    first_before: Set<GlobalPosition>,
    first_after: Set<GlobalPosition>,
    second_before: Set<GlobalPosition>,
    second_after: Set<GlobalPosition>,
    position: GlobalPosition,
)
    requires
        converges(graph, first, second, found, bound, first_before, second_before),
        first_before.contains(position),
        second_before.contains(position),
        forall|q: GlobalPosition| #[trigger] first_before.contains(q) ==> q.0 <= position.0,
        forall|q: GlobalPosition| #[trigger] second_before.contains(q) ==> q.0 <= position.0,
        forall|q: GlobalPosition| #[trigger]
            first_after.contains(q) <==> first_before.contains(q) && q != position,
        forall|q: GlobalPosition| #[trigger]
            second_after.contains(q) <==> second_before.contains(q) && q != position,
    ensures
        converges(
            graph,
            first,
            second,
            found.push(position),
            position.0 as int,
            first_after,
            second_after,
        ),
{
    let more = found.push(position);
    lemma_walk_meets(graph, first, found, bound, first_before, first_after, position);
    lemma_walk_meets(graph, second, found, bound, second_before, second_after, position);
    lemma_push_contains(found, position);
    assert(descending(more)) by {
        assert forall|i: int, j: int| 0 <= i < j < more.len() implies more[i].0 > more[j].0 by {
            assert(found.contains(found[i]));
        }
    }
    assert forall|starts: Seq<GlobalPosition>, y: GlobalPosition| #[trigger]
        walks_to(graph, starts, more, y) implies walks_to(graph, starts, found, y) by {
        lemma_walks_fewer(graph, starts, found, more, y);
    }
    assert forall|x: GlobalPosition|
        x.0 >= position.0 && #[trigger] goes_on(graph, first, second, more, x) implies parents_below(
        graph,
        x,
    ) by {
        let y = choose|y: GlobalPosition| y.0 < x.0 && #[trigger] walks_to(graph, second, more, y);
        assert(walks_to(graph, second, found, y));
        assert(goes_on(graph, first, second, found, x));
    }
    assert forall|x: GlobalPosition|
        x.0 >= position.0 && #[trigger] goes_on(graph, second, first, more, x) implies parents_below(
        graph,
        x,
    ) by {
        let y = choose|y: GlobalPosition| y.0 < x.0 && #[trigger] walks_to(graph, first, more, y);
        assert(walks_to(graph, first, found, y));
        assert(goes_on(graph, second, first, found, x));
    }
}

/// A walk which avoids more comes to less.
proof fn lemma_walks_fewer(
    graph: Graph,
    starts: Seq<GlobalPosition>,
    found: Seq<GlobalPosition>,
    more: Seq<GlobalPosition>,
    x: GlobalPosition,
)
    requires
        walks_to(graph, starts, more, x),
        forall|f: GlobalPosition| #[trigger] found.contains(f) ==> more.contains(f),
    ensures
        walks_to(graph, starts, found, x),
{
    let step = avoiding(graph, more);
    let from = choose|from: GlobalPosition|
        starts.to_set().contains(from) && #[trigger] connected(step, from, x);
    lemma_connected_weaken(step, avoiding(graph, found), from, x);
}

/// One walk has come to its end: everything is done.
proof fn lemma_converge_ends(
    graph: Graph,
    first: Seq<GlobalPosition>,
    second: Seq<GlobalPosition>,
    found: Seq<GlobalPosition>,
    bound: int,
    first_queue: Set<GlobalPosition>,
    second_queue: Set<GlobalPosition>,
)
    requires
        converges(graph, first, second, found, bound, first_queue, second_queue),
        forall|q: GlobalPosition| !#[trigger] first_queue.contains(q),
    ensures
        meets(graph, first, second, found),
        walk_stays_below(graph, first, second, found, 0),
{
    assert forall|x: GlobalPosition| x.0 < bound implies !#[trigger] walks_to(
        graph,
        first,
        found,
        x,
    ) by {
        if walks_to(graph, first, found, x) {
            lemma_frontier_ahead(
                avoiding(graph, found),
                first.to_set(),
                bound,
                first_queue,
                x,
            );
        }
    }
}

/// The heads `heads` of where walks from `first` and `second` meet at `found`.
pub open spec fn meets_with_heads(
    graph: Graph,
    first: Seq<GlobalPosition>,
    second: Seq<GlobalPosition>,
    found: Seq<GlobalPosition>,
    heads: Seq<GlobalPosition>,
) -> bool {
    &&& meets(graph, first, second, found)
    &&& walk_stays_below(graph, first, second, found, 0)
    &&& forall|f: GlobalPosition| #[trigger] found.contains(f) ==> graph.dom().contains(f)
    &&& selects_heads(graph, found, heads)
    &&& sweep_stays_below(graph, found, heads, 0)
}

/// `error` comes from an entry which the search for common ancestors reads: the
/// first from which a walk cannot go on, or one which the search for heads reads.
pub open spec fn fails_on_common_ancestors(
    model: IndexModel,
    first: Seq<GlobalPosition>,
    second: Seq<GlobalPosition>,
    error: IndexError,
) -> bool {
    ||| exists|found: Seq<GlobalPosition>, x: GlobalPosition|
        {
            &&& #[trigger] meets_above(model.graph, first, second, found, x.0 + 1)
            &&& walk_stays_below(model.graph, first, second, found, x.0 + 1)
            &&& goes_on(model.graph, first, second, found, x) || goes_on(
                model.graph,
                second,
                first,
                found,
                x,
            )
            &&& #[trigger] fails_at(model, x, error)
        }
    ||| exists|found: Seq<GlobalPosition>| #[trigger]
        meets(model.graph, first, second, found) && walk_stays_below(
            model.graph,
            first,
            second,
            found,
            0,
        ) && fails_on_heads(model, found, error)
}

/// Returns best common-ancestor positions in descending order.
pub fn common_ancestor_positions<T: PositionIndex + ?Sized>(
    index: &T,
    set1: Vec<GlobalPosition>,
    set2: Vec<GlobalPosition>,
) -> (result: IndexResult<Vec<GlobalPosition>>)
    ensures
        match result {
            Ok(heads) => {
                &&& exists|found: Seq<GlobalPosition>| #[trigger]
                    meets_with_heads(index.model().graph, set1@, set2@, found, heads@)
                &&& is_ordered(index.model().graph) ==> is_best_common_ancestors(
                    index.model().graph,
                    set1@,
                    set2@,
                    heads@,
                )
            },
            Err(error) => fails_on_common_ancestors(index.model(), set1@, set2@, error),
        },
{
    let ghost graph = index.model().graph;
    let mut items1 = PositionHeap::from_positions(set1.as_slice());
    let mut items2 = PositionHeap::from_positions(set2.as_slice());
    let mut found: Vec<GlobalPosition> = Vec::new();
    let ghost mut bound: int = u32::MAX + 1;
    proof {
        lemma_items(set1@);
        lemma_items(set2@);
        lemma_frontier_starts(avoiding(graph, found@), set1@.to_set(), items1@.dom());
        lemma_frontier_starts(avoiding(graph, found@), set2@.to_set(), items2@.dom());
        assert(found@ =~= Seq::<GlobalPosition>::empty());
        assert(converges(graph, set1@, set2@, found@, bound, items1@.dom(), items2@.dom()));
    }
    loop
        invariant
            graph == index.model().graph,
            items1.wf(),
            items2.wf(),
            converges(graph, set1@, set2@, found@, bound, items1@.dom(), items2@.dom()),
        ensures
            items1@ == Multiset::<GlobalPosition>::empty() || items2@ == Multiset::<
                GlobalPosition,
            >::empty(),
        decreases rank(items1@) + rank(items2@),
    {
        let ghost queue1 = items1@;
        let ghost queue2 = items2@;
        let pos1 = match items1.peek() {
            Some(position) => position,
            None => {
                break;
            },
        };
        let pos2 = match items2.peek() {
            Some(position) => position,
            None => {
                break;
            },
        };
        proof {
            lemma_highest_of_dom(queue1, pos1);
            lemma_highest_of_dom(queue2, pos2);
        }
        if pos1.0 > pos2.0 {
            if let Err(error) = shift_to_parents(&mut items1, pos1, index) {
                proof {
                    lemma_converge_fails(
                        graph,
                        set1@,
                        set2@,
                        found@,
                        bound,
                        queue1.dom(),
                        queue2.dom(),
                        pos1,
                        pos2,
                    );
                }
                return Err(error);
            }
            proof {
                lemma_converge_goes_on(
                    graph,
                    set1@,
                    set2@,
                    found@,
                    bound,
                    queue1.dom(),
                    items1@.dom(),
                    queue2.dom(),
                    pos1,
                );
                lemma_expansion_sinks(falling(graph), queue1, items1@, pos1);
                bound = pos1.0 as int;
            }
        } else if pos1.0 < pos2.0 {
            if let Err(error) = shift_to_parents(&mut items2, pos2, index) {
                proof {
                    lemma_converges_swap(
                        graph,
                        set1@,
                        set2@,
                        found@,
                        bound,
                        queue1.dom(),
                        queue2.dom(),
                    );
                    lemma_converge_fails(
                        graph,
                        set2@,
                        set1@,
                        found@,
                        bound,
                        queue2.dom(),
                        queue1.dom(),
                        pos2,
                        pos1,
                    );
                    assert(meets_above(graph, set1@, set2@, found@, pos2.0 + 1));
                }
                return Err(error);
            }
            proof {
                lemma_converges_swap(
                    graph,
                    set1@,
                    set2@,
                    found@,
                    bound,
                    queue1.dom(),
                    queue2.dom(),
                );
                lemma_converge_goes_on(
                    graph,
                    set2@,
                    set1@,
                    found@,
                    bound,
                    queue2.dom(),
                    items2@.dom(),
                    queue1.dom(),
                    pos2,
                );
                lemma_expansion_sinks(falling(graph), queue2, items2@, pos2);
                bound = pos2.0 as int;
            }
        } else {
            assert(pos1 == pos2);
            let _ = dedup_pop(&mut items1);
            let _ = dedup_pop(&mut items2);
            proof {
                lemma_popped(queue1, items1@, pos1);
                lemma_popped(queue2, items2@, pos1);
                lemma_converge_meets(
                    graph,
                    set1@,
                    set2@,
                    found@,
                    bound,
                    queue1.dom(),
                    items1@.dom(),
                    queue2.dom(),
                    items2@.dom(),
                    pos1,
                );
                bound = pos1.0 as int;
            }
            found.push(pos1);
        }
    }
    proof {
        if items1@ == Multiset::<GlobalPosition>::empty() {
            lemma_converge_ends(
                graph,
                set1@,
                set2@,
                found@,
                bound,
                items1@.dom(),
                items2@.dom(),
            );
        } else {
            lemma_converges_swap(
                graph,
                set1@,
                set2@,
                found@,
                bound,
                items1@.dom(),
                items2@.dom(),
            );
            lemma_converge_ends(
                graph,
                set2@,
                set1@,
                found@,
                bound,
                items2@.dom(),
                items1@.dom(),
            );
            assert(meets(graph, set1@, set2@, found@));
        }
    }
    let ghost met = found@;
    let heads = heads_positions(index, found)?;
    proof {
        assert(meets_with_heads(graph, set1@, set2@, met, heads@));
        if is_ordered(graph) {
            lemma_best_common_ancestors(graph, set1@, set2@, met, heads@);
        }
    }
    Ok(heads)
}

} // verus!
