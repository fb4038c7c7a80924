//! What the steps of a walk do to its frontier, told by how often it holds each
//! position.
use vstd::multiset::Multiset;
use vstd::prelude::*;

use crate::error::IndexError;
use crate::graph::{has_parent, Graph};
use crate::heap::is_highest;
use crate::position::GlobalPosition;
use crate::position_index::{IndexModel, Lookup};
use crate::queue::without;
use crate::walk::{
    falling, falling_above, is_first_invalid, is_shift, parents_below, shift_fails, shifts,
    shifts_fail, shifts_in, stops_at_invalid,
};

verus! {

broadcast use {vstd::multiset::group_multiset_axioms, vstd::seq_lib::group_to_multiset_ensures};

/// The highest position of a frontier is one which it holds, and no other which it
/// holds is above it.
pub proof fn lemma_highest_position(
    positions: Multiset<GlobalPosition>,
    position: GlobalPosition,
)
    ensures
        is_highest(positions, position) <==> {
            &&& positions.count(position) > 0
            &&& forall|other: GlobalPosition| #[trigger]
                positions.count(other) > 0 ==> other.0 <= position.0
        },
{
    if forall|other: GlobalPosition| #[trigger]
        positions.count(other) > 0 ==> other.0 <= position.0 {
        assert forall|other: GlobalPosition| positions.contains(other) implies other.0
            <= position.0 by {
            assert(positions.count(other) > 0);
        }
    }
    if is_highest(positions, position) {
        assert forall|other: GlobalPosition| #[trigger] positions.count(other) > 0 implies other.0
            <= position.0 by {
            assert(positions.contains(other));
        }
    }
}

/// To leave a position out takes all its copies, and no other position.
pub proof fn lemma_without_position(
    positions: Multiset<GlobalPosition>,
    position: GlobalPosition,
    other: GlobalPosition,
)
    ensures
        without(positions, position).count(other) == if other == position {
            0
        } else {
            positions.count(other)
        },
{
}

/// The steps of a walk lead from a commit to its parents below it, and where they
/// stop at a generation, only from commits above this generation.
pub proof fn lemma_falling_steps(
    graph: Graph,
    floor: u32,
    child: GlobalPosition,
    parent: GlobalPosition,
)
    ensures
        falling(graph)(child, parent) <==> {
            &&& graph.dom().contains(child)
            &&& graph[child].parent_positions.contains(parent)
            &&& parent.0 < child.0
        },
        falling_above(graph, floor)(child, parent) <==> {
            &&& graph.dom().contains(child)
            &&& graph[child].parent_positions.contains(parent)
            &&& parent.0 < child.0
            &&& graph[child].generation_number > floor
        },
{
}

/// All parents of a commit are below it if each one in its list is.
pub proof fn lemma_parents_below(graph: Graph, child: GlobalPosition)
    ensures
        parents_below(graph, child) <==> {
            &&& graph.dom().contains(child)
            &&& forall|i: int|
                0 <= i < graph[child].parent_positions.len() ==> (
                #[trigger] graph[child].parent_positions[i]).0 < child.0
        },
{
    let parents = graph[child].parent_positions;
    if parents_below(graph, child) {
        assert forall|i: int| 0 <= i < parents.len() implies (#[trigger] parents[i]).0
            < child.0 by {
            assert(parents.contains(parents[i]));
            assert(has_parent(graph, child, parents[i]));
        }
    }
}

/// A shift takes all copies of the highest position, which is not below the target,
/// and adds each of its parents, which are below it, as often as it is listed.
pub proof fn lemma_shift_counts(
    graph: Graph,
    target: GlobalPosition,
    before: Multiset<GlobalPosition>,
    after: Multiset<GlobalPosition>,
) -> (position: GlobalPosition)
    requires
        is_shift(graph, target, before, after),
    ensures
        before.count(position) > 0,
        forall|other: GlobalPosition| #[trigger]
            before.count(other) > 0 ==> other.0 <= position.0,
        position.0 >= target.0,
        graph.dom().contains(position),
        forall|i: int|
            0 <= i < graph[position].parent_positions.len() ==> (
            #[trigger] graph[position].parent_positions[i]).0 < position.0,
        after.count(position) == 0,
        forall|other: GlobalPosition|
            other != position ==> #[trigger] after.count(other) == before.count(other)
                + graph[position].parent_positions.to_multiset().count(other),
{
    let position = choose|position: GlobalPosition|
        {
            &&& #[trigger] is_highest(before, position)
            &&& position.0 >= target.0
            &&& parents_below(graph, position)
            &&& after == without(before, position).add(
                graph[position].parent_positions.to_multiset(),
            )
        };
    lemma_highest_position(before, position);
    lemma_parents_below(graph, position);
    let parents = graph[position].parent_positions;
    if parents.to_multiset().count(position) > 0 {
        assert(parents.contains(position));
        let i = parents.index_of(position);
        assert(parents[i].0 < position.0);
    }
    position
}

/// Whatever changes the frontier in this way is a shift.
pub proof fn lemma_counts_shift(
    graph: Graph,
    target: GlobalPosition,
    before: Multiset<GlobalPosition>,
    after: Multiset<GlobalPosition>,
    position: GlobalPosition,
)
    requires
        before.count(position) > 0,
        forall|other: GlobalPosition| #[trigger]
            before.count(other) > 0 ==> other.0 <= position.0,
        position.0 >= target.0,
        graph.dom().contains(position),
        forall|i: int|
            0 <= i < graph[position].parent_positions.len() ==> (
            #[trigger] graph[position].parent_positions[i]).0 < position.0,
        after.count(position) == 0,
        forall|other: GlobalPosition|
            other != position ==> #[trigger] after.count(other) == before.count(other)
                + graph[position].parent_positions.to_multiset().count(other),
    ensures
        is_shift(graph, target, before, after),
{
    lemma_highest_position(before, position);
    lemma_parents_below(graph, position);
    let parents = graph[position].parent_positions;
    if parents.to_multiset().count(position) > 0 {
        assert(parents.contains(position));
        let i = parents.index_of(position);
        assert(parents[i].0 < position.0);
    }
    assert(after =~= without(before, position).add(parents.to_multiset()));
}

/// Shifts lead from one frontier to another over frontiers of which each is one
/// shift from the one before.
pub proof fn lemma_shifts_have_steps(
    graph: Graph,
    target: GlobalPosition,
    before: Multiset<GlobalPosition>,
    after: Multiset<GlobalPosition>,
) -> (states: Seq<Multiset<GlobalPosition>>)
    requires
        shifts(graph, target, before, after),
    ensures
        states.len() > 0,
        states[0] == before,
        states.last() == after,
        forall|i: int|
            0 <= i < states.len() - 1 ==> is_shift(
                graph,
                target,
                #[trigger] states[i],
                states[i + 1],
            ),
{
    let n = choose|n: nat| shifts_in(graph, target, before, after, n);
    lemma_counted_shifts_have_steps(graph, target, before, after, n)
}

/// A number of shifts leads over as many frontiers.
proof fn lemma_counted_shifts_have_steps(
    graph: Graph,
    target: GlobalPosition,
    before: Multiset<GlobalPosition>,
    after: Multiset<GlobalPosition>,
    n: nat,
) -> (states: Seq<Multiset<GlobalPosition>>)
    requires
        shifts_in(graph, target, before, after, n),
    ensures
        states.len() == n + 1,
        states[0] == before,
        states.last() == after,
        forall|i: int|
            0 <= i < states.len() - 1 ==> is_shift(
                graph,
                target,
                #[trigger] states[i],
                states[i + 1],
            ),
    decreases n,
{
    if n == 0 {
        seq![before]
    } else {
        let between = choose|between: Multiset<GlobalPosition>| #[trigger]
            is_shift(graph, target, between, after) && shifts_in(
                graph,
                target,
                before,
                between,
                (n - 1) as nat,
            );
        let start = lemma_counted_shifts_have_steps(
            graph,
            target,
            before,
            between,
            (n - 1) as nat,
        );
        let states = start.push(after);
        assert forall|i: int| 0 <= i < states.len() - 1 implies is_shift(
            graph,
            target,
            #[trigger] states[i],
            states[i + 1],
        ) by {
            assert(states[i] == start[i]);
            if i < start.len() - 1 {
                assert(states[i + 1] == start[i + 1]);
            }
        }
        states
    }
}

/// Frontiers of which each is one shift from the one before lead from the first to
/// the last.
pub proof fn lemma_steps_shift(
    graph: Graph,
    target: GlobalPosition,
    states: Seq<Multiset<GlobalPosition>>,
)
    requires
        states.len() > 0,
        forall|i: int|
            0 <= i < states.len() - 1 ==> is_shift(
                graph,
                target,
                #[trigger] states[i],
                states[i + 1],
            ),
    ensures
        shifts(graph, target, states[0], states.last()),
{
    lemma_steps_are_counted(graph, target, states);
}

/// As many shifts lead from the first frontier to the last as there are steps.
proof fn lemma_steps_are_counted(
    graph: Graph,
    target: GlobalPosition,
    states: Seq<Multiset<GlobalPosition>>,
)
    requires
        states.len() > 0,
        forall|i: int|
            0 <= i < states.len() - 1 ==> is_shift(
                graph,
                target,
                #[trigger] states[i],
                states[i + 1],
            ),
    ensures
        shifts_in(graph, target, states[0], states.last(), (states.len() - 1) as nat),
    decreases states.len(),
{
    if states.len() > 1 {
        let start = states.drop_last();
        assert forall|i: int| 0 <= i < start.len() - 1 implies is_shift(
            graph,
            target,
            #[trigger] start[i],
            start[i + 1],
        ) by {
            assert(is_shift(graph, target, states[i], states[i + 1]));
        }
        lemma_steps_are_counted(graph, target, start);
        let last = states.len() - 2;
        assert(is_shift(graph, target, states[last], states[last + 1]));
        assert(start.last() == states[last]);
    }
}

/// A shift which stops reports the first parent which is not below the position. If
/// it is the first of all, the frontier is as it was; else all copies of the
/// position have given way to the parents listed before it.
pub proof fn lemma_stopped_shift(
    before: Multiset<GlobalPosition>,
    after: Multiset<GlobalPosition>,
    position: GlobalPosition,
    parents: Seq<GlobalPosition>,
    error: IndexError,
) -> (i: int)
    requires
        stops_at_invalid(before, after, position, parents, error),
    ensures
        0 <= i < parents.len(),
        parents[i].0 >= position.0,
        forall|j: int| 0 <= j < i ==> (#[trigger] parents[j]).0 < position.0,
        error == (IndexError::InvalidParentPosition { parent: parents[i], child: position }),
        i == 0 ==> after == before,
        i > 0 ==> forall|other: GlobalPosition| #[trigger]
            after.count(other) == (if other == position {
                0
            } else {
                before.count(other)
            }) + parents.take(i).to_multiset().count(other),
{
    choose|i: int|
        {
            &&& #[trigger] is_first_invalid(parents, position, i)
            &&& error == (IndexError::InvalidParentPosition {
                parent: parents[i],
                child: position,
            })
            &&& after == if i == 0 {
                before
            } else {
                without(before, position).add(parents.take(i).to_multiset())
            }
        }
}

/// Where a walk fails, shifts lead to a frontier whose highest position, not below
/// the target, has an entry which cannot be read, and the frontier stays as it is;
/// or it has a parent which is not below it, at which the shift stops.
pub proof fn lemma_failed_shifts(
    model: IndexModel,
    target: GlobalPosition,
    before: Multiset<GlobalPosition>,
    after: Multiset<GlobalPosition>,
    error: IndexError,
) -> (result: (Multiset<GlobalPosition>, GlobalPosition))
    requires
        shifts_fail(model, target, before, after, error),
    ensures
        shifts(model.graph, target, before, result.0),
        result.0.count(result.1) > 0,
        forall|other: GlobalPosition| #[trigger]
            result.0.count(other) > 0 ==> other.0 <= result.1.0,
        result.1.0 >= target.0,
        ({
            ||| (model.faults)(Lookup::Entry(result.1), error) && after == result.0
            ||| model.graph.dom().contains(result.1) && stops_at_invalid(
                result.0,
                after,
                result.1,
                model.graph[result.1].parent_positions,
                error,
            )
        }),
{
    let (between, position) = choose|between: Multiset<GlobalPosition>, position: GlobalPosition|
        {
            &&& #[trigger] is_highest(between, position)
            &&& position.0 >= target.0
            &&& shifts(model.graph, target, before, between)
            &&& shift_fails(model, between, after, position, error)
        };
    lemma_highest_position(between, position);
    (between, position)
}

} // verus!
