//! Steps of a walk over the graph, from high positions to low ones.
//!
//! The frontier of a walk is a heap. A step replaces the highest position of
//! the frontier by the parents of its entry, which have to be lower.
use vstd::multiset::Multiset;
use vstd::prelude::*;

use crate::error::{IndexError, IndexResult};
use crate::graph::{
    has_parent, is_expansion, leads_down, lemma_expand, lemma_reached_down, lemma_reached_start,
    reached, Graph, Step,
};
use crate::heap::{is_highest, lemma_rank, lemma_rank_below, rank, PositionHeap};
use crate::position::GlobalPosition;
use crate::position_index::{IndexGraphEntry, IndexModel, Lookup, PositionIndex};
use crate::queue::{dedup_pop, dedup_replace, without};

verus! {

broadcast use {vstd::multiset::group_multiset_axioms, vstd::seq_lib::group_to_multiset_ensures};

/// The steps from a commit to those of its parents which are below it.
pub open spec fn falling(graph: Graph) -> Step {
    |child: GlobalPosition, parent: GlobalPosition|
        has_parent(graph, child, parent) && parent.0 < child.0
}

/// The steps from a commit whose generation is above `floor` to those of its
/// parents which are below it.
pub open spec fn falling_above(graph: Graph, floor: u32) -> Step {
    |child: GlobalPosition, parent: GlobalPosition|
        {
            &&& has_parent(graph, child, parent)
            &&& parent.0 < child.0
            &&& graph[child].generation_number > floor
        }
}

/// There is an entry at `child`, and all its parents are below it.
pub open spec fn parents_below(graph: Graph, child: GlobalPosition) -> bool {
    &&& graph.dom().contains(child)
    &&& forall|parent: GlobalPosition| #[trigger]
        has_parent(graph, child, parent) ==> parent.0 < child.0
}

/// The first of `parents` which is not below `child` is the one at `i`.
pub open spec fn is_first_invalid(
    parents: Seq<GlobalPosition>,
    child: GlobalPosition,
    i: int,
) -> bool {
    &&& 0 <= i < parents.len()
    &&& parents[i].0 >= child.0
    &&& forall|j: int| 0 <= j < i ==> (#[trigger] parents[j]).0 < child.0
}

/// `error` reports the first of `parents` which is not below `child`.
pub open spec fn reports_first_invalid(
    parents: Seq<GlobalPosition>,
    child: GlobalPosition,
    error: IndexError,
) -> bool {
    exists|i: int| #[trigger]
        is_first_invalid(parents, child, i) && error == (IndexError::InvalidParentPosition {
            parent: parents[i],
            child,
        })
}

/// `error` reports the first of `parents` which is not below `position`. If it is
/// the first of all, the queue is as it was; otherwise the parents before it have
/// taken the place of `position`.
pub open spec fn stops_at_invalid(
    before: Multiset<GlobalPosition>,
    after: Multiset<GlobalPosition>,
    position: GlobalPosition,
    parents: Seq<GlobalPosition>,
    error: IndexError,
) -> bool {
    exists|i: int|
        {
            &&& #[trigger] is_first_invalid(parents, position, i)
            &&& error == (IndexError::InvalidParentPosition {
                parent: parents[i],
                child: position,
            })
            &&& after == if i == 0 {
                before
            } else {
                without(before, position).add(parents.take(i).to_multiset())
            }
        }
}

/// `error` reports the first parent of the entry at `child` which is not below
/// it.
pub open spec fn reports_invalid_parent(
    graph: Graph,
    child: GlobalPosition,
    error: IndexError,
) -> bool {
    graph.dom().contains(child) && reports_first_invalid(
        graph[child].parent_positions,
        child,
        error,
    )
}

/// Accepts `parent` if it is below `child`.
pub(crate) fn validate_parent_position(parent: GlobalPosition, child: GlobalPosition) -> (result:
    IndexResult<()>)
    ensures
        match result {
            Ok(()) => parent.0 < child.0,
            Err(error) => {
                &&& parent.0 >= child.0
                &&& error == (IndexError::InvalidParentPosition { parent, child })
            },
        },
{
    if parent.0 < child.0 {
        Ok(())
    } else {
        Err(IndexError::InvalidParentPosition { parent, child })
    }
}

/// Replaces every copy of `position`, the highest of the queue, by
/// `parent_positions`.
///
/// If a parent is not below `position`, the parents before it have been added
/// already.
pub(crate) fn shift_to_parents_from_slice(
    queue: &mut PositionHeap,
    position: GlobalPosition,
    parent_positions: &[GlobalPosition],
) -> (result: IndexResult<()>)
    requires
        old(queue).wf(),
        is_highest(old(queue)@, position),
    ensures
        final(queue).wf(),
        match result {
            Ok(()) => {
                &&& forall|i: int|
                    0 <= i < parent_positions@.len() ==> (#[trigger] parent_positions@[i]).0
                        < position.0
                &&& final(queue)@ == without(old(queue)@, position).add(
                    parent_positions@.to_multiset(),
                )
            },
            Err(error) => stops_at_invalid(
                old(queue)@,
                final(queue)@,
                position,
                parent_positions@,
                error,
            ),
        },
{
    if parent_positions.len() == 0 {
        let _ = dedup_pop(queue);
        proof {
            assert(queue@ =~= without(old(queue)@, position).add(
                parent_positions@.to_multiset(),
            )) by {
                assert(parent_positions@.to_multiset().len() == 0);
            }
        }
        return Ok(());
    }
    let parent = parent_positions[0];
    if let Err(error) = validate_parent_position(parent, position) {
        assert(is_first_invalid(parent_positions@, position, 0));
        return Err(error);
    }
    let _ = dedup_replace(queue, parent);
    let ghost rest = without(old(queue)@, position);
    let mut i: usize = 1;
    proof {
        assert(parent_positions@.take(1) =~= Seq::<GlobalPosition>::empty().push(parent));
        assert(Seq::<GlobalPosition>::empty().to_multiset().len() == 0);
        assert(queue@ =~= rest.add(parent_positions@.take(1).to_multiset()));
    }
    while i < parent_positions.len()
        invariant
            1 <= i <= parent_positions@.len(),
            queue.wf(),
            forall|j: int| 0 <= j < i ==> (#[trigger] parent_positions@[j]).0 < position.0,
            queue@ == rest.add(parent_positions@.take(i as int).to_multiset()),
            rest == without(old(queue)@, position),
        decreases parent_positions@.len() - i,
    {
        let parent = parent_positions[i];
        if let Err(error) = validate_parent_position(parent, position) {
            assert(is_first_invalid(parent_positions@, position, i as int));
            return Err(error);
        }
        queue.push(parent);
        proof {
            assert(parent_positions@.take(i + 1) =~= parent_positions@.take(i as int).push(parent));
            assert(queue@ =~= rest.add(parent_positions@.take(i + 1).to_multiset()));
        }
        i += 1;
    }
    assert(parent_positions@.take(i as int) =~= parent_positions@);
    Ok(())
}

/// Replaces every copy of `position`, the highest of the queue, by the parents
/// of its entry.
pub(crate) fn shift_to_parents_with_entry(
    queue: &mut PositionHeap,
    position: GlobalPosition,
    entry: &IndexGraphEntry,
) -> (result: IndexResult<()>)
    requires
        old(queue).wf(),
        is_highest(old(queue)@, position),
    ensures
        final(queue).wf(),
        match result {
            Ok(()) => {
                &&& forall|i: int|
                    0 <= i < entry@.parent_positions.len() ==> (
                    #[trigger] entry@.parent_positions[i]).0 < position.0
                &&& final(queue)@ == without(old(queue)@, position).add(
                    entry@.parent_positions.to_multiset(),
                )
            },
            Err(error) => stops_at_invalid(
                old(queue)@,
                final(queue)@,
                position,
                entry@.parent_positions,
                error,
            ),
        },
{
    shift_to_parents_from_slice(queue, position, entry.parent_positions.as_slice())
}

/// `error` is a failure to read the entry at `position`, or reports a parent of
/// that entry which is not below it.
pub open spec fn fails_at(model: IndexModel, position: GlobalPosition, error: IndexError) -> bool {
    ||| (model.faults)(Lookup::Entry(position), error)
    ||| reports_invalid_parent(model.graph, position, error)
}

/// `error` is a failure to read the entry at `position`, and the queue is as it
/// was; or it reports a parent of that entry which is not below it.
pub open spec fn shift_fails(
    model: IndexModel,
    before: Multiset<GlobalPosition>,
    after: Multiset<GlobalPosition>,
    position: GlobalPosition,
    error: IndexError,
) -> bool {
    ||| {
        &&& (model.faults)(Lookup::Entry(position), error)
        &&& after == before
    }
    ||| {
        &&& model.graph.dom().contains(position)
        &&& stops_at_invalid(
            before,
            after,
            position,
            model.graph[position].parent_positions,
            error,
        )
    }
}

/// Replaces every copy of `position`, the highest of the queue, by the parents
/// of its entry in the index.
pub(crate) fn shift_to_parents<T: PositionIndex + ?Sized>(
    queue: &mut PositionHeap,
    position: GlobalPosition,
    index: &T,
) -> (result: IndexResult<()>)
    requires
        old(queue).wf(),
        is_highest(old(queue)@, position),
    ensures
        final(queue).wf(),
        match result {
            Ok(()) => {
                &&& parents_below(index.model().graph, position)
                &&& final(queue)@ == without(old(queue)@, position).add(
                    index.model().graph[position].parent_positions.to_multiset(),
                )
                &&& is_expansion(
                    falling(index.model().graph),
                    old(queue)@.dom(),
                    final(queue)@.dom(),
                    position,
                )
            },
            Err(error) => {
                &&& shift_fails(
                    index.model(),
                    old(queue)@,
                    final(queue)@,
                    position,
                    error,
                )
                &&& fails_at(index.model(), position, error)
            },
        },
{
    let entry = index.entry_by_position(position)?;
    shift_to_parents_with_entry(queue, position, &entry)?;
    proof {
        lemma_shifted(index.model().graph, old(queue)@, queue@, position);
    }
    Ok(())
}

/// Shifting a position to its parents expands it.
proof fn lemma_shifted(
    graph: Graph,
    before: Multiset<GlobalPosition>,
    after: Multiset<GlobalPosition>,
    position: GlobalPosition,
)
    requires
        graph.dom().contains(position),
        before.contains(position),
        forall|i: int|
            0 <= i < graph[position].parent_positions.len() ==> (
            #[trigger] graph[position].parent_positions[i]).0 < position.0,
        after == without(before, position).add(graph[position].parent_positions.to_multiset()),
    ensures
        parents_below(graph, position),
        is_expansion(falling(graph), before.dom(), after.dom(), position),
{
    let parents = graph[position].parent_positions;
    assert forall|x: GlobalPosition| #[trigger] after.dom().contains(x) <==> (
    before.dom().contains(x) && x != position) || falling(graph)(position, x) by {
        assert(parents.contains(x) <==> parents.to_multiset().count(x) > 0);
    }
}

/// `error` comes from the entry at `position`, on the walk from `starts`, and
/// nothing is wrong with the entries above it.
pub open spec fn fails_first_at(
    model: IndexModel,
    starts: Set<GlobalPosition>,
    position: GlobalPosition,
    error: IndexError,
) -> bool {
    &&& reached(falling(model.graph), starts, position)
    &&& forall|x: GlobalPosition| #[trigger]
        reached(falling(model.graph), starts, x) && x.0 > position.0 ==> parents_below(
            model.graph,
            x,
        )
    &&& fails_at(model, position, error)
}

/// The highest position of `before`, which is not below `target`, is replaced by
/// its parents.
pub open spec fn is_shift(
    graph: Graph,
    target: GlobalPosition,
    before: Multiset<GlobalPosition>,
    after: Multiset<GlobalPosition>,
) -> bool {
    exists|position: GlobalPosition|
        {
            &&& #[trigger] is_highest(before, position)
            &&& position.0 >= target.0
            &&& parents_below(graph, position)
            &&& after == without(before, position).add(
                graph[position].parent_positions.to_multiset(),
            )
        }
}

/// `n` shifts lead from `before` to `after`.
pub open spec fn shifts_in(
    graph: Graph,
    target: GlobalPosition,
    before: Multiset<GlobalPosition>,
    after: Multiset<GlobalPosition>,
    n: nat,
) -> bool
    decreases n,
{
    if n == 0 {
        after == before
    } else {
        exists|between: Multiset<GlobalPosition>| #[trigger]
            is_shift(graph, target, between, after) && shifts_in(
                graph,
                target,
                before,
                between,
                (n - 1) as nat,
            )
    }
}

/// Shifts lead from `before` to `after`.
pub open spec fn shifts(
    graph: Graph,
    target: GlobalPosition,
    before: Multiset<GlobalPosition>,
    after: Multiset<GlobalPosition>,
) -> bool {
    exists|n: nat| shifts_in(graph, target, before, after, n)
}

/// Shifts lead from `before` to where the next one, of a position which is not
/// below `target`, fails with `error` and leaves `after`.
pub open spec fn shifts_fail(
    model: IndexModel,
    target: GlobalPosition,
    before: Multiset<GlobalPosition>,
    after: Multiset<GlobalPosition>,
    error: IndexError,
) -> bool {
    exists|between: Multiset<GlobalPosition>, position: GlobalPosition|
        {
            &&& #[trigger] is_highest(between, position)
            &&& position.0 >= target.0
            &&& shifts(model.graph, target, before, between)
            &&& shift_fails(model, between, after, position, error)
        }
}

/// Walks down from the queue to `target`, and returns whether it is reached.
/// What remains in the queue is below `target`.
pub(crate) fn shift_to_parents_until<T: PositionIndex + ?Sized>(
    queue: &mut PositionHeap,
    index: &T,
    target: GlobalPosition,
) -> (result: IndexResult<bool>)
    requires
        old(queue).wf(),
    ensures
        final(queue).wf(),
        match result {
            Ok(found) => {
                let step = falling(index.model().graph);
                let before = old(queue)@.dom();
                let after = final(queue)@.dom();
                &&& shifts(index.model().graph, target, old(queue)@, final(queue)@)
                &&& (forall|x: GlobalPosition| #[trigger]
                    old(queue)@.contains(x) ==> x.0 < target.0) ==> final(queue)@ == old(queue)@
                &&& found == reached(step, before, target)
                &&& forall|x: GlobalPosition| #[trigger] after.contains(x) ==> x.0 < target.0
                &&& forall|x: GlobalPosition|
                    x.0 < target.0 ==> (#[trigger] reached(step, after, x) <==> reached(
                        step,
                        before,
                        x,
                    ))
                &&& forall|x: GlobalPosition| #[trigger]
                    reached(step, before, x) && x.0 >= target.0 ==> parents_below(
                        index.model().graph,
                        x,
                    )
            },
            Err(error) => {
                &&& shifts_fail(index.model(), target, old(queue)@, final(queue)@, error)
                &&& exists|x: GlobalPosition|
                    x.0 >= target.0 && #[trigger] fails_first_at(
                        index.model(),
                        old(queue)@.dom(),
                        x,
                        error,
                    )
            },
        },
{
    let ghost step = falling(index.model().graph);
    let ghost before = queue@.dom();
    assert(shifts_in(index.model().graph, target, queue@, queue@, 0));
    loop
        invariant
            queue.wf(),
            step == falling(index.model().graph),
            before == old(queue)@.dom(),
            shifts(index.model().graph, target, old(queue)@, queue@),
            (forall|x: GlobalPosition| #[trigger] old(queue)@.contains(x) ==> x.0 < target.0)
                ==> queue@ == old(queue)@,
            forall|x: GlobalPosition| #[trigger]
                reached(step, queue@.dom(), x) ==> reached(step, before, x),
            forall|x: GlobalPosition| #[trigger]
                reached(step, before, x) ==> reached(step, queue@.dom(), x) || x.0 > target.0
                    && parents_below(index.model().graph, x),
        ensures
            forall|x: GlobalPosition| #[trigger] queue@.dom().contains(x) ==> x.0 < target.0,
        decreases rank(queue@),
    {
        let ghost waiting = queue@;
        let position = match queue.peek() {
            Some(position) => position,
            None => {
                break;
            },
        };
        assert forall|x: GlobalPosition| #[trigger] queue@.dom().contains(x) implies x.0
            <= position.0 by {
            assert(queue@.contains(x));
        }
        if position.0 < target.0 {
            break;
        }
        proof {
            lemma_reached_start(step, waiting.dom(), position);
        }
        if let Err(error) = shift_to_parents(queue, position, index) {
            proof {
                assert forall|x: GlobalPosition| #[trigger] reached(step, before, x) && x.0
                    > position.0 implies parents_below(index.model().graph, x) by {
                    if reached(step, waiting.dom(), x) {
                        lemma_reached_down(step, waiting.dom(), x);
                    }
                }
                assert(fails_first_at(index.model(), before, position, error));
            }
            return Err(error);
        }
        proof {
            assert(is_shift(index.model().graph, target, waiting, queue@));
            let n = choose|n: nat|
                shifts_in(index.model().graph, target, old(queue)@, waiting, n);
            assert(shifts_in(index.model().graph, target, old(queue)@, queue@, n + 1));
            lemma_expand(step, waiting.dom(), queue@.dom(), position);
            lemma_expansion_sinks(step, waiting, queue@, position);
        }
        if position.0 == target.0 {
            proof {
                assert(position == target);
                assert forall|x: GlobalPosition| #[trigger] reached(step, before, x) && x.0
                    >= target.0 implies parents_below(index.model().graph, x) by {
                    if reached(step, waiting.dom(), x) {
                        lemma_reached_down(step, waiting.dom(), x);
                        assert(x == target);
                    }
                }
            }
            return Ok(true);
        }
    }
    proof {
        assert forall|x: GlobalPosition| #[trigger] reached(step, queue@.dom(), x) implies x.0
            < target.0 by {
            lemma_reached_down(step, queue@.dom(), x);
        }
    }
    Ok(false)
}

/// Replacing the highest position by lower ones lowers the rank.
pub(crate) proof fn lemma_expansion_sinks(
    step: Step,
    before: Multiset<GlobalPosition>,
    after: Multiset<GlobalPosition>,
    position: GlobalPosition,
)
    requires
        leads_down(step),
        is_highest(before, position),
        is_expansion(step, before.dom(), after.dom(), position),
    ensures
        rank(after) < rank(before),
        forall|x: GlobalPosition| #[trigger] after.dom().contains(x) ==> x.0 < position.0,
{
    assert forall|x: GlobalPosition| #[trigger] after.dom().contains(x) implies x.0 < position.0 by {
        if before.dom().contains(x) && x != position {
            assert(before.contains(x));
        }
    }
    assert forall|x: GlobalPosition| #[trigger] after.contains(x) implies x.0 < position.0 by {
        assert(after.dom().contains(x));
    }
    lemma_rank(before, position);
    lemma_rank_below(after, position);
}

} // verus!
