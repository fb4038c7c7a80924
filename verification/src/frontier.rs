//! Frontiers of walks which lead down.
use vstd::prelude::*;

use crate::graph::{
    connected, is_expansion, leads_down, lemma_connected_down, lemma_connected_first,
    lemma_connected_prepend, lemma_connected_self, lemma_reached_down, lemma_reached_start,
    lemma_reached_step, reached, Step,
};
use crate::position::GlobalPosition;

verus! {

/// The state of a walk from `starts`: everything from `bound` on is done, and
/// the walk goes on from `queue`.
pub open spec fn is_frontier(
    step: Step,
    starts: Set<GlobalPosition>,
    bound: int,
    queue: Set<GlobalPosition>,
) -> bool {
    &&& forall|q: GlobalPosition| #[trigger] queue.contains(q) ==> q.0 < bound
    &&& forall|q: GlobalPosition| #[trigger]
        queue.contains(q) ==> starts.contains(q) || exists|y: GlobalPosition|
            y.0 >= bound && reached(step, starts, y) && #[trigger] step(y, q)
    &&& forall|s: GlobalPosition| #[trigger]
        starts.contains(s) ==> s.0 >= bound || queue.contains(s)
    &&& forall|y: GlobalPosition, z: GlobalPosition|
        y.0 >= bound && reached(step, starts, y) && #[trigger] step(y, z) ==> z.0 >= bound
            || queue.contains(z)
}

/// The walk has not begun.
pub proof fn lemma_frontier_starts(
    step: Step,
    starts: Set<GlobalPosition>,
    queue: Set<GlobalPosition>,
)
    requires
        forall|x: GlobalPosition| #[trigger] queue.contains(x) <==> starts.contains(x),
    ensures
        is_frontier(step, starts, u32::MAX + 1, queue),
{
}

/// What is reached below what is done is reached from the queue.
pub proof fn lemma_frontier_ahead(
    step: Step,
    starts: Set<GlobalPosition>,
    bound: int,
    queue: Set<GlobalPosition>,
    x: GlobalPosition,
)
    requires
        leads_down(step),
        is_frontier(step, starts, bound, queue),
        reached(step, starts, x),
        x.0 < bound,
    ensures
        reached(step, queue, x),
        exists|q: GlobalPosition| #[trigger] queue.contains(q) && x.0 <= q.0,
{
    let from = choose|from: GlobalPosition|
        starts.contains(from) && #[trigger] connected(step, from, x);
    if from.0 >= bound {
        lemma_reached_start(step, starts, from);
        lemma_frontier_ahead_from(step, starts, bound, queue, from, x);
    } else {
        assert(queue.contains(from));
    }
    lemma_reached_down(step, queue, x);
}

proof fn lemma_frontier_ahead_from(
    step: Step,
    starts: Set<GlobalPosition>,
    bound: int,
    queue: Set<GlobalPosition>,
    from: GlobalPosition,
    x: GlobalPosition,
)
    requires
        leads_down(step),
        is_frontier(step, starts, bound, queue),
        reached(step, starts, from),
        from.0 >= bound,
        connected(step, from, x),
        x.0 < bound,
    ensures
        reached(step, queue, x),
    decreases from.0,
{
    let z = lemma_connected_first(step, from, x);
    if z.0 >= bound {
        lemma_reached_step(step, starts, from, z);
        lemma_frontier_ahead_from(step, starts, bound, queue, z, x);
    } else {
        assert(queue.contains(z));
    }
}

/// Everything in the queue is reached.
pub proof fn lemma_frontier_reached(
    step: Step,
    starts: Set<GlobalPosition>,
    bound: int,
    queue: Set<GlobalPosition>,
    q: GlobalPosition,
)
    requires
        is_frontier(step, starts, bound, queue),
        queue.contains(q),
    ensures
        reached(step, starts, q),
{
    if starts.contains(q) {
        lemma_reached_start(step, starts, q);
    } else {
        let y = choose|y: GlobalPosition|
            y.0 >= bound && reached(step, starts, y) && #[trigger] step(y, q);
        lemma_reached_step(step, starts, y, q);
    }
}

/// What is reached depends only on the steps from above it.
pub proof fn lemma_reached_agree(
    step: Step,
    other: Step,
    starts: Set<GlobalPosition>,
    x: GlobalPosition,
)
    requires
        leads_down(step),
        forall|y: GlobalPosition, z: GlobalPosition|
            y.0 > x.0 && #[trigger] step(y, z) ==> other(y, z),
        reached(step, starts, x),
    ensures
        reached(other, starts, x),
{
    let from = choose|from: GlobalPosition|
        starts.contains(from) && #[trigger] connected(step, from, x);
    lemma_connected_agree(step, other, from, x);
}

proof fn lemma_connected_agree(step: Step, other: Step, from: GlobalPosition, x: GlobalPosition)
    requires
        leads_down(step),
        forall|y: GlobalPosition, z: GlobalPosition|
            y.0 > x.0 && #[trigger] step(y, z) ==> other(y, z),
        connected(step, from, x),
    ensures
        connected(other, from, x),
    decreases from.0,
{
    if from == x {
        lemma_connected_self(other, x);
    } else {
        let z = lemma_connected_first(step, from, x);
        lemma_connected_down(step, z, x);
        lemma_connected_agree(step, other, z, x);
        lemma_connected_prepend(other, from, z, x);
    }
}

/// The walk waits while something higher is done.
pub proof fn lemma_frontier_waits(
    step: Step,
    starts: Set<GlobalPosition>,
    bound: int,
    queue: Set<GlobalPosition>,
    position: GlobalPosition,
)
    requires
        leads_down(step),
        is_frontier(step, starts, bound, queue),
        position.0 < bound,
        forall|q: GlobalPosition| #[trigger] queue.contains(q) ==> q.0 < position.0,
    ensures
        is_frontier(step, starts, position.0 as int, queue),
        forall|x: GlobalPosition|
            position.0 <= x.0 && x.0 < bound ==> !#[trigger] reached(step, starts, x),
{
    assert forall|x: GlobalPosition| position.0 <= x.0 && x.0 < bound implies !#[trigger] reached(
        step,
        starts,
        x,
    ) by {
        if reached(step, starts, x) {
            lemma_frontier_ahead(step, starts, bound, queue, x);
        }
    }
    assert forall|q: GlobalPosition| #[trigger] queue.contains(q) implies starts.contains(q)
        || exists|y: GlobalPosition|
        y.0 >= position.0 && reached(step, starts, y) && #[trigger] step(y, q) by {
        if !starts.contains(q) {
            let y = choose|y: GlobalPosition|
                y.0 >= bound && reached(step, starts, y) && #[trigger] step(y, q);
            assert(y.0 >= position.0 && step(y, q));
        }
    }
}

/// The highest position of the queue is done. It is only now settled which steps
/// lead on from it: `next` differs from `step` at most there.
pub proof fn lemma_frontier_advances(
    step: Step,
    next: Step,
    starts: Set<GlobalPosition>,
    bound: int,
    before: Set<GlobalPosition>,
    after: Set<GlobalPosition>,
    position: GlobalPosition,
)
    requires
        leads_down(step),
        leads_down(next),
        is_frontier(step, starts, bound, before),
        is_expansion(next, before, after, position),
        forall|q: GlobalPosition| #[trigger] before.contains(q) ==> q.0 <= position.0,
        forall|y: GlobalPosition, z: GlobalPosition|
            y != position ==> (#[trigger] step(y, z) <==> next(y, z)),
        forall|y: GlobalPosition, z: GlobalPosition|
            y != position ==> (#[trigger] next(y, z) <==> step(y, z)),
    ensures
        is_frontier(next, starts, position.0 as int, after),
        position.0 < bound,
        reached(step, starts, position),
        forall|x: GlobalPosition|
            position.0 < x.0 && x.0 < bound ==> !#[trigger] reached(step, starts, x),
        forall|x: GlobalPosition|
            x.0 >= position.0 ==> (#[trigger] reached(next, starts, x) <==> reached(
                step,
                starts,
                x,
            )),
{
    assert(before.contains(position));
    lemma_frontier_reached(step, starts, bound, before, position);
    assert forall|x: GlobalPosition| position.0 < x.0 && x.0 < bound implies !#[trigger] reached(
        step,
        starts,
        x,
    ) by {
        if reached(step, starts, x) {
            lemma_frontier_ahead(step, starts, bound, before, x);
        }
    }
    assert forall|x: GlobalPosition| x.0 >= position.0 implies (#[trigger] reached(next, starts, x)
        <==> reached(step, starts, x)) by {
        if reached(step, starts, x) {
            lemma_reached_agree(step, next, starts, x);
        }
        if reached(next, starts, x) {
            lemma_reached_agree(next, step, starts, x);
        }
    }
    assert forall|q: GlobalPosition| #[trigger] after.contains(q) implies starts.contains(q)
        || exists|y: GlobalPosition|
        y.0 >= position.0 && reached(next, starts, y) && #[trigger] next(y, q) by {
        if next(position, q) {
            assert(reached(next, starts, position));
        } else {
            assert(before.contains(q));
            if !starts.contains(q) {
                let y = choose|y: GlobalPosition|
                    y.0 >= bound && reached(step, starts, y) && #[trigger] step(y, q);
                assert(reached(next, starts, y));
                assert(y.0 >= position.0 && next(y, q));
            }
        }
    }
    assert forall|y: GlobalPosition, z: GlobalPosition|
        y.0 >= position.0 && reached(next, starts, y) && #[trigger] next(y, z) implies z.0
        >= position.0 || after.contains(z) by {
        if y == position {
            assert(after.contains(z));
        } else {
            assert(reached(step, starts, y));
            assert(step(y, z));
            if z.0 < bound && z != position {
                assert(before.contains(z));
                assert(after.contains(z));
            }
        }
    }
    assert forall|q: GlobalPosition| #[trigger] after.contains(q) implies q.0 < position.0 by {
        if before.contains(q) && q != position {
        } else {
            assert(next(position, q));
        }
    }
    assert forall|s: GlobalPosition| #[trigger] starts.contains(s) implies s.0 >= position.0
        || after.contains(s) by {
        if s.0 < position.0 {
            assert(before.contains(s));
        }
    }
}

} // verus!
