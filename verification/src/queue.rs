//! Frontier operations which treat equal positions as one.
use vstd::multiset::Multiset;
use vstd::prelude::*;

use crate::heap::{is_highest, lemma_rank, lemma_rank_below, rank, PositionHeap};
use crate::position::GlobalPosition;

verus! {

broadcast use {vstd::multiset::group_multiset_axioms, vstd::seq_lib::group_to_multiset_ensures};

/// `positions` without any copy of `position`.
pub open spec fn without(
    positions: Multiset<GlobalPosition>,
    position: GlobalPosition,
) -> Multiset<GlobalPosition> {
    positions.filter(|other: GlobalPosition| other != position)
}

/// A highest position stays highest in whatever part of the positions holds it.
proof fn lemma_stays_highest(
    part: Multiset<GlobalPosition>,
    whole: Multiset<GlobalPosition>,
    item: GlobalPosition,
)
    requires
        is_highest(whole, item),
        part.contains(item),
        forall|other: GlobalPosition| other != item && #[trigger] part.count(other) > 0
            ==> other.0 <= item.0 || whole.count(other) > 0,
    ensures
        is_highest(part, item),
{
    assert forall|other: GlobalPosition| part.contains(other) implies other.0 <= item.0 by {
        assert(part.count(other) > 0);
        if other != item && !(other.0 <= item.0) {
            assert(whole.contains(other));
        }
    }
}

/// Takes every copy of the highest position.
pub(crate) fn dedup_pop(queue: &mut PositionHeap) -> (highest: Option<GlobalPosition>)
    requires
        old(queue).wf(),
    ensures
        final(queue).wf(),
        match highest {
            Some(position) => {
                &&& is_highest(old(queue)@, position)
                &&& final(queue)@ == without(old(queue)@, position)
            },
            None => {
                &&& old(queue)@ == Multiset::<GlobalPosition>::empty()
                &&& final(queue)@ == old(queue)@
            },
        },
{
    let item = match queue.pop() {
        Some(item) => item,
        None => {
            return None;
        },
    };
    let ghost popped = queue@;
    remove_dup(queue, item);
    proof {
        if popped.contains(item) {
            lemma_stays_highest(popped, old(queue)@, item);
        }
        assert(queue@ =~= without(old(queue)@, item));
    }
    Some(item)
}

/// Takes every copy of the highest position, and adds `new_item`.
///
/// If `new_item` is not lower than the highest position, the remaining copies
/// are out of order with it: an equal item is taken along with the copies, and
/// a higher one leaves the other copies in the queue.
pub(crate) fn dedup_replace(queue: &mut PositionHeap, new_item: GlobalPosition) -> (highest: Option<
    GlobalPosition,
>)
    requires
        old(queue).wf(),
    ensures
        final(queue).wf(),
        match highest {
            Some(position) => {
                &&& is_highest(old(queue)@, position)
                &&& final(queue)@ == if new_item.0 < position.0 {
                    without(old(queue)@, position).insert(new_item)
                } else if new_item == position {
                    without(old(queue)@, position)
                } else {
                    old(queue)@.remove(position).insert(new_item)
                }
            },
            None => {
                &&& old(queue)@ == Multiset::<GlobalPosition>::empty()
                &&& final(queue)@ == old(queue)@
            },
        },
{
    let old_item = match queue.replace_highest(new_item) {
        Some(old_item) => old_item,
        None => {
            return None;
        },
    };
    let ghost replaced = queue@;
    remove_dup(queue, old_item);
    proof {
        if new_item.0 < old_item.0 {
            if replaced.contains(old_item) {
                lemma_stays_highest(replaced, old(queue)@, old_item);
            }
            assert(queue@ =~= without(old(queue)@, old_item).insert(new_item));
        } else if new_item == old_item {
            lemma_stays_highest(replaced, old(queue)@, old_item);
            assert(queue@ =~= without(old(queue)@, old_item));
        } else {
            assert(replaced.contains(new_item));
        }
    }
    Some(old_item)
}

/// Takes every copy of `item` if it is the highest position.
fn remove_dup(queue: &mut PositionHeap, item: GlobalPosition)
    requires
        old(queue).wf(),
    ensures
        final(queue).wf(),
        final(queue)@ == if is_highest(old(queue)@, item) {
            without(old(queue)@, item)
        } else {
            old(queue)@
        },
{
    let ghost before = queue@;
    loop
        invariant_except_break
            queue.wf(),
            queue@ == before || is_highest(before, item),
            forall|other: GlobalPosition| other != item ==> queue@.count(other) == before.count(other),
        ensures
            queue.wf(),
            !is_highest(queue@, item),
            queue@ == before || is_highest(before, item),
            forall|other: GlobalPosition| other != item ==> queue@.count(other) == before.count(other),
        decreases queue@.len(),
    {
        match queue.peek() {
            Some(highest) if highest == item => {
                let _ = queue.pop();
            },
            _ => {
                break;
            },
        }
    }
    proof {
        if is_highest(before, item) {
            assert(!queue@.contains(item)) by {
                if queue@.contains(item) {
                    lemma_stays_highest(queue@, before, item);
                }
            }
            assert(queue@ =~= without(before, item));
        }
    }
}

/// The items of a heap are those it was made from.
pub proof fn lemma_items(positions: Seq<GlobalPosition>)
    ensures
        forall|x: GlobalPosition| #[trigger]
            positions.to_multiset().dom().contains(x) <==> positions.contains(x),
{
    assert forall|x: GlobalPosition| #[trigger] positions.to_multiset().dom().contains(x)
        <==> positions.contains(x) by {
        assert(positions.contains(x) <==> positions.to_multiset().count(x) > 0);
    }
}

/// The highest of some positions, in terms of their set.
pub proof fn lemma_highest_of_dom(positions: Multiset<GlobalPosition>, position: GlobalPosition)
    requires
        is_highest(positions, position),
    ensures
        positions.dom().contains(position),
        forall|q: GlobalPosition| #[trigger] positions.dom().contains(q) ==> q.0 <= position.0,
{
    assert forall|q: GlobalPosition| #[trigger] positions.dom().contains(q) implies q.0
        <= position.0 by {
        assert(positions.contains(q));
    }
}

/// Taking the highest position lowers the rank.
pub proof fn lemma_popped(
    before: Multiset<GlobalPosition>,
    after: Multiset<GlobalPosition>,
    position: GlobalPosition,
)
    requires
        is_highest(before, position),
        after == without(before, position),
    ensures
        rank(after) < rank(before),
        forall|q: GlobalPosition| #[trigger]
            after.dom().contains(q) <==> before.dom().contains(q) && q != position,
{
    assert forall|q: GlobalPosition| #[trigger] after.contains(q) implies q.0 < position.0 by {
        assert(before.contains(q));
    }
    lemma_rank(before, position);
    lemma_rank_below(after, position);
}

} // verus!
