//! A binary max-heap of positions.
//!
//! Graph walks keep their frontier in it and take the highest position first.
use vstd::multiset::Multiset;
use vstd::prelude::*;

use crate::position::GlobalPosition;

verus! {

broadcast use {vstd::multiset::group_multiset_axioms, vstd::seq_lib::group_to_multiset_ensures};

/// Every item is at most its parent in the heap layout.
spec fn heap_ordered(items: Seq<GlobalPosition>) -> bool {
    forall|j: int| 0 < j < items.len() ==> items[(j - 1) / 2].0 >= (#[trigger] items[j]).0
}

/// The heap order holds everywhere but between `hole` and its own parent.
spec fn ordered_above(items: Seq<GlobalPosition>, hole: int) -> bool {
    &&& forall|j: int|
        0 < j < items.len() && j != hole ==> items[(j - 1) / 2].0 >= (#[trigger] items[j]).0
    &&& forall|j: int|
        0 < j < items.len() && (j - 1) / 2 == hole && hole > 0 ==> items[(hole - 1) / 2].0
            >= (#[trigger] items[j]).0
}

/// The heap order holds everywhere but between `hole` and its children.
spec fn ordered_below(items: Seq<GlobalPosition>, hole: int) -> bool {
    &&& forall|j: int|
        0 < j < items.len() && (j - 1) / 2 != hole ==> items[(j - 1) / 2].0
            >= (#[trigger] items[j]).0
    &&& forall|j: int|
        0 < j < items.len() && (j - 1) / 2 == hole && hole > 0 ==> items[(hole - 1) / 2].0
            >= (#[trigger] items[j]).0
}

/// The root of a heap is a maximum.
proof fn lemma_root_is_max(items: Seq<GlobalPosition>, j: int)
    requires
        heap_ordered(items),
        0 <= j < items.len(),
    ensures
        items[0].0 >= items[j].0,
    decreases j,
{
    if j > 0 {
        lemma_root_is_max(items, (j - 1) / 2);
    }
}

/// Overwriting one item exchanges it for the new one.
proof fn lemma_update_multiset(items: Seq<GlobalPosition>, i: int, new_item: GlobalPosition)
    requires
        0 <= i < items.len(),
    ensures
        items.update(i, new_item).to_multiset() =~= items.to_multiset().remove(items[i]).insert(
            new_item,
        ),
{
    assert(items.update(i, new_item) =~= items.remove(i).insert(i, new_item));
    vstd::seq_lib::to_multiset_remove(items, i);
    vstd::seq_lib::to_multiset_insert(items.remove(i), i, new_item);
}

/// Swapping two items keeps the items.
proof fn lemma_swap_multiset(items: Seq<GlobalPosition>, i: int, j: int)
    requires
        0 <= i < items.len(),
        0 <= j < items.len(),
    ensures
        items.update(i, items[j]).update(j, items[i]).to_multiset() =~= items.to_multiset(),
{
    let first = items.update(i, items[j]);
    lemma_update_multiset(items, i, items[j]);
    lemma_update_multiset(first, j, items[i]);
    assert(items.contains(items[i]));
    assert(items.contains(items[j]));
    assert(items.to_multiset().count(items[i]) > 0);
    if i == j {
        assert(first =~= items);
    }
}

/// A max-first heap of positions, which may hold a position more than once.
pub struct PositionHeap {
    items: Vec<GlobalPosition>,
}

impl View for PositionHeap {
    type V = Multiset<GlobalPosition>;

    closed spec fn view(&self) -> Multiset<GlobalPosition> {
        self.items@.to_multiset()
    }
}

impl PositionHeap {
    /// The items are laid out as a heap.
    pub closed spec fn wf(&self) -> bool {
        heap_ordered(self.items@)
    }

    /// Creates an empty heap.
    pub(crate) fn new() -> (heap: Self)
        ensures
            heap.wf(),
            heap@ == Multiset::<GlobalPosition>::empty(),
    {
        let heap = PositionHeap { items: Vec::new() };
        assert(heap@ =~= Multiset::<GlobalPosition>::empty());
        heap
    }

    /// Creates a heap which holds `positions`.
    pub(crate) fn from_positions(positions: &[GlobalPosition]) -> (heap: Self)
        ensures
            heap.wf(),
            heap@ == positions@.to_multiset(),
    {
        let mut heap = PositionHeap::new();
        heap.extend(positions);
        assert(heap@ =~= positions@.to_multiset());
        heap
    }

    /// Returns the highest position.
    pub(crate) fn peek(&self) -> (highest: Option<GlobalPosition>)
        requires
            self.wf(),
        ensures
            match highest {
                Some(position) => is_highest(self@, position),
                None => self@ == Multiset::<GlobalPosition>::empty(),
            },
    {
        if self.items.len() == 0 {
            assert(self@ =~= Multiset::<GlobalPosition>::empty());
            None
        } else {
            proof {
                self.lemma_first_is_highest();
            }
            Some(self.items[0])
        }
    }

    proof fn lemma_first_is_highest(&self)
        requires
            self.wf(),
            self.items@.len() > 0,
        ensures
            is_highest(self@, self.items@[0]),
    {
        assert(self.items@.contains(self.items@[0]));
        assert forall|other: GlobalPosition| self@.contains(other) implies other.0
            <= self.items@[0].0 by {
            assert(self.items@.contains(other));
            let j = choose|j: int| 0 <= j < self.items@.len() && self.items@[j] == other;
            lemma_root_is_max(self.items@, j);
        }
    }

    /// Adds `position`.
    pub(crate) fn push(&mut self, position: GlobalPosition)
        requires
            old(self).wf(),
        ensures
            final(self).wf(),
            final(self)@ == old(self)@.insert(position),
    {
        let hole: usize = self.items.len();
        self.items.push(position);
        self.sift_up(hole);
    }

    /// Adds every one of `positions`.
    pub(crate) fn extend(&mut self, positions: &[GlobalPosition])
        requires
            old(self).wf(),
        ensures
            final(self).wf(),
            final(self)@ == old(self)@.add(positions@.to_multiset()),
    {
        let ghost before = self@;
        let mut i: usize = 0;
        assert(positions@.take(0).to_multiset() =~= Multiset::<GlobalPosition>::empty());
        while i < positions.len()
            invariant
                i <= positions@.len(),
                self.wf(),
                self@ =~= before.add(positions@.take(i as int).to_multiset()),
            decreases positions@.len() - i,
        {
            self.push(positions[i]);
            assert(positions@.take(i + 1) =~= positions@.take(i as int).push(positions@[i as int]));
            i += 1;
        }
        assert(positions@.take(i as int) =~= positions@);
    }

    /// Removes one copy of the highest position.
    pub(crate) fn pop(&mut self) -> (highest: Option<GlobalPosition>)
        requires
            old(self).wf(),
        ensures
            final(self).wf(),
            match highest {
                Some(position) => {
                    &&& is_highest(old(self)@, position)
                    &&& final(self)@ == old(self)@.remove(position)
                },
                None => {
                    &&& old(self)@ == Multiset::<GlobalPosition>::empty()
                    &&& final(self)@ == old(self)@
                },
            },
    {
        let ghost before = self.items@;
        match self.items.pop() {
            None => {
                assert(self@ =~= Multiset::<GlobalPosition>::empty());
                None
            },
            Some(last) => {
                assert(before =~= self.items@.push(last));
                if self.items.len() == 0 {
                    assert(before.contains(last));
                    assert(is_highest(old(self)@, last));
                    assert(self@ =~= old(self)@.remove(last));
                    Some(last)
                } else {
                    let highest = self.items[0];
                    proof {
                        old(self).lemma_first_is_highest();
                        lemma_update_multiset(self.items@, 0, last);
                    }
                    self.items.set(0, last);
                    self.sift_down(0);
                    assert(self@ =~= old(self)@.remove(highest));
                    Some(highest)
                }
            },
        }
    }

    /// Puts `position` in the place of one copy of the highest position, which
    /// is returned.
    pub(crate) fn replace_highest(&mut self, position: GlobalPosition) -> (highest: Option<GlobalPosition>)
        requires
            old(self).wf(),
        ensures
            final(self).wf(),
            match highest {
                Some(previous) => {
                    &&& is_highest(old(self)@, previous)
                    &&& final(self)@ == old(self)@.remove(previous).insert(position)
                },
                None => {
                    &&& old(self)@ == Multiset::<GlobalPosition>::empty()
                    &&& final(self)@ == old(self)@
                },
            },
    {
        if self.items.len() == 0 {
            assert(self@ =~= Multiset::<GlobalPosition>::empty());
            return None;
        }
        let highest = self.items[0];
        proof {
            self.lemma_first_is_highest();
            lemma_update_multiset(self.items@, 0, position);
        }
        self.items.set(0, position);
        self.sift_down(0);
        Some(highest)
    }

    /// Moves the item at `hole` towards the root until it fits.
    fn sift_up(&mut self, hole: usize)
        requires
            hole < old(self).items@.len(),
            ordered_above(old(self).items@, hole as int),
        ensures
            final(self).wf(),
            final(self)@ == old(self)@,
    {
        let mut hole: usize = hole;
        while hole > 0
            invariant_except_break
                hole < self.items@.len(),
                ordered_above(self.items@, hole as int),
                self@ == old(self)@,
            ensures
                heap_ordered(self.items@),
                self@ == old(self)@,
            decreases hole,
        {
            let parent: usize = (hole - 1) / 2;
            let item = self.items[hole];
            let above = self.items[parent];
            if above.0 >= item.0 {
                break;
            }
            proof {
                lemma_swap_multiset(self.items@, hole as int, parent as int);
            }
            self.items.set(hole, above);
            self.items.set(parent, item);
            hole = parent;
        }
    }

    /// Moves the item at `hole` away from the root until it fits.
    fn sift_down(&mut self, hole: usize)
        requires
            hole < old(self).items@.len(),
            ordered_below(old(self).items@, hole as int),
        ensures
            final(self).wf(),
            final(self)@ == old(self)@,
    {
        let mut hole: usize = hole;
        while hole < self.items.len() / 2
            invariant_except_break
                hole < self.items@.len(),
                ordered_below(self.items@, hole as int),
                self@ == old(self)@,
            ensures
                heap_ordered(self.items@),
                self@ == old(self)@,
            decreases self.items@.len() - hole,
        {
            let mut child: usize = 2 * hole + 1;
            if child + 1 < self.items.len() && self.items[child + 1].0 > self.items[child].0 {
                child = child + 1;
            }
            let item = self.items[hole];
            let below = self.items[child];
            if item.0 >= below.0 {
                break;
            }
            proof {
                lemma_swap_multiset(self.items@, hole as int, child as int);
            }
            self.items.set(hole, below);
            self.items.set(child, item);
            hole = child;
        }
    }
}

/// `position` is in `positions`, and nothing there is higher.
pub open spec fn is_highest(positions: Multiset<GlobalPosition>, position: GlobalPosition) -> bool {
    &&& positions.contains(position)
    &&& forall|other: GlobalPosition| positions.contains(other) ==> other.0 <= position.0
}

/// One more than the highest position, or zero if there is none.
pub closed spec fn rank(positions: Multiset<GlobalPosition>) -> nat {
    if exists|position: GlobalPosition| is_highest(positions, position) {
        (choose|position: GlobalPosition| is_highest(positions, position)).0 as nat + 1
    } else {
        0
    }
}

/// The rank of positions with a highest one.
pub proof fn lemma_rank(positions: Multiset<GlobalPosition>, position: GlobalPosition)
    requires
        is_highest(positions, position),
    ensures
        rank(positions) == position.0 + 1,
{
    let chosen = choose|chosen: GlobalPosition| is_highest(positions, chosen);
    assert(chosen.0 == position.0);
}

/// Where every position is below `bound`, so is the rank.
pub proof fn lemma_rank_below(positions: Multiset<GlobalPosition>, bound: GlobalPosition)
    requires
        forall|x: GlobalPosition| #[trigger] positions.contains(x) ==> x.0 < bound.0,
    ensures
        rank(positions) <= bound.0,
{
}

} // verus!
