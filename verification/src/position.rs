//! Positions of commits in a position-ordered index.
use vstd::prelude::*;

verus! {

/// Global position of a commit in a position-ordered index.
#[derive(Debug, PartialEq, Eq, PartialOrd, Ord, Clone, Copy, Hash, Structural)]
pub struct GlobalPosition(pub u32);

impl GlobalPosition {
    /// Lowest valid global position.
    pub fn lowest() -> (position: Self)
        ensures
            position.0 == 0,
            forall|other: GlobalPosition| position.0 <= (#[trigger] other.0),
    {
        Self(u32::MIN)
    }

    /// Sentinel greater than every valid global position.
    pub fn sentinel() -> (position: Self)
        ensures
            position.0 == u32::MAX,
            forall|other: GlobalPosition| (#[trigger] other.0) <= position.0,
    {
        Self(u32::MAX)
    }
}

/// The positions run from high to low, and no position occurs twice.
pub open spec fn descending(positions: Seq<GlobalPosition>) -> bool {
    forall|i: int, j: int| 0 <= i < j < positions.len() ==> positions[i].0 > positions[j].0
}

/// The positions run from low to high, and no position occurs twice.
pub open spec fn ascending(positions: Seq<GlobalPosition>) -> bool {
    forall|i: int, j: int| 0 <= i < j < positions.len() ==> positions[i].0 < positions[j].0
}

/// What a sequence contains after one more is appended.
pub proof fn lemma_push_contains(positions: Seq<GlobalPosition>, position: GlobalPosition)
    ensures
        forall|x: GlobalPosition| #[trigger]
            positions.push(position).contains(x) <==> positions.contains(x) || x == position,
{
    let more = positions.push(position);
    assert forall|x: GlobalPosition| #[trigger] more.contains(x) <==> positions.contains(x) || x
        == position by {
        assert(more[positions.len() as int] == position);
        if positions.contains(x) {
            assert(more[positions.index_of(x)] == x);
        }
    }
}

} // verus!
