//! Model of a position-ordered commit graph.
use vstd::prelude::*;

use crate::position::GlobalPosition;

verus! {

/// Content of one graph entry.
pub struct EntryModel {
    /// Bytes of the commit identifier.
    pub commit_id: Seq<u8>,
    /// Bytes of the change identifier.
    pub change_id: Seq<u8>,
    /// Generation of the commit.
    pub generation_number: u32,
    /// Positions of the parents.
    pub parent_positions: Seq<GlobalPosition>,
}

/// A commit graph: the entries by their positions.
pub type Graph = Map<GlobalPosition, EntryModel>;

/// A relation between positions, which a walk follows from left to right.
pub type Step = spec_fn(GlobalPosition, GlobalPosition) -> bool;

/// `n` steps lead from `from` to `to`.
pub open spec fn connected_in(
    step: Step,
    from: GlobalPosition,
    to: GlobalPosition,
    n: nat,
) -> bool
    decreases n,
{
    if n == 0 {
        from == to
    } else {
        exists|x: GlobalPosition|
            #[trigger] step(from, x) && connected_in(step, x, to, (n - 1) as nat)
    }
}

/// Any number of steps, also none, leads from `from` to `to`.
pub open spec fn connected(step: Step, from: GlobalPosition, to: GlobalPosition) -> bool {
    exists|n: nat| connected_in(step, from, to, n)
}

/// A position is connected to itself.
pub proof fn lemma_connected_self(step: Step, position: GlobalPosition)
    ensures
        connected(step, position, position),
{
    assert(connected_in(step, position, position, 0));
}

/// A step in front of a connection.
pub proof fn lemma_connected_prepend(
    step: Step,
    from: GlobalPosition,
    mid: GlobalPosition,
    to: GlobalPosition,
)
    requires
        step(from, mid),
        connected(step, mid, to),
    ensures
        connected(step, from, to),
{
    let n = choose|n: nat| connected_in(step, mid, to, n);
    assert(connected_in(step, mid, to, (n + 1 - 1) as nat));
    assert(connected_in(step, from, to, n + 1));
}

/// One connection after the other.
pub proof fn lemma_connected_trans(
    step: Step,
    from: GlobalPosition,
    mid: GlobalPosition,
    to: GlobalPosition,
)
    requires
        connected(step, from, mid),
        connected(step, mid, to),
    ensures
        connected(step, from, to),
{
    let n = choose|n: nat| connected_in(step, from, mid, n);
    lemma_connected_trans_in(step, from, mid, to, n);
}

proof fn lemma_connected_trans_in(
    step: Step,
    from: GlobalPosition,
    mid: GlobalPosition,
    to: GlobalPosition,
    n: nat,
)
    requires
        connected_in(step, from, mid, n),
        connected(step, mid, to),
    ensures
        connected(step, from, to),
    decreases n,
{
    if n > 0 {
        let x = choose|x: GlobalPosition|
            #[trigger] step(from, x) && connected_in(step, x, mid, (n - 1) as nat);
        lemma_connected_trans_in(step, x, mid, to, (n - 1) as nat);
        lemma_connected_prepend(step, from, x, to);
    }
}

/// A step behind a connection.
pub proof fn lemma_connected_append(
    step: Step,
    from: GlobalPosition,
    mid: GlobalPosition,
    to: GlobalPosition,
)
    requires
        connected(step, from, mid),
        step(mid, to),
    ensures
        connected(step, from, to),
{
    lemma_connected_self(step, to);
    lemma_connected_prepend(step, mid, to, to);
    lemma_connected_trans(step, from, mid, to);
}

/// The first step of a connection between two positions.
pub proof fn lemma_connected_first(step: Step, from: GlobalPosition, to: GlobalPosition) -> (x:
    GlobalPosition)
    requires
        connected(step, from, to),
        from != to,
    ensures
        step(from, x),
        connected(step, x, to),
{
    let n = choose|n: nat| connected_in(step, from, to, n);
    let x = choose|x: GlobalPosition|
        #[trigger] step(from, x) && connected_in(step, x, to, (n - 1) as nat);
    x
}

/// The last step of a connection between two positions.
pub proof fn lemma_connected_last(step: Step, from: GlobalPosition, to: GlobalPosition) -> (x:
    GlobalPosition)
    requires
        connected(step, from, to),
        from != to,
    ensures
        connected(step, from, x),
        step(x, to),
{
    let n = choose|n: nat| connected_in(step, from, to, n);
    lemma_connected_last_in(step, from, to, n)
}

proof fn lemma_connected_last_in(
    step: Step,
    from: GlobalPosition,
    to: GlobalPosition,
    n: nat,
) -> (x: GlobalPosition)
    requires
        connected_in(step, from, to, n),
        from != to,
    ensures
        connected(step, from, x),
        step(x, to),
    decreases n,
{
    let y = choose|y: GlobalPosition|
        #[trigger] step(from, y) && connected_in(step, y, to, (n - 1) as nat);
    if y == to {
        lemma_connected_self(step, from);
        from
    } else {
        let x = lemma_connected_last_in(step, y, to, (n - 1) as nat);
        lemma_connected_prepend(step, from, y, x);
        x
    }
}

/// What holds at the start and is kept by every step holds at the end.
pub proof fn lemma_connected_keeps(
    step: Step,
    kept: spec_fn(GlobalPosition) -> bool,
    from: GlobalPosition,
    to: GlobalPosition,
)
    requires
        connected(step, from, to),
        kept(from),
        forall|x: GlobalPosition, y: GlobalPosition| kept(x) && #[trigger] step(x, y) ==> kept(y),
    ensures
        kept(to),
{
    let n = choose|n: nat| connected_in(step, from, to, n);
    lemma_connected_keeps_in(step, kept, from, to, n);
}

proof fn lemma_connected_keeps_in(
    step: Step,
    kept: spec_fn(GlobalPosition) -> bool,
    from: GlobalPosition,
    to: GlobalPosition,
    n: nat,
)
    requires
        connected_in(step, from, to, n),
        kept(from),
        forall|x: GlobalPosition, y: GlobalPosition| kept(x) && #[trigger] step(x, y) ==> kept(y),
    ensures
        kept(to),
    decreases n,
{
    if n > 0 {
        let x = choose|x: GlobalPosition|
            #[trigger] step(from, x) && connected_in(step, x, to, (n - 1) as nat);
        lemma_connected_keeps_in(step, kept, x, to, (n - 1) as nat);
    }
}

/// What is connected by fewer steps is connected by more.
pub proof fn lemma_connected_weaken(
    step: Step,
    wider: Step,
    from: GlobalPosition,
    to: GlobalPosition,
)
    requires
        connected(step, from, to),
        forall|x: GlobalPosition, y: GlobalPosition| #[trigger] step(x, y) ==> wider(x, y),
    ensures
        connected(wider, from, to),
{
    let kept = |x: GlobalPosition| connected(wider, from, x);
    lemma_connected_self(wider, from);
    assert forall|x: GlobalPosition, y: GlobalPosition| kept(x) && #[trigger] step(x, y) implies kept(
        y,
    ) by {
        lemma_connected_append(wider, from, x, y);
    }
    lemma_connected_keeps(step, kept, from, to);
}

/// `to` is connected to one of `starts`.
pub open spec fn reached(step: Step, starts: Set<GlobalPosition>, to: GlobalPosition) -> bool {
    exists|from: GlobalPosition| starts.contains(from) && #[trigger] connected(step, from, to)
}

/// A start is reached.
pub proof fn lemma_reached_start(step: Step, starts: Set<GlobalPosition>, position: GlobalPosition)
    requires
        starts.contains(position),
    ensures
        reached(step, starts, position),
{
    lemma_connected_self(step, position);
}

/// Where one step leads from what is reached is reached.
pub proof fn lemma_reached_step(
    step: Step,
    starts: Set<GlobalPosition>,
    mid: GlobalPosition,
    to: GlobalPosition,
)
    requires
        reached(step, starts, mid),
        step(mid, to),
    ensures
        reached(step, starts, to),
{
    let from = choose|from: GlobalPosition|
        starts.contains(from) && #[trigger] connected(step, from, mid);
    lemma_connected_append(step, from, mid, to);
}

/// Where any steps lead from what is reached is reached.
pub proof fn lemma_reached_connected(
    step: Step,
    starts: Set<GlobalPosition>,
    mid: GlobalPosition,
    to: GlobalPosition,
)
    requires
        reached(step, starts, mid),
        connected(step, mid, to),
    ensures
        reached(step, starts, to),
{
    let from = choose|from: GlobalPosition|
        starts.contains(from) && #[trigger] connected(step, from, mid);
    lemma_connected_trans(step, from, mid, to);
}

/// From more starts, no less is reached.
pub proof fn lemma_reached_more(
    step: Step,
    starts: Set<GlobalPosition>,
    more: Set<GlobalPosition>,
    to: GlobalPosition,
)
    requires
        reached(step, starts, to),
        forall|from: GlobalPosition| starts.contains(from) ==> #[trigger] reached(step, more, from),
    ensures
        reached(step, more, to),
{
    let from = choose|from: GlobalPosition|
        starts.contains(from) && #[trigger] connected(step, from, to);
    assert(reached(step, more, from));
    lemma_reached_connected(step, more, from, to);
}

/// What is reached from two sets of starts.
pub proof fn lemma_reached_union(
    step: Step,
    first: Set<GlobalPosition>,
    second: Set<GlobalPosition>,
    both: Set<GlobalPosition>,
)
    requires
        forall|from: GlobalPosition| #[trigger]
            both.contains(from) <==> first.contains(from) || second.contains(from),
    ensures
        forall|x: GlobalPosition| #[trigger]
            reached(step, both, x) <==> reached(step, first, x) || reached(step, second, x),
{
    assert forall|x: GlobalPosition| #[trigger] reached(step, both, x) <==> reached(step, first, x)
        || reached(step, second, x) by {
        if reached(step, both, x) {
            let from = choose|from: GlobalPosition|
                both.contains(from) && #[trigger] connected(step, from, x);
            assert(first.contains(from) || second.contains(from));
        }
        if reached(step, first, x) {
            let from = choose|from: GlobalPosition|
                first.contains(from) && #[trigger] connected(step, from, x);
            assert(both.contains(from));
        }
        if reached(step, second, x) {
            let from = choose|from: GlobalPosition|
                second.contains(from) && #[trigger] connected(step, from, x);
            assert(both.contains(from));
        }
    }
}

/// `after` is `before` with `position` replaced by where its steps lead.
pub open spec fn is_expansion(
    step: Step,
    before: Set<GlobalPosition>,
    after: Set<GlobalPosition>,
    position: GlobalPosition,
) -> bool {
    &&& before.contains(position)
    &&& forall|x: GlobalPosition| #[trigger]
        after.contains(x) <==> (before.contains(x) && x != position) || step(position, x)
}

/// Replacing a start by where its steps lead keeps what is reached, but for the
/// start itself.
pub proof fn lemma_expand(
    step: Step,
    before: Set<GlobalPosition>,
    after: Set<GlobalPosition>,
    position: GlobalPosition,
)
    requires
        is_expansion(step, before, after, position),
    ensures
        forall|x: GlobalPosition| #[trigger] reached(step, after, x) ==> reached(step, before, x),
        forall|x: GlobalPosition| #[trigger]
            reached(step, before, x) && x != position ==> reached(step, after, x),
{
    assert forall|x: GlobalPosition| #[trigger] reached(step, after, x) implies reached(
        step,
        before,
        x,
    ) by {
        assert forall|from: GlobalPosition| after.contains(from) implies #[trigger] reached(
            step,
            before,
            from,
        ) by {
            if before.contains(from) {
                lemma_reached_start(step, before, from);
            } else {
                lemma_reached_start(step, before, position);
                lemma_reached_step(step, before, position, from);
            }
        }
        lemma_reached_more(step, after, before, x);
    }
    assert forall|x: GlobalPosition| #[trigger] reached(step, before, x) && x != position implies reached(
        step,
        after,
        x,
    ) by {
        let from = choose|from: GlobalPosition|
            before.contains(from) && #[trigger] connected(step, from, x);
        if from == position {
            let y = lemma_connected_first(step, from, x);
            assert(after.contains(y));
        } else {
            assert(after.contains(from));
        }
    }
}

/// Every step leads to a lower position.
pub open spec fn leads_down(step: Step) -> bool {
    forall|x: GlobalPosition, y: GlobalPosition| #[trigger] step(x, y) ==> y.0 < x.0
}

/// Steps which lead down connect a position to nothing above it.
pub proof fn lemma_connected_down(step: Step, from: GlobalPosition, to: GlobalPosition)
    requires
        leads_down(step),
        connected(step, from, to),
    ensures
        to.0 <= from.0,
{
    lemma_connected_keeps(step, |x: GlobalPosition| x.0 <= from.0, from, to);
}

/// Steps which lead down reach nothing above all starts.
pub proof fn lemma_reached_down(step: Step, starts: Set<GlobalPosition>, to: GlobalPosition)
    requires
        leads_down(step),
        reached(step, starts, to),
    ensures
        exists|from: GlobalPosition| #[trigger] starts.contains(from) && to.0 <= from.0,
{
    let from = choose|from: GlobalPosition|
        starts.contains(from) && #[trigger] connected(step, from, to);
    lemma_connected_down(step, from, to);
}

/// `parent` is a parent of the entry at `child`.
pub open spec fn has_parent(graph: Graph, child: GlobalPosition, parent: GlobalPosition) -> bool {
    graph.dom().contains(child) && graph[child].parent_positions.contains(parent)
}

/// The steps from a commit to its parents.
pub open spec fn to_parents(graph: Graph) -> Step {
    |child: GlobalPosition, parent: GlobalPosition| has_parent(graph, child, parent)
}

/// `ancestor` is reachable from `descendant` through parents. A commit is an
/// ancestor of itself.
pub open spec fn is_ancestor_in(
    graph: Graph,
    ancestor: GlobalPosition,
    descendant: GlobalPosition,
) -> bool {
    connected(to_parents(graph), descendant, ancestor)
}

/// Every parent is below its child.
pub open spec fn is_topological(graph: Graph) -> bool {
    forall|child: GlobalPosition, parent: GlobalPosition| #[trigger]
        has_parent(graph, child, parent) ==> parent.0 < child.0
}

/// Every parent has an entry.
pub open spec fn is_closed(graph: Graph) -> bool {
    forall|child: GlobalPosition, parent: GlobalPosition| #[trigger]
        has_parent(graph, child, parent) ==> graph.dom().contains(parent)
}

/// Every parent is below its child and, where it has an entry, of a lower
/// generation.
pub open spec fn is_ordered(graph: Graph) -> bool {
    &&& is_topological(graph)
    &&& forall|child: GlobalPosition, parent: GlobalPosition| #[trigger]
        has_parent(graph, child, parent) && graph.dom().contains(parent)
            ==> graph[parent].generation_number < graph[child].generation_number
}

/// Where parents are below their children, a commit lies above its ancestors.
pub proof fn lemma_ancestor_is_below(
    graph: Graph,
    ancestor: GlobalPosition,
    descendant: GlobalPosition,
)
    requires
        is_topological(graph),
        is_ancestor_in(graph, ancestor, descendant),
        ancestor != descendant,
    ensures
        graph.dom().contains(descendant),
        ancestor.0 < descendant.0,
{
    let step = to_parents(graph);
    let x = lemma_connected_first(step, descendant, ancestor);
    assert(has_parent(graph, descendant, x));
    let kept = |y: GlobalPosition| y.0 < descendant.0;
    assert forall|y: GlobalPosition, z: GlobalPosition| kept(y) && #[trigger] step(y, z) implies kept(
        z,
    ) by {
        assert(has_parent(graph, y, z));
    }
    lemma_connected_keeps(step, kept, x, ancestor);
}

/// In an ordered graph, the generation of a commit is higher than that of its
/// ancestors.
pub proof fn lemma_ancestor_generation(
    graph: Graph,
    ancestor: GlobalPosition,
    descendant: GlobalPosition,
)
    requires
        is_ordered(graph),
        is_ancestor_in(graph, ancestor, descendant),
        ancestor != descendant,
        graph.dom().contains(ancestor),
    ensures
        graph[ancestor].generation_number < graph[descendant].generation_number,
{
    let step = to_parents(graph);
    let x = lemma_connected_first(step, descendant, ancestor);
    assert(has_parent(graph, descendant, x));
    let kept = |y: GlobalPosition|
        graph.dom().contains(y) ==> graph[y].generation_number
            < graph[descendant].generation_number;
    assert forall|y: GlobalPosition, z: GlobalPosition| kept(y) && #[trigger] step(y, z) implies kept(
        z,
    ) by {
        assert(has_parent(graph, y, z));
    }
    lemma_connected_keeps(step, kept, x, ancestor);
}

/// Every commit is an ancestor of itself.
pub proof fn lemma_ancestor_reflexive(graph: Graph, position: GlobalPosition)
    ensures
        is_ancestor_in(graph, position, position),
{
    lemma_connected_self(to_parents(graph), position);
}

/// An ancestor of an ancestor is an ancestor.
pub proof fn lemma_ancestor_transitive(
    graph: Graph,
    first: GlobalPosition,
    second: GlobalPosition,
    third: GlobalPosition,
)
    requires
        is_ancestor_in(graph, first, second),
        is_ancestor_in(graph, second, third),
    ensures
        is_ancestor_in(graph, first, third),
{
    lemma_connected_trans(to_parents(graph), third, second, first);
}

/// Where parents are below their children, two commits which are ancestors of
/// each other are the same commit.
pub proof fn lemma_ancestor_antisymmetric(
    graph: Graph,
    first: GlobalPosition,
    second: GlobalPosition,
)
    requires
        is_topological(graph),
        is_ancestor_in(graph, first, second),
        is_ancestor_in(graph, second, first),
    ensures
        first == second,
{
    if first != second {
        lemma_ancestor_is_below(graph, first, second);
        lemma_ancestor_is_below(graph, second, first);
    }
}

} // verus!
