//! Heads of a filtered range of commits.
use std::ops::Range;

use vstd::multiset::Multiset;
use vstd::prelude::*;

use crate::error::IndexError;
use crate::frontier::{
    is_frontier, lemma_frontier_advances, lemma_frontier_ahead, lemma_frontier_reached,
    lemma_frontier_starts,
};
use crate::graph::{
    connected, lemma_connected_weaken, lemma_reached_down, lemma_reached_union, reached, Graph,
    Step,
};
use crate::heap::{rank, PositionHeap};
use crate::position::{descending, lemma_push_contains, GlobalPosition};
use crate::position_index::{IndexModel, Lookup, PositionIndex};
use crate::queue::{dedup_pop, lemma_highest_of_dom, lemma_items, lemma_popped};
use crate::recorder::RecordedFilter;
use crate::walk::{
    fails_at, fails_first_at, falling, lemma_expansion_sinks, parents_below, reports_first_invalid,
    shift_to_parents_from_slice, shift_to_parents_until,
};

verus! {

broadcast use {vstd::multiset::group_multiset_axioms, vstd::seq_lib::group_to_multiset_ensures};

/// The lower of `n` and `len`.
pub open spec fn clip(n: u32, len: nat) -> int {
    if n < len {
        n as int
    } else {
        len as int
    }
}

/// `items` has the items of `range`, as far as they exist.
pub open spec fn is_clippable<T>(items: Seq<T>, range: Range<u32>) -> bool {
    clip(range.start, items.len()) <= clip(range.end, items.len())
}

/// The items whose indexes are in `range`.
pub open spec fn clipped<T>(items: Seq<T>, range: Range<u32>) -> Seq<T> {
    if is_clippable(items, range) {
        items.subrange(clip(range.start, items.len()), clip(range.end, items.len()))
    } else {
        Seq::empty()
    }
}

/// Returns the items whose indexes are in `range`.
fn filter_slice_by_range<'a, T>(slice: &'a [T], range: &Range<u32>) -> (items: &'a [T])
    requires
        is_clippable(slice@, *range),
    ensures
        items@ == clipped(slice@, *range),
{
    let len: usize = slice.len();
    let start: usize = if (range.start as usize) < len {
        range.start as usize
    } else {
        len
    };
    let end: usize = if (range.end as usize) < len {
        range.end as usize
    } else {
        len
    };
    vstd::slice::slice_subrange(slice, start, end)
}

/// The steps from a commit to those of its parents in `range` which are below it.
pub open spec fn to_parents_in(graph: Graph, range: Range<u32>) -> Step {
    |child: GlobalPosition, parent: GlobalPosition|
        {
            &&& graph.dom().contains(child)
            &&& clipped(graph[child].parent_positions, range).contains(parent)
            &&& parent.0 < child.0
        }
}

/// The steps from a commit which the filter was asked about, and rejected, to
/// those of its parents in `range` which are below it.
pub open spec fn past_rejected(
    graph: Graph,
    range: Range<u32>,
    asked: Seq<GlobalPosition>,
    found: Seq<GlobalPosition>,
) -> Step {
    |child: GlobalPosition, parent: GlobalPosition|
        {
            &&& graph.dom().contains(child)
            &&& clipped(graph[child].parent_positions, range).contains(parent)
            &&& parent.0 < child.0
            &&& asked.contains(child)
            &&& !found.contains(child)
        }
}

/// A walk from `heads` past rejected commits comes to `position`.
pub open spec fn is_wanted(
    graph: Graph,
    heads: Seq<GlobalPosition>,
    range: Range<u32>,
    asked: Seq<GlobalPosition>,
    found: Seq<GlobalPosition>,
    position: GlobalPosition,
) -> bool {
    reached(past_rejected(graph, range, asked, found), heads.to_set(), position)
}

/// A walk from `roots` comes to `position`.
pub open spec fn is_under_roots(
    graph: Graph,
    roots: Seq<GlobalPosition>,
    position: GlobalPosition,
) -> bool {
    reached(falling(graph), roots.to_set(), position)
}

/// A walk from `heads` through parents in `range` comes to the commit at
/// `position`, and none from `roots` does.
pub open spec fn may_be_asked(
    graph: Graph,
    roots: Seq<GlobalPosition>,
    heads: Seq<GlobalPosition>,
    range: Range<u32>,
    position: GlobalPosition,
) -> bool {
    &&& graph.dom().contains(position)
    &&& reached(to_parents_in(graph, range), heads.to_set(), position)
    &&& !is_under_roots(graph, roots, position)
}

/// A walk from the parents of `head` comes to `position`.
pub open spec fn is_under_head(
    graph: Graph,
    head: GlobalPosition,
    position: GlobalPosition,
) -> bool {
    reached(falling(graph), graph[head].parent_positions.to_set(), position)
}

/// A walk from `roots`, or from the parents of one of `found`, comes to
/// `position`.
pub open spec fn is_excluded(
    graph: Graph,
    roots: Seq<GlobalPosition>,
    found: Seq<GlobalPosition>,
    position: GlobalPosition,
) -> bool {
    ||| is_under_roots(graph, roots, position)
    ||| exists|h: GlobalPosition| found.contains(h) && #[trigger] is_under_head(graph, h, position)
}

/// A walk from `roots`, or from the parents of one of `found` which is above
/// `position`, comes to it.
pub open spec fn is_unwanted(
    graph: Graph,
    roots: Seq<GlobalPosition>,
    found: Seq<GlobalPosition>,
    position: GlobalPosition,
) -> bool {
    ||| is_under_roots(graph, roots, position)
    ||| exists|h: GlobalPosition|
        found.contains(h) && h.0 > position.0 && #[trigger] is_under_head(graph, h, position)
}

/// From `bound` on, `asked` are the positions which the filter is asked about,
/// and `found` are those which it accepts, both from high to low. The filter is
/// asked about what is wanted and not unwanted.
pub open spec fn selects_range_above(
    graph: Graph,
    roots: Seq<GlobalPosition>,
    heads: Seq<GlobalPosition>,
    range: Range<u32>,
    asked: Seq<GlobalPosition>,
    found: Seq<GlobalPosition>,
    bound: int,
) -> bool {
    &&& descending(asked)
    &&& descending(found)
    &&& forall|x: GlobalPosition| #[trigger] found.contains(x) ==> asked.contains(x)
    &&& forall|x: GlobalPosition| #[trigger]
        asked.contains(x) <==> x.0 >= bound && is_wanted(graph, heads, range, asked, found, x)
            && !is_unwanted(graph, roots, found, x)
    &&& forall|x: GlobalPosition| #[trigger] asked.contains(x) ==> graph.dom().contains(x)
}

/// Until the search is done with what is wanted from `bound` on, everything from
/// which a walk goes on has an entry, and every parent which it steps to is below
/// its child.
pub open spec fn range_stays_below(
    graph: Graph,
    roots: Seq<GlobalPosition>,
    heads: Seq<GlobalPosition>,
    range: Range<u32>,
    asked: Seq<GlobalPosition>,
    found: Seq<GlobalPosition>,
    bound: int,
) -> bool {
    &&& rejected_stay_below(graph, range, asked, found)
    &&& forall|x: GlobalPosition, w: GlobalPosition|
        #![trigger is_under_roots(graph, roots, x), is_wanted(graph, heads, range, asked, found, w)]
        bound <= w.0 && w.0 <= x.0 && is_under_roots(graph, roots, x) && is_wanted(
            graph,
            heads,
            range,
            asked,
            found,
            w,
        ) ==> parents_below(graph, x)
    &&& forall|x: GlobalPosition, h: GlobalPosition, w: GlobalPosition|
        #![trigger is_under_head(graph, h, x), is_wanted(graph, heads, range, asked, found, w)]
        bound <= w.0 && w.0 <= x.0 && w.0 < h.0 && found.contains(h) && is_under_head(graph, h, x)
            && is_wanted(graph, heads, range, asked, found, w) ==> parents_below(graph, x)
}

/// The parents in `range` of every rejected commit are below it.
pub open spec fn rejected_stay_below(
    graph: Graph,
    range: Range<u32>,
    asked: Seq<GlobalPosition>,
    found: Seq<GlobalPosition>,
) -> bool {
    forall|c: GlobalPosition, q: GlobalPosition|
        asked.contains(c) && !found.contains(c) && #[trigger] clipped(
            graph[c].parent_positions,
            range,
        ).contains(q) ==> q.0 < c.0
}

/// The state of the search: everything from `bound` on is done, `wanted` is
/// where the search goes on, and `unwanted` leads to what it leaves out.
spec fn searches(
    graph: Graph,
    roots: Seq<GlobalPosition>,
    heads: Seq<GlobalPosition>,
    range: Range<u32>,
    asked: Seq<GlobalPosition>,
    found: Seq<GlobalPosition>,
    bound: int,
    wanted: Set<GlobalPosition>,
    unwanted: Set<GlobalPosition>,
) -> bool {
    let step = falling(graph);
    &&& is_frontier(past_rejected(graph, range, asked, found), heads.to_set(), bound, wanted)
    &&& selects_range_above(graph, roots, heads, range, asked, found, bound)
    &&& rejected_stay_below(graph, range, asked, found)
    &&& forall|x: GlobalPosition|
        x.0 < bound && #[trigger] is_unwanted(graph, roots, found, x) ==> reached(step, unwanted, x)
    &&& forall|x: GlobalPosition| #[trigger]
        reached(step, unwanted, x) ==> is_excluded(graph, roots, found, x)
    &&& forall|x: GlobalPosition| #[trigger]
        is_under_roots(graph, roots, x) ==> parents_below(graph, x) || (reached(step, unwanted, x)
            && x.0 < bound)
    &&& forall|x: GlobalPosition, h: GlobalPosition|
        found.contains(h) && #[trigger] is_under_head(graph, h, x) ==> parents_below(graph, x) || (
        reached(step, unwanted, x) && (x.0 < bound || h.0 == bound))
}

/// The walk through what is left out has come to `position`.
spec fn is_shifted(
    graph: Graph,
    before: Set<GlobalPosition>,
    after: Set<GlobalPosition>,
    position: GlobalPosition,
) -> bool {
    let step = falling(graph);
    &&& forall|x: GlobalPosition| #[trigger] after.contains(x) ==> x.0 < position.0
    &&& forall|x: GlobalPosition|
        x.0 < position.0 ==> (#[trigger] reached(step, after, x) <==> reached(step, before, x))
    &&& forall|x: GlobalPosition| #[trigger]
        reached(step, before, x) && x.0 >= position.0 ==> parents_below(graph, x)
}

/// The search begins.
proof fn lemma_search_starts(
    graph: Graph,
    roots: Seq<GlobalPosition>,
    heads: Seq<GlobalPosition>,
    range: Range<u32>,
    wanted: Set<GlobalPosition>,
    unwanted: Set<GlobalPosition>,
)
    requires
        forall|x: GlobalPosition| #[trigger] wanted.contains(x) <==> heads.contains(x),
        forall|x: GlobalPosition| #[trigger] unwanted.contains(x) <==> roots.contains(x),
    ensures
        searches(
            graph,
            roots,
            heads,
            range,
            Seq::empty(),
            Seq::empty(),
            u32::MAX + 1,
            wanted,
            unwanted,
        ),
{
    let none = Seq::<GlobalPosition>::empty();
    lemma_frontier_starts(past_rejected(graph, range, none, none), heads.to_set(), wanted);
    assert(unwanted =~= roots.to_set());
}

/// The highest wanted position is left out.
proof fn lemma_search_leaves_out(
    graph: Graph,
    roots: Seq<GlobalPosition>,
    heads: Seq<GlobalPosition>,
    range: Range<u32>,
    asked: Seq<GlobalPosition>,
    found: Seq<GlobalPosition>,
    bound: int,
    wanted: Set<GlobalPosition>,
    unwanted: Set<GlobalPosition>,
    wanted_after: Set<GlobalPosition>,
    unwanted_after: Set<GlobalPosition>,
    position: GlobalPosition,
)
    requires
        searches(graph, roots, heads, range, asked, found, bound, wanted, unwanted),
        wanted.contains(position),
        forall|q: GlobalPosition| #[trigger] wanted.contains(q) ==> q.0 <= position.0,
        forall|q: GlobalPosition| #[trigger]
            wanted_after.contains(q) <==> wanted.contains(q) && q != position,
        is_shifted(graph, unwanted, unwanted_after, position),
        reached(falling(graph), unwanted, position),
    ensures
        searches(
            graph,
            roots,
            heads,
            range,
            asked,
            found,
            position.0 as int,
            wanted_after,
            unwanted_after,
        ),
{
    let step = past_rejected(graph, range, asked, found);
    lemma_frontier_advances(step, step, heads.to_set(), bound, wanted, wanted_after, position);
    assert(is_excluded(graph, roots, found, position));
    assert(is_unwanted(graph, roots, found, position));
    assert forall|x: GlobalPosition| #[trigger]
        reached(falling(graph), unwanted_after, x) implies x.0 < position.0 by {
        lemma_reached_down(falling(graph), unwanted_after, x);
    }
}

/// The filter accepts the highest wanted position.
proof fn lemma_search_accepts(
    graph: Graph,
    roots: Seq<GlobalPosition>,
    heads: Seq<GlobalPosition>,
    range: Range<u32>,
    asked: Seq<GlobalPosition>,
    found: Seq<GlobalPosition>,
    bound: int,
    wanted: Set<GlobalPosition>,
    unwanted: Set<GlobalPosition>,
    wanted_after: Set<GlobalPosition>,
    unwanted_shifted: Set<GlobalPosition>,
    unwanted_after: Set<GlobalPosition>,
    position: GlobalPosition,
)
    requires
        searches(graph, roots, heads, range, asked, found, bound, wanted, unwanted),
        graph.dom().contains(position),
        wanted.contains(position),
        forall|q: GlobalPosition| #[trigger] wanted.contains(q) ==> q.0 <= position.0,
        forall|q: GlobalPosition| #[trigger]
            wanted_after.contains(q) <==> wanted.contains(q) && q != position,
        is_shifted(graph, unwanted, unwanted_shifted, position),
        forall|q: GlobalPosition| #[trigger]
            unwanted_after.contains(q) <==> unwanted_shifted.contains(q)
                || graph[position].parent_positions.to_set().contains(q),
        !reached(falling(graph), unwanted, position),
    ensures
        searches(
            graph,
            roots,
            heads,
            range,
            asked.push(position),
            found.push(position),
            position.0 as int,
            wanted_after,
            unwanted_after,
        ),
{
    let step = past_rejected(graph, range, asked, found);
    let more_asked = asked.push(position);
    let more_found = found.push(position);
    let next = past_rejected(graph, range, more_asked, more_found);
    lemma_push_contains(asked, position);
    lemma_push_contains(found, position);
    assert(more_found.contains(position));
    assert forall|y: GlobalPosition, z: GlobalPosition| y != position implies (#[trigger] step(y, z)
        <==> next(y, z)) by {
        assert(more_asked.contains(y) <==> asked.contains(y));
        assert(more_found.contains(y) <==> found.contains(y));
    }
    lemma_frontier_advances(step, next, heads.to_set(), bound, wanted, wanted_after, position);
    lemma_push_descends(asked, bound, position);
    assert forall|f: GlobalPosition| #[trigger] found.contains(f) implies f.0 >= bound by {
        assert(asked.contains(f));
    }
    lemma_push_descends(found, bound, position);
    assert forall|x: GlobalPosition| x.0 >= position.0 implies (#[trigger] is_unwanted(
        graph,
        roots,
        more_found,
        x,
    ) <==> is_unwanted(graph, roots, found, x)) by {
        lemma_unwanted_more(graph, roots, found, position, x);
    }
    assert(!is_unwanted(graph, roots, found, position));
    assert(is_wanted(graph, heads, range, more_asked, more_found, position));
    assert forall|x: GlobalPosition| #[trigger] more_asked.contains(x) <==> x.0 >= position.0
        && is_wanted(graph, heads, range, more_asked, more_found, x) && !is_unwanted(
        graph,
        roots,
        more_found,
        x,
    ) by {
        if x.0 >= position.0 {
            assert(is_wanted(graph, heads, range, more_asked, more_found, x) <==> is_wanted(
                graph,
                heads,
                range,
                asked,
                found,
                x,
            ));
        }
    }
    lemma_reached_union(
        falling(graph),
        unwanted_shifted,
        graph[position].parent_positions.to_set(),
        unwanted_after,
    );
    assert forall|x: GlobalPosition| #[trigger]
        reached(falling(graph), unwanted_shifted, x) implies x.0 < position.0 by {
        lemma_reached_down(falling(graph), unwanted_shifted, x);
    }
    assert forall|x: GlobalPosition|
        x.0 < position.0 && #[trigger] is_unwanted(graph, roots, more_found, x) implies reached(
        falling(graph),
        unwanted_after,
        x,
    ) by {
        lemma_unwanted_more(graph, roots, found, position, x);
        if is_unwanted(graph, roots, found, x) {
            assert(reached(falling(graph), unwanted_shifted, x));
        }
    }
    assert forall|x: GlobalPosition| #[trigger]
        reached(falling(graph), unwanted_after, x) implies is_excluded(
        graph,
        roots,
        more_found,
        x,
    ) by {
        if reached(falling(graph), unwanted_shifted, x) {
            assert(reached(falling(graph), unwanted, x));
            assert(is_excluded(graph, roots, found, x));
            if !is_under_roots(graph, roots, x) {
                let h = choose|h: GlobalPosition|
                    found.contains(h) && #[trigger] is_under_head(graph, h, x);
                assert(more_found.contains(h));
            }
        } else {
            assert(is_under_head(graph, position, x));
        }
    }
    assert forall|x: GlobalPosition, h: GlobalPosition|
        more_found.contains(h) && #[trigger] is_under_head(graph, h, x) implies parents_below(
        graph,
        x,
    ) || (reached(falling(graph), unwanted_after, x) && (x.0 < position.0 || h.0
        == position.0)) by {
        if h != position {
            assert(found.contains(h));
        }
    }
    assert forall|c: GlobalPosition, q: GlobalPosition|
        more_asked.contains(c) && !more_found.contains(c) && #[trigger] clipped(
            graph[c].parent_positions,
            range,
        ).contains(q) implies q.0 < c.0 by {
        assert(asked.contains(c));
    }
}

/// One more found position excludes what lies under it.
proof fn lemma_unwanted_more(
    graph: Graph,
    roots: Seq<GlobalPosition>,
    found: Seq<GlobalPosition>,
    position: GlobalPosition,
    x: GlobalPosition,
)
    ensures
        is_unwanted(graph, roots, found.push(position), x) <==> is_unwanted(graph, roots, found, x)
            || (position.0 > x.0 && is_under_head(graph, position, x)),
{
    let more = found.push(position);
    lemma_push_contains(found, position);
    assert(more.contains(position));
    if is_unwanted(graph, roots, more, x) && !is_under_roots(graph, roots, x) {
        let h = choose|h: GlobalPosition|
            more.contains(h) && h.0 > x.0 && #[trigger] is_under_head(graph, h, x);
        assert(found.contains(h) || h == position);
    }
    if is_unwanted(graph, roots, found, x) && !is_under_roots(graph, roots, x) {
        let h = choose|h: GlobalPosition|
            found.contains(h) && h.0 > x.0 && #[trigger] is_under_head(graph, h, x);
        assert(more.contains(h));
    }
}

/// Appending something lower keeps a sequence descending.
proof fn lemma_push_descends(
    positions: Seq<GlobalPosition>,
    bound: int,
    position: GlobalPosition,
)
    requires
        descending(positions),
        forall|x: GlobalPosition| #[trigger] positions.contains(x) ==> x.0 >= bound,
        position.0 < bound,
    ensures
        descending(positions.push(position)),
{
    let more = positions.push(position);
    assert forall|i: int, j: int| 0 <= i < j < more.len() implies more[i].0 > more[j].0 by {
        assert(positions.contains(positions[i]));
    }
}

/// The filter rejects the highest wanted position.
proof fn lemma_search_rejects(
    graph: Graph,
    roots: Seq<GlobalPosition>,
    heads: Seq<GlobalPosition>,
    range: Range<u32>,
    asked: Seq<GlobalPosition>,
    found: Seq<GlobalPosition>,
    bound: int,
    wanted: Set<GlobalPosition>,
    unwanted: Set<GlobalPosition>,
    wanted_after: Set<GlobalPosition>,
    unwanted_after: Set<GlobalPosition>,
    position: GlobalPosition,
)
    requires
        searches(graph, roots, heads, range, asked, found, bound, wanted, unwanted),
        graph.dom().contains(position),
        wanted.contains(position),
        forall|q: GlobalPosition| #[trigger] wanted.contains(q) ==> q.0 <= position.0,
        forall|q: GlobalPosition| #[trigger]
            clipped(graph[position].parent_positions, range).contains(q) ==> q.0 < position.0,
        forall|q: GlobalPosition| #[trigger]
            wanted_after.contains(q) <==> (wanted.contains(q) && q != position) || clipped(
                graph[position].parent_positions,
                range,
            ).contains(q),
        is_shifted(graph, unwanted, unwanted_after, position),
        !reached(falling(graph), unwanted, position),
    ensures
        searches(
            graph,
            roots,
            heads,
            range,
            asked.push(position),
            found,
            position.0 as int,
            wanted_after,
            unwanted_after,
        ),
{
    let step = past_rejected(graph, range, asked, found);
    let more_asked = asked.push(position);
    let next = past_rejected(graph, range, more_asked, found);
    lemma_push_contains(asked, position);
    assert(more_asked.contains(position));
    assert(!asked.contains(position));
    assert(!found.contains(position));
    assert forall|y: GlobalPosition, z: GlobalPosition| y != position implies (#[trigger] step(y, z)
        <==> next(y, z)) by {
        assert(more_asked.contains(y) <==> asked.contains(y));
    }
    assert forall|q: GlobalPosition| #[trigger] wanted_after.contains(q) <==> (wanted.contains(q)
        && q != position) || next(position, q) by {
        assert(next(position, q) <==> clipped(graph[position].parent_positions, range).contains(q));
    }
    lemma_frontier_advances(step, next, heads.to_set(), bound, wanted, wanted_after, position);
    lemma_push_descends(asked, bound, position);
    assert(!is_unwanted(graph, roots, found, position));
    assert(is_wanted(graph, heads, range, more_asked, found, position));
    assert forall|x: GlobalPosition| #[trigger] more_asked.contains(x) <==> x.0 >= position.0
        && is_wanted(graph, heads, range, more_asked, found, x) && !is_unwanted(
        graph,
        roots,
        found,
        x,
    ) by {
        if x.0 >= position.0 {
            assert(is_wanted(graph, heads, range, more_asked, found, x) <==> is_wanted(
                graph,
                heads,
                range,
                asked,
                found,
                x,
            ));
        }
    }
    assert forall|x: GlobalPosition| #[trigger]
        reached(falling(graph), unwanted_after, x) implies x.0 < position.0 by {
        lemma_reached_down(falling(graph), unwanted_after, x);
    }
    assert forall|c: GlobalPosition, q: GlobalPosition|
        more_asked.contains(c) && !found.contains(c) && #[trigger] clipped(
            graph[c].parent_positions,
            range,
        ).contains(q) implies q.0 < c.0 by {
        if c != position {
            assert(asked.contains(c));
        }
    }
}

/// Nothing more is wanted: the search is done.
proof fn lemma_search_ends(
    graph: Graph,
    roots: Seq<GlobalPosition>,
    heads: Seq<GlobalPosition>,
    range: Range<u32>,
    asked: Seq<GlobalPosition>,
    found: Seq<GlobalPosition>,
    bound: int,
    wanted: Set<GlobalPosition>,
    unwanted: Set<GlobalPosition>,
)
    requires
        searches(graph, roots, heads, range, asked, found, bound, wanted, unwanted),
        forall|q: GlobalPosition| !#[trigger] wanted.contains(q),
    ensures
        selects_range_above(graph, roots, heads, range, asked, found, 0),
        range_stays_below(graph, roots, heads, range, asked, found, 0),
{
    let step = past_rejected(graph, range, asked, found);
    assert forall|x: GlobalPosition| #[trigger]
        is_wanted(graph, heads, range, asked, found, x) implies x.0 >= bound by {
        if x.0 < bound {
            lemma_frontier_ahead(step, heads.to_set(), bound, wanted, x);
        }
    }
}

/// The highest wanted position is next.
proof fn lemma_search_next(
    graph: Graph,
    roots: Seq<GlobalPosition>,
    heads: Seq<GlobalPosition>,
    range: Range<u32>,
    asked: Seq<GlobalPosition>,
    found: Seq<GlobalPosition>,
    bound: int,
    wanted: Set<GlobalPosition>,
    unwanted: Set<GlobalPosition>,
    position: GlobalPosition,
)
    requires
        searches(graph, roots, heads, range, asked, found, bound, wanted, unwanted),
        wanted.contains(position),
        forall|q: GlobalPosition| #[trigger] wanted.contains(q) ==> q.0 <= position.0,
    ensures
        selects_range_above(graph, roots, heads, range, asked, found, position.0 + 1),
        range_stays_below(graph, roots, heads, range, asked, found, position.0 + 1),
        is_wanted(graph, heads, range, asked, found, position),
        reached(to_parents_in(graph, range), heads.to_set(), position),
        is_unwanted(graph, roots, found, position) ==> reached(
            falling(graph),
            unwanted,
            position,
        ),
{
    let step = past_rejected(graph, range, asked, found);
    lemma_frontier_reached(step, heads.to_set(), bound, wanted, position);
    assert forall|x: GlobalPosition|
        position.0 < x.0 && x.0 < bound implies !#[trigger] is_wanted(
        graph,
        heads,
        range,
        asked,
        found,
        x,
    ) by {
        if is_wanted(graph, heads, range, asked, found, x) {
            lemma_frontier_ahead(step, heads.to_set(), bound, wanted, x);
        }
    }
    lemma_wanted_is_reachable(graph, heads, range, asked, found, position);
}

/// Where the walk through what is left out finds nothing wrong from `limit` on,
/// nothing is wrong with what is left out.
proof fn lemma_search_fails(
    graph: Graph,
    roots: Seq<GlobalPosition>,
    heads: Seq<GlobalPosition>,
    range: Range<u32>,
    asked: Seq<GlobalPosition>,
    found: Seq<GlobalPosition>,
    bound: int,
    wanted: Set<GlobalPosition>,
    unwanted: Set<GlobalPosition>,
    limit: int,
)
    requires
        searches(graph, roots, heads, range, asked, found, bound, wanted, unwanted),
        forall|x: GlobalPosition| #[trigger]
            reached(falling(graph), unwanted, x) && x.0 >= limit ==> parents_below(graph, x),
    ensures
        excluded_stay_below(graph, roots, found, limit),
{
    assert forall|x: GlobalPosition|
        x.0 >= limit && #[trigger] is_excluded(graph, roots, found, x) implies parents_below(
        graph,
        x,
    ) by {
        if !is_under_roots(graph, roots, x) {
            let h = choose|h: GlobalPosition|
                found.contains(h) && #[trigger] is_under_head(graph, h, x);
        }
    }
}

/// What is wanted can be reached through parents in `range`.
pub proof fn lemma_wanted_is_reachable(
    graph: Graph,
    heads: Seq<GlobalPosition>,
    range: Range<u32>,
    asked: Seq<GlobalPosition>,
    found: Seq<GlobalPosition>,
    position: GlobalPosition,
)
    requires
        is_wanted(graph, heads, range, asked, found, position),
    ensures
        reached(to_parents_in(graph, range), heads.to_set(), position),
{
    let step = past_rejected(graph, range, asked, found);
    let from = choose|from: GlobalPosition|
        heads.to_set().contains(from) && #[trigger] connected(step, from, position);
    lemma_connected_weaken(step, to_parents_in(graph, range), from, position);
}

/// The filter accepts `found` among `asked`, and rejects the others.
pub open spec fn filter_answers<E, F: FnMut(GlobalPosition) -> Result<bool, E>>(
    filter: F,
    asked: Seq<GlobalPosition>,
    found: Seq<GlobalPosition>,
) -> bool {
    forall|x: GlobalPosition| #[trigger]
        asked.contains(x) ==> call_ensures(filter, (x,), Ok::<bool, E>(found.contains(x)))
}

/// `error` comes from the index error `cause`.
pub open spec fn comes_from<E: From<IndexError>>(error: E, cause: IndexError) -> bool {
    call_ensures(E::from, (cause,), error)
}

/// What is left out, from `bound` on, has an entry, and its parents below it.
pub open spec fn excluded_stay_below(
    graph: Graph,
    roots: Seq<GlobalPosition>,
    found: Seq<GlobalPosition>,
    bound: int,
) -> bool {
    forall|x: GlobalPosition|
        x.0 >= bound && #[trigger] is_excluded(graph, roots, found, x) ==> parents_below(graph, x)
}

/// `error` comes from what the search does at the wanted `position` before it asks
/// the filter: from the first entry where the walk through what is left out fails;
/// or, if the walk does not come to `position`, from the read of its entry.
pub open spec fn fails_before_asking<E: From<IndexError>>(
    model: IndexModel,
    roots: Seq<GlobalPosition>,
    found: Seq<GlobalPosition>,
    position: GlobalPosition,
    error: E,
) -> bool {
    ||| exists|x: GlobalPosition, cause: IndexError|
        {
            &&& x.0 >= position.0
            &&& is_excluded(model.graph, roots, found, x)
            &&& excluded_stay_below(model.graph, roots, found, x.0 + 1)
            &&& #[trigger] fails_at(model, x, cause)
            &&& #[trigger] comes_from(error, cause)
        }
    ||| {
        &&& !is_unwanted(model.graph, roots, found, position)
        &&& excluded_stay_below(model.graph, roots, found, position.0 as int)
        &&& exists|cause: IndexError|
            (model.faults)(Lookup::Entry(position), cause) && #[trigger] comes_from(error, cause)
    }
}

/// The walk through what is left out does not come to the wanted `position`, which
/// has an entry, and `error` comes from the filter, or from the first parent in
/// `range` of the rejected commit which is not below it.
pub open spec fn fails_on_asking<
    E: From<IndexError>,
    F: FnMut(GlobalPosition) -> Result<bool, E>,
>(
    model: IndexModel,
    roots: Seq<GlobalPosition>,
    range: Range<u32>,
    filter: F,
    found: Seq<GlobalPosition>,
    position: GlobalPosition,
    error: E,
) -> bool {
    let parents = clipped(model.graph[position].parent_positions, range);
    &&& !is_unwanted(model.graph, roots, found, position)
    &&& excluded_stay_below(model.graph, roots, found, position.0 as int)
    &&& model.graph.dom().contains(position)
    &&& {
        ||| call_ensures(filter, (position,), Err::<bool, E>(error))
        ||| {
            &&& call_ensures(filter, (position,), Ok::<bool, E>(false))
            &&& exists|cause: IndexError|
                reports_first_invalid(parents, position, cause) && #[trigger] comes_from(
                    error,
                    cause,
                )
        }
    }
}

/// `error` comes from the first wanted position where the search fails, when the
/// filter was asked about `calls`.
pub open spec fn fails_after_calls<
    E: From<IndexError>,
    F: FnMut(GlobalPosition) -> Result<bool, E>,
>(
    model: IndexModel,
    roots: Seq<GlobalPosition>,
    heads: Seq<GlobalPosition>,
    range: Range<u32>,
    filter: F,
    calls: Seq<GlobalPosition>,
    error: E,
) -> bool {
    exists|asked: Seq<GlobalPosition>, found: Seq<GlobalPosition>, position: GlobalPosition|
        {
            &&& selects_range_above(
                model.graph,
                roots,
                heads,
                range,
                asked,
                found,
                position.0 + 1,
            )
            &&& range_stays_below(
                model.graph,
                roots,
                heads,
                range,
                asked,
                found,
                position.0 + 1,
            )
            &&& filter_answers(filter, asked, found)
            &&& #[trigger] is_wanted(model.graph, heads, range, asked, found, position)
            &&& {
                ||| {
                    &&& calls == asked
                    &&& fails_before_asking(model, roots, found, position, error)
                }
                ||| {
                    &&& calls == asked.push(position)
                    &&& fails_on_asking(model, roots, range, filter, found, position, error)
                }
            }
        }
}

/// `error` comes from the first wanted position where the search fails.
pub open spec fn fails_in_range<
    E: From<IndexError>,
    F: FnMut(GlobalPosition) -> Result<bool, E>,
>(
    model: IndexModel,
    roots: Seq<GlobalPosition>,
    heads: Seq<GlobalPosition>,
    range: Range<u32>,
    filter: F,
    error: E,
) -> bool {
    exists|calls: Seq<GlobalPosition>| #[trigger]
        fails_after_calls(model, roots, heads, range, filter, calls, error)
}

/// `found` are the positions of the range which the filter accepts and which are
/// not below another one, from high to low.
pub open spec fn selects_range<E, F: FnMut(GlobalPosition) -> Result<bool, E>>(
    graph: Graph,
    roots: Seq<GlobalPosition>,
    heads: Seq<GlobalPosition>,
    range: Range<u32>,
    filter: F,
    asked: Seq<GlobalPosition>,
    found: Seq<GlobalPosition>,
) -> bool {
    &&& selects_range_above(graph, roots, heads, range, asked, found, 0)
    &&& range_stays_below(graph, roots, heads, range, asked, found, 0)
    &&& filter_answers(filter, asked, found)
}

/// `found` is selected from what the filter was asked about.
pub open spec fn is_range_selection<E, F: FnMut(GlobalPosition) -> Result<bool, E>>(
    graph: Graph,
    roots: Seq<GlobalPosition>,
    heads: Seq<GlobalPosition>,
    range: Range<u32>,
    filter: F,
    found: Seq<GlobalPosition>,
) -> bool {
    exists|asked: Seq<GlobalPosition>| #[trigger]
        selects_range(graph, roots, heads, range, filter, asked, found)
}

/// What a record has more than it had before.
pub open spec fn new_calls(
    before: Seq<GlobalPosition>,
    after: Seq<GlobalPosition>,
) -> Seq<GlobalPosition> {
    after.skip(before.len() as int)
}

/// What was added to a record is new on it.
proof fn lemma_new_calls(before: Seq<GlobalPosition>, asked: Seq<GlobalPosition>)
    ensures
        new_calls(before, before + asked) == asked,
        forall|p: GlobalPosition| #[trigger]
            (before + asked).push(p) == before + asked.push(p),
        forall|p: GlobalPosition|
            new_calls(before, before + #[trigger] asked.push(p)) == asked.push(p),
{
    assert(new_calls(before, before + asked) =~= asked);
    assert forall|p: GlobalPosition| #[trigger] (before + asked).push(p) == before + asked.push(
        p,
    ) by {
        assert((before + asked).push(p) =~= before + asked.push(p));
    }
    assert forall|p: GlobalPosition| new_calls(before, before + #[trigger] asked.push(p))
        == asked.push(p) by {
        assert(new_calls(before, before + asked.push(p)) =~= asked.push(p));
    }
}

/// Finds heads in the position range `roots..heads` while applying `filter`.
///
/// The returned positions and filter calls are in descending position order. The
/// calls of this search are added to the record of the filter.
pub fn search_range<
    T: PositionIndex + ?Sized,
    E,
    F: FnMut(GlobalPosition) -> Result<bool, E>,
>(
    index: &T,
    roots: &[GlobalPosition],
    heads: &[GlobalPosition],
    parents_range: &Range<u32>,
    filter: &mut RecordedFilter<F>,
) -> (result: Result<Vec<GlobalPosition>, E>) where E: From<IndexError>
    requires
        forall|p: GlobalPosition| #[trigger]
            may_be_asked(index.model().graph, roots@, heads@, *parents_range, p) ==> {
                &&& call_requires(old(filter).filter(), (p,))
                &&& call_ensures(old(filter).filter(), (p,), Ok::<bool, E>(false))
                    ==> is_clippable(index.model().graph[p].parent_positions, *parents_range)
            },
    ensures
        final(filter).filter() == old(filter).filter(),
        final(filter).calls() == old(filter).calls() + new_calls(
            old(filter).calls(),
            final(filter).calls(),
        ),
        match result {
            Ok(found) => selects_range(
                index.model().graph,
                roots@,
                heads@,
                *parents_range,
                old(filter).filter(),
                new_calls(old(filter).calls(), final(filter).calls()),
                found@,
            ),
            Err(error) => fails_after_calls(
                index.model(),
                roots@,
                heads@,
                *parents_range,
                old(filter).filter(),
                new_calls(old(filter).calls(), final(filter).calls()),
                error,
            ),
        },
{
    let ghost graph = index.model().graph;
    let ghost range = *parents_range;
    let ghost keep = filter.filter();
    let ghost mut asked = Seq::<GlobalPosition>::empty();
    let ghost mut bound: int = u32::MAX + 1;
    let mut wanted_queue = PositionHeap::from_positions(heads);
    let mut unwanted_queue = PositionHeap::from_positions(roots);
    let mut found: Vec<GlobalPosition> = Vec::new();
    proof {
        lemma_items(heads@);
        lemma_items(roots@);
        lemma_search_starts(
            graph,
            roots@,
            heads@,
            range,
            wanted_queue@.dom(),
            unwanted_queue@.dom(),
        );
        assert(found@ =~= Seq::<GlobalPosition>::empty());
        assert(filter.calls() =~= filter.calls() + asked);
    }
    loop
        invariant
            graph == index.model().graph,
            range == *parents_range,
            keep == old(filter).filter(),
            filter.filter() == keep,
            filter.calls() == old(filter).calls() + asked,
            forall|p: GlobalPosition| #[trigger]
                may_be_asked(graph, roots@, heads@, range, p) ==> {
                    &&& call_requires(keep, (p,))
                    &&& call_ensures(keep, (p,), Ok::<bool, E>(false)) ==> is_clippable(
                        graph[p].parent_positions,
                        range,
                    )
                },
            wanted_queue.wf(),
            unwanted_queue.wf(),
            filter_answers(keep, asked, found@),
            searches(
                graph,
                roots@,
                heads@,
                range,
                asked,
                found@,
                bound,
                wanted_queue@.dom(),
                unwanted_queue@.dom(),
            ),
        ensures
            wanted_queue@ == Multiset::<GlobalPosition>::empty(),
        decreases rank(wanted_queue@),
    {
        let ghost wanted = wanted_queue@;
        let ghost unwanted = unwanted_queue@;
        proof {
            lemma_new_calls(old(filter).calls(), asked);
        }
        let position = match wanted_queue.peek() {
            Some(position) => position,
            None => {
                break;
            },
        };
        proof {
            lemma_highest_of_dom(wanted, position);
            lemma_search_next(
                graph,
                roots@,
                heads@,
                range,
                asked,
                found@,
                bound,
                wanted.dom(),
                unwanted.dom(),
                position,
            );
        }
        let is_left_out = match shift_to_parents_until(&mut unwanted_queue, index, position) {
            Ok(is_left_out) => is_left_out,
            Err(cause) => {
                let error = E::from(cause);
                proof {
                    assert(comes_from(error, cause));
                    let x = choose|x: GlobalPosition|
                        x.0 >= position.0 && #[trigger] fails_first_at(
                            index.model(),
                            unwanted.dom(),
                            x,
                            cause,
                        );
                    lemma_search_fails(
                        graph,
                        roots@,
                        heads@,
                        range,
                        asked,
                        found@,
                        bound,
                        wanted.dom(),
                        unwanted.dom(),
                        x.0 + 1,
                    );
                    assert(fails_at(index.model(), x, cause));
                }
                return Err(error);
            },
        };
        let ghost shifted = unwanted_queue@;
        assert(is_shifted(graph, unwanted.dom(), shifted.dom(), position));
        if is_left_out {
            let _ = dedup_pop(&mut wanted_queue);
            proof {
                lemma_popped(wanted, wanted_queue@, position);
                lemma_search_leaves_out(
                    graph,
                    roots@,
                    heads@,
                    range,
                    asked,
                    found@,
                    bound,
                    wanted.dom(),
                    unwanted.dom(),
                    wanted_queue@.dom(),
                    shifted.dom(),
                    position,
                );
                bound = position.0 as int;
            }
            continue;
        }
        proof {
            lemma_search_fails(
                graph,
                roots@,
                heads@,
                range,
                asked,
                found@,
                bound,
                wanted.dom(),
                unwanted.dom(),
                position.0 as int,
            );
        }
        let entry = match index.entry_by_position(position) {
            Ok(entry) => entry,
            Err(cause) => {
                let error = E::from(cause);
                assert(comes_from(error, cause));
                return Err(error);
            },
        };
        assert(may_be_asked(graph, roots@, heads@, range, position));
        let is_accepted = match filter.ask(position) {
            Ok(is_accepted) => is_accepted,
            Err(error) => {
                return Err(error);
            },
        };
        if is_accepted {
            let _ = dedup_pop(&mut wanted_queue);
            unwanted_queue.extend(entry.parent_positions.as_slice());
            proof {
                lemma_popped(wanted, wanted_queue@, position);
                lemma_items(entry.parent_positions@);
                lemma_search_accepts(
                    graph,
                    roots@,
                    heads@,
                    range,
                    asked,
                    found@,
                    bound,
                    wanted.dom(),
                    unwanted.dom(),
                    wanted_queue@.dom(),
                    shifted.dom(),
                    unwanted_queue@.dom(),
                    position,
                );
                lemma_push_contains(asked, position);
                lemma_push_contains(found@, position);
                asked = asked.push(position);
                bound = position.0 as int;
            }
            found.push(position);
        } else {
            let parents = filter_slice_by_range(entry.parent_positions.as_slice(), parents_range);
            if let Err(cause) = shift_to_parents_from_slice(&mut wanted_queue, position, parents) {
                let error = E::from(cause);
                assert(comes_from(error, cause));
                return Err(error);
            }
            proof {
                lemma_items(parents@);
                lemma_search_rejects(
                    graph,
                    roots@,
                    heads@,
                    range,
                    asked,
                    found@,
                    bound,
                    wanted.dom(),
                    unwanted.dom(),
                    wanted_queue@.dom(),
                    shifted.dom(),
                    position,
                );
                lemma_push_contains(asked, position);
                lemma_expansion_sinks(
                    past_rejected(graph, range, asked.push(position), found@),
                    wanted,
                    wanted_queue@,
                    position,
                );
                asked = asked.push(position);
                bound = position.0 as int;
            }
        }
    }
    proof {
        lemma_search_ends(
            graph,
            roots@,
            heads@,
            range,
            asked,
            found@,
            bound,
            wanted_queue@.dom(),
            unwanted_queue@.dom(),
        );
        assert(selects_range(graph, roots@, heads@, range, keep, asked, found@));
        lemma_new_calls(old(filter).calls(), asked);
    }
    Ok(found)
}

/// Finds heads in the position range `roots..heads` while applying `filter`.
///
/// The returned positions and filter calls are in descending position order.
pub fn heads_from_range_and_filter<
    T: PositionIndex + ?Sized,
    E,
    F: FnMut(GlobalPosition) -> Result<bool, E>,
>(
    index: &T,
    roots: Vec<GlobalPosition>,
    heads: Vec<GlobalPosition>,
    parents_range: &Range<u32>,
    filter: F,
) -> (result: Result<Vec<GlobalPosition>, E>) where E: From<IndexError>
    requires
        forall|p: GlobalPosition| #[trigger]
            may_be_asked(index.model().graph, roots@, heads@, *parents_range, p) ==> {
                &&& call_requires(filter, (p,))
                &&& call_ensures(filter, (p,), Ok::<bool, E>(false)) ==> is_clippable(
                    index.model().graph[p].parent_positions,
                    *parents_range,
                )
            },
    ensures
        match result {
            Ok(found) => is_range_selection(
                index.model().graph,
                roots@,
                heads@,
                *parents_range,
                filter,
                found@,
            ),
            Err(error) => fails_in_range(
                index.model(),
                roots@,
                heads@,
                *parents_range,
                filter,
                error,
            ),
        },
{
    let mut recorded = RecordedFilter::new(filter);
    search_range(
        index,
        roots.as_slice(),
        heads.as_slice(),
        parents_range,
        &mut recorded,
    )
}

} // verus!
