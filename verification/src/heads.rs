//! Heads among a set of commits.
use vstd::multiset::Multiset;
use vstd::prelude::*;

use crate::error::{IndexError, IndexResult};
use crate::graph::{
    is_expansion, is_ordered, lemma_expand, lemma_reached_down, lemma_reached_start,
    lemma_reached_union, reached, Graph,
};
use crate::head_laws::{is_heads_of, lemma_selected_heads};
use crate::heap::{lemma_rank, lemma_rank_below, rank, PositionHeap};
use crate::position::{descending, GlobalPosition};
use crate::position_index::{IndexModel, Lookup, PositionIndex};
use crate::queue::{dedup_pop, without};
use crate::walk::{
    falling_above, lemma_expansion_sinks, parents_below, reports_invalid_parent,
    shift_to_parents_with_entry,
};

verus! {

broadcast use {vstd::multiset::group_multiset_axioms, vstd::seq_lib::group_to_multiset_ensures};

/// `floor` is the lowest generation among `positions`.
pub open spec fn is_lowest_generation(
    graph: Graph,
    positions: Seq<GlobalPosition>,
    floor: u32,
) -> bool {
    &&& exists|p: GlobalPosition| #[trigger]
        positions.contains(p) && graph[p].generation_number == floor
    &&& forall|p: GlobalPosition| #[trigger]
        positions.contains(p) ==> graph[p].generation_number >= floor
}

/// The lowest generation among `positions`.
pub open spec fn lowest_generation(graph: Graph, positions: Seq<GlobalPosition>) -> u32 {
    choose|floor: u32| is_lowest_generation(graph, positions, floor)
}

/// A walk from the parents of `head`, which goes on only from commits whose
/// generation is above `floor`, comes to `position`.
pub open spec fn lies_under(
    graph: Graph,
    floor: u32,
    head: GlobalPosition,
    position: GlobalPosition,
) -> bool {
    reached(falling_above(graph, floor), graph[head].parent_positions.to_set(), position)
}

/// `position` lies under one of `heads`.
pub open spec fn is_covered(
    graph: Graph,
    floor: u32,
    heads: Seq<GlobalPosition>,
    position: GlobalPosition,
) -> bool {
    exists|head: GlobalPosition|
        heads.contains(head) && #[trigger] lies_under(graph, floor, head, position)
}

/// `position` lies under one of `heads` which is above it.
pub open spec fn is_covered_from_above(
    graph: Graph,
    floor: u32,
    heads: Seq<GlobalPosition>,
    position: GlobalPosition,
) -> bool {
    exists|head: GlobalPosition|
        heads.contains(head) && head.0 > position.0 && #[trigger] lies_under(
            graph,
            floor,
            head,
            position,
        )
}

/// `heads` are those of `candidates` which lie under none of the heads above
/// them, from high to low. No walk goes below the lowest generation among the
/// candidates.
pub open spec fn selects_heads(
    graph: Graph,
    candidates: Seq<GlobalPosition>,
    heads: Seq<GlobalPosition>,
) -> bool {
    &&& descending(heads)
    &&& forall|c: GlobalPosition| #[trigger]
        heads.contains(c) <==> candidates.contains(c) && !is_covered_from_above(
            graph,
            lowest_generation(graph, candidates),
            heads,
            c,
        )
}

/// `error` is a failure to read the entry at `position`, or, if its generation
/// is above `floor`, reports a parent of that entry which is not below it.
pub open spec fn fails_above(
    model: IndexModel,
    floor: u32,
    position: GlobalPosition,
    error: IndexError,
) -> bool {
    ||| (model.faults)(Lookup::Entry(position), error)
    ||| {
        &&& model.graph[position].generation_number > floor
        &&& reports_invalid_parent(model.graph, position, error)
    }
}

/// `heads` are those of `candidates` from `bound` on which lie under none of the
/// heads above them, from high to low.
pub open spec fn selects_heads_above(
    graph: Graph,
    candidates: Seq<GlobalPosition>,
    heads: Seq<GlobalPosition>,
    bound: int,
) -> bool {
    &&& descending(heads)
    &&& forall|c: GlobalPosition| #[trigger]
        heads.contains(c) <==> candidates.contains(c) && c.0 >= bound && !is_covered_from_above(
            graph,
            lowest_generation(graph, candidates),
            heads,
            c,
        )
}

/// What lies under `heads`, from `bound` on, has an entry and, where a walk goes on
/// from it, its parents below it.
pub open spec fn covered_stay_below(
    graph: Graph,
    floor: u32,
    heads: Seq<GlobalPosition>,
    bound: int,
) -> bool {
    forall|x: GlobalPosition|
        x.0 >= bound && #[trigger] is_covered(graph, floor, heads, x) ==> stays_below(
            graph,
            floor,
            x,
        )
}

/// `error` comes from the entry at `position`, on the walk from `heads`, those
/// selected so far, down to the next of `candidates`, which is `next`. Nothing
/// was wrong with what the walk came to before.
pub open spec fn fails_on_heads_at(
    model: IndexModel,
    candidates: Seq<GlobalPosition>,
    heads: Seq<GlobalPosition>,
    next: GlobalPosition,
    position: GlobalPosition,
    error: IndexError,
) -> bool {
    let floor = lowest_generation(model.graph, candidates);
    &&& forall|c: GlobalPosition| #[trigger]
        candidates.contains(c) ==> model.graph.dom().contains(c)
    &&& candidates.contains(next)
    &&& selects_heads_above(model.graph, candidates, heads, next.0 + 1)
    &&& is_covered(model.graph, floor, heads, position)
    &&& position.0 >= next.0
    &&& sweep_stays_below(model.graph, candidates, heads, next.0 + 1)
    &&& covered_stay_below(model.graph, floor, heads, position.0 + 1)
    &&& fails_above(model, floor, position, error)
}

/// Those of `candidates` which are above `position` have entries.
pub open spec fn has_entries_above(
    graph: Graph,
    candidates: Seq<GlobalPosition>,
    position: GlobalPosition,
) -> bool {
    forall|c: GlobalPosition| #[trigger]
        candidates.contains(c) && c.0 > position.0 ==> graph.dom().contains(c)
}

/// `error` comes from an entry which the search for the heads of `candidates`
/// reads: that of the highest candidate which cannot be read, or the first on the
/// way from the heads down to the next candidate which cannot be read or has a
/// parent which is not below it.
pub open spec fn fails_on_heads(
    model: IndexModel,
    candidates: Seq<GlobalPosition>,
    error: IndexError,
) -> bool {
    ||| exists|c: GlobalPosition| #[trigger]
        candidates.contains(c) && has_entries_above(model.graph, candidates, c) && (
        model.faults)(Lookup::Entry(c), error)
    ||| exists|heads: Seq<GlobalPosition>, next: GlobalPosition, position: GlobalPosition| #[trigger]
        fails_on_heads_at(model, candidates, heads, next, position, error)
}

/// Returns `positions` from high to low, each once.
fn sort_descending(positions: &[GlobalPosition]) -> (sorted: Vec<GlobalPosition>)
    ensures
        descending(sorted@),
        forall|p: GlobalPosition| #[trigger] sorted@.contains(p) <==> positions@.contains(p),
{
    let mut queue = PositionHeap::from_positions(positions);
    let mut sorted: Vec<GlobalPosition> = Vec::new();
    assert forall|p: GlobalPosition| #[trigger] sorted@.contains(p) || queue@.contains(p)
        <==> positions@.contains(p) by {}
    loop
        invariant
            queue.wf(),
            descending(sorted@),
            forall|p: GlobalPosition|
                #![trigger sorted@.contains(p)]
                #![trigger queue@.contains(p)]
                sorted@.contains(p) || queue@.contains(p) <==> positions@.contains(p),
            forall|p: GlobalPosition, i: int|
                #![trigger queue@.contains(p), sorted@[i]]
                queue@.contains(p) && 0 <= i < sorted@.len() ==> p.0 < sorted@[i].0,
        ensures
            queue@ == Multiset::<GlobalPosition>::empty(),
        decreases rank(queue@),
    {
        let ghost waiting = queue@;
        let ghost before = sorted@;
        match dedup_pop(&mut queue) {
            None => {
                break;
            },
            Some(position) => {
                sorted.push(position);
                proof {
                    assert forall|p: GlobalPosition| #[trigger] queue@.contains(p) implies p.0
                        < position.0 by {
                        assert(waiting.contains(p));
                    }
                    lemma_rank(waiting, position);
                    lemma_rank_below(queue@, position);
                    assert(waiting.contains(position));
                    assert forall|p: GlobalPosition| #[trigger] sorted@.contains(p) <==> before.contains(
                        p,
                    ) || p == position by {
                        if before.contains(p) {
                            let i = before.index_of(p);
                            assert(sorted@[i] == p);
                        }
                        assert(sorted@[before.len() as int] == position);
                    }
                    assert forall|p: GlobalPosition|
                        #![trigger sorted@.contains(p)]
                        #![trigger queue@.contains(p)]
                        sorted@.contains(p) || queue@.contains(p) <==> positions@.contains(p) by {
                        assert(before.contains(p) || waiting.contains(p) <==> positions@.contains(
                            p,
                        ));
                        assert(queue@.contains(p) <==> waiting.contains(p) && p != position);
                    }
                }
            },
        }
    }
    assert forall|p: GlobalPosition| #[trigger] sorted@.contains(p) <==> positions@.contains(
        p,
    ) by {
        assert(!queue@.contains(p));
    }
    sorted
}

/// `error` comes from the entry at `position`, on the walk from `starts`, and
/// nothing was wrong with what is above it.
spec fn walk_fails_at(
    model: IndexModel,
    floor: u32,
    starts: Set<GlobalPosition>,
    position: GlobalPosition,
    error: IndexError,
) -> bool {
    let step = falling_above(model.graph, floor);
    &&& reached(step, starts, position)
    &&& forall|x: GlobalPosition| #[trigger]
        reached(step, starts, x) && x.0 > position.0 ==> stays_below(model.graph, floor, x)
    &&& fails_above(model, floor, position, error)
}

/// The walk fails at the highest position of its frontier.
proof fn lemma_walk_fails(
    model: IndexModel,
    floor: u32,
    starts: Set<GlobalPosition>,
    waiting: Set<GlobalPosition>,
    position: GlobalPosition,
    error: IndexError,
)
    requires
        reached(falling_above(model.graph, floor), starts, position),
        forall|x: GlobalPosition| #[trigger] waiting.contains(x) ==> x.0 <= position.0,
        forall|x: GlobalPosition| #[trigger]
            reached(falling_above(model.graph, floor), starts, x) ==> reached(
                falling_above(model.graph, floor),
                waiting,
                x,
            ) || stays_below(model.graph, floor, x),
        fails_above(model, floor, position, error),
    ensures
        walk_fails_at(model, floor, starts, position, error),
{
    let step = falling_above(model.graph, floor);
    assert forall|x: GlobalPosition| #[trigger] reached(step, starts, x) && x.0
        > position.0 implies stays_below(model.graph, floor, x) by {
        if reached(step, waiting, x) {
            lemma_reached_down(step, waiting, x);
        }
    }
}

/// Walks down from the queue to `candidate`, and returns whether it is reached.
/// What remains in the queue is below `candidate`. The walk goes on only from
/// commits whose generation is above `min_generation`.
fn shift_to_candidate<T: PositionIndex + ?Sized>(
    queue: &mut PositionHeap,
    index: &T,
    candidate: GlobalPosition,
    min_generation: u32,
) -> (result: IndexResult<bool>)
    requires
        old(queue).wf(),
    ensures
        final(queue).wf(),
        match result {
            Ok(found) => {
                let step = falling_above(index.model().graph, min_generation);
                let before = old(queue)@.dom();
                let after = final(queue)@.dom();
                &&& found == reached(step, before, candidate)
                &&& forall|x: GlobalPosition| #[trigger] after.contains(x) ==> x.0 < candidate.0
                &&& forall|x: GlobalPosition|
                    x.0 < candidate.0 ==> (#[trigger] reached(step, after, x) <==> reached(
                        step,
                        before,
                        x,
                    ))
                &&& forall|x: GlobalPosition| #[trigger]
                    reached(step, before, x) && x.0 >= candidate.0 ==> stays_below(
                        index.model().graph,
                        min_generation,
                        x,
                    )
            },
            Err(error) => exists|x: GlobalPosition|
                x.0 >= candidate.0 && #[trigger] walk_fails_at(
                    index.model(),
                    min_generation,
                    old(queue)@.dom(),
                    x,
                    error,
                ),
        },
{
    let ghost graph = index.model().graph;
    let ghost step = falling_above(graph, min_generation);
    let ghost before = queue@.dom();
    loop
        invariant
            queue.wf(),
            graph == index.model().graph,
            step == falling_above(graph, min_generation),
            before == old(queue)@.dom(),
            forall|x: GlobalPosition| #[trigger]
                reached(step, queue@.dom(), x) ==> reached(step, before, x),
            forall|x: GlobalPosition| #[trigger]
                reached(step, before, x) ==> reached(step, queue@.dom(), x) || x.0 > candidate.0
                    && stays_below(graph, min_generation, x),
        ensures
            forall|x: GlobalPosition| #[trigger] queue@.dom().contains(x) ==> x.0 < candidate.0,
        decreases rank(queue@),
    {
        let ghost waiting = queue@;
        let parent = match queue.peek() {
            Some(parent) => parent,
            None => {
                break;
            },
        };
        assert forall|x: GlobalPosition| #[trigger] queue@.dom().contains(x) implies x.0
            <= parent.0 by {
            assert(queue@.contains(x));
        }
        if parent.0 < candidate.0 {
            break;
        }
        proof {
            lemma_reached_start(step, waiting.dom(), parent);
        }
        let entry = match index.entry_by_position(parent) {
            Ok(entry) => entry,
            Err(error) => {
                proof {
                    lemma_walk_fails(
                        index.model(),
                        min_generation,
                        before,
                        waiting.dom(),
                        parent,
                        error,
                    );
                }
                return Err(error);
            },
        };
        if entry.generation_number <= min_generation {
            let _ = dedup_pop(queue);
        } else if let Err(error) = shift_to_parents_with_entry(queue, parent, &entry) {
            proof {
                lemma_walk_fails(
                    index.model(),
                    min_generation,
                    before,
                    waiting.dom(),
                    parent,
                    error,
                );
            }
            return Err(error);
        }
        proof {
            lemma_shifted_above(graph, min_generation, waiting, queue@, parent);
            lemma_expand(step, waiting.dom(), queue@.dom(), parent);
            lemma_expansion_sinks(step, waiting, queue@, parent);
        }
        if parent.0 == candidate.0 {
            proof {
                assert(parent == candidate);
                assert forall|x: GlobalPosition| #[trigger] reached(step, before, x) && x.0
                    >= candidate.0 implies stays_below(graph, min_generation, x) by {
                    if reached(step, waiting.dom(), x) {
                        lemma_reached_down(step, waiting.dom(), x);
                        assert(x == candidate);
                    }
                }
            }
            return Ok(true);
        }
    }
    proof {
        assert forall|x: GlobalPosition| #[trigger] reached(step, queue@.dom(), x) implies x.0
            < candidate.0 by {
            lemma_reached_down(step, queue@.dom(), x);
        }
    }
    Ok(false)
}

/// There is an entry at `child` and, if its generation is above `floor`, all its
/// parents are below it.
pub open spec fn stays_below(graph: Graph, floor: u32, child: GlobalPosition) -> bool {
    &&& graph.dom().contains(child)
    &&& graph[child].generation_number > floor ==> parents_below(graph, child)
}

/// Shifting a position to its parents, or dropping it if its generation is not
/// above `floor`, expands it.
proof fn lemma_shifted_above(
    graph: Graph,
    floor: u32,
    before: Multiset<GlobalPosition>,
    after: Multiset<GlobalPosition>,
    position: GlobalPosition,
)
    requires
        graph.dom().contains(position),
        before.contains(position),
        if graph[position].generation_number <= floor {
            after == without(before, position)
        } else {
            &&& forall|i: int|
                0 <= i < graph[position].parent_positions.len() ==> (
                #[trigger] graph[position].parent_positions[i]).0 < position.0
            &&& after == without(before, position).add(
                graph[position].parent_positions.to_multiset(),
            )
        },
    ensures
        stays_below(graph, floor, position),
        is_expansion(falling_above(graph, floor), before.dom(), after.dom(), position),
{
    let parents = graph[position].parent_positions;
    assert forall|x: GlobalPosition| #[trigger] after.dom().contains(x) <==> (
    before.dom().contains(x) && x != position) || falling_above(graph, floor)(position, x) by {
        assert(parents.contains(x) <==> parents.to_multiset().count(x) > 0);
    }
}

/// What holds between two candidates of the search for heads: `heads` are
/// selected from the first `n` of `candidates`, which run from high to low, and
/// `queue` leads to what lies under them.
spec fn sweeps(
    graph: Graph,
    floor: u32,
    candidates: Seq<GlobalPosition>,
    n: int,
    heads: Seq<GlobalPosition>,
    queue: Set<GlobalPosition>,
) -> bool {
    let step = falling_above(graph, floor);
    &&& 0 <= n <= candidates.len()
    &&& descending(heads)
    &&& forall|h: GlobalPosition| #[trigger]
        heads.contains(h) ==> graph.dom().contains(h) && candidates.take(n).contains(h)
    &&& forall|c: GlobalPosition| #[trigger]
        candidates.take(n).contains(c) ==> (heads.contains(c) <==> !is_covered_from_above(
            graph,
            floor,
            heads,
            c,
        ))
    &&& forall|x: GlobalPosition| #[trigger]
        reached(step, queue, x) ==> is_covered(graph, floor, heads, x)
    &&& forall|x: GlobalPosition| #[trigger]
        is_covered(graph, floor, heads, x) && (n > 0 ==> x.0 < candidates[n - 1].0) ==> reached(
            step,
            queue,
            x,
        )
    &&& forall|h: GlobalPosition, x: GlobalPosition|
        heads.contains(h) && #[trigger] lies_under(graph, floor, h, x) ==> {
            ||| stays_below(graph, floor, x)
            ||| reached(step, queue, x) && n > 0 && (x.0 < candidates[n - 1].0 || h
                == candidates[n - 1])
        }
}

/// The next candidate is reached: it is no head.
proof fn lemma_sweep_reached(
    graph: Graph,
    floor: u32,
    candidates: Seq<GlobalPosition>,
    n: int,
    heads: Seq<GlobalPosition>,
    before: Set<GlobalPosition>,
    after: Set<GlobalPosition>,
)
    requires
        descending(candidates),
        n < candidates.len(),
        sweeps(graph, floor, candidates, n, heads, before),
        reached(falling_above(graph, floor), before, candidates[n]),
        forall|x: GlobalPosition| #[trigger] after.contains(x) ==> x.0 < candidates[n].0,
        forall|x: GlobalPosition|
            x.0 < candidates[n].0 ==> (#[trigger] reached(falling_above(graph, floor), after, x)
                <==> reached(falling_above(graph, floor), before, x)),
        forall|x: GlobalPosition| #[trigger]
            reached(falling_above(graph, floor), before, x) && x.0 >= candidates[n].0
                ==> stays_below(graph, floor, x),
    ensures
        sweeps(graph, floor, candidates, n + 1, heads, after),
{
    let step = falling_above(graph, floor);
    let c = candidates[n];
    lemma_take_one_more(candidates, n);
    assert(is_covered(graph, floor, heads, c));
    let h = choose|h: GlobalPosition| heads.contains(h) && #[trigger] lies_under(graph, floor, h, c);
    assert(h.0 > c.0) by {
        assert(candidates.take(n).contains(h));
    }
    assert(is_covered_from_above(graph, floor, heads, c));
    assert forall|x: GlobalPosition| #[trigger] reached(step, after, x) implies x.0 < c.0 by {
        lemma_reached_down(step, after, x);
    }
}

/// The next candidate is not reached: it is a head.
proof fn lemma_sweep_head(
    graph: Graph,
    floor: u32,
    candidates: Seq<GlobalPosition>,
    n: int,
    heads: Seq<GlobalPosition>,
    before: Set<GlobalPosition>,
    after: Set<GlobalPosition>,
    extended: Set<GlobalPosition>,
)
    requires
        descending(candidates),
        n < candidates.len(),
        graph.dom().contains(candidates[n]),
        sweeps(graph, floor, candidates, n, heads, before),
        !reached(falling_above(graph, floor), before, candidates[n]),
        forall|x: GlobalPosition| #[trigger] after.contains(x) ==> x.0 < candidates[n].0,
        forall|x: GlobalPosition|
            x.0 < candidates[n].0 ==> (#[trigger] reached(falling_above(graph, floor), after, x)
                <==> reached(falling_above(graph, floor), before, x)),
        forall|x: GlobalPosition| #[trigger]
            reached(falling_above(graph, floor), before, x) && x.0 >= candidates[n].0
                ==> stays_below(graph, floor, x),
        forall|x: GlobalPosition| #[trigger]
            extended.contains(x) <==> after.contains(x)
                || graph[candidates[n]].parent_positions.contains(x),
    ensures
        sweeps(graph, floor, candidates, n + 1, heads.push(candidates[n]), extended),
{
    let step = falling_above(graph, floor);
    let c = candidates[n];
    let parents = graph[c].parent_positions.to_set();
    let more = heads.push(c);
    lemma_take_one_more(candidates, n);
    assert forall|h: GlobalPosition| #[trigger] more.contains(h) <==> heads.contains(h) || h
        == c by {
        assert(more[heads.len() as int] == c);
        if heads.contains(h) {
            assert(more[heads.index_of(h)] == h);
        }
    }
    assert forall|h: GlobalPosition| #[trigger] heads.contains(h) implies h.0 > c.0 by {
        assert(candidates.take(n).contains(h));
    }
    assert(descending(more)) by {
        assert forall|i: int, j: int| 0 <= i < j < more.len() implies more[i].0 > more[j].0 by {
            assert(heads.contains(heads[i]));
        }
    }
    assert(!is_covered(graph, floor, heads, c)) by {
        if n > 0 {
            assert(candidates[n - 1].0 > c.0);
        }
    }
    assert forall|x: GlobalPosition| #[trigger] reached(step, after, x) implies x.0 < c.0 by {
        lemma_reached_down(step, after, x);
    }
    lemma_reached_union(step, after, parents, extended);
    assert forall|x: GlobalPosition| #[trigger] is_covered(graph, floor, more, x) <==> is_covered(
        graph,
        floor,
        heads,
        x,
    ) || lies_under(graph, floor, c, x) by {
        if is_covered(graph, floor, more, x) {
            let h = choose|h: GlobalPosition|
                more.contains(h) && #[trigger] lies_under(graph, floor, h, x);
        }
        if is_covered(graph, floor, heads, x) {
            let h = choose|h: GlobalPosition|
                heads.contains(h) && #[trigger] lies_under(graph, floor, h, x);
            assert(more.contains(h));
        }
        assert(more.contains(c));
    }
    assert forall|d: GlobalPosition| #[trigger] candidates.take(n + 1).contains(d) implies (
    more.contains(d) <==> !is_covered_from_above(graph, floor, more, d)) by {
        if d == c {
            if is_covered_from_above(graph, floor, more, c) {
                let h = choose|h: GlobalPosition|
                    more.contains(h) && h.0 > c.0 && #[trigger] lies_under(graph, floor, h, c);
                assert(is_covered(graph, floor, heads, c));
            }
        } else {
            assert(candidates.take(n).contains(d));
            assert(d.0 > c.0);
            if is_covered_from_above(graph, floor, more, d) {
                let h = choose|h: GlobalPosition|
                    more.contains(h) && h.0 > d.0 && #[trigger] lies_under(graph, floor, h, d);
                assert(heads.contains(h));
            }
            if is_covered_from_above(graph, floor, heads, d) {
                let h = choose|h: GlobalPosition|
                    heads.contains(h) && h.0 > d.0 && #[trigger] lies_under(graph, floor, h, d);
                assert(more.contains(h));
            }
        }
    }
}

/// The first `n + 1` of `candidates` are the first `n` and the next one, which
/// is below them.
proof fn lemma_take_one_more(candidates: Seq<GlobalPosition>, n: int)
    requires
        descending(candidates),
        0 <= n < candidates.len(),
    ensures
        forall|c: GlobalPosition| #[trigger]
            candidates.take(n + 1).contains(c) <==> candidates.take(n).contains(c) || c
                == candidates[n],
        forall|c: GlobalPosition| #[trigger]
            candidates.take(n).contains(c) ==> c.0 > candidates[n].0,
{
    let more = candidates.take(n + 1);
    assert(more =~= candidates.take(n).push(candidates[n]));
    assert forall|c: GlobalPosition| #[trigger] more.contains(c) <==> candidates.take(n).contains(
        c,
    ) || c == candidates[n] by {
        assert(more[n] == candidates[n]);
        if candidates.take(n).contains(c) {
            assert(more[candidates.take(n).index_of(c)] == c);
        }
    }
}

/// The search for the heads of `candidates` finds `heads`: all candidates have
/// entries, and every parent on the way is below its child. In an ordered graph,
/// the heads are the candidates which are not ancestors of another one.
pub open spec fn finds_heads(
    graph: Graph,
    candidates: Seq<GlobalPosition>,
    heads: Seq<GlobalPosition>,
) -> bool {
    &&& forall|c: GlobalPosition| #[trigger] candidates.contains(c) ==> graph.dom().contains(c)
    &&& selects_heads(graph, candidates, heads)
    &&& sweep_stays_below(graph, candidates, heads, 0)
    &&& is_ordered(graph) ==> is_heads_of(graph, candidates, heads)
}

/// Returns head positions among `candidates`, sorted in descending order.
pub fn heads_positions<T: PositionIndex + ?Sized>(
    index: &T,
    candidates: Vec<GlobalPosition>,
) -> (result: IndexResult<Vec<GlobalPosition>>)
    ensures
        match result {
            Ok(heads) => finds_heads(index.model().graph, candidates@, heads@),
            Err(error) => fails_on_heads(index.model(), candidates@, error),
        },
{
    let ghost given = candidates@;
    let ghost graph = index.model().graph;
    let sorted = sort_descending(candidates.as_slice());
    if sorted.len() == 0 {
        assert forall|c: GlobalPosition| !given.contains(c) by {
            assert(!sorted@.contains(c));
        }
        proof {
            if is_ordered(graph) {
                lemma_selected_heads(graph, given, sorted@);
            }
        }
        return Ok(sorted);
    }
    let mut min_generation: u32 = u32::MAX;
    let mut i: usize = 0;
    while i < sorted.len()
        invariant
            i <= sorted@.len(),
            descending(sorted@),
            given == candidates@,
            graph == index.model().graph,
            forall|c: GlobalPosition| #[trigger] sorted@.contains(c) <==> given.contains(c),
            forall|j: int|
                0 <= j < i ==> graph.dom().contains(#[trigger] sorted@[j])
                    && graph[sorted@[j]].generation_number >= min_generation,
            i > 0 ==> exists|j: int|
                0 <= j < i && graph[#[trigger] sorted@[j]].generation_number == min_generation,
            i == 0 ==> min_generation == u32::MAX,
        decreases sorted@.len() - i,
    {
        proof {
            assert(sorted@.contains(sorted@[i as int]));
            assert(has_entries_above(graph, given, sorted@[i as int])) by {
                assert forall|c: GlobalPosition| #[trigger] given.contains(c) && c.0
                    > sorted@[i as int].0 implies graph.dom().contains(c) by {
                    assert(sorted@.contains(c));
                    assert(sorted@.index_of(c) < i);
                }
            }
        }
        let generation: u32 = index.entry_by_position(sorted[i])?.generation_number;
        if generation < min_generation {
            min_generation = generation;
        }
        i += 1;
    }
    let ghost floor = lowest_generation(graph, given);
    proof {
        let j = choose|j: int|
            0 <= j < i && graph[#[trigger] sorted@[j]].generation_number == min_generation;
        assert(sorted@.contains(sorted@[j]));
        assert forall|c: GlobalPosition| #[trigger] given.contains(c) implies graph.dom().contains(
            c,
        ) && graph[c].generation_number >= min_generation by {
            assert(sorted@.contains(c));
        }
        assert(is_lowest_generation(graph, given, min_generation));
        assert(is_lowest_generation(graph, given, floor));
        let p = choose|p: GlobalPosition| #[trigger]
            given.contains(p) && graph[p].generation_number == floor;
        assert(floor == min_generation);
    }

    let mut parents = PositionHeap::new();
    let mut heads: Vec<GlobalPosition> = Vec::new();
    let mut n: usize = 0;
    proof {
        lemma_sweep_start(graph, floor, sorted@, parents@.dom());
        assert(heads@ =~= Seq::<GlobalPosition>::empty());
    }
    while n < sorted.len()
        invariant
            n <= sorted@.len(),
            parents.wf(),
            descending(sorted@),
            given == candidates@,
            graph == index.model().graph,
            floor == min_generation,
            floor == lowest_generation(graph, given),
            forall|c: GlobalPosition| #[trigger] sorted@.contains(c) <==> given.contains(c),
            forall|c: GlobalPosition| #[trigger] given.contains(c) ==> graph.dom().contains(c),
            sweeps(graph, floor, sorted@, n as int, heads@, parents@.dom()),
        decreases sorted@.len() - n,
    {
        let candidate = sorted[n];
        let ghost before = parents@.dom();
        let found = match shift_to_candidate(&mut parents, index, candidate, min_generation) {
            Ok(found) => found,
            Err(error) => {
                proof {
                    let x = choose|x: GlobalPosition|
                        x.0 >= candidate.0 && #[trigger] walk_fails_at(
                            index.model(),
                            min_generation,
                            before,
                            x,
                            error,
                        );
                    lemma_sweep_failure(
                        index.model(),
                        sorted@,
                        given,
                        n as int,
                        heads@,
                        before,
                        x,
                        error,
                    );
                }
                return Err(error);
            },
        };
        let ghost after = parents@.dom();
        if found {
            proof {
                lemma_sweep_reached(
                    graph,
                    floor,
                    sorted@,
                    n as int,
                    heads@,
                    before,
                    after,
                );
            }
        } else {
            proof {
                assert(sorted@.contains(candidate));
            }
            let entry = index.entry_by_position(candidate)?;
            parents.extend(entry.parent_positions.as_slice());
            proof {
                assert forall|x: GlobalPosition| #[trigger] parents@.dom().contains(x)
                    <==> after.contains(x) || graph[candidate].parent_positions.contains(x) by {
                    assert(entry.parent_positions@.contains(x)
                        <==> entry.parent_positions@.to_multiset().count(x) > 0);
                }
                lemma_sweep_head(
                    graph,
                    floor,
                    sorted@,
                    n as int,
                    heads@,
                    before,
                    after,
                    parents@.dom(),
                );
            }
            heads.push(candidate);
        }
        n += 1;
    }
    proof {
        lemma_sweep_end(graph, given, sorted@, heads@, parents@.dom());
        if is_ordered(graph) {
            lemma_selected_heads(graph, given, heads@);
        }
    }
    Ok(heads)
}

/// Between the heads and the lowest candidate from `bound` on, everything has an
/// entry, and every parent is below its child.
pub open spec fn sweep_stays_below(
    graph: Graph,
    candidates: Seq<GlobalPosition>,
    heads: Seq<GlobalPosition>,
    bound: int,
) -> bool {
    let floor = lowest_generation(graph, candidates);
    forall|h: GlobalPosition, c: GlobalPosition, x: GlobalPosition|
        heads.contains(h) && #[trigger] candidates.contains(c) && bound <= c.0 && c.0 < h.0 && c.0
            <= x.0 && #[trigger] lies_under(graph, floor, h, x) ==> stays_below(graph, floor, x)
}

/// The sweep begins with nothing.
proof fn lemma_sweep_start(
    graph: Graph,
    floor: u32,
    candidates: Seq<GlobalPosition>,
    queue: Set<GlobalPosition>,
)
    requires
        forall|x: GlobalPosition| !#[trigger] queue.contains(x),
    ensures
        sweeps(graph, floor, candidates, 0, Seq::<GlobalPosition>::empty(), queue),
{
}

/// A failure of the walk comes from what lies under the heads selected so far.
proof fn lemma_sweep_failure(
    model: IndexModel,
    candidates: Seq<GlobalPosition>,
    given: Seq<GlobalPosition>,
    n: int,
    heads: Seq<GlobalPosition>,
    queue: Set<GlobalPosition>,
    position: GlobalPosition,
    error: IndexError,
)
    requires
        descending(candidates),
        n < candidates.len(),
        forall|c: GlobalPosition| #[trigger] candidates.contains(c) <==> given.contains(c),
        forall|c: GlobalPosition| #[trigger]
            given.contains(c) ==> model.graph.dom().contains(c),
        sweeps(model.graph, lowest_generation(model.graph, given), candidates, n, heads, queue),
        position.0 >= candidates[n].0,
        walk_fails_at(
            model,
            lowest_generation(model.graph, given),
            queue,
            position,
            error,
        ),
    ensures
        fails_on_heads(model, given, error),
{
    let floor = lowest_generation(model.graph, given);
    let step = falling_above(model.graph, floor);
    let next = candidates[n];
    assert(candidates.contains(next));
    assert forall|c: GlobalPosition| #[trigger] candidates.take(n).contains(c) <==> given.contains(
        c,
    ) && c.0 > next.0 by {
        if candidates.take(n).contains(c) {
            let i = candidates.take(n).index_of(c);
            assert(candidates[i] == c);
            assert(candidates.contains(c));
        }
        if given.contains(c) && c.0 > next.0 {
            assert(candidates.contains(c));
            let i = candidates.index_of(c);
            assert(candidates.take(n)[i] == c);
        }
    }
    assert(selects_heads_above(model.graph, given, heads, next.0 + 1)) by {
        assert forall|c: GlobalPosition| #[trigger] heads.contains(c) <==> given.contains(c) && c.0
            >= next.0 + 1 && !is_covered_from_above(model.graph, floor, heads, c) by {
            assert(candidates.take(n).contains(c) <==> given.contains(c) && c.0 > next.0);
        }
    }
    assert forall|x: GlobalPosition|
        x.0 >= position.0 + 1 && #[trigger] is_covered(
            model.graph,
            floor,
            heads,
            x,
        ) implies stays_below(model.graph, floor, x) by {
        let h = choose|h: GlobalPosition|
            heads.contains(h) && #[trigger] lies_under(model.graph, floor, h, x);
    }
    assert forall|h: GlobalPosition, c: GlobalPosition, x: GlobalPosition|
        heads.contains(h) && #[trigger] given.contains(c) && next.0 + 1 <= c.0 && c.0 < h.0 && c.0
            <= x.0 && #[trigger] lies_under(model.graph, floor, h, x) implies stays_below(
        model.graph,
        floor,
        x,
    ) by {
        assert(candidates.take(n).contains(c));
        let i = candidates.take(n).index_of(c);
        assert(candidates[i] == c);
        assert(candidates[n - 1].0 <= c.0);
    }
    assert(fails_on_heads_at(model, given, heads, next, position, error));
}

/// After the last candidate, the heads are selected.
proof fn lemma_sweep_end(
    graph: Graph,
    given: Seq<GlobalPosition>,
    candidates: Seq<GlobalPosition>,
    heads: Seq<GlobalPosition>,
    queue: Set<GlobalPosition>,
)
    requires
        descending(candidates),
        forall|c: GlobalPosition| #[trigger] candidates.contains(c) <==> given.contains(c),
        sweeps(
            graph,
            lowest_generation(graph, given),
            candidates,
            candidates.len() as int,
            heads,
            queue,
        ),
    ensures
        selects_heads(graph, given, heads),
        sweep_stays_below(graph, given, heads, 0),
{
    assert(candidates.take(candidates.len() as int) =~= candidates);
    assert forall|c: GlobalPosition| #[trigger] heads.contains(c) <==> given.contains(c)
        && !is_covered_from_above(graph, lowest_generation(graph, given), heads, c) by {
        assert(candidates.contains(c) <==> given.contains(c));
    }
    assert forall|h: GlobalPosition, c: GlobalPosition, x: GlobalPosition|
        heads.contains(h) && #[trigger] given.contains(c) && c.0 < h.0 && c.0 <= x.0
            && #[trigger] lies_under(graph, lowest_generation(graph, given), h, x) implies stays_below(
        graph,
        lowest_generation(graph, given),
        x,
    ) by {
        assert(candidates.contains(c));
        assert(candidates.last().0 <= c.0);
    }
}

} // verus!
