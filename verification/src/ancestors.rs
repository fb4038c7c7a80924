//! Ancestry between commits.
use std::collections::HashSet;

use vstd::prelude::*;

use crate::error::{IndexError, IndexResult};
use crate::graph::{
    connected, has_parent, is_ancestor_in, is_ordered, lemma_ancestor_generation,
    lemma_ancestor_is_below, lemma_connected_append, lemma_connected_first, lemma_connected_keeps,
    lemma_connected_prepend, lemma_connected_self, lemma_connected_weaken, to_parents, Graph, Step,
};
use crate::lookup::{fails_to_locate, required_position};
use crate::object_id::CommitId;
use crate::position::GlobalPosition;
use crate::position_index::{IndexModel, Lookup, PositionIndex};

verus! {

broadcast use vstd::std_specs::hash::group_hash_axioms;

/// The steps of a search for `ancestor`: from a commit above it, and of a higher
/// generation, to the parents of the commit.
pub open spec fn towards(graph: Graph, ancestor: GlobalPosition) -> Step {
    |child: GlobalPosition, parent: GlobalPosition|
        {
            &&& has_parent(graph, child, parent)
            &&& child.0 > ancestor.0
            &&& graph[child].generation_number > graph[ancestor].generation_number
        }
}

/// A search from `descendant` finds `ancestor`.
pub open spec fn finds_ancestor(
    graph: Graph,
    ancestor: GlobalPosition,
    descendant: GlobalPosition,
) -> bool {
    connected(towards(graph, ancestor), descendant, ancestor)
}

/// Where a search is: what it has still to visit, the last first, and what it has
/// visited.
pub struct SearchState {
    /// The positions to visit.
    pub work: Seq<GlobalPosition>,
    /// The positions visited.
    pub visited: Set<u32>,
}

/// The search visits the next position, and has to read its entry: the position
/// is above `ancestor`, and is visited for the first time.
pub open spec fn has_to_read(ancestor: GlobalPosition, state: SearchState) -> bool {
    &&& state.work.len() > 0
    &&& state.work.last().0 > ancestor.0
    &&& !state.visited.contains(state.work.last().0)
}

/// What is to visit after the next position: its parents, the last first, if it
/// has to be read and its generation is above that of `ancestor`.
pub open spec fn next_work(
    graph: Graph,
    ancestor: GlobalPosition,
    state: SearchState,
) -> Seq<GlobalPosition> {
    let position = state.work.last();
    if has_to_read(ancestor, state) && graph[position].generation_number
        > graph[ancestor].generation_number {
        state.work.drop_last() + graph[position].parent_positions
    } else {
        state.work.drop_last()
    }
}

/// The search visits the next position, which is not `ancestor`.
pub open spec fn is_search_step(
    graph: Graph,
    ancestor: GlobalPosition,
    before: SearchState,
    after: SearchState,
) -> bool {
    &&& before.work.len() > 0
    &&& before.work.last() != ancestor
    &&& has_to_read(ancestor, before) ==> graph.dom().contains(before.work.last())
    &&& after.work == next_work(graph, ancestor, before)
    &&& after.visited == if has_to_read(ancestor, before) {
        before.visited.insert(before.work.last().0)
    } else {
        before.visited
    }
}

/// The search from `descendant` comes to `state` in `n` steps.
pub open spec fn searches_in(
    graph: Graph,
    ancestor: GlobalPosition,
    descendant: GlobalPosition,
    state: SearchState,
    n: nat,
) -> bool
    decreases n,
{
    if n == 0 {
        state.work == seq![descendant] && state.visited == Set::<u32>::empty()
    } else {
        exists|before: SearchState| #[trigger]
            is_search_step(graph, ancestor, before, state) && searches_in(
                graph,
                ancestor,
                descendant,
                before,
                (n - 1) as nat,
            )
    }
}

/// The search from `descendant` comes to `state`.
pub open spec fn searches_to(
    graph: Graph,
    ancestor: GlobalPosition,
    descendant: GlobalPosition,
    state: SearchState,
) -> bool {
    exists|n: nat| searches_in(graph, ancestor, descendant, state, n)
}

/// The search from `descendant` ends at `ancestor`, or, if not `found`, when there
/// is nothing left to visit.
pub open spec fn search_ends(
    graph: Graph,
    ancestor: GlobalPosition,
    descendant: GlobalPosition,
    found: bool,
) -> bool {
    exists|state: SearchState|
        {
            &&& #[trigger] searches_to(graph, ancestor, descendant, state)
            &&& if found {
                state.work.len() > 0 && state.work.last() == ancestor
            } else {
                state.work.len() == 0
            }
        }
}

/// The search from `descendant` answers `found`: it goes through the graph depth
/// first, from the last parent of a commit to the first, and ends there. If it
/// does not find `ancestor`, everything which it comes to has an entry. In an
/// ordered graph, it finds exactly the ancestors.
pub open spec fn answers_ancestor(
    graph: Graph,
    ancestor: GlobalPosition,
    descendant: GlobalPosition,
    found: bool,
) -> bool {
    &&& graph.dom().contains(ancestor)
    &&& found == finds_ancestor(graph, ancestor, descendant)
    &&& search_ends(graph, ancestor, descendant, found)
    &&& !found ==> forall|x: GlobalPosition| #[trigger]
        connected(towards(graph, ancestor), descendant, x) && x.0 > ancestor.0
            ==> graph.dom().contains(x)
    &&& is_ordered(graph) ==> found == is_ancestor_in(graph, ancestor, descendant)
}

/// `error` is a failure to read the entry of `ancestor`; or, if it has an entry,
/// of the position where the search is when it has to read the next entry.
pub open spec fn fails_on_ancestor(
    model: IndexModel,
    ancestor: GlobalPosition,
    descendant: GlobalPosition,
    error: IndexError,
) -> bool {
    ||| (model.faults)(Lookup::Entry(ancestor), error)
    ||| {
        &&& model.graph.dom().contains(ancestor)
        &&& exists|state: SearchState|
            {
                &&& #[trigger] searches_to(model.graph, ancestor, descendant, state)
                &&& has_to_read(ancestor, state)
                &&& connected(
                    towards(model.graph, ancestor),
                    descendant,
                    state.work.last(),
                )
                &&& (model.faults)(Lookup::Entry(state.work.last()), error)
            }
    }
}

/// A step leads on.
proof fn lemma_search_step(
    graph: Graph,
    ancestor: GlobalPosition,
    descendant: GlobalPosition,
    before: SearchState,
    after: SearchState,
)
    requires
        searches_to(graph, ancestor, descendant, before),
        is_search_step(graph, ancestor, before, after),
    ensures
        searches_to(graph, ancestor, descendant, after),
{
    let n = choose|n: nat| searches_in(graph, ancestor, descendant, before, n);
    assert(searches_in(graph, ancestor, descendant, after, n + 1));
}

/// In an ordered graph, the search finds exactly the ancestors.
pub proof fn lemma_finds_ancestors(
    graph: Graph,
    ancestor: GlobalPosition,
    descendant: GlobalPosition,
)
    requires
        is_ordered(graph),
        graph.dom().contains(ancestor),
    ensures
        finds_ancestor(graph, ancestor, descendant) <==> is_ancestor_in(
            graph,
            ancestor,
            descendant,
        ),
    decreases descendant.0,
{
    let step = towards(graph, ancestor);
    if finds_ancestor(graph, ancestor, descendant) {
        lemma_connected_weaken(step, to_parents(graph), descendant, ancestor);
    }
    if is_ancestor_in(graph, ancestor, descendant) {
        if ancestor == descendant {
            lemma_connected_self(step, ancestor);
        } else {
            let x = lemma_connected_first(to_parents(graph), descendant, ancestor);
            assert(has_parent(graph, descendant, x));
            lemma_finds_ancestors(graph, ancestor, x);
            lemma_ancestor_is_below(graph, ancestor, descendant);
            lemma_ancestor_generation(graph, ancestor, descendant);
            lemma_connected_prepend(step, descendant, x, ancestor);
        }
    }
}

/// A set of numbers below `n` has at most `n` members.
proof fn lemma_bounded_set(numbers: Set<u32>, n: nat)
    requires
        numbers.finite(),
        forall|x: u32| #[trigger] numbers.contains(x) ==> x < n,
    ensures
        numbers.len() <= n,
    decreases n,
{
    if n == 0 {
        assert(numbers =~= Set::<u32>::empty());
    } else if n <= u32::MAX + 1 {
        let last = (n - 1) as u32;
        lemma_bounded_set(numbers.remove(last), (n - 1) as nat);
    } else {
        lemma_bounded_set(numbers, (n - 1) as nat);
    }
}

/// Position-based implementation of [`is_ancestor()`].
pub fn is_ancestor_positions<T: PositionIndex + ?Sized>(
    index: &T,
    ancestor_pos: GlobalPosition,
    descendant_pos: GlobalPosition,
) -> (result: IndexResult<bool>)
    ensures
        match result {
            Ok(found) => answers_ancestor(
                index.model().graph,
                ancestor_pos,
                descendant_pos,
                found,
            ),
            Err(error) => fails_on_ancestor(index.model(), ancestor_pos, descendant_pos, error),
        },
{
    let ghost graph = index.model().graph;
    let ghost step = towards(graph, ancestor_pos);
    proof {
        if is_ordered(graph) && graph.dom().contains(ancestor_pos) {
            lemma_finds_ancestors(graph, ancestor_pos, descendant_pos);
        }
        lemma_connected_self(step, descendant_pos);
    }
    let ancestor_generation: u32 = index.entry_by_position(ancestor_pos)?.generation_number;
    let mut work: Vec<GlobalPosition> = Vec::new();
    work.push(descendant_pos);
    assert(work@[0] == descendant_pos);
    let mut visited: HashSet<u32> = HashSet::new();
    let ghost mut state = SearchState { work: work@, visited: visited@ };
    assert(searches_in(graph, ancestor_pos, descendant_pos, state, 0)) by {
        assert(work@ =~= seq![descendant_pos]);
        assert(visited@ =~= Set::<u32>::empty());
    }
    loop
        invariant
            graph == index.model().graph,
            step == towards(graph, ancestor_pos),
            graph.dom().contains(ancestor_pos),
            ancestor_generation == graph[ancestor_pos].generation_number,
            is_ordered(graph) ==> (finds_ancestor(graph, ancestor_pos, descendant_pos)
                <==> is_ancestor_in(graph, ancestor_pos, descendant_pos)),
            visited@.finite(),
            state.work == work@,
            state.visited == visited@,
            searches_to(graph, ancestor_pos, descendant_pos, state),
            forall|v: GlobalPosition| #[trigger]
                visited@.contains(v.0) ==> graph.dom().contains(v),
            forall|i: int|
                0 <= i < work@.len() ==> connected(step, descendant_pos, #[trigger] work@[i]),
            forall|v: u32| #[trigger] visited@.contains(v) ==> v > ancestor_pos.0,
            forall|x: GlobalPosition, y: GlobalPosition|
                visited@.contains(x.0) && #[trigger] step(x, y) ==> is_noted(
                    work@,
                    visited@,
                    ancestor_pos,
                    y,
                ),
            is_noted(work@, visited@, ancestor_pos, descendant_pos),
        ensures
            work@.len() == 0,
        decreases u32::MAX + 1 - visited@.len(), work@.len(),
    {
        let ghost here = state;
        let ghost pending = work@;
        let ghost seen = visited@;
        proof {
            lemma_bounded_set(seen, (u32::MAX + 1) as nat);
        }
        let position = match work.pop() {
            Some(position) => position,
            None => {
                break;
            },
        };
        assert(position == pending.last());
        if position.0 < ancestor_pos.0 {
            proof {
                lemma_noted_without_last(pending, seen, ancestor_pos);
                state = SearchState { work: work@, visited: visited@ };
                assert(next_work(graph, ancestor_pos, here) =~= work@);
                lemma_search_step(graph, ancestor_pos, descendant_pos, here, state);
            }
            continue;
        }
        if position.0 == ancestor_pos.0 {
            assert(position == ancestor_pos);
            assert(search_ends(graph, ancestor_pos, descendant_pos, true));
            return Ok(true);
        }
        if !visited.insert(position.0) {
            proof {
                lemma_noted_without_last(pending, seen, ancestor_pos);
                assert(visited@ =~= seen);
                state = SearchState { work: work@, visited: visited@ };
                assert(next_work(graph, ancestor_pos, here) =~= work@);
                lemma_search_step(graph, ancestor_pos, descendant_pos, here, state);
            }
            continue;
        }
        proof {
            lemma_bounded_set(visited@, (u32::MAX + 1) as nat);
            assert(has_to_read(ancestor_pos, here));
            assert(connected(step, descendant_pos, here.work.last()));
        }
        let entry = index.entry_by_position(position)?;
        let ghost rest = work@;
        if entry.generation_number > ancestor_generation {
            push_all(&mut work, entry.parent_positions.as_slice());
        }
        proof {
            let parents = if entry.generation_number > ancestor_generation {
                entry.parent_positions@
            } else {
                Seq::empty()
            };
            assert(work@ =~= rest + parents);
            state = SearchState { work: work@, visited: visited@ };
            assert(next_work(graph, ancestor_pos, here) =~= work@);
            lemma_search_step(graph, ancestor_pos, descendant_pos, here, state);
            assert forall|v: GlobalPosition| #[trigger] visited@.contains(
                v.0,
            ) implies graph.dom().contains(v) by {
                if v.0 == position.0 {
                    assert(v == position);
                }
            }
            assert forall|i: int| 0 <= i < work@.len() implies connected(
                step,
                descendant_pos,
                #[trigger] work@[i],
            ) by {
                if i < rest.len() {
                    assert(work@[i] == pending[i]);
                } else {
                    assert(parents.contains(work@[i])) by {
                        assert(parents[i - rest.len()] == work@[i]);
                    }
                    assert(step(position, work@[i]));
                    lemma_connected_append(step, descendant_pos, position, work@[i]);
                }
            }
            assert forall|y: GlobalPosition| #[trigger]
                is_noted(pending, seen, ancestor_pos, y) implies is_noted(
                work@,
                visited@,
                ancestor_pos,
                y,
            ) by {
                if pending.contains(y) && y != position {
                    let i = pending.index_of(y);
                    assert(work@[i] == y);
                }
            }
            assert forall|x: GlobalPosition, y: GlobalPosition|
                visited@.contains(x.0) && #[trigger] step(x, y) implies is_noted(
                work@,
                visited@,
                ancestor_pos,
                y,
            ) by {
                if x.0 == position.0 {
                    assert(x == position);
                    assert(parents.contains(y));
                    let i = parents.index_of(y);
                    assert(work@[rest.len() + i] == y);
                } else {
                    assert(seen.contains(x.0));
                    assert(is_noted(pending, seen, ancestor_pos, y));
                }
            }
        }
    }
    proof {
        let kept = |x: GlobalPosition| is_noted(work@, visited@, ancestor_pos, x);
        assert forall|x: GlobalPosition| #[trigger] connected(
            step,
            descendant_pos,
            x,
        ) implies kept(x) by {
            lemma_connected_keeps(step, kept, descendant_pos, x);
        }
        assert(!kept(ancestor_pos));
        assert(search_ends(graph, ancestor_pos, descendant_pos, false));
    }
    Ok(false)
}

/// The search has taken note of `position`: it is waiting, was visited, or is
/// below the ancestor which is searched for.
spec fn is_noted(
    work: Seq<GlobalPosition>,
    visited: Set<u32>,
    ancestor: GlobalPosition,
    position: GlobalPosition,
) -> bool {
    work.contains(position) || visited.contains(position.0) || position.0 < ancestor.0
}

/// Taking a position from the work which was visited, or is below the ancestor,
/// loses nothing.
proof fn lemma_noted_without_last(
    work: Seq<GlobalPosition>,
    visited: Set<u32>,
    ancestor: GlobalPosition,
)
    requires
        work.len() > 0,
        visited.contains(work.last().0) || work.last().0 < ancestor.0,
    ensures
        forall|x: GlobalPosition| #[trigger]
            is_noted(work, visited, ancestor, x) ==> is_noted(
                work.drop_last(),
                visited,
                ancestor,
                x,
            ),
{
    assert forall|x: GlobalPosition| #[trigger] is_noted(work, visited, ancestor, x) implies is_noted(
        work.drop_last(),
        visited,
        ancestor,
        x,
    ) by {
        if work.contains(x) && x != work.last() {
            let i = work.index_of(x);
            assert(work.drop_last()[i] == x);
        }
    }
}

/// Appends `positions` to `work`.
fn push_all(work: &mut Vec<GlobalPosition>, positions: &[GlobalPosition])
    ensures
        final(work)@ == old(work)@ + positions@,
{
    let ghost before = work@;
    let mut i: usize = 0;
    while i < positions.len()
        invariant
            i <= positions@.len(),
            work@ == before + positions@.take(i as int),
        decreases positions@.len() - i,
    {
        work.push(positions[i]);
        assert(positions@.take(i + 1) =~= positions@.take(i as int).push(positions@[i as int]));
        assert(work@ =~= before + positions@.take(i + 1));
        i += 1;
    }
    assert(positions@.take(i as int) =~= positions@);
}

/// Returns whether `ancestor` is reachable from `descendant`, including
/// equality.
pub fn is_ancestor<T: PositionIndex + ?Sized>(
    index: &T,
    ancestor: &CommitId,
    descendant: &CommitId,
) -> (result: IndexResult<bool>)
    ensures
        match result {
            Ok(found) => {
                let model = index.model();
                &&& model.positions.dom().contains(ancestor@)
                &&& model.positions.dom().contains(descendant@)
                &&& answers_ancestor(
                    model.graph,
                    model.positions[ancestor@],
                    model.positions[descendant@],
                    found,
                )
            },
            Err(error) => fails_on_ancestor_id(index.model(), ancestor@, descendant@, error),
        },
{
    let ancestor_pos = required_position(index, ancestor)?;
    let descendant_pos = required_position(index, descendant)?;
    is_ancestor_positions(index, ancestor_pos, descendant_pos)
}

/// `error` is a failure to locate one of the commits, or to read an entry which
/// the search reads.
pub open spec fn fails_on_ancestor_id(
    model: IndexModel,
    ancestor: Seq<u8>,
    descendant: Seq<u8>,
    error: IndexError,
) -> bool {
    ||| fails_to_locate(model, ancestor, error)
    ||| {
        &&& model.positions.dom().contains(ancestor)
        &&& fails_to_locate(model, descendant, error)
    }
    ||| {
        &&& model.positions.dom().contains(ancestor)
        &&& model.positions.dom().contains(descendant)
        &&& fails_on_ancestor(
            model,
            model.positions[ancestor],
            model.positions[descendant],
            error,
        )
    }
}

} // verus!
