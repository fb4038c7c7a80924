//! Heads among all indexed commits.
use std::collections::HashSet;

use vstd::prelude::*;

use crate::error::{IndexError, IndexResult};
use crate::graph::{
    has_parent, is_ancestor_in, is_topological, lemma_connected_last, lemma_connected_self,
    lemma_connected_prepend, to_parents, Graph,
};
use crate::head_laws::{has_other_descendant, is_heads_of, lemma_descending_unique};
use crate::position::{ascending, lemma_push_contains, GlobalPosition};
use crate::position_index::{IndexModel, Lookup, PositionIndex};

verus! {

broadcast use vstd::std_specs::hash::group_hash_axioms;

/// `position` is a parent of one of the first `count` commits.
pub open spec fn is_parent_of_any(graph: Graph, count: int, position: GlobalPosition) -> bool {
    exists|child: GlobalPosition| child.0 < count && #[trigger] has_parent(graph, child, position)
}

/// `heads` are those of the first `count` positions which are not a parent of any
/// of them, from low to high.
pub open spec fn is_all_heads(graph: Graph, count: u32, heads: Seq<GlobalPosition>) -> bool {
    &&& ascending(heads)
    &&& forall|p: GlobalPosition| #[trigger]
        heads.contains(p) <==> p.0 < count && !is_parent_of_any(graph, count as int, p)
}

/// The first `count` positions have entries.
pub open spec fn has_first_entries(graph: Graph, count: int) -> bool {
    forall|p: GlobalPosition| p.0 < count ==> #[trigger] graph.dom().contains(p)
}

/// `error` is a failure to read the entry of an indexed commit. The commits below
/// it have entries.
pub open spec fn fails_on_all(model: IndexModel, error: IndexError) -> bool {
    exists|p: GlobalPosition|
        p.0 < model.num_commits && has_first_entries(model.graph, p.0 as int) && #[trigger] (
        model.faults)(Lookup::Entry(p), error)
}

/// Returns positions which are heads among all indexed commits.
pub fn all_head_positions<T: PositionIndex + ?Sized>(index: &T) -> (result: IndexResult<
    Vec<GlobalPosition>,
>)
    ensures
        match result {
            Ok(heads) => {
                &&& has_first_entries(index.model().graph, index.model().num_commits as int)
                &&& is_all_heads(index.model().graph, index.model().num_commits, heads@)
            },
            Err(error) => fails_on_all(index.model(), error),
        },
{
    let ghost graph = index.model().graph;
    let num_commits: u32 = index.num_commits();
    let mut not_heads: HashSet<u32> = HashSet::new();
    let mut i: u32 = 0;
    while i < num_commits
        invariant
            graph == index.model().graph,
            num_commits == index.model().num_commits,
            i <= num_commits,
            has_first_entries(graph, i as int),
            forall|x: u32| #[trigger]
                not_heads@.contains(x) <==> is_parent_of_any(graph, i as int, GlobalPosition(x)),
        decreases num_commits - i,
    {
        let position = GlobalPosition(i);
        assert(position.0 < num_commits);
        let entry = index.entry_by_position(position)?;
        let ghost before = not_heads@;
        insert_all(&mut not_heads, entry.parent_positions.as_slice());
        proof {
            assert forall|x: u32| #[trigger] not_heads@.contains(x) <==> is_parent_of_any(
                graph,
                i + 1,
                GlobalPosition(x),
            ) by {
                let p = GlobalPosition(x);
                assert(before.contains(x) <==> is_parent_of_any(graph, i as int, p));
                if entry.parent_positions@.contains(p) {
                    assert(has_parent(graph, position, p));
                }
                if is_parent_of_any(graph, i + 1, p) {
                    let child = choose|child: GlobalPosition|
                        child.0 < i + 1 && #[trigger] has_parent(graph, child, p);
                    if child.0 == i {
                        assert(child == position);
                    }
                }
            }
        }
        i += 1;
    }
    let mut heads: Vec<GlobalPosition> = Vec::new();
    let mut j: u32 = 0;
    while j < num_commits
        invariant
            j <= num_commits,
            forall|x: u32| #[trigger]
                not_heads@.contains(x) <==> is_parent_of_any(
                    graph,
                    num_commits as int,
                    GlobalPosition(x),
                ),
            ascending(heads@),
            forall|p: GlobalPosition| #[trigger]
                heads@.contains(p) <==> p.0 < j && !is_parent_of_any(graph, num_commits as int, p),
        decreases num_commits - j,
    {
        let ghost before = heads@;
        assert(not_heads@.contains(j) <==> is_parent_of_any(
            graph,
            num_commits as int,
            GlobalPosition(j),
        ));
        if !not_heads.contains(&j) {
            heads.push(GlobalPosition(j));
            proof {
                assert forall|a: int, b: int| 0 <= a < b < heads@.len() implies heads@[a].0
                    < heads@[b].0 by {
                    assert(before.contains(before[a]));
                }
                lemma_push_contains(before, GlobalPosition(j));
            }
        }
        assert forall|p: GlobalPosition| #[trigger] heads@.contains(p) <==> p.0 < j + 1
            && !is_parent_of_any(graph, num_commits as int, p) by {
            if p.0 == j {
                assert(p == GlobalPosition(j));
            }
        }
        j += 1;
    }
    Ok(heads)
}

/// Adds `positions` to a set.
fn insert_all(set: &mut HashSet<u32>, positions: &[GlobalPosition])
    ensures
        forall|x: u32| #[trigger]
            final(set)@.contains(x) <==> old(set)@.contains(x) || positions@.contains(
                GlobalPosition(x),
            ),
{
    let ghost before = set@;
    let mut i: usize = 0;
    while i < positions.len()
        invariant
            i <= positions@.len(),
            forall|x: u32| #[trigger]
                set@.contains(x) <==> before.contains(x) || positions@.take(i as int).contains(
                    GlobalPosition(x),
                ),
        decreases positions@.len() - i,
    {
        let position = positions[i];
        let _ = set.insert(position.0);
        proof {
            assert(positions@.take(i + 1) =~= positions@.take(i as int).push(position));
            lemma_push_contains(positions@.take(i as int), position);
        }
        i += 1;
    }
    assert(positions@.take(i as int) =~= positions@);
}

/// In a graph with parents below their children which holds the first `count`
/// positions, all heads, from high to low, are the heads among all positions.
pub proof fn lemma_all_heads(
    graph: Graph,
    count: u32,
    all: Seq<GlobalPosition>,
    all_heads: Seq<GlobalPosition>,
    heads: Seq<GlobalPosition>,
)
    requires
        is_topological(graph),
        forall|p: GlobalPosition| #[trigger] graph.dom().contains(p) <==> p.0 < count,
        forall|p: GlobalPosition| #[trigger] all.contains(p) <==> p.0 < count,
        is_all_heads(graph, count, all_heads),
        is_heads_of(graph, all, heads),
    ensures
        all_heads.reverse() == heads,
{
    let reversed = all_heads.reverse();
    assert forall|p: GlobalPosition| #[trigger] reversed.contains(p) <==> heads.contains(p) by {
        if reversed.contains(p) {
            let i = reversed.index_of(p);
            assert(all_heads[all_heads.len() - 1 - i] == p);
            assert(all_heads.contains(p));
        }
        if all_heads.contains(p) {
            let i = all_heads.index_of(p);
            assert(reversed[all_heads.len() - 1 - i] == p);
            assert(reversed.contains(p));
        }
        if is_parent_of_any(graph, count as int, p) {
            let child = choose|child: GlobalPosition|
                child.0 < count && #[trigger] has_parent(graph, child, p);
            lemma_connected_self(to_parents(graph), p);
            lemma_connected_prepend(to_parents(graph), child, p, p);
            assert(all.contains(child));
            assert(is_ancestor_in(graph, p, child));
            assert(has_other_descendant(graph, all, p));
        }
        if has_other_descendant(graph, all, p) {
            let d = choose|d: GlobalPosition|
                all.contains(d) && d != p && #[trigger] is_ancestor_in(graph, p, d);
            let child = lemma_connected_last(to_parents(graph), d, p);
            assert(has_parent(graph, child, p));
            assert(graph.dom().contains(child));
        }
    }
    lemma_descending_unique(reversed, heads);
}

} // verus!
