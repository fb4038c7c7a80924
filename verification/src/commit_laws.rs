//! Queries by commit ID, in terms of the positions of commits and of ancestors.
use vstd::prelude::*;

use crate::all_heads::{fails_on_all, has_first_entries, is_all_heads};
use crate::commits::{
    borrowed_id_bytes, fails_after_taking, fails_to_name_common_ancestors, fails_to_name_heads,
    finds_entries, holds_all, is_rest, names_all_heads, names_common_ancestors, names_heads,
    positions_of,
};
use crate::common::{fails_on_common_ancestors, meets_with_heads};
use crate::common_path_laws::{
    lemma_common_ancestors_are_best, lemma_common_ancestors_are_common,
    lemma_common_failure_has_cause,
};
use crate::error::IndexError;
use crate::graph::{has_parent, is_ancestor_in, is_ordered, lemma_ancestor_reflexive, Graph};
use crate::head_path_laws::{
    lemma_heads_are_maximal, lemma_heads_are_sorted_candidates, lemma_heads_failure_has_cause,
};
use crate::heads::{fails_on_heads, finds_heads};
use crate::lookup::{
    fails_to_identify, fails_to_locate_any, fails_to_locate_at, id_bytes, identifies,
};
use crate::object_id::CommitId;
use crate::position::GlobalPosition;
use crate::position_index::{IndexModel, Lookup};

verus! {

/// The positions of commits are those under which the index has their IDs, one by
/// one.
pub proof fn lemma_positions_of(model: IndexModel, ids: Seq<Seq<u8>>)
    ensures
        positions_of(model, ids).len() == ids.len(),
        forall|i: int|
            0 <= i < ids.len() ==> #[trigger] positions_of(model, ids)[i]
                == model.positions[ids[i]],
{
}

/// An index holds all of some commits if it has a position for each.
pub proof fn lemma_holds_each(model: IndexModel, ids: Seq<Seq<u8>>)
    ensures
        holds_all(model, ids) <==> forall|id: Seq<u8>| #[trigger]
            ids.contains(id) ==> model.positions.dom().contains(id),
{
    if holds_all(model, ids) {
        assert forall|id: Seq<u8>| #[trigger] ids.contains(id) implies model.positions.dom().contains(
            id,
        ) by {
            let i = ids.index_of(id);
            assert(model.positions.dom().contains(ids[i]));
        }
    }
    if forall|id: Seq<u8>| #[trigger] ids.contains(id) ==> model.positions.dom().contains(id) {
        assert forall|i: int| 0 <= i < ids.len() implies model.positions.dom().contains(
            #[trigger] ids[i],
        ) by {
            assert(ids.contains(ids[i]));
        }
    }
}

/// The bytes of IDs are taken one by one.
pub proof fn lemma_id_bytes(ids: Seq<CommitId>, borrowed: Seq<&CommitId>)
    ensures
        id_bytes(ids).len() == ids.len(),
        forall|i: int| 0 <= i < ids.len() ==> #[trigger] id_bytes(ids)[i] == ids[i]@,
        borrowed_id_bytes(borrowed).len() == borrowed.len(),
        forall|i: int|
            0 <= i < borrowed.len() ==> #[trigger] borrowed_id_bytes(borrowed)[i] == borrowed[i]@,
{
}

/// The positions of commits contain a position exactly if it is that of one of
/// them.
proof fn lemma_contains_position(model: IndexModel, ids: Seq<Seq<u8>>, x: GlobalPosition)
    ensures
        positions_of(model, ids).contains(x) <==> exists|i: int|
            0 <= i < ids.len() && model.positions[#[trigger] ids[i]] == x,
{
    let positions = positions_of(model, ids);
    if positions.contains(x) {
        let i = positions.index_of(x);
        assert(model.positions[ids[i]] == x);
    }
    if exists|i: int| 0 <= i < ids.len() && model.positions[#[trigger] ids[i]] == x {
        let i = choose|i: int| 0 <= i < ids.len() && model.positions[#[trigger] ids[i]] == x;
        assert(positions[i] == x);
    }
}

/// The IDs of the heads among commits are those at positions, from high to low,
/// which hold each head once: the positions of the given commits which the search
/// for heads finds.
pub proof fn lemma_named_heads_have_positions(
    model: IndexModel,
    candidates: Seq<Seq<u8>>,
    heads: Seq<Seq<u8>>,
) -> (positions: Seq<GlobalPosition>)
    requires
        names_heads(model, candidates, heads),
    ensures
        finds_heads(
            model.graph,
            Seq::new(candidates.len(), |i: int| model.positions[candidates[i]]),
            positions,
        ),
        positions.len() == heads.len(),
        forall|i: int, j: int| 0 <= i < j < positions.len() ==> positions[i].0 > positions[j].0,
        forall|i: int|
            0 <= i < positions.len() ==> model.graph.dom().contains(#[trigger] positions[i])
                && heads[i] == model.graph[positions[i]].commit_id,
{
    let given = positions_of(model, candidates);
    let positions = choose|positions: Seq<GlobalPosition>| #[trigger]
        finds_heads(model.graph, given, positions) && identifies(model, positions, heads);
    assert(given =~= Seq::new(candidates.len(), |i: int| model.positions[candidates[i]]));
    lemma_heads_are_sorted_candidates(model.graph, given, positions);
    positions
}

/// In an ordered graph, an ID is that of a head among commits exactly if it is in
/// the entry at the position of one of these commits, which is an ancestor of no
/// other of them. There are as many IDs as such positions, and they come in
/// descending order of the positions.
pub proof fn lemma_named_heads_are_maximal(
    model: IndexModel,
    candidates: Seq<Seq<u8>>,
    heads: Seq<Seq<u8>>,
) -> (positions: Seq<GlobalPosition>)
    requires
        is_ordered(model.graph),
        names_heads(model, candidates, heads),
    ensures
        positions.len() == heads.len(),
        forall|i: int, j: int| 0 <= i < j < positions.len() ==> positions[i].0 > positions[j].0,
        forall|i: int|
            0 <= i < positions.len() ==> heads[i] == model.graph[#[trigger] positions[i]].commit_id,
        forall|x: GlobalPosition| #[trigger]
            positions.contains(x) <==> {
                &&& exists|i: int|
                    0 <= i < candidates.len() && model.positions[#[trigger] candidates[i]] == x
                &&& forall|j: int|
                    0 <= j < candidates.len() && is_ancestor_in(
                        model.graph,
                        x,
                        model.positions[#[trigger] candidates[j]],
                    ) ==> model.positions[candidates[j]] == x
            },
        forall|id: Seq<u8>| #[trigger]
            heads.contains(id) <==> exists|i: int|
                0 <= i < candidates.len()
                    && model.graph[model.positions[#[trigger] candidates[i]]].commit_id == id
                    && forall|j: int|
                    0 <= j < candidates.len() && is_ancestor_in(
                        model.graph,
                        model.positions[candidates[i]],
                        model.positions[#[trigger] candidates[j]],
                    ) ==> model.positions[candidates[j]] == model.positions[candidates[i]],
{
    let given = positions_of(model, candidates);
    let positions = choose|positions: Seq<GlobalPosition>| #[trigger]
        finds_heads(model.graph, given, positions) && identifies(model, positions, heads);
    lemma_heads_are_maximal(model.graph, given, positions);
    assert forall|x: GlobalPosition| #[trigger] positions.contains(x) <==> {
        &&& exists|i: int|
            0 <= i < candidates.len() && model.positions[#[trigger] candidates[i]] == x
        &&& forall|j: int|
            0 <= j < candidates.len() && is_ancestor_in(
                model.graph,
                x,
                model.positions[#[trigger] candidates[j]],
            ) ==> model.positions[candidates[j]] == x
    } by {
        lemma_contains_position(model, candidates, x);
        if positions.contains(x) {
            assert forall|j: int|
                0 <= j < candidates.len() && is_ancestor_in(
                    model.graph,
                    x,
                    model.positions[#[trigger] candidates[j]],
                ) implies model.positions[candidates[j]] == x by {
                assert(given[j] == model.positions[candidates[j]]);
                assert(given.contains(given[j]));
            }
        } else if given.contains(x) {
            let d = choose|d: GlobalPosition|
                given.contains(d) && #[trigger] is_ancestor_in(model.graph, x, d) && d != x;
            let j = given.index_of(d);
            assert(model.positions[candidates[j]] == d);
        }
    }
    assert forall|id: Seq<u8>| #[trigger] heads.contains(id) <==> exists|i: int|
        0 <= i < candidates.len()
            && model.graph[model.positions[#[trigger] candidates[i]]].commit_id == id && forall|
            j: int,
        |
            0 <= j < candidates.len() && is_ancestor_in(
                model.graph,
                model.positions[candidates[i]],
                model.positions[#[trigger] candidates[j]],
            ) ==> model.positions[candidates[j]] == model.positions[candidates[i]] by {
        if heads.contains(id) {
            let k = heads.index_of(id);
            let x = positions[k];
            assert(positions.contains(x));
            let i = choose|i: int|
                0 <= i < candidates.len() && model.positions[#[trigger] candidates[i]] == x;
            assert(model.graph[model.positions[candidates[i]]].commit_id == id);
        }
        if exists|i: int|
            0 <= i < candidates.len()
                && model.graph[model.positions[#[trigger] candidates[i]]].commit_id == id
                && forall|j: int|
                0 <= j < candidates.len() && is_ancestor_in(
                    model.graph,
                    model.positions[candidates[i]],
                    model.positions[#[trigger] candidates[j]],
                ) ==> model.positions[candidates[j]] == model.positions[candidates[i]] {
            let i = choose|i: int|
                0 <= i < candidates.len()
                    && model.graph[model.positions[#[trigger] candidates[i]]].commit_id == id
                    && forall|j: int|
                    0 <= j < candidates.len() && is_ancestor_in(
                        model.graph,
                        model.positions[candidates[i]],
                        model.positions[#[trigger] candidates[j]],
                    ) ==> model.positions[candidates[j]] == model.positions[candidates[i]];
            let x = model.positions[candidates[i]];
            assert(positions.contains(x));
            let k = positions.index_of(x);
            assert(positions[k] == x);
            assert(heads[k] == id);
        }
    }
    positions
}

/// In an ordered graph of an index where the commits found have entries, a commit
/// is a head among commits exactly if it is one of them, and an ancestor of no
/// other of them.
pub proof fn lemma_named_heads_are_maximal_candidates(
    model: IndexModel,
    candidates: Seq<Seq<u8>>,
    heads: Seq<Seq<u8>>,
    id: Seq<u8>,
)
    requires
        is_ordered(model.graph),
        finds_entries(model),
        forall|other: Seq<u8>| #[trigger]
            candidates.contains(other) ==> model.positions.dom().contains(other),
        names_heads(model, candidates, heads),
    ensures
        heads.contains(id) <==> candidates.contains(id) && forall|other: Seq<u8>| #[trigger]
            candidates.contains(other) && is_ancestor_in(
                model.graph,
                model.positions[id],
                model.positions[other],
            ) ==> other == id,
{
    let _ = lemma_named_heads_are_maximal(model, candidates, heads);
    assert forall|other: Seq<u8>| #[trigger] candidates.contains(other) implies model.graph[
        model.positions[other]
    ].commit_id == other by {
        assert(model.positions.dom().contains(other));
    }
    if heads.contains(id) {
        let i = choose|i: int|
            0 <= i < candidates.len()
                && model.graph[model.positions[#[trigger] candidates[i]]].commit_id == id
                && forall|j: int|
                0 <= j < candidates.len() && is_ancestor_in(
                    model.graph,
                    model.positions[candidates[i]],
                    model.positions[#[trigger] candidates[j]],
                ) ==> model.positions[candidates[j]] == model.positions[candidates[i]];
        assert(candidates.contains(candidates[i]));
        assert(candidates[i] == id);
        assert forall|other: Seq<u8>| #[trigger]
            candidates.contains(other) && is_ancestor_in(
                model.graph,
                model.positions[id],
                model.positions[other],
            ) implies other == id by {
            let j = candidates.index_of(other);
            assert(candidates[j] == other);
            assert(model.positions[candidates[j]] == model.positions[candidates[i]]);
        }
    }
    if candidates.contains(id) && forall|other: Seq<u8>| #[trigger]
        candidates.contains(other) && is_ancestor_in(
            model.graph,
            model.positions[id],
            model.positions[other],
        ) ==> other == id {
        let i = candidates.index_of(id);
        assert(candidates[i] == id);
        assert forall|j: int|
            0 <= j < candidates.len() && is_ancestor_in(
                model.graph,
                model.positions[candidates[i]],
                model.positions[#[trigger] candidates[j]],
            ) implies model.positions[candidates[j]] == model.positions[candidates[i]] by {
            assert(candidates.contains(candidates[j]));
        }
        assert(model.graph[model.positions[candidates[i]]].commit_id == id);
    }
}

/// The IDs of common ancestors are those at positions, from high to low, each of
/// which is an ancestor of one commit of each set.
pub proof fn lemma_named_common_ancestors_have_positions(
    model: IndexModel,
    first: Seq<Seq<u8>>,
    second: Seq<Seq<u8>>,
    best: Seq<Seq<u8>>,
) -> (result: (Seq<GlobalPosition>, Seq<GlobalPosition>))
    requires
        names_common_ancestors(model, first, second, best),
    ensures
        meets_with_heads(
            model.graph,
            Seq::new(first.len(), |i: int| model.positions[first[i]]),
            Seq::new(second.len(), |i: int| model.positions[second[i]]),
            result.0,
            result.1,
        ),
        result.1.len() == best.len(),
        forall|i: int, j: int| 0 <= i < j < result.1.len() ==> result.1[i].0 > result.1[j].0,
        forall|i: int|
            0 <= i < result.1.len() ==> model.graph.dom().contains(#[trigger] result.1[i])
                && best[i] == model.graph[result.1[i]].commit_id,
{
    let one = positions_of(model, first);
    let two = positions_of(model, second);
    let (found, positions) = choose|found: Seq<GlobalPosition>, positions: Seq<GlobalPosition>|
        #[trigger]
        meets_with_heads(model.graph, one, two, found, positions) && identifies(
            model,
            positions,
            best,
        );
    assert(one =~= Seq::new(first.len(), |i: int| model.positions[first[i]]));
    assert(two =~= Seq::new(second.len(), |i: int| model.positions[second[i]]));
    if positions.len() > 0 {
        assert(positions.contains(positions[0]));
        lemma_common_ancestors_are_common(
            model.graph,
            one,
            two,
            found,
            positions,
            positions[0],
        );
    }
    (found, positions)
}

/// In an ordered graph, the IDs of common ancestors are those in the entries at the
/// positions which are ancestors of one commit of each set, and of no other such
/// position. There are as many IDs as such positions, and they come in descending
/// order of the positions.
pub proof fn lemma_named_common_ancestors_are_best(
    model: IndexModel,
    first: Seq<Seq<u8>>,
    second: Seq<Seq<u8>>,
    best: Seq<Seq<u8>>,
) -> (positions: Seq<GlobalPosition>)
    requires
        is_ordered(model.graph),
        names_common_ancestors(model, first, second, best),
    ensures
        positions.len() == best.len(),
        forall|i: int, j: int| 0 <= i < j < positions.len() ==> positions[i].0 > positions[j].0,
        forall|i: int|
            0 <= i < positions.len() ==> best[i] == model.graph[#[trigger] positions[i]].commit_id,
        forall|x: GlobalPosition| #[trigger]
            positions.contains(x) <==> {
                &&& exists|i: int|
                    0 <= i < first.len() && is_ancestor_in(
                        model.graph,
                        x,
                        model.positions[#[trigger] first[i]],
                    )
                &&& exists|j: int|
                    0 <= j < second.len() && is_ancestor_in(
                        model.graph,
                        x,
                        model.positions[#[trigger] second[j]],
                    )
                &&& forall|y: GlobalPosition, i: int, j: int|
                    0 <= i < first.len() && 0 <= j < second.len() && is_ancestor_in(
                        model.graph,
                        y,
                        model.positions[#[trigger] first[i]],
                    ) && is_ancestor_in(model.graph, y, model.positions[#[trigger] second[j]])
                        && #[trigger] is_ancestor_in(model.graph, x, y) ==> y == x
            },
        forall|id: Seq<u8>| #[trigger]
            best.contains(id) <==> exists|x: GlobalPosition| #[trigger]
                positions.contains(x) && model.graph[x].commit_id == id,
{
    let graph = model.graph;
    let one = positions_of(model, first);
    let two = positions_of(model, second);
    let (found, positions) = choose|found: Seq<GlobalPosition>, positions: Seq<GlobalPosition>|
        #[trigger]
        meets_with_heads(graph, one, two, found, positions) && identifies(
            model,
            positions,
            best,
        );
    lemma_common_ancestors_are_best(graph, one, two, found, positions);
    assert forall|x: GlobalPosition| #[trigger] positions.contains(x) <==> {
        &&& exists|i: int|
            0 <= i < first.len() && is_ancestor_in(
                graph,
                x,
                model.positions[#[trigger] first[i]],
            )
        &&& exists|j: int|
            0 <= j < second.len() && is_ancestor_in(
                graph,
                x,
                model.positions[#[trigger] second[j]],
            )
        &&& forall|y: GlobalPosition, i: int, j: int|
            0 <= i < first.len() && 0 <= j < second.len() && is_ancestor_in(
                graph,
                y,
                model.positions[#[trigger] first[i]],
            ) && is_ancestor_in(graph, y, model.positions[#[trigger] second[j]])
                && #[trigger] is_ancestor_in(graph, x, y) ==> y == x
    } by {
        lemma_best_by_index(model, first, second, positions, x);
    }
    assert forall|id: Seq<u8>| #[trigger] best.contains(id) <==> exists|x: GlobalPosition|
        #[trigger]
        positions.contains(x) && graph[x].commit_id == id by {
        if best.contains(id) {
            let k = best.index_of(id);
            assert(positions.contains(positions[k]));
        }
        if exists|x: GlobalPosition| #[trigger]
            positions.contains(x) && graph[x].commit_id == id {
            let x = choose|x: GlobalPosition| #[trigger]
                positions.contains(x) && graph[x].commit_id == id;
            let k = positions.index_of(x);
            assert(positions[k] == x);
            assert(best[k] == id);
        }
    }
    positions
}

/// The best common ancestors of positions, by the places of the commits in their
/// sets.
proof fn lemma_best_by_index(
    model: IndexModel,
    first: Seq<Seq<u8>>,
    second: Seq<Seq<u8>>,
    positions: Seq<GlobalPosition>,
    x: GlobalPosition,
)
    requires
        ({
            let one = positions_of(model, first);
            let two = positions_of(model, second);
            positions.contains(x) <==> {
                &&& exists|a: GlobalPosition|
                    one.contains(a) && #[trigger] is_ancestor_in(model.graph, x, a)
                &&& exists|b: GlobalPosition|
                    two.contains(b) && #[trigger] is_ancestor_in(model.graph, x, b)
                &&& forall|y: GlobalPosition, a: GlobalPosition, b: GlobalPosition|
                    one.contains(a) && two.contains(b) && #[trigger] is_ancestor_in(
                        model.graph,
                        y,
                        a,
                    ) && #[trigger] is_ancestor_in(model.graph, y, b) && is_ancestor_in(
                        model.graph,
                        x,
                        y,
                    ) ==> y == x
            }
        }),
    ensures
        positions.contains(x) <==> {
            &&& exists|i: int|
                0 <= i < first.len() && is_ancestor_in(
                    model.graph,
                    x,
                    model.positions[#[trigger] first[i]],
                )
            &&& exists|j: int|
                0 <= j < second.len() && is_ancestor_in(
                    model.graph,
                    x,
                    model.positions[#[trigger] second[j]],
                )
            &&& forall|y: GlobalPosition, i: int, j: int|
                0 <= i < first.len() && 0 <= j < second.len() && is_ancestor_in(
                    model.graph,
                    y,
                    model.positions[#[trigger] first[i]],
                ) && is_ancestor_in(model.graph, y, model.positions[#[trigger] second[j]])
                    && #[trigger] is_ancestor_in(model.graph, x, y) ==> y == x
        },
{
    let graph = model.graph;
    let one = positions_of(model, first);
    let two = positions_of(model, second);
    if positions.contains(x) {
        let a = choose|a: GlobalPosition| one.contains(a) && #[trigger] is_ancestor_in(graph, x, a);
        let i = one.index_of(a);
        assert(model.positions[first[i]] == a);
        let b = choose|b: GlobalPosition| two.contains(b) && #[trigger] is_ancestor_in(graph, x, b);
        let j = two.index_of(b);
        assert(model.positions[second[j]] == b);
        assert forall|y: GlobalPosition, i: int, j: int|
            0 <= i < first.len() && 0 <= j < second.len() && is_ancestor_in(
                graph,
                y,
                model.positions[#[trigger] first[i]],
            ) && is_ancestor_in(graph, y, model.positions[#[trigger] second[j]])
                && #[trigger] is_ancestor_in(graph, x, y) implies y == x by {
            assert(one[i] == model.positions[first[i]]);
            assert(two[j] == model.positions[second[j]]);
            assert(one.contains(one[i]));
            assert(two.contains(two[j]));
        }
    }
    if {
        &&& exists|i: int|
            0 <= i < first.len() && is_ancestor_in(graph, x, model.positions[#[trigger] first[i]])
        &&& exists|j: int|
            0 <= j < second.len() && is_ancestor_in(
                graph,
                x,
                model.positions[#[trigger] second[j]],
            )
        &&& forall|y: GlobalPosition, i: int, j: int|
            0 <= i < first.len() && 0 <= j < second.len() && is_ancestor_in(
                graph,
                y,
                model.positions[#[trigger] first[i]],
            ) && is_ancestor_in(graph, y, model.positions[#[trigger] second[j]])
                && #[trigger] is_ancestor_in(graph, x, y) ==> y == x
    } {
        let i = choose|i: int|
            0 <= i < first.len() && is_ancestor_in(graph, x, model.positions[#[trigger] first[i]]);
        assert(one[i] == model.positions[first[i]]);
        assert(one.contains(one[i]));
        let j = choose|j: int|
            0 <= j < second.len() && is_ancestor_in(
                graph,
                x,
                model.positions[#[trigger] second[j]],
            );
        assert(two[j] == model.positions[second[j]]);
        assert(two.contains(two[j]));
        assert forall|y: GlobalPosition, a: GlobalPosition, b: GlobalPosition|
            one.contains(a) && two.contains(b) && #[trigger] is_ancestor_in(graph, y, a)
                && #[trigger] is_ancestor_in(graph, y, b) && is_ancestor_in(
                graph,
                x,
                y,
            ) implies y == x by {
            let i2 = one.index_of(a);
            let j2 = two.index_of(b);
            assert(model.positions[first[i2]] == a);
            assert(model.positions[second[j2]] == b);
        }
    }
}

/// All heads are, from low to high, the positions of the first commits which are in
/// the list of parents of none of them.
pub proof fn lemma_all_heads_are_no_parents(
    graph: Graph,
    count: u32,
    heads: Seq<GlobalPosition>,
)
    requires
        is_all_heads(graph, count, heads),
    ensures
        forall|i: int, j: int| 0 <= i < j < heads.len() ==> heads[i].0 < heads[j].0,
        forall|x: GlobalPosition| #[trigger]
            heads.contains(x) <==> x.0 < count && forall|child: GlobalPosition|
                child.0 < count && #[trigger] graph.dom().contains(child)
                    ==> !graph[child].parent_positions.contains(x),
{
    assert forall|x: GlobalPosition| #[trigger] heads.contains(x) <==> x.0 < count && forall|
        child: GlobalPosition,
    |
        child.0 < count && #[trigger] graph.dom().contains(child)
            ==> !graph[child].parent_positions.contains(x) by {
        if heads.contains(x) {
            assert forall|child: GlobalPosition|
                child.0 < count && #[trigger] graph.dom().contains(
                    child,
                ) implies !graph[child].parent_positions.contains(x) by {
                if graph[child].parent_positions.contains(x) {
                    assert(has_parent(graph, child, x));
                }
            }
        } else if x.0 < count {
            let child = choose|child: GlobalPosition|
                child.0 < count && #[trigger] has_parent(graph, child, x);
            assert(graph.dom().contains(child));
        }
    }
}

/// The IDs of all heads are those in the entries of the indexed commits which are in
/// the list of parents of no indexed commit. There are as many IDs as such commits,
/// and they come in ascending order of the positions.
pub proof fn lemma_named_all_heads_are_no_parents(model: IndexModel, heads: Seq<Seq<u8>>) -> (
    positions: Seq<GlobalPosition>)
    requires
        names_all_heads(model, heads),
    ensures
        forall|p: GlobalPosition|
            p.0 < model.num_commits ==> #[trigger] model.graph.dom().contains(p),
        positions.len() == heads.len(),
        forall|i: int, j: int| 0 <= i < j < positions.len() ==> positions[i].0 < positions[j].0,
        forall|i: int|
            0 <= i < positions.len() ==> heads[i] == model.graph[#[trigger] positions[i]].commit_id,
        forall|x: GlobalPosition| #[trigger]
            positions.contains(x) <==> x.0 < model.num_commits && forall|child: GlobalPosition|
                child.0 < model.num_commits && #[trigger] model.graph.dom().contains(child)
                    ==> !model.graph[child].parent_positions.contains(x),
        forall|x: GlobalPosition|
            x.0 < model.num_commits && (forall|child: GlobalPosition|
                child.0 < model.num_commits && #[trigger] model.graph.dom().contains(child)
                    ==> !model.graph[child].parent_positions.contains(x)) ==> heads.contains(
                (#[trigger] model.graph[x]).commit_id,
            ),
{
    let positions = choose|positions: Seq<GlobalPosition>| #[trigger]
        is_all_heads(model.graph, model.num_commits, positions) && identifies(
            model,
            positions,
            heads,
        );
    lemma_all_heads_are_no_parents(model.graph, model.num_commits, positions);
    assert forall|x: GlobalPosition|
        x.0 < model.num_commits && (forall|child: GlobalPosition|
            child.0 < model.num_commits && #[trigger] model.graph.dom().contains(child)
                ==> !model.graph[child].parent_positions.contains(x)) implies heads.contains(
        (#[trigger] model.graph[x]).commit_id,
    ) by {
        assert(positions.contains(x));
        let k = positions.index_of(x);
        assert(positions[k] == x);
        assert(heads[k] == model.graph[x].commit_id);
    }
    positions
}

/// Where commits cannot be located, the first which cannot is not in the index and
/// named, or its look-up fails.
pub proof fn lemma_unlocated_is_named(model: IndexModel, ids: Seq<Seq<u8>>, error: IndexError) -> (i:
    int)
    requires
        fails_to_locate_any(model, ids, error),
    ensures
        0 <= i < ids.len(),
        forall|j: int| 0 <= j < i ==> model.positions.dom().contains(#[trigger] ids[j]),
        (model.faults)(Lookup::CommitId(ids[i]), error) || !model.positions.dom().contains(ids[i])
            && (error matches IndexError::CommitNotFound(id) && id@ == ids[i]),
{
    choose|i: int| #[trigger] fails_to_locate_at(model, ids, i, error)
}

/// Where the search for heads by commit ID fails though the index has all the
/// commits, it cannot read an entry which is an ancestor of one of them, or it names
/// the first parent of such an entry which is not below it.
pub proof fn lemma_named_heads_failure_has_cause(
    model: IndexModel,
    candidates: Seq<Seq<u8>>,
    error: IndexError,
) -> (cause: (int, GlobalPosition))
    requires
        fails_to_name_heads(model, candidates, error),
        forall|i: int|
            0 <= i < candidates.len() ==> model.positions.dom().contains(
                #[trigger] candidates[i],
            ) && !(model.faults)(Lookup::CommitId(candidates[i]), error),
    ensures
        0 <= cause.0 < candidates.len(),
        is_ancestor_in(model.graph, cause.1, model.positions[candidates[cause.0]]),
        ({
            let x = cause.1;
            let parents = model.graph[x].parent_positions;
            ||| (model.faults)(Lookup::Entry(x), error)
            ||| {
                &&& model.graph.dom().contains(x)
                &&& exists|i: int|
                    {
                        &&& 0 <= i < parents.len()
                        &&& (#[trigger] parents[i]).0 >= x.0
                        &&& forall|j: int| 0 <= j < i ==> parents[j].0 < x.0
                        &&& error == (IndexError::InvalidParentPosition {
                            parent: parents[i],
                            child: x,
                        })
                    }
            }
        }),
{
    let given = positions_of(model, candidates);
    if fails_to_locate_any(model, candidates, error) {
        let i = lemma_unlocated_is_named(model, candidates, error);
        assert(model.positions.dom().contains(candidates[i]));
    }
    if fails_on_heads(model, given, error) {
        let cause = lemma_heads_failure_has_cause(model, given, error);
        let k = given.index_of(cause.0);
        assert(model.positions[candidates[k]] == cause.0);
        (k, cause.1)
    } else {
        let heads = choose|heads: Seq<GlobalPosition>| #[trigger]
            finds_heads(model.graph, given, heads) && fails_to_identify(model, heads, error);
        let i = choose|i: int|
            0 <= i < heads.len() && (model.faults)(Lookup::Entry(#[trigger] heads[i]), error);
        assert(heads.contains(heads[i]));
        assert(given.contains(heads[i]));
        let k = given.index_of(heads[i]);
        assert(model.positions[candidates[k]] == heads[i]);
        lemma_ancestor_reflexive(model.graph, heads[i]);
        (k, heads[i])
    }
}

/// When the search for heads by commit ID fails, the commits up to the first which
/// cannot be located were taken, or all of them.
pub proof fn lemma_taken_up_to_failure(
    model: IndexModel,
    all: Seq<&CommitId>,
    rest: Seq<&CommitId>,
    error: IndexError,
) -> (taken: int)
    requires
        is_rest(model, all, rest, error),
    ensures
        0 <= taken <= all.len(),
        rest == all.skip(taken),
        forall|j: int| 0 <= j < taken - 1 ==> model.positions.dom().contains((#[trigger] all[j])@),
        taken == all.len() || {
            &&& 0 < taken
            &&& (model.faults)(Lookup::CommitId(all[taken - 1]@), error)
                || !model.positions.dom().contains(all[taken - 1]@) && (error matches
                IndexError::CommitNotFound(id) && id@ == all[taken - 1]@)
        },
{
    let ids = borrowed_id_bytes(all);
    let taken = choose|taken: int| #[trigger]
        fails_after_taking(model, ids, taken, error) && rest == all.skip(taken);
    assert forall|j: int| 0 <= j < taken - 1 implies model.positions.dom().contains(
        (#[trigger] all[j])@,
    ) by {
        assert(ids[j] == all[j]@);
        assert(model.positions.dom().contains(ids[j]));
    }
    taken
}

/// Where the search for common ancestors by commit ID fails though the index has
/// all the commits, it cannot read an entry which is an ancestor of one of them, or
/// it names the first parent of such an entry which is not below it.
pub proof fn lemma_named_common_failure_has_cause(
    model: IndexModel,
    first: Seq<Seq<u8>>,
    second: Seq<Seq<u8>>,
    error: IndexError,
) -> (cause: (int, GlobalPosition))
    requires
        fails_to_name_common_ancestors(model, first, second, error),
        forall|i: int|
            0 <= i < first.len() ==> model.positions.dom().contains(#[trigger] first[i]) && !(
            model.faults)(Lookup::CommitId(first[i]), error),
        forall|i: int|
            0 <= i < second.len() ==> model.positions.dom().contains(#[trigger] second[i]) && !(
            model.faults)(Lookup::CommitId(second[i]), error),
    ensures
        0 <= cause.0 < first.len() + second.len(),
        is_ancestor_in(model.graph, cause.1, model.positions[(first + second)[cause.0]]),
        ({
            let x = cause.1;
            let parents = model.graph[x].parent_positions;
            ||| (model.faults)(Lookup::Entry(x), error)
            ||| {
                &&& model.graph.dom().contains(x)
                &&& exists|i: int|
                    {
                        &&& 0 <= i < parents.len()
                        &&& (#[trigger] parents[i]).0 >= x.0
                        &&& forall|j: int| 0 <= j < i ==> parents[j].0 < x.0
                        &&& error == (IndexError::InvalidParentPosition {
                            parent: parents[i],
                            child: x,
                        })
                    }
            }
        }),
{
    let one = positions_of(model, first);
    let two = positions_of(model, second);
    if fails_to_locate_any(model, first, error) {
        let i = lemma_unlocated_is_named(model, first, error);
        assert(model.positions.dom().contains(first[i]));
    }
    if fails_to_locate_any(model, second, error) {
        let i = lemma_unlocated_is_named(model, second, error);
        assert(model.positions.dom().contains(second[i]));
    }
    if fails_on_common_ancestors(model, one, two, error) {
        let cause = lemma_common_failure_has_cause(model, one, two, error);
        if one.contains(cause.0) {
            let k = one.index_of(cause.0);
            assert((first + second)[k] == first[k]);
            assert(model.positions[first[k]] == cause.0);
            (k, cause.1)
        } else {
            let k = two.index_of(cause.0);
            assert((first + second)[first.len() + k] == second[k]);
            assert(model.positions[second[k]] == cause.0);
            (first.len() + k, cause.1)
        }
    } else {
        let (found, best) = choose|found: Seq<GlobalPosition>, best: Seq<GlobalPosition>| #[trigger]
            meets_with_heads(model.graph, one, two, found, best) && fails_to_identify(
                model,
                best,
                error,
            );
        let i = choose|i: int|
            0 <= i < best.len() && (model.faults)(Lookup::Entry(#[trigger] best[i]), error);
        assert(best.contains(best[i]));
        lemma_common_ancestors_are_common(model.graph, one, two, found, best, best[i]);
        let a = choose|a: GlobalPosition|
            one.contains(a) && #[trigger] is_ancestor_in(model.graph, best[i], a);
        let k = one.index_of(a);
        assert((first + second)[k] == first[k]);
        assert(model.positions[first[k]] == a);
        (k, best[i])
    }
}

/// Where no look-up fails, and a commit is the first which is not in the index, the
/// search for heads names it.
pub proof fn lemma_unknown_head_candidate(
    model: IndexModel,
    candidates: Seq<Seq<u8>>,
    i: int,
    error: IndexError,
)
    requires
        forall|id: Seq<u8>| !#[trigger] (model.faults)(Lookup::CommitId(id), error),
        0 <= i < candidates.len(),
        !model.positions.dom().contains(candidates[i]),
        forall|j: int| 0 <= j < i ==> model.positions.dom().contains(#[trigger] candidates[j]),
    ensures
        !holds_all(model, candidates),
        fails_to_name_heads(model, candidates, error) <==> (error matches
            IndexError::CommitNotFound(id) && id@ == candidates[i]),
{
    if fails_to_name_heads(model, candidates, error) {
        let k = lemma_unlocated_is_named(model, candidates, error);
        assert(k == i) by {
            if i < k {
                assert(model.positions.dom().contains(candidates[i]));
            }
        }
    }
    if error matches IndexError::CommitNotFound(id) && id@ == candidates[i] {
        assert(fails_to_locate_at(model, candidates, i, error));
    }
}

/// Where no look-up fails, the search for common ancestors names the first commit of
/// the two sets, one after the other, which is not in the index.
pub proof fn lemma_unknown_common_candidate(
    model: IndexModel,
    first: Seq<Seq<u8>>,
    second: Seq<Seq<u8>>,
    i: int,
    error: IndexError,
)
    requires
        forall|id: Seq<u8>| !#[trigger] (model.faults)(Lookup::CommitId(id), error),
        0 <= i < first.len() + second.len(),
        !model.positions.dom().contains((first + second)[i]),
        forall|j: int|
            0 <= j < i ==> model.positions.dom().contains(#[trigger] (first + second)[j]),
    ensures
        !(holds_all(model, first) && holds_all(model, second)),
        fails_to_name_common_ancestors(model, first, second, error) <==> (error matches
            IndexError::CommitNotFound(id) && id@ == (first + second)[i]),
{
    let both = first + second;
    if i < first.len() {
        assert(both[i] == first[i]);
        assert(!holds_all(model, first));
        assert forall|j: int| 0 <= j < i implies model.positions.dom().contains(
            #[trigger] first[j],
        ) by {
            assert(both[j] == first[j]);
        }
        if fails_to_locate_any(model, first, error) {
            let k = lemma_unlocated_is_named(model, first, error);
            assert(k == i) by {
                if i < k {
                    assert(model.positions.dom().contains(first[i]));
                }
            }
        }
        if error matches IndexError::CommitNotFound(id) && id@ == both[i] {
            assert(fails_to_locate_at(model, first, i, error));
        }
    } else {
        let m = i - first.len();
        assert(both[i] == second[m]);
        assert(!model.positions.dom().contains(second[m]));
        assert(!holds_all(model, second));
        assert forall|j: int| 0 <= j < first.len() implies model.positions.dom().contains(
            #[trigger] first[j],
        ) by {
            assert(both[j] == first[j]);
        }
        assert forall|j: int| 0 <= j < m implies model.positions.dom().contains(
            #[trigger] second[j],
        ) by {
            assert(both[first.len() + j] == second[j]);
        }
        if fails_to_locate_any(model, first, error) {
            let k = lemma_unlocated_is_named(model, first, error);
            assert(model.positions.dom().contains(first[k]));
        }
        if fails_to_locate_any(model, second, error) {
            let k = lemma_unlocated_is_named(model, second, error);
            assert(k == m) by {
                if m < k {
                    assert(model.positions.dom().contains(second[m]));
                }
            }
        }
        if error matches IndexError::CommitNotFound(id) && id@ == both[i] {
            assert(fails_to_locate_at(model, second, m, error));
        }
    }
}

/// Where the search for all heads fails, it cannot read the entry of an indexed
/// commit, and those below it have entries.
pub proof fn lemma_all_heads_failure_has_cause(model: IndexModel, error: IndexError) -> (position:
    GlobalPosition)
    requires
        fails_on_all(model, error),
    ensures
        position.0 < model.num_commits,
        (model.faults)(Lookup::Entry(position), error),
        forall|p: GlobalPosition| p.0 < position.0 ==> #[trigger] model.graph.dom().contains(p),
{
    choose|p: GlobalPosition|
        p.0 < model.num_commits && has_first_entries(model.graph, p.0 as int) && #[trigger] (
        model.faults)(Lookup::Entry(p), error)
}

} // verus!
