//! Queries by commit ID.
use vstd::prelude::*;

use crate::all_heads::{all_head_positions, fails_on_all, has_first_entries, is_all_heads};
use crate::common::{common_ancestor_positions, fails_on_common_ancestors, meets_with_heads};
use crate::common_laws::{is_best_common_ancestors, lemma_common_ancestors_symmetric};
use crate::error::{IndexError, IndexResult};
use crate::graph::is_ordered;
use crate::head_laws::lemma_heads_unique;
use crate::heads::{fails_on_heads, finds_heads, heads_positions};
use crate::lookup::{
    commit_ids, fails_to_identify, fails_to_locate_any, fails_to_locate_at, id_bytes, identifies,
    required_position, required_positions,
};
use crate::object_id::CommitId;
use crate::position::GlobalPosition;
use crate::position_index::{IndexModel, PositionIndex};

verus! {

/// The positions of the commits `ids`.
pub open spec fn positions_of(model: IndexModel, ids: Seq<Seq<u8>>) -> Seq<GlobalPosition> {
    ids.map_values(|id: Seq<u8>| model.positions[id])
}

/// All of `ids` are in the index.
pub open spec fn holds_all(model: IndexModel, ids: Seq<Seq<u8>>) -> bool {
    forall|i: int| 0 <= i < ids.len() ==> model.positions.dom().contains(#[trigger] ids[i])
}

/// `heads` identify the commits at the heads among the commits `candidates`.
pub open spec fn names_heads(
    model: IndexModel,
    candidates: Seq<Seq<u8>>,
    heads: Seq<Seq<u8>>,
) -> bool {
    exists|positions: Seq<GlobalPosition>| #[trigger]
        finds_heads(model.graph, positions_of(model, candidates), positions) && identifies(
            model,
            positions,
            heads,
        )
}

/// `error` comes from the search for the heads among the commits `candidates`,
/// all of which are in the index.
pub open spec fn fails_on_located_heads(
    model: IndexModel,
    candidates: Seq<Seq<u8>>,
    error: IndexError,
) -> bool {
    &&& holds_all(model, candidates)
    &&& {
        ||| fails_on_heads(model, positions_of(model, candidates), error)
        ||| exists|positions: Seq<GlobalPosition>| #[trigger]
            finds_heads(model.graph, positions_of(model, candidates), positions)
                && fails_to_identify(model, positions, error)
    }
}

/// `error` comes from the search for the heads among the commits `candidates`.
pub open spec fn fails_to_name_heads(
    model: IndexModel,
    candidates: Seq<Seq<u8>>,
    error: IndexError,
) -> bool {
    ||| fails_to_locate_any(model, candidates, error)
    ||| fails_on_located_heads(model, candidates, error)
}

/// `error` comes from the search for the heads among the commits `candidates`,
/// when `taken` of them were taken: the last of these cannot be located, or all
/// were taken and located.
pub open spec fn fails_after_taking(
    model: IndexModel,
    candidates: Seq<Seq<u8>>,
    taken: int,
    error: IndexError,
) -> bool {
    ||| fails_to_locate_at(model, candidates, taken - 1, error)
    ||| {
        &&& taken == candidates.len()
        &&& fails_on_located_heads(model, candidates, error)
    }
}

/// The bytes of borrowed identifiers.
pub open spec fn borrowed_id_bytes(ids: Seq<&CommitId>) -> Seq<Seq<u8>> {
    ids.map_values(|id: &CommitId| id@)
}

/// `rest` is what was not taken of `all` when the search for heads failed.
pub open spec fn is_rest(
    model: IndexModel,
    all: Seq<&CommitId>,
    rest: Seq<&CommitId>,
    error: IndexError,
) -> bool {
    exists|taken: int| #[trigger]
        fails_after_taking(model, borrowed_id_bytes(all), taken, error) && rest == all.skip(taken)
}

/// Returns commits from `candidates` which are not ancestors of another
/// candidate.
///
/// The iterator has to come to an end.
pub fn heads<'a, T: PositionIndex + ?Sized, I: Iterator<Item = &'a CommitId> + ?Sized>(
    index: &T,
    candidates: &mut I,
) -> (result: IndexResult<Vec<CommitId>>)
    requires
        <I as vstd::std_specs::iter::IteratorSpec>::obeys_prophetic_iter_laws(old(candidates)),
        <I as vstd::std_specs::iter::IteratorSpec>::decrease(old(candidates)) is Some,
    ensures
        ({
            let given = borrowed_id_bytes(
                <I as vstd::std_specs::iter::IteratorSpec>::remaining(old(candidates)),
            );
            match result {
                Ok(heads) => {
                    &&& holds_all(index.model(), given)
                    &&& names_heads(index.model(), given, id_bytes(heads@))
                    &&& <I as vstd::std_specs::iter::IteratorSpec>::remaining(
                        final(candidates),
                    ).len() == 0
                },
                Err(error) => {
                    &&& fails_to_name_heads(index.model(), given, error)
                    &&& is_rest(
                        index.model(),
                        <I as vstd::std_specs::iter::IteratorSpec>::remaining(old(candidates)),
                        <I as vstd::std_specs::iter::IteratorSpec>::remaining(final(candidates)),
                        error,
                    )
                },
            }
        }),
{
    let ghost model = index.model();
    let ghost all = <I as vstd::std_specs::iter::IteratorSpec>::remaining(candidates);
    let ghost given = borrowed_id_bytes(all);
    let mut positions: Vec<GlobalPosition> = Vec::new();
    loop
        invariant
            model == index.model(),
            <I as vstd::std_specs::iter::IteratorSpec>::obeys_prophetic_iter_laws(candidates),
            <I as vstd::std_specs::iter::IteratorSpec>::decrease(candidates) is Some,
            all == <I as vstd::std_specs::iter::IteratorSpec>::remaining(old(candidates)),
            given == borrowed_id_bytes(all),
            positions@.len() <= all.len(),
            <I as vstd::std_specs::iter::IteratorSpec>::remaining(candidates) == all.skip(
                positions@.len() as int,
            ),
            forall|i: int|
                0 <= i < positions@.len() ==> model.positions.dom().contains(#[trigger] given[i])
                    && model.positions[given[i]] == positions@[i],
        ensures
            positions@.len() == all.len(),
        decreases <I as vstd::std_specs::iter::IteratorSpec>::decrease(candidates)->0,
    {
        match candidates.next() {
            None => {
                break;
            },
            Some(id) => {
                assert(*id == all[positions@.len() as int]);
                assert(given[positions@.len() as int] == id@);
                assert(<I as vstd::std_specs::iter::IteratorSpec>::remaining(candidates)
                    =~= all.skip(positions@.len() as int + 1));
                let position = match required_position(index, id) {
                    Ok(position) => position,
                    Err(error) => {
                        let ghost taken = positions@.len() as int + 1;
                        assert(fails_to_locate_at(model, given, taken - 1, error));
                        assert(fails_after_taking(model, given, taken, error));
                        return Err(error);
                    },
                };
                positions.push(position);
            },
        }
    }
    assert(<I as vstd::std_specs::iter::IteratorSpec>::remaining(candidates) =~= all.skip(
        all.len() as int,
    ));
    assert(positions@ =~= positions_of(model, given));
    let heads = match heads_positions(index, positions) {
        Ok(heads) => heads,
        Err(error) => {
            assert(fails_after_taking(model, given, given.len() as int, error));
            return Err(error);
        },
    };
    match commit_ids(index, heads.as_slice()) {
        Ok(ids) => Ok(ids),
        Err(error) => {
            assert(finds_heads(model.graph, positions_of(model, given), heads@));
            assert(fails_after_taking(model, given, given.len() as int, error));
            Err(error)
        },
    }
}

/// All indexed commits have entries, and `heads` identify those at the heads among
/// them.
pub open spec fn names_all_heads(model: IndexModel, heads: Seq<Seq<u8>>) -> bool {
    &&& has_first_entries(model.graph, model.num_commits as int)
    &&& exists|positions: Seq<GlobalPosition>| #[trigger]
        is_all_heads(model.graph, model.num_commits, positions) && identifies(
            model,
            positions,
            heads,
        )
}

/// Returns IDs which are heads among all indexed commits.
pub fn all_heads<T: PositionIndex + ?Sized>(index: &T) -> (result: IndexResult<Vec<CommitId>>)
    ensures
        match result {
            Ok(heads) => names_all_heads(index.model(), id_bytes(heads@)),
            Err(error) => fails_on_all(index.model(), error),
        },
{
    let positions = all_head_positions(index)?;
    match commit_ids(index, positions.as_slice()) {
        Ok(heads) => {
            assert(identifies(index.model(), positions@, id_bytes(heads@)));
            Ok(heads)
        },
        Err(error) => {
            proof {
                let i = choose|i: int|
                    0 <= i < positions@.len() && (index.model().faults)(
                        crate::position_index::Lookup::Entry(#[trigger] positions@[i]),
                        error,
                    );
                assert(positions@.contains(positions@[i]));
            }
            Err(error)
        },
    }
}

/// `best` identify the best common ancestors of the commits `first` and `second`.
pub open spec fn names_common_ancestors(
    model: IndexModel,
    first: Seq<Seq<u8>>,
    second: Seq<Seq<u8>>,
    best: Seq<Seq<u8>>,
) -> bool {
    exists|found: Seq<GlobalPosition>, positions: Seq<GlobalPosition>|
        {
            &&& #[trigger] meets_with_heads(
                model.graph,
                positions_of(model, first),
                positions_of(model, second),
                found,
                positions,
            )
            &&& is_ordered(model.graph) ==> is_best_common_ancestors(
                model.graph,
                positions_of(model, first),
                positions_of(model, second),
                positions,
            )
            &&& identifies(model, positions, best)
        }
}

/// `error` comes from the search for the common ancestors of the commits `first`
/// and `second`.
pub open spec fn fails_to_name_common_ancestors(
    model: IndexModel,
    first: Seq<Seq<u8>>,
    second: Seq<Seq<u8>>,
    error: IndexError,
) -> bool {
    ||| fails_to_locate_any(model, first, error)
    ||| {
        &&& holds_all(model, first)
        &&& fails_to_locate_any(model, second, error)
    }
    ||| {
        &&& holds_all(model, first)
        &&& holds_all(model, second)
        &&& {
            ||| fails_on_common_ancestors(
                model,
                positions_of(model, first),
                positions_of(model, second),
                error,
            )
            ||| exists|found: Seq<GlobalPosition>, positions: Seq<GlobalPosition>| #[trigger]
                meets_with_heads(
                    model.graph,
                    positions_of(model, first),
                    positions_of(model, second),
                    found,
                    positions,
                ) && fails_to_identify(model, positions, error)
        }
    }
}

/// Returns the best common ancestors of two commit sets.
pub fn common_ancestors<T: PositionIndex + ?Sized>(
    index: &T,
    set1: &[CommitId],
    set2: &[CommitId],
) -> (result: IndexResult<Vec<CommitId>>)
    ensures
        match result {
            Ok(best) => {
                &&& holds_all(index.model(), id_bytes(set1@))
                &&& holds_all(index.model(), id_bytes(set2@))
                &&& names_common_ancestors(
                    index.model(),
                    id_bytes(set1@),
                    id_bytes(set2@),
                    id_bytes(best@),
                )
            },
            Err(error) => fails_to_name_common_ancestors(
                index.model(),
                id_bytes(set1@),
                id_bytes(set2@),
                error,
            ),
        },
{
    let positions1 = required_positions(index, set1)?;
    let positions2 = required_positions(index, set2)?;
    proof {
        assert(positions1@ =~= positions_of(index.model(), id_bytes(set1@)));
        assert(positions2@ =~= positions_of(index.model(), id_bytes(set2@)));
    }
    let best = common_ancestor_positions(index, positions1, positions2)?;
    commit_ids(index, best.as_slice())
}

/// Every commit which is found has its entry where it is found.
pub open spec fn finds_entries(model: IndexModel) -> bool {
    forall|id: Seq<u8>| #[trigger]
        model.positions.dom().contains(id) ==> {
            &&& model.graph.dom().contains(model.positions[id])
            &&& model.graph[model.positions[id]].commit_id == id
        }
}

/// Every commit which is found is one of the indexed commits and has its entry
/// where it is found, and every indexed commit which has an entry is found there.
pub open spec fn is_consistent(model: IndexModel) -> bool {
    &&& finds_entries(model)
    &&& forall|id: Seq<u8>| #[trigger]
        model.positions.dom().contains(id) ==> model.positions[id].0 < model.num_commits
    &&& forall|p: GlobalPosition|
        p.0 < model.num_commits && #[trigger] model.graph.dom().contains(p) ==> {
            &&& model.positions.dom().contains(model.graph[p].commit_id)
            &&& model.positions[model.graph[p].commit_id] == p
        }
}

/// Where the commits found have entries, the heads among commits are some of these
/// commits.
pub proof fn lemma_heads_are_candidates(
    model: IndexModel,
    candidates: Seq<Seq<u8>>,
    heads: Seq<Seq<u8>>,
    head: Seq<u8>,
)
    requires
        finds_entries(model),
        holds_all(model, candidates),
        names_heads(model, candidates, heads),
        heads.contains(head),
    ensures
        candidates.contains(head),
{
    let given = positions_of(model, candidates);
    let positions = choose|positions: Seq<GlobalPosition>|
        {
            &&& #[trigger] finds_heads(model.graph, given, positions)
            &&& identifies(model, positions, heads)
        };
    let i = heads.index_of(head);
    assert(positions.contains(positions[i]));
    assert(given.contains(positions[i]));
    let j = given.index_of(positions[i]);
    assert(model.positions.dom().contains(candidates[j]));
    assert(candidates[j] == head);
}

/// The heads among commits are the same each time.
pub proof fn lemma_named_heads_unique(
    model: IndexModel,
    candidates: Seq<Seq<u8>>,
    first: Seq<Seq<u8>>,
    second: Seq<Seq<u8>>,
)
    requires
        names_heads(model, candidates, first),
        names_heads(model, candidates, second),
    ensures
        first == second,
{
    let given = positions_of(model, candidates);
    let heads1 = choose|positions: Seq<GlobalPosition>|
        {
            &&& #[trigger] finds_heads(model.graph, given, positions)
            &&& identifies(model, positions, first)
        };
    let heads2 = choose|positions: Seq<GlobalPosition>|
        {
            &&& #[trigger] finds_heads(model.graph, given, positions)
            &&& identifies(model, positions, second)
        };
    lemma_heads_unique(model.graph, given, given, heads1, heads2);
    assert forall|i: int| 0 <= i < first.len() implies first[i] == second[i] by {
        assert(model.graph[heads1[i]].commit_id == first[i]);
    }
    assert(first =~= second);
}

/// The common ancestors of two sets of commits are the same whichever set comes
/// first.
pub proof fn lemma_named_common_ancestors_symmetric(
    model: IndexModel,
    first: Seq<Seq<u8>>,
    second: Seq<Seq<u8>>,
    best: Seq<Seq<u8>>,
    swapped: Seq<Seq<u8>>,
)
    requires
        names_common_ancestors(model, first, second, best),
        names_common_ancestors(model, second, first, swapped),
    ensures
        best == swapped,
{
    let one = positions_of(model, first);
    let two = positions_of(model, second);
    let (found1, best1) = choose|found: Seq<GlobalPosition>, positions: Seq<GlobalPosition>|
        {
            &&& #[trigger] meets_with_heads(model.graph, one, two, found, positions)
            &&& is_ordered(model.graph) ==> is_best_common_ancestors(
                model.graph,
                one,
                two,
                positions,
            )
            &&& identifies(model, positions, best)
        };
    let (found2, best2) = choose|found: Seq<GlobalPosition>, positions: Seq<GlobalPosition>|
        {
            &&& #[trigger] meets_with_heads(model.graph, two, one, found, positions)
            &&& is_ordered(model.graph) ==> is_best_common_ancestors(
                model.graph,
                two,
                one,
                positions,
            )
            &&& identifies(model, positions, swapped)
        };
    lemma_common_ancestors_symmetric(model.graph, one, two, found1, best1, found2, best2);
    assert forall|i: int| 0 <= i < best.len() implies best[i] == swapped[i] by {
        assert(model.graph[best1[i]].commit_id == best[i]);
    }
    assert(best =~= swapped);
}

} // verus!
