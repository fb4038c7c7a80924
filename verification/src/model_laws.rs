//! What the conditions on an index, and the answers of its reads, say of the values
//! which are read.
use std::ops::Range;
use std::sync::Arc;

use vstd::prelude::*;

use crate::all_heads::has_first_entries;
use crate::commits::{finds_entries, is_consistent};
use crate::error::IndexError;
use crate::graph::Graph;
use crate::hex_util::{hex_digits, lemma_hex_digits};
use crate::object_id::{CommitId, HexPrefix, PrefixResolution};
use crate::position::GlobalPosition;
use crate::position_index::{
    answers_entry, answers_position, commit_resolution, has_sorted_paths, path_texts,
    positions_resolution, IndexGraphEntry, IndexModel, Lookup, PositionIndex,
};
use crate::range::clipped;
use crate::range_laws::keeps_all_parents;
use crate::read_laws::repeats_entries;
use crate::readable_laws::{has_entries, has_readable_entries, has_readable_ids};
use crate::repo_path::{is_at_or_before, parts_at, RepoPathBuf};
use crate::revset::is_evaluated;

verus! {

/// A look-up finds the position of a commit exactly if the index has one for its ID.
pub proof fn lemma_position_answer(
    model: IndexModel,
    id: Seq<u8>,
    position: GlobalPosition,
    error: IndexError,
)
    ensures
        answers_position(model, id, Ok(Some(position))) <==> model.positions.dom().contains(id)
            && model.positions[id] == position,
        answers_position(model, id, Ok(None)) <==> !model.positions.dom().contains(id),
        answers_position(model, id, Err(error)) <==> (model.faults)(Lookup::CommitId(id), error),
{
}

/// An entry which is read has the IDs, the generation and the parents, in order,
/// which the graph has at its position.
pub proof fn lemma_entry_answer(
    model: IndexModel,
    position: GlobalPosition,
    entry: IndexGraphEntry,
    error: IndexError,
)
    requires
        answers_entry(model, position, Ok(entry)),
    ensures
        model.graph.dom().contains(position),
        model.graph[position].commit_id == entry.commit_id@,
        model.graph[position].change_id == entry.change_id@,
        model.graph[position].generation_number == entry.generation_number,
        model.graph[position].parent_positions == entry.parent_positions@,
        answers_entry(model, position, Err(error)) <==> (model.faults)(
            Lookup::Entry(position),
            error,
        ),
{
}

/// A prefix is resolved to nothing, to one commit, or to more than one, as the
/// answer says.
pub proof fn lemma_resolved_commit(resolution: PrefixResolution<CommitId>, id: Seq<u8>)
    ensures
        commit_resolution(resolution) == PrefixResolution::<Seq<u8>>::NoMatch
            <==> resolution is NoMatch,
        commit_resolution(resolution) == PrefixResolution::<Seq<u8>>::AmbiguousMatch
            <==> resolution is AmbiguousMatch,
        commit_resolution(resolution) == PrefixResolution::SingleMatch(id) <==> (resolution matches
            PrefixResolution::SingleMatch(found) && found@ == id),
{
}

/// A prefix is resolved to no, one or more than one match, as the answer says, and
/// to the positions which it holds.
pub proof fn lemma_resolved_positions(
    resolution: PrefixResolution<Vec<GlobalPosition>>,
    positions: Seq<GlobalPosition>,
)
    ensures
        positions_resolution(resolution) == PrefixResolution::<Seq<GlobalPosition>>::NoMatch
            <==> resolution is NoMatch,
        positions_resolution(resolution)
            == PrefixResolution::<Seq<GlobalPosition>>::AmbiguousMatch
            <==> resolution is AmbiguousMatch,
        positions_resolution(resolution) == PrefixResolution::SingleMatch(positions) <==> (
        resolution matches PrefixResolution::SingleMatch(found) && found@ == positions),
{
}

/// The texts of paths are taken one by one, and there are none if no paths were
/// indexed.
pub proof fn lemma_texts_of_paths(paths: Option<Vec<RepoPathBuf>>)
    ensures
        path_texts(paths) is None <==> paths is None,
        paths is Some ==> path_texts(paths)->0.len() == paths->0@.len(),
        paths is Some ==> forall|i: int|
            0 <= i < paths->0@.len() ==> #[trigger] path_texts(paths)->0[i] == paths->0@[i]@,
{
}

/// A text is at or before another exactly if it is a prefix of it, or they differ
/// first where it has the lower code point.
pub proof fn lemma_text_order(first: Seq<char>, second: Seq<char>)
    ensures
        is_at_or_before(first, second) <==> {
            ||| first.len() <= second.len() && second.take(first.len() as int) == first
            ||| exists|n: int|
                {
                    &&& 0 <= n < first.len()
                    &&& n < second.len()
                    &&& #[trigger] first.take(n) == second.take(n)
                    &&& (first[n] as int) < (second[n] as int)
                }
        },
{
    if is_at_or_before(first, second) {
        let n = choose|n: int| #[trigger] parts_at(first, second, n);
        if n == first.len() {
            assert(second.take(n) =~= first);
        } else {
            assert(first.take(n) =~= second.take(n));
        }
    }
    if first.len() <= second.len() && second.take(first.len() as int) == first {
        assert forall|i: int| 0 <= i < first.len() implies first[i] == second[i] by {
            assert(second.take(first.len() as int)[i] == second[i]);
        }
        assert(parts_at(first, second, first.len() as int));
    }
    if exists|n: int|
        {
            &&& 0 <= n < first.len()
            &&& n < second.len()
            &&& #[trigger] first.take(n) == second.take(n)
            &&& (first[n] as int) < (second[n] as int)
        } {
        let n = choose|n: int|
            {
                &&& 0 <= n < first.len()
                &&& n < second.len()
                &&& #[trigger] first.take(n) == second.take(n)
                &&& (first[n] as int) < (second[n] as int)
            };
        assert forall|i: int| 0 <= i < n implies first[i] == second[i] by {
            assert(first.take(n)[i] == second.take(n)[i]);
        }
        assert(parts_at(first, second, n));
    }
}

/// Paths are sorted exactly if each is at or before every one behind it.
pub proof fn lemma_sorted_paths(texts: Seq<Seq<char>>)
    ensures
        has_sorted_paths(Some(texts)) <==> forall|i: int, j: int|
            0 <= i < j < texts.len() ==> #[trigger] is_at_or_before(texts[i], texts[j]),
{
}

/// A prefix has two digits for each of its bytes, or one less if their number is
/// odd, and they are the digits of the bytes.
pub proof fn lemma_prefix_digits(prefix: HexPrefix)
    requires
        prefix.has_odd_byte ==> prefix.min_prefix_bytes@.len() > 0,
    ensures
        prefix.has_odd_byte ==> prefix@.len() == 2 * prefix.min_prefix_bytes@.len() - 1,
        !prefix.has_odd_byte ==> prefix@.len() == 2 * prefix.min_prefix_bytes@.len(),
        forall|i: int|
            0 <= i < prefix@.len() ==> #[trigger] prefix@[i] == hex_digits(
                prefix.min_prefix_bytes@,
            )[i],
{
    lemma_hex_digits(prefix.min_prefix_bytes@);
}

/// Look-ups succeed exactly if none of them has an error.
pub proof fn lemma_readable_ids(model: IndexModel)
    ensures
        has_readable_ids(model) <==> !exists|id: Seq<u8>, error: IndexError|
            #[trigger] (model.faults)(Lookup::CommitId(id), error),
{
}

/// Entries are readable exactly if no read of a position which has one has an error.
pub proof fn lemma_readable_entries(model: IndexModel)
    ensures
        has_readable_entries(model) <==> !exists|position: GlobalPosition, error: IndexError|
            #[trigger] (model.faults)(Lookup::Entry(position), error)
                && model.graph.dom().contains(position),
{
}

/// Reads give the same each time exactly if a position with an entry has no error,
/// and one without has at most one.
pub proof fn lemma_repeated_entries(model: IndexModel)
    ensures
        repeats_entries(model) <==> forall|
            position: GlobalPosition,
            first: IndexError,
            second: IndexError,
        |
            #[trigger] (model.faults)(Lookup::Entry(position), first) && #[trigger] (
            model.faults)(Lookup::Entry(position), second) ==> first == second
                && !model.graph.dom().contains(position),
{
    if forall|position: GlobalPosition, first: IndexError, second: IndexError|
        #[trigger] (model.faults)(Lookup::Entry(position), first) && #[trigger] (model.faults)(
            Lookup::Entry(position),
            second,
        ) ==> first == second && !model.graph.dom().contains(position) {
        assert forall|position: GlobalPosition, error: IndexError|
            model.graph.dom().contains(position) implies !(#[trigger] (model.faults)(
            Lookup::Entry(position),
            error,
        )) by {}
    }
}

/// Positions have entries exactly if each of them does.
pub proof fn lemma_positions_with_entries(graph: Graph, positions: Seq<GlobalPosition>, count: int)
    ensures
        has_entries(graph, positions) <==> forall|i: int|
            0 <= i < positions.len() ==> graph.dom().contains(#[trigger] positions[i]),
        has_first_entries(graph, count) <==> !exists|p: GlobalPosition|
            p.0 < count && !#[trigger] graph.dom().contains(p),
{
    if has_entries(graph, positions) {
        assert forall|i: int| 0 <= i < positions.len() implies graph.dom().contains(
            #[trigger] positions[i],
        ) by {
            assert(positions.contains(positions[i]));
        }
    }
    if forall|i: int| 0 <= i < positions.len() ==> graph.dom().contains(#[trigger] positions[i]) {
        assert forall|p: GlobalPosition| #[trigger] positions.contains(p) implies graph.dom().contains(
            p,
        ) by {
            let i = positions.index_of(p);
            assert(positions[i] == p);
        }
    }
}

/// The commits found have entries exactly if each ID which has a position is in the
/// entry there.
pub proof fn lemma_found_entries(model: IndexModel)
    ensures
        finds_entries(model) <==> forall|id: Seq<u8>| #[trigger]
            model.positions.dom().contains(id) ==> model.graph.dom().contains(model.positions[id])
                && model.graph[model.positions[id]].commit_id == id,
{
}

/// An index is consistent exactly if its IDs and its indexed entries stand for each
/// other.
pub proof fn lemma_consistent_index(model: IndexModel)
    ensures
        is_consistent(model) <==> {
            &&& forall|id: Seq<u8>| #[trigger]
                model.positions.dom().contains(id) ==> {
                    &&& model.positions[id].0 < model.num_commits
                    &&& model.graph.dom().contains(model.positions[id])
                    &&& model.graph[model.positions[id]].commit_id == id
                }
            &&& forall|p: GlobalPosition|
                p.0 < model.num_commits && #[trigger] model.graph.dom().contains(p) ==> {
                    &&& model.positions.dom().contains(model.graph[p].commit_id)
                    &&& model.positions[model.graph[p].commit_id] == p
                }
        },
{
}

/// A range which keeps all parents takes all of them from each entry, and one which
/// starts at the first and does not end before the last of any entry keeps all.
pub proof fn lemma_kept_parents(graph: Graph, range: Range<u32>)
    ensures
        keeps_all_parents(graph, range) ==> forall|p: GlobalPosition| #[trigger]
            graph.dom().contains(p) ==> clipped(graph[p].parent_positions, range)
                == graph[p].parent_positions,
        range.start == 0 && (forall|p: GlobalPosition| #[trigger]
            graph.dom().contains(p) ==> graph[p].parent_positions.len() <= range.end)
            ==> keeps_all_parents(graph, range),
{
    if keeps_all_parents(graph, range) {
        assert forall|p: GlobalPosition| #[trigger] graph.dom().contains(p) implies clipped(
            graph[p].parent_positions,
            range,
        ) == graph[p].parent_positions by {
            assert(clipped(graph[p].parent_positions, range) =~= graph[p].parent_positions);
        }
    }
}

/// A reference to an index, and a shared handle of it, answer as the index does.
pub proof fn lemma_same_model<T: PositionIndex + ?Sized>(index: &T, handle: Arc<T>)
    ensures
        <&T as PositionIndex>::model(&index) == index.model(),
        <Arc<T> as PositionIndex>::model(&handle) == (*handle).model(),
{
}

/// A revset is evaluated to what the engine may give for the expression, the store
/// and the index.
pub proof fn lemma_evaluated_by_engine<
    X: ?Sized,
    S: ?Sized,
    T: PositionIndex + ?Sized,
    R,
    E,
    F: FnOnce(&X, &Arc<S>, Arc<T>) -> Result<R, E>,
>(engine: F, expression: &X, store: &Arc<S>, index: Arc<T>, revset: Box<R>, error: E)
    ensures
        is_evaluated(engine, expression, store, index, Ok::<Box<R>, E>(revset)) <==> call_ensures(
            engine,
            (expression, store, index),
            Ok::<R, E>(*revset),
        ),
        is_evaluated(engine, expression, store, index, Err::<Box<R>, E>(error)) <==> call_ensures(
            engine,
            (expression, store, index),
            Err::<R, E>(error),
        ),
{
}

} // verus!
