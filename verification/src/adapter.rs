//! Index queries over a shared index handle.
use std::sync::Arc;

use vstd::prelude::*;

use crate::all_heads::{fails_on_all, has_first_entries};
use crate::ancestors::{answers_ancestor, fails_on_ancestor_id, is_ancestor};
use crate::commits::{
    all_heads, borrowed_id_bytes, common_ancestors, fails_to_name_common_ancestors,
    fails_to_name_heads, heads, holds_all, is_rest, names_all_heads, names_common_ancestors,
    names_heads,
};
use crate::error::IndexResult;
use crate::hex_util::{common_hex_len, hex_digits, is_common_prefix_len};
use crate::lookup::id_bytes;
use crate::object_id::{CommitId, HexPrefix, PrefixResolution};
use crate::position::GlobalPosition;
use crate::position_index::{
    commit_resolution, has_sorted_paths, path_texts, IndexModel, Lookup, PositionIndex,
};
use crate::repo_path::RepoPathBuf;
use crate::revset::{evaluate_revset, is_evaluated};

verus! {

/// `len` hex digits of `id` are needed to tell it from the other identifiers
/// among the first `count` commits.
pub open spec fn is_distinguishing_len(
    model: IndexModel,
    id: Seq<u8>,
    count: int,
    len: int,
) -> bool {
    &&& forall|p: GlobalPosition, common: int|
        p.0 < count && model.graph[p].commit_id != id && #[trigger] is_common_prefix_len(
            hex_digits(id),
            hex_digits(model.graph[p].commit_id),
            common,
        ) ==> common < len
    &&& len == 0 || exists|p: GlobalPosition|
        p.0 < count && model.graph[p].commit_id != id && #[trigger] is_common_prefix_len(
            hex_digits(id),
            hex_digits(model.graph[p].commit_id),
            len - 1,
        )
    &&& len >= 0
}

/// `digits` starts with the first `len` digits of `id`.
pub open spec fn shares_prefix(digits: Seq<u8>, id: Seq<u8>, len: int) -> bool {
    len <= digits.len() && digits.take(len) == id.take(len)
}

/// Two sequences have a longest common prefix.
proof fn lemma_common_prefix_exists(a: Seq<u8>, b: Seq<u8>, n: int) -> (len: int)
    requires
        0 <= n <= a.len(),
        n <= b.len(),
        forall|i: int| 0 <= i < n ==> a[i] == b[i],
    ensures
        n <= len,
        is_common_prefix_len(a, b, len),
    decreases a.len() - n,
{
    if n < a.len() && n < b.len() && a[n] == b[n] {
        lemma_common_prefix_exists(a, b, n + 1)
    } else {
        n
    }
}

/// No other indexed commit has the distinguishing prefix of a commit.
pub proof fn lemma_prefix_is_unique(
    model: IndexModel,
    id: Seq<u8>,
    len: int,
    position: GlobalPosition,
)
    requires
        is_distinguishing_len(model, id, model.num_commits as int, len),
        len <= hex_digits(id).len(),
        position.0 < model.num_commits,
        model.graph[position].commit_id != id,
    ensures
        !shares_prefix(hex_digits(model.graph[position].commit_id), hex_digits(id), len),
{
    let a = hex_digits(id);
    let b = hex_digits(model.graph[position].commit_id);
    if shares_prefix(b, a, len) {
        assert forall|i: int| 0 <= i < len implies a[i] == b[i] by {
            assert(a.take(len)[i] == b.take(len)[i]);
        }
        let common = lemma_common_prefix_exists(a, b, len);
    }
}

/// Every prefix of a commit which is shorter than the distinguishing one is
/// shared by another indexed commit.
pub proof fn lemma_prefix_is_shortest(model: IndexModel, id: Seq<u8>, len: int, shorter: int)
    requires
        is_distinguishing_len(model, id, model.num_commits as int, len),
        0 <= shorter < len,
    ensures
        exists|p: GlobalPosition|
            p.0 < model.num_commits && model.graph[p].commit_id != id && shares_prefix(
                hex_digits(#[trigger] model.graph[p].commit_id),
                hex_digits(id),
                shorter,
            ),
{
    let a = hex_digits(id);
    let p = choose|p: GlobalPosition|
        p.0 < model.num_commits && model.graph[p].commit_id != id
            && #[trigger] is_common_prefix_len(
            a,
            hex_digits(model.graph[p].commit_id),
            len - 1,
        );
    let b = hex_digits(model.graph[p].commit_id);
    assert(b.take(shorter) =~= a.take(shorter));
}

/// The digits which are needed to tell a commit from the other indexed commits are
/// more than any of them shares with it, and one of them shares all but one; none is
/// needed if there is no other commit.
pub proof fn lemma_prefix_length(model: IndexModel, id: Seq<u8>, len: int)
    requires
        is_distinguishing_len(model, id, model.num_commits as int, len),
    ensures
        forall|p: GlobalPosition, k: int|
            {
                let other = #[trigger] model.graph[p].commit_id;
                &&& p.0 < model.num_commits
                &&& other != id
                &&& 0 <= k <= 2 * id.len()
                &&& k <= 2 * other.len()
                &&& #[trigger] hex_digits(id).take(k) == hex_digits(other).take(k)
            } ==> k < len,
        len > 0 ==> exists|p: GlobalPosition|
            {
                let other = #[trigger] model.graph[p].commit_id;
                &&& p.0 < model.num_commits
                &&& other != id
                &&& len - 1 <= 2 * id.len()
                &&& len - 1 <= 2 * other.len()
                &&& hex_digits(id).take(len - 1) == hex_digits(other).take(len - 1)
            },
        len >= 0,
{
    let a = hex_digits(id);
    assert forall|p: GlobalPosition, k: int|
        {
            let other = #[trigger] model.graph[p].commit_id;
            &&& p.0 < model.num_commits
            &&& other != id
            &&& 0 <= k <= 2 * id.len()
            &&& k <= 2 * other.len()
            &&& #[trigger] hex_digits(id).take(k) == hex_digits(other).take(k)
        } implies k < len by {
        let b = hex_digits(model.graph[p].commit_id);
        assert forall|i: int| 0 <= i < k implies a[i] == b[i] by {
            assert(a.take(k)[i] == b.take(k)[i]);
        }
        let common = lemma_common_prefix_exists(a, b, k);
    }
    if len > 0 {
        let p = choose|p: GlobalPosition|
            p.0 < model.num_commits && model.graph[p].commit_id != id
                && #[trigger] is_common_prefix_len(
                a,
                hex_digits(model.graph[p].commit_id),
                len - 1,
            );
        assert(a.take(len - 1) =~= hex_digits(model.graph[p].commit_id).take(len - 1));
    }
}

/// Digits have a prefix of an ID exactly if they are at least as many, and the first
/// ones are those of the prefix.
pub proof fn lemma_shared_prefix(digits: Seq<u8>, id: Seq<u8>, len: int)
    requires
        0 <= len <= id.len(),
    ensures
        shares_prefix(digits, id, len) <==> len <= digits.len() && forall|i: int|
            0 <= i < len ==> #[trigger] digits[i] == id[i],
{
    if shares_prefix(digits, id, len) {
        assert forall|i: int| 0 <= i < len implies #[trigger] digits[i] == id[i] by {
            assert(digits.take(len)[i] == id.take(len)[i]);
        }
    }
    if len <= digits.len() && forall|i: int| 0 <= i < len ==> #[trigger] digits[i] == id[i] {
        assert(digits.take(len) =~= id.take(len));
    }
}

/// Adapts a [`PositionIndex`] to index queries by commit ID.
///
/// This is useful to implementations which want the shared graph algorithms
/// without writing the queries themselves.
pub struct PositionIndexAdapter<T: PositionIndex + ?Sized = dyn PositionIndex> {
    index: Arc<T>,
}

impl<T: PositionIndex + ?Sized> PositionIndexAdapter<T> {
    /// The shared index handle.
    pub closed spec fn handle(&self) -> Arc<T> {
        self.index
    }

    /// What the index answers.
    pub open spec fn model(&self) -> IndexModel {
        self.handle().model()
    }

    /// Creates an adapter owning a shared index handle.
    pub fn new(index: Arc<T>) -> (adapter: Self)
        ensures
            adapter.handle() == index,
            adapter.model() == index.model(),
    {
        Self { index }
    }

    /// Returns the number of leading hex digits which tell `commit_id` from every
    /// other indexed commit.
    ///
    /// One more than the digits of `commit_id` has to fit in a `usize`.
    pub fn shortest_unique_commit_id_prefix_len(&self, commit_id: &CommitId) -> (result: IndexResult<
        usize,
    >)
        requires
            2 * commit_id@.len() < usize::MAX,
        ensures
            match result {
                Ok(len) => {
                    &&& has_first_entries(self.model().graph, self.model().num_commits as int)
                    &&& is_distinguishing_len(
                        self.model(),
                        commit_id@,
                        self.model().num_commits as int,
                        len as int,
                    )
                },
                Err(error) => fails_on_all(self.model(), error),
            },
    {
        let ghost model = self.model();
        let ghost digits = hex_digits(commit_id@);
        let num_commits: u32 = self.index.num_commits();
        let mut length: usize = 0;
        let mut i: u32 = 0;
        while i < num_commits
            invariant
                model == self.model(),
                digits == hex_digits(commit_id@),
                2 * commit_id@.len() < usize::MAX,
                num_commits == model.num_commits,
                i <= num_commits,
                has_first_entries(model.graph, i as int),
                is_distinguishing_len(model, commit_id@, i as int, length as int),
            decreases num_commits - i,
        {
            let position = GlobalPosition(i);
            let ghost before = length;
            let entry = match self.index.entry_by_position(position) {
                Ok(entry) => entry,
                Err(error) => {
                    assert(position.0 < model.num_commits);
                    return Err(error);
                },
            };
            let other_id = entry.commit_id;
            if !other_id.same_as(commit_id) {
                let common: usize = common_hex_len(commit_id.as_bytes(), other_id.as_bytes());
                if common + 1 > length {
                    length = common + 1;
                }
                proof {
                    lemma_one_more_commit(
                        model,
                        commit_id@,
                        i,
                        before as int,
                        length as int,
                        common as int,
                    );
                }
            }
            proof {
                assert forall|p: GlobalPosition| p.0 < i + 1 implies #[trigger] model.graph.dom().contains(
                    p,
                ) by {
                    if p.0 == i {
                        assert(p == position);
                    }
                }
                if other_id@ == commit_id@ {
                    assert forall|p: GlobalPosition, common: int|
                        p.0 < i + 1 && model.graph[p].commit_id != commit_id@
                            && #[trigger] is_common_prefix_len(
                            hex_digits(commit_id@),
                            hex_digits(model.graph[p].commit_id),
                            common,
                        ) implies common < length by {
                        if p.0 == i {
                            assert(p == position);
                        }
                    }
                }
            }
            i += 1;
        }
        Ok(length)
    }

    /// Resolves a commit-ID prefix across the full index.
    pub fn resolve_commit_id_prefix(&self, prefix: &HexPrefix) -> (result: IndexResult<
        PrefixResolution<CommitId>,
    >)
        ensures
            call_ensures(T::resolve_commit_id_prefix, (&*self.handle(), prefix), result),
            match result {
                Ok(resolution) => commit_resolution(resolution) == (
                self.model().commit_id_prefixes)(prefix@),
                Err(error) => (self.model().faults)(Lookup::CommitIdPrefix(prefix@), error),
            },
    {
        self.index.resolve_commit_id_prefix(prefix)
    }

    /// Returns whether the index holds `commit_id`.
    pub fn has_id(&self, commit_id: &CommitId) -> (result: IndexResult<bool>)
        ensures
            match result {
                Ok(found) => found == self.model().positions.dom().contains(commit_id@),
                Err(error) => (self.model().faults)(Lookup::CommitId(commit_id@), error),
            },
    {
        Ok(self.index.position_by_commit_id(commit_id)?.is_some())
    }

    /// Returns whether `ancestor_id` is reachable from `descendant_id`, including
    /// equality.
    pub fn is_ancestor(&self, ancestor_id: &CommitId, descendant_id: &CommitId) -> (result:
        IndexResult<bool>)
        ensures
            match result {
                Ok(found) => {
                    let model = self.model();
                    &&& model.positions.dom().contains(ancestor_id@)
                    &&& model.positions.dom().contains(descendant_id@)
                    &&& answers_ancestor(
                        model.graph,
                        model.positions[ancestor_id@],
                        model.positions[descendant_id@],
                        found,
                    )
                },
                Err(error) => fails_on_ancestor_id(
                    self.model(),
                    ancestor_id@,
                    descendant_id@,
                    error,
                ),
            },
    {
        is_ancestor(&*self.index, ancestor_id, descendant_id)
    }

    /// Returns the best common ancestors of two commit sets.
    pub fn common_ancestors(&self, set1: &[CommitId], set2: &[CommitId]) -> (result: IndexResult<
        Vec<CommitId>,
    >)
        ensures
            match result {
                Ok(best) => {
                    &&& holds_all(self.model(), id_bytes(set1@))
                    &&& holds_all(self.model(), id_bytes(set2@))
                    &&& names_common_ancestors(
                        self.model(),
                        id_bytes(set1@),
                        id_bytes(set2@),
                        id_bytes(best@),
                    )
                },
                Err(error) => fails_to_name_common_ancestors(
                    self.model(),
                    id_bytes(set1@),
                    id_bytes(set2@),
                    error,
                ),
            },
    {
        common_ancestors(&*self.index, set1, set2)
    }

    /// Returns IDs which are heads among all indexed commits.
    pub fn all_heads_for_gc(&self) -> (result: IndexResult<Vec<CommitId>>)
        ensures
            match result {
                Ok(heads) => names_all_heads(self.model(), id_bytes(heads@)),
                Err(error) => fails_on_all(self.model(), error),
            },
    {
        all_heads(&*self.index)
    }

    /// Returns commits from `candidates` which are not ancestors of another
    /// candidate.
    ///
    /// The iterator has to come to an end.
    pub fn heads<'a, I: Iterator<Item = &'a CommitId> + ?Sized>(&self, candidates: &mut I) -> (result:
        IndexResult<Vec<CommitId>>)
        requires
            <I as vstd::std_specs::iter::IteratorSpec>::obeys_prophetic_iter_laws(old(candidates)),
            <I as vstd::std_specs::iter::IteratorSpec>::decrease(old(candidates)) is Some,
        ensures
            ({
                let given = borrowed_id_bytes(
                    <I as vstd::std_specs::iter::IteratorSpec>::remaining(old(candidates)),
                );
                match result {
                    Ok(heads) => {
                        &&& holds_all(self.model(), given)
                        &&& names_heads(self.model(), given, id_bytes(heads@))
                        &&& <I as vstd::std_specs::iter::IteratorSpec>::remaining(
                            final(candidates),
                        ).len() == 0
                    },
                    Err(error) => {
                        &&& fails_to_name_heads(self.model(), given, error)
                        &&& is_rest(
                            self.model(),
                            <I as vstd::std_specs::iter::IteratorSpec>::remaining(old(candidates)),
                            <I as vstd::std_specs::iter::IteratorSpec>::remaining(final(candidates)),
                            error,
                        )
                    },
                }
            }),
    {
        heads(&*self.index, candidates)
    }

    /// Loads the sorted changed paths of a commit.
    ///
    /// Returns `None` if the index does not hold the commit, or if changed paths
    /// were not indexed for it.
    pub fn changed_paths_in_commit(&self, commit_id: &CommitId) -> (result: IndexResult<
        Option<Vec<RepoPathBuf>>,
    >)
        ensures
            match result {
                Ok(paths) => {
                    &&& path_texts(paths) == if self.model().positions.dom().contains(commit_id@) {
                        (self.model().changed_paths)(self.model().positions[commit_id@])
                    } else {
                        None
                    }
                    &&& has_sorted_paths(path_texts(paths))
                },
                Err(error) => {
                    ||| (self.model().faults)(Lookup::CommitId(commit_id@), error)
                    ||| {
                        &&& self.model().positions.dom().contains(commit_id@)
                        &&& (self.model().faults)(
                            Lookup::ChangedPaths(self.model().positions[commit_id@]),
                            error,
                        )
                    }
                },
            },
    {
        match self.index.position_by_commit_id(commit_id)? {
            Some(position) => self.index.changed_paths(position),
            None => Ok(None),
        }
    }

    /// Evaluates a resolved revset over the index.
    pub fn evaluate_revset<
        X: ?Sized,
        S: ?Sized,
        R,
        E,
        F: FnOnce(&X, &Arc<S>, Arc<T>) -> Result<R, E>,
    >(&self, expression: &X, store: &Arc<S>, engine: F) -> (result: Result<Box<R>, E>)
        requires
            call_requires(engine, (expression, store, self.handle())),
        ensures
            is_evaluated(engine, expression, store, self.handle(), result),
    {
        evaluate_revset(expression, store, self.index.clone(), engine)
    }
}

/// One more commit may need one more digit.
proof fn lemma_one_more_commit(
    model: IndexModel,
    id: Seq<u8>,
    i: u32,
    before: int,
    after: int,
    common: int,
)
    requires
        is_distinguishing_len(model, id, i as int, before),
        model.graph[GlobalPosition(i)].commit_id != id,
        is_common_prefix_len(
            hex_digits(id),
            hex_digits(model.graph[GlobalPosition(i)].commit_id),
            common,
        ),
        after == if common + 1 > before {
            common + 1
        } else {
            before
        },
    ensures
        is_distinguishing_len(model, id, i + 1, after),
{
    let digits = hex_digits(id);
    assert forall|p: GlobalPosition, other: int|
        p.0 < i + 1 && model.graph[p].commit_id != id && #[trigger] is_common_prefix_len(
            digits,
            hex_digits(model.graph[p].commit_id),
            other,
        ) implies other < after by {
        if p.0 == i {
            assert(p == GlobalPosition(i));
            lemma_common_prefix_unique(
                digits,
                hex_digits(model.graph[p].commit_id),
                common,
                other,
            );
        }
    }
    if common + 1 > before {
        assert(is_common_prefix_len(
            digits,
            hex_digits(model.graph[GlobalPosition(i)].commit_id),
            after - 1,
        ));
    } else {
        let p = choose|p: GlobalPosition|
            p.0 < i && model.graph[p].commit_id != id && #[trigger] is_common_prefix_len(
                digits,
                hex_digits(model.graph[p].commit_id),
                before - 1,
            );
        assert(is_common_prefix_len(digits, hex_digits(model.graph[p].commit_id), after - 1));
    }
}

/// Two sequences have one longest common prefix.
proof fn lemma_common_prefix_unique(a: Seq<u8>, b: Seq<u8>, first: int, second: int)
    requires
        is_common_prefix_len(a, b, first),
        is_common_prefix_len(a, b, second),
    ensures
        first == second,
{
}

} // verus!
