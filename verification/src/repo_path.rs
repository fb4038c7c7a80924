//! Paths in a repository.
use vstd::prelude::*;

verus! {

/// The text `first` is `second`, or comes before it: they are the same up to some
/// character, where `first` ends or has the lower code point.
pub open spec fn is_at_or_before(first: Seq<char>, second: Seq<char>) -> bool {
    exists|n: int| #[trigger] parts_at(first, second, n)
}

/// The texts are the same up to the character at `n`, where `first` ends or has the
/// lower code point.
pub open spec fn parts_at(first: Seq<char>, second: Seq<char>, n: int) -> bool {
    &&& 0 <= n <= first.len()
    &&& n <= second.len()
    &&& forall|i: int| 0 <= i < n ==> first[i] == second[i]
    &&& n == first.len() || n < second.len() && (first[n] as int) < (second[n] as int)
}

/// Each of `texts` is at or before those behind it.
pub open spec fn is_sorted(texts: Seq<Seq<char>>) -> bool {
    forall|i: int, j: int|
        0 <= i < j < texts.len() ==> #[trigger] is_at_or_before(texts[i], texts[j])
}

/// Two texts which are at or before each other are the same.
pub proof fn lemma_text_order_antisymmetric(first: Seq<char>, second: Seq<char>)
    requires
        is_at_or_before(first, second),
        is_at_or_before(second, first),
    ensures
        first == second,
{
    let n = choose|n: int| #[trigger] parts_at(first, second, n);
    let m = choose|m: int| #[trigger] parts_at(second, first, m);
    assert(n == m);
    assert(first =~= second);
}

/// What is at or before a text is at or before what is behind it.
pub proof fn lemma_text_order_transitive(
    first: Seq<char>,
    second: Seq<char>,
    third: Seq<char>,
)
    requires
        is_at_or_before(first, second),
        is_at_or_before(second, third),
    ensures
        is_at_or_before(first, third),
{
    let n = choose|n: int| #[trigger] parts_at(first, second, n);
    let m = choose|m: int| #[trigger] parts_at(second, third, m);
    if n <= m {
        assert(parts_at(first, third, n));
    } else {
        assert(parts_at(first, third, m));
    }
}

/// Of two texts, one is at or before the other.
pub proof fn lemma_text_order_total(first: Seq<char>, second: Seq<char>)
    ensures
        is_at_or_before(first, second) || is_at_or_before(second, first),
{
    lemma_text_order_total_from(first, second, 0);
}

proof fn lemma_text_order_total_from(first: Seq<char>, second: Seq<char>, n: int)
    requires
        0 <= n <= first.len(),
        n <= second.len(),
        forall|i: int| 0 <= i < n ==> first[i] == second[i],
    ensures
        is_at_or_before(first, second) || is_at_or_before(second, first),
    decreases first.len() - n,
{
    if n < first.len() && n < second.len() && first[n] == second[n] {
        lemma_text_order_total_from(first, second, n + 1);
    } else if n == first.len() || n < second.len() && (first[n] as int) < (second[n] as int) {
        assert(parts_at(first, second, n));
    } else {
        assert(parts_at(second, first, n));
    }
}

/// Path of a file in a repository.
///
/// Paths are ordered by their texts, character by character.
#[derive(Debug, PartialEq, Eq, PartialOrd, Ord, Hash)]
pub struct RepoPathBuf {
    value: String,
}

impl View for RepoPathBuf {
    type V = Seq<char>;

    closed spec fn view(&self) -> Seq<char> {
        self.value@
    }
}

impl RepoPathBuf {
    /// Creates a path from its text.
    pub fn new(value: String) -> (path: Self)
        ensures
            path@ == value@,
    {
        Self { value }
    }

    /// Returns the text of the path.
    pub fn as_str(&self) -> (text: &str)
        ensures
            text@ == self@,
    {
        self.value.as_str()
    }
}

impl Clone for RepoPathBuf {
    fn clone(&self) -> (copy: Self)
        ensures
            copy@ == self@,
    {
        Self { value: self.value.clone() }
    }
}

} // verus!
