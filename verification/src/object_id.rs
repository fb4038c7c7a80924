//! Identifiers of commits and changes, and prefixes of their hex form.
use vstd::prelude::*;

use crate::hex_util::hex_digits;

verus! {

/// Identifier of a commit: a string of bytes.
#[derive(Debug, PartialEq, Eq, PartialOrd, Ord, Hash)]
pub struct CommitId(Vec<u8>);

impl View for CommitId {
    type V = Seq<u8>;

    closed spec fn view(&self) -> Seq<u8> {
        self.0@
    }
}

impl CommitId {
    /// Creates an identifier from its bytes.
    pub fn new(bytes: Vec<u8>) -> (id: Self)
        ensures
            id@ == bytes@,
    {
        Self(bytes)
    }

    /// Returns the bytes of the identifier.
    pub fn as_bytes(&self) -> (bytes: &[u8])
        ensures
            bytes@ == self@,
    {
        self.0.as_slice()
    }

    /// Returns whether both identifiers have the same bytes.
    pub fn same_as(&self, other: &Self) -> (same: bool)
        ensures
            same == (self@ == other@),
    {
        let same = self.0 == other.0;
        proof {
            if same {
                assert(self@ =~= other@);
            }
        }
        same
    }
}

impl Clone for CommitId {
    fn clone(&self) -> (copy: Self)
        ensures
            copy@ == self@,
    {
        let bytes = self.0.clone();
        assert(bytes@ =~= self.0@);
        Self(bytes)
    }
}

/// Identifier of a change: a string of bytes.
#[derive(Debug, PartialEq, Eq, PartialOrd, Ord, Hash)]
pub struct ChangeId(Vec<u8>);

impl View for ChangeId {
    type V = Seq<u8>;

    closed spec fn view(&self) -> Seq<u8> {
        self.0@
    }
}

impl ChangeId {
    /// Creates an identifier from its bytes.
    pub fn new(bytes: Vec<u8>) -> (id: Self)
        ensures
            id@ == bytes@,
    {
        Self(bytes)
    }

    /// Returns the bytes of the identifier.
    pub fn as_bytes(&self) -> (bytes: &[u8])
        ensures
            bytes@ == self@,
    {
        self.0.as_slice()
    }
}

impl Clone for ChangeId {
    fn clone(&self) -> (copy: Self)
        ensures
            copy@ == self@,
    {
        let bytes = self.0.clone();
        assert(bytes@ =~= self.0@);
        Self(bytes)
    }
}

/// Prefix of an identifier's hex form.
#[derive(Clone, Debug, PartialEq, Eq)]
pub struct HexPrefix {
    /// The digits of the prefix, two to a byte. If their number is odd, the
    /// lower half of the last byte is not part of the prefix.
    pub min_prefix_bytes: Vec<u8>,
    /// Whether the number of digits is odd.
    pub has_odd_byte: bool,
}

impl View for HexPrefix {
    type V = Seq<u8>;

    /// The hex digits of the prefix.
    open spec fn view(&self) -> Seq<u8> {
        if self.has_odd_byte {
            hex_digits(self.min_prefix_bytes@).drop_last()
        } else {
            hex_digits(self.min_prefix_bytes@)
        }
    }
}

/// What a prefix resolves to.
#[derive(Clone, Debug, PartialEq, Eq)]
pub enum PrefixResolution<T> {
    /// Nothing has the prefix.
    NoMatch,
    /// One thing has the prefix.
    SingleMatch(T),
    /// More than one thing has the prefix.
    AmbiguousMatch,
}

} // verus!
