//! The set of distinct share abscissas, held in a `hashbrown::HashSet`.
use vstd::prelude::*;

verus! {

/// A set of bytes backed by `hashbrown::HashSet<u8>`.
#[verifier::external_body]
pub struct KeySet {
    inner: hashbrown::HashSet<u8>,
}

/// The elements a `KeySet` holds.
pub uninterp spec fn key_set_contents(s: KeySet) -> Set<u8>;

impl KeySet {
    /// `hashbrown::HashSet::new`: a set with no elements.
    #[verifier::external_body]
    pub fn new() -> (s: KeySet)
        ensures
            key_set_contents(s) == Set::<u8>::empty(),
    {
        KeySet { inner: hashbrown::HashSet::new() }
    }

    /// `hashbrown::HashSet::insert`: adds `k`; returns whether it was absent before.
    #[verifier::external_body]
    pub fn insert(&mut self, k: u8) -> (fresh: bool)
        ensures
            key_set_contents(*final(self)) == key_set_contents(*old(self)).insert(k),
            fresh == !key_set_contents(*old(self)).contains(k),
    {
        self.inner.insert(k)
    }

    /// `hashbrown::HashSet::len`: the number of elements.
    #[verifier::external_body]
    pub fn len(&self) -> (n: usize)
        ensures
            n == key_set_contents(*self).len(),
    {
        self.inner.len()
    }

    /// `hashbrown::HashSet::is_empty`: whether the set has no elements.
    #[verifier::external_body]
    pub fn is_empty(&self) -> (b: bool)
        ensures
            b == (key_set_contents(*self) == Set::<u8>::empty()),
    {
        self.inner.is_empty()
    }
}

} // verus!
