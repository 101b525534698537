//! Finite sets of ids (vertex ids, constraint indices), held in the
//! `fnv` crate's hash set.

use vstd::prelude::*;
use std::collections::HashSet;
use fnv::FnvBuildHasher;

verus! {

/// A finite set of `usize` ids. The set itself lives in a
/// `HashSet<usize, fnv::FnvBuildHasher>`; Verus sees it only through
/// `id_set_contents`, which the trusted methods below speak of.
#[verifier::external_body]
pub struct IdSet {
    inner: HashSet<usize, FnvBuildHasher>,
}

/// What an `IdSet` holds.
pub uninterp spec fn id_set_contents(s: IdSet) -> Set<usize>;

impl View for IdSet {
    type V = Set<usize>;

    open spec fn view(&self) -> Set<usize> {
        id_set_contents(*self)
    }
}

impl IdSet {
    /// `HashSet::default()` with `fnv`'s hasher: an empty set.
    #[verifier::external_body]
    pub(crate) fn empty() -> (r: IdSet)
        ensures
            id_set_contents(r) == Set::<usize>::empty(),
    {
        IdSet { inner: HashSet::default() }
    }

    /// `HashSet::insert`: adds `v`, and says whether it was absent.
    #[verifier::external_body]
    pub(crate) fn insert(&mut self, v: usize) -> (r: bool)
        ensures
            id_set_contents(*final(self)) == id_set_contents(*old(self)).insert(v),
            r == !id_set_contents(*old(self)).contains(v),
    {
        self.inner.insert(v)
    }

    /// `HashSet::remove`: takes `v` out, and says whether it was present.
    #[verifier::external_body]
    pub(crate) fn remove(&mut self, v: usize) -> (r: bool)
        ensures
            id_set_contents(*final(self)) == id_set_contents(*old(self)).remove(v),
            r == id_set_contents(*old(self)).contains(v),
    {
        self.inner.remove(&v)
    }

    /// `HashSet::contains`.
    #[verifier::external_body]
    pub(crate) fn contains(&self, v: usize) -> (r: bool)
        ensures
            r == id_set_contents(*self).contains(v),
    {
        self.inner.contains(&v)
    }

    /// `HashSet::is_subset`: every element of `self` is in `other`.
    #[verifier::external_body]
    pub(crate) fn is_subset(&self, other: &IdSet) -> (r: bool)
        ensures
            r == id_set_contents(*self).subset_of(id_set_contents(*other)),
    {
        self.inner.is_subset(&other.inner)
    }

    /// `HashSet::len`: the number of elements.
    #[verifier::external_body]
    pub(crate) fn len(&self) -> (r: usize)
        ensures
            r == id_set_contents(*self).len(),
    {
        self.inner.len()
    }

    /// `HashSet::clone`: a set with the same elements.
    #[verifier::external_body]
    pub(crate) fn duplicate(&self) -> (r: IdSet)
        ensures
            id_set_contents(r) == id_set_contents(*self),
    {
        IdSet { inner: self.inner.clone() }
    }

    /// `HashSet::iter`, collected: each element once, in the order in
    /// which the hash set is walked (which nothing here states).
    #[verifier::external_body]
    pub(crate) fn elements(&self) -> (r: Vec<usize>)
        ensures
            r@.no_duplicates(),
            r@.to_set() == id_set_contents(*self),
    {
        self.inner.iter().cloned().collect()
    }

    /// `HashSet::iter().next()`: some element, or `None` for an empty set.
    /// Which element comes first is not stated.
    #[verifier::external_body]
    pub(crate) fn some_element(&self) -> (r: Option<usize>)
        ensures
            r is None <==> id_set_contents(*self) == Set::<usize>::empty(),
            r matches Some(x) ==> id_set_contents(*self).contains(x),
    {
        self.inner.iter().next().cloned()
    }

    /// `HashSet::shrink_to_fit`: frees spare capacity, keeps the elements.
    #[verifier::external_body]
    pub(crate) fn shrink_to_fit(&mut self)
        ensures
            id_set_contents(*final(self)) == id_set_contents(*old(self)),
    {
        self.inner.shrink_to_fit()
    }

    /// The set of the ids in `v`.
    pub fn from_vec(v: &Vec<usize>) -> (r: IdSet)
        ensures
            r@ == v@.to_set(),
    {
        let mut r = IdSet::empty();
        let mut i: usize = 0;
        while i < v.len()
            invariant
                i <= v@.len(),
                r@ == v@.subrange(0, i as int).to_set(),
            decreases v@.len() - i,
        {
            let ghost before = r@;
            r.insert(v[i]);
            proof {
                assert(v@.subrange(0, i + 1) == v@.subrange(0, i as int).push(v@[i as int]));
                crate::graph::lemma_to_set_push(v@.subrange(0, i as int), v@[i as int]);
            }
            i = i + 1;
        }
        proof {
            assert(v@.subrange(0, i as int) == v@);
        }
        r
    }

    /// The ids of the set, each once, in the order of the hash set.
    pub fn to_vec(&self) -> (r: Vec<usize>)
        ensures
            r@.no_duplicates(),
            r@.to_set() == self@,
    {
        self.elements()
    }
}

/// Listing a set and collecting the list again gives the set back, and
/// collecting a list without repeats and listing the set gives a list
/// with the same elements and length.
pub proof fn law_list_roundtrip(s: Set<usize>, l: Seq<usize>)
    requires
        l.no_duplicates(),
        l.to_set() == s,
    ensures
        s.finite(),
        l.len() == s.len(),
{
    l.unique_seq_to_set();
}

} // verus!
