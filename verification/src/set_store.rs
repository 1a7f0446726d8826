//! Set stores: collections of sets of small integers supporting insertion,
//! removal, membership, and subset / superset queries.

use vstd::prelude::*;

/// Set store backed by a vector of sets; every operation is a linear scan.
pub mod list;

/// Set store backed by a trie keyed by the sorted values of the sets.
pub mod set_trie;

verus! {

/// A strictly increasing sequence of values: the canonical form of a set.
pub open spec fn strictly_sorted(s: Seq<usize>) -> bool {
    forall|i: int, j: int| 0 <= i < j < s.len() ==> s[i] < s[j]
}

/// Every value of `a` occurs in `b`.
pub open spec fn is_subset_spec(a: Seq<usize>, b: Seq<usize>) -> bool {
    forall|x: usize| a.contains(x) ==> b.contains(x)
}

/// Stores sets, each given as a strictly increasing sequence of values.
/// Supports insertion, removal, membership, and subset / superset queries.
pub trait SetStore: Sized {
    /// Well-formedness of the store's internal structure.
    spec fn inv(&self) -> bool;

    /// The sets currently held.
    spec fn sets(&self) -> Set<Seq<usize>>;

    /// Inserts a set. Returns `true` if the set was newly inserted; an
    /// implementation may also return `true` for a set already present.
    fn insert(&mut self, s: &[usize]) -> (r: bool)
        requires
            old(self).inv(),
            strictly_sorted(s@),
            forall|t: int| 0 <= t < s@.len() ==> #[trigger] s@[t] < usize::MAX,
        ensures
            final(self).inv(),
            r ==> final(self).sets() == old(self).sets().insert(s@),
            !r ==> final(self).sets() == old(self).sets() && old(self).sets().contains(s@),
    ;

    /// Removes a set. Returns `true` iff the set was present.
    fn remove(&mut self, s: &[usize]) -> (r: bool)
        requires
            old(self).inv(),
            strictly_sorted(s@),
        ensures
            final(self).inv(),
            r == old(self).sets().contains(s@),
            final(self).sets() == old(self).sets().remove(s@),
    ;

    /// Returns stored sets that are subsets of `s`; every returned set is
    /// stored and is a subset of `s`.
    fn find_subsets(&self, s: &[usize]) -> (r: Vec<Vec<usize>>)
        requires
            self.inv(),
            strictly_sorted(s@),
        ensures
            forall|j: int|
                0 <= j < r@.len() ==> self.sets().contains(#[trigger] r@[j]@) && is_subset_spec(
                    r@[j]@,
                    s@,
                ),
    ;

    /// Returns stored sets that are supersets of `s`; every returned set is
    /// stored and is a superset of `s`.
    fn find_supersets(&self, s: &[usize]) -> (r: Vec<Vec<usize>>)
        requires
            self.inv(),
            strictly_sorted(s@),
            forall|t: int| 0 <= t < s@.len() ==> #[trigger] s@[t] < usize::MAX,
        ensures
            forall|j: int|
                0 <= j < r@.len() ==> self.sets().contains(#[trigger] r@[j]@) && is_subset_spec(
                    s@,
                    r@[j]@,
                ),
    ;

    /// Returns true iff the set exists in the store.
    fn contains(&self, s: &[usize]) -> (r: bool)
        requires
            self.inv(),
            strictly_sorted(s@),
        ensures
            r == self.sets().contains(s@),
    ;
}

} // verus!
