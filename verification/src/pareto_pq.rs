//! Pareto fronts: sets of mutually non-dominated elements with pruning
//! insertion, dominance queries and directed minimum extraction.

use vstd::prelude::*;
use vstd::multiset::Multiset;

/// Utility element types for the fronts.
pub mod util;

/// Front backed by a plain vector; every operation is a linear scan.
pub mod list;

/// Front backed by a kd-tree whose nodes cache per-dimension bounds.
pub mod kd_tree;

/// Front backed by a kd-tree without cached bounds.
pub mod naive_kd_tree;

verus! {

/// Weak Pareto dominance on coordinate vectors: `a` dominates `b` when the
/// vectors have the same arity and `a` is at most `b` on every dimension.
/// Equal vectors dominate one another.
pub open spec fn dominates_spec(a: Seq<u16>, b: Seq<u16>) -> bool {
    a.len() == b.len() && forall|i: int| 0 <= i < a.len() ==> a[i] <= b[i]
}

/// Element of a Pareto front: an immutable vector of `u16` coordinates.
pub trait ParetoElement: Sized {
    /// The coordinate vector of the element.
    spec fn coords(&self) -> Seq<u16>;

    /// Returns the number of dimensions of the element.
    fn nb_dimensions(&self) -> (r: usize)
        ensures
            r == self.coords().len(),
    ;

    /// Returns the k-th coordinate.
    fn kth(&self, k: usize) -> (r: u16)
        requires
            k < self.coords().len(),
        ensures
            r == self.coords()[k as int],
    ;

    /// Returns true iff the element dominates the other.
    fn dominates(&self, other: &Self) -> (r: bool)
        requires
            other.coords().len() == self.coords().len(),
        ensures
            r == dominates_spec(self.coords(), other.coords()),
    ;

    /// Returns true iff both elements carry the same coordinate vector.
    fn eq_elt(&self, other: &Self) -> (r: bool)
        ensures
            r == (self.coords() == other.coords()),
    ;
}

/// An antichain: no element occurs twice, and no element dominates another.
pub open spec fn antichain<Elt: ParetoElement>(ms: Multiset<Elt>) -> bool {
    &&& forall|x: Elt| #[trigger] ms.contains(x) ==> ms.count(x) == 1
    &&& forall|x: Elt, y: Elt|
        ms.contains(x) && ms.contains(y) && x != y ==> !dominates_spec(
            x.coords(),
            y.coords(),
        )
}

/// Law: removing elements never breaks an antichain.
pub proof fn lemma_antichain_remove<Elt: ParetoElement>(ms: Multiset<Elt>, e: Elt)
    requires
        antichain(ms),
    ensures
        antichain(ms.remove(e)),
{
    broadcast use vstd::multiset::group_multiset_axioms;

    assert forall|x: Elt| #[trigger] ms.remove(e).contains(x) implies ms.remove(e).count(x)
        == 1 by {
        assert(ms.contains(x));
    }
    assert forall|x: Elt, y: Elt|
        ms.remove(e).contains(x) && ms.remove(e).contains(y) && x != y implies !dominates_spec(
        x.coords(),
        y.coords(),
    ) by {
        assert(ms.contains(x));
        assert(ms.contains(y));
    }
}

/// Law: inserting an element that nothing present dominates, while evicting
/// exactly the elements it dominates, preserves the antichain property.
pub proof fn lemma_insert_preserves_antichain<Elt: ParetoElement>(
    ms: Multiset<Elt>,
    new_ms: Multiset<Elt>,
    e: Elt,
)
    requires
        antichain(ms),
        forall|d: Elt| #[trigger] ms.contains(d) ==> !dominates_spec(d.coords(), e.coords()),
        new_ms == ms.filter(|x: Elt| !dominates_spec(e.coords(), x.coords())).insert(e),
    ensures
        antichain(new_ms),
{
    broadcast use vstd::multiset::group_multiset_axioms;

    let pred = |x: Elt| !dominates_spec(e.coords(), x.coords());
    let kept = ms.filter(pred);
    assert(dominates_spec(e.coords(), e.coords()));
    assert(kept.count(e) == 0);
    assert forall|x: Elt| #[trigger] new_ms.contains(x) implies new_ms.count(x) == 1 by {
        if x == e {
            assert(new_ms.count(e) == kept.count(e) + 1);
        } else {
            assert(new_ms.count(x) == kept.count(x));
            assert(kept.contains(x));
            assert(ms.contains(x));
        }
    }
    assert forall|x: Elt, y: Elt|
        new_ms.contains(x) && new_ms.contains(y) && x != y implies !dominates_spec(
        x.coords(),
        y.coords(),
    ) by {
        if x == e {
            assert(kept.contains(y));
            assert(pred(y));
        } else if y == e {
            assert(kept.contains(x));
            assert(ms.contains(x));
        } else {
            assert(kept.contains(x));
            assert(kept.contains(y));
            assert(ms.contains(x));
            assert(ms.contains(y));
        }
    }
}

/// Law: inserting an element `e` that neither dominates nor is dominated by
/// anything present evicts nothing, `e` is then the only present element
/// carrying its coordinate vector, and removing it restores the collection.
pub proof fn lemma_insert_remove_round_trip<Elt: ParetoElement>(ms: Multiset<Elt>, e: Elt)
    requires
        forall|d: Elt| #[trigger] ms.contains(d) ==> !dominates_spec(d.coords(), e.coords()),
        forall|d: Elt| #[trigger] ms.contains(d) ==> !dominates_spec(e.coords(), d.coords()),
    ensures
        ms.filter(|x: Elt| !dominates_spec(e.coords(), x.coords())).insert(e) == ms.insert(e),
        forall|x: Elt| ms.insert(e).contains(x) && x.coords() == e.coords() ==> x == e,
        ms.insert(e).remove(e) == ms,
{
    broadcast use vstd::multiset::group_multiset_axioms;

    let pred = |x: Elt| !dominates_spec(e.coords(), x.coords());
    assert forall|x: Elt| true implies ms.filter(pred).count(x) == ms.count(x) by {
        if ms.contains(x) {
            assert(pred(x));
        } else {
            assert(ms.count(x) == 0);
        }
    }
    assert(ms.filter(pred) =~= ms);
    assert forall|x: Elt| ms.insert(e).contains(x) && x.coords() == e.coords() implies x
        == e by {
        if x != e {
            assert(ms.contains(x));
            assert(dominates_spec(x.coords(), e.coords()));
        }
    }
    assert(ms.insert(e).remove(e) =~= ms);
}

/// Pareto front: maintains a collection of elements, silently rejecting
/// dominated insertions and silently evicting elements that an inserted
/// element dominates. All implementations satisfy this one contract.
pub trait ParetoFront<Elt: ParetoElement>: Sized {
    /// Well-formedness of the front's internal structure.
    spec fn inv(&self) -> bool;

    /// The elements currently held, as a multiset.
    spec fn contents(&self) -> Multiset<Elt>;

    /// True when the front may handle elements of `k` coordinates.
    spec fn compat(&self, k: nat) -> bool;

    /// Returns and removes an element with minimum value on dimension `dim`;
    /// `None` only when the front is empty.
    fn pop_minimum_element(&mut self, dim: usize) -> (r: Option<Elt>)
        requires
            old(self).inv(),
            exists|k: nat| #[trigger] old(self).compat(k) && dim < k,
        ensures
            final(self).inv(),
            forall|k: nat| #[trigger] old(self).compat(k) ==> final(self).compat(k),
            match r {
                Some(e) => {
                    &&& old(self).contents().contains(e)
                    &&& final(self).contents() == old(self).contents().remove(e)
                    &&& (dim as int) < e.coords().len()
                    &&& forall|x: Elt| #[trigger]
                        old(self).contents().contains(x) ==> e.coords()[dim as int]
                            <= x.coords()[dim as int]
                },
                None => final(self).contents() == old(self).contents() && old(
                    self,
                ).contents().len() == 0,
            },
    ;

    /// Returns an element with minimum value on dimension `dim`;
    /// `None` only when the front is empty.
    fn peek_minimum_element(&self, dim: usize) -> (r: Option<&Elt>)
        requires
            self.inv(),
            exists|k: nat| #[trigger] self.compat(k) && dim < k,
        ensures
            match r {
                Some(e) => {
                    &&& self.contents().contains(*e)
                    &&& (dim as int) < e.coords().len()
                    &&& forall|x: Elt| #[trigger]
                        self.contents().contains(x) ==> e.coords()[dim as int]
                            <= x.coords()[dim as int]
                },
                None => self.contents().len() == 0,
            },
    ;

    /// Returns the minimum value on coordinate `dim`; `None` only when the
    /// front is empty.
    fn peek_minimum_coordinate(&self, dim: usize) -> (r: Option<u16>)
        requires
            self.inv(),
            exists|k: nat| #[trigger] self.compat(k) && dim < k,
        ensures
            match r {
                Some(v) => {
                    &&& exists|e: Elt| #[trigger] self.contents().contains(e)
                        && e.coords().len() > dim && e.coords()[dim as int] == v
                    &&& forall|x: Elt| #[trigger] self.contents().contains(x) && x.coords().len()
                        > dim ==> v <= x.coords()[dim as int]
                },
                None => self.contents().len() == 0,
            },
    ;

    /// Returns an element dominating the given one if any is present.
    fn find_dominating(&self, elt: &Elt) -> (r: Option<&Elt>)
        requires
            self.inv(),
            self.compat(elt.coords().len()),
        ensures
            match r {
                Some(d) => self.contents().contains(*d) && dominates_spec(
                    d.coords(),
                    elt.coords(),
                ),
                None => forall|x: Elt| #[trigger]
                    self.contents().contains(x) ==> !dominates_spec(x.coords(), elt.coords()),
            },
    ;

    /// Inserts an element. Returns `false` and leaves the front unchanged if
    /// some present element dominates it; otherwise evicts exactly the
    /// elements it dominates, adds it, and returns `true`.
    fn insert(&mut self, elt: Elt) -> (r: bool)
        requires
            old(self).inv(),
            old(self).compat(elt.coords().len()),
        ensures
            final(self).inv(),
            final(self).compat(elt.coords().len()),
            r == !(exists|d: Elt| #[trigger] old(self).contents().contains(d) && dominates_spec(
                d.coords(),
                elt.coords(),
            )),
            r ==> final(self).contents() == old(self).contents().filter(
                |x: Elt| !dominates_spec(elt.coords(), x.coords()),
            ).insert(elt),
            !r ==> final(self).contents() == old(self).contents() && (forall|k: nat| #[trigger]
                old(self).compat(k) ==> final(self).compat(k)),
            antichain(old(self).contents()) ==> antichain(final(self).contents()),
    ;

    /// Removes one element carrying the given coordinate vector.
    /// Returns `true` iff such an element existed and was removed.
    fn remove(&mut self, elt: &Elt) -> (r: bool)
        requires
            old(self).inv(),
            old(self).compat(elt.coords().len()),
        ensures
            final(self).inv(),
            forall|k: nat| #[trigger] old(self).compat(k) ==> final(self).compat(k),
            r ==> exists|x: Elt| #[trigger] old(self).contents().contains(x) && x.coords()
                == elt.coords() && final(self).contents() == old(self).contents().remove(x),
            !r ==> final(self).contents() == old(self).contents() && (forall|x: Elt| #[trigger]
                old(self).contents().contains(x) ==> x.coords() != elt.coords()),
    ;
}

} // verus!
