//! Pareto priority queues: Pareto fronts whose elements additionally carry a
//! scalar guide value used for best-first extraction.

use vstd::prelude::*;
use vstd::multiset::Multiset;

/// Utility element types for the queues.
pub mod util;

/// Pareto priority queue backed by a plain vector.
pub mod pareto_list;

/// Pareto priority queue backed by a plain vector, exposing the queue trait
/// under the standard method names.
pub mod pareto_pq_list;

/// Pareto priority queue backed by a kd-tree with cached coordinate and
/// guide bounds.
pub mod kd_tree;

verus! {

/// Weak Pareto dominance on coordinate vectors: `a` dominates `b` when the
/// vectors have the same arity and `a` is at most `b` on every dimension.
pub open spec fn dominates_spec(a: Seq<u32>, b: Seq<u32>) -> bool {
    a.len() == b.len() && forall|i: int| 0 <= i < a.len() ==> a[i] <= b[i]
}

/// Element of a Pareto front: an immutable vector of `u32` coordinates.
pub trait ParetoElement: Sized {
    /// The coordinate vector of the element.
    spec fn coords(&self) -> Seq<u32>;

    /// Returns the number of dimensions of the element.
    fn nb_dimensions(&self) -> (r: usize)
        ensures
            r == self.coords().len(),
    ;

    /// Returns the k-th coordinate.
    fn kth(&self, k: usize) -> (r: u32)
        requires
            k < self.coords().len(),
        ensures
            r == self.coords()[k as int],
    ;

    /// Returns true iff the element dominates the other.
    fn dominates(&self, other: &Self) -> (r: bool)
        requires
            other.coords().len() == self.coords().len(),
        ensures
            r == dominates_spec(self.coords(), other.coords()),
    ;

    /// Returns true iff both elements carry the same coordinate vector.
    fn eq_elt(&self, other: &Self) -> (r: bool)
        ensures
            r == (self.coords() == other.coords()),
    ;
}

/// A guided element: provides the scalar guide value that the priority
/// queue orders extractions by.
pub trait GuidedElement: Sized {
    /// The guide value of the element.
    spec fn guide_spec(&self) -> u32;

    /// Returns the guide value of the element.
    fn guide(&self) -> (r: u32)
        ensures
            r == self.guide_spec(),
    ;
}

/// An antichain: no element occurs twice, and no element dominates another.
pub open spec fn antichain<Elt: ParetoElement>(ms: Multiset<Elt>) -> bool {
    &&& forall|x: Elt| #[trigger] ms.contains(x) ==> ms.count(x) == 1
    &&& forall|x: Elt, y: Elt|
        ms.contains(x) && ms.contains(y) && x != y ==> !dominates_spec(
            x.coords(),
            y.coords(),
        )
}

/// Law: removing elements never breaks an antichain.
pub proof fn lemma_antichain_remove<Elt: ParetoElement>(ms: Multiset<Elt>, e: Elt)
    requires
        antichain(ms),
    ensures
        antichain(ms.remove(e)),
{
    broadcast use vstd::multiset::group_multiset_axioms;

    assert forall|x: Elt| #[trigger] ms.remove(e).contains(x) implies ms.remove(e).count(x)
        == 1 by {
        assert(ms.contains(x));
    }
    assert forall|x: Elt, y: Elt|
        ms.remove(e).contains(x) && ms.remove(e).contains(y) && x != y implies !dominates_spec(
        x.coords(),
        y.coords(),
    ) by {
        assert(ms.contains(x));
        assert(ms.contains(y));
    }
}

/// Law: inserting an element that nothing present dominates, while evicting
/// exactly the elements it dominates, preserves the antichain property.
pub proof fn lemma_insert_preserves_antichain<Elt: ParetoElement>(
    ms: Multiset<Elt>,
    new_ms: Multiset<Elt>,
    e: Elt,
)
    requires
        antichain(ms),
        forall|d: Elt| #[trigger] ms.contains(d) ==> !dominates_spec(d.coords(), e.coords()),
        new_ms == ms.filter(|x: Elt| !dominates_spec(e.coords(), x.coords())).insert(e),
    ensures
        antichain(new_ms),
{
    broadcast use vstd::multiset::group_multiset_axioms;

    let pred = |x: Elt| !dominates_spec(e.coords(), x.coords());
    let kept = ms.filter(pred);
    assert(dominates_spec(e.coords(), e.coords()));
    assert(kept.count(e) == 0);
    assert forall|x: Elt| #[trigger] new_ms.contains(x) implies new_ms.count(x) == 1 by {
        if x == e {
            assert(new_ms.count(e) == kept.count(e) + 1);
        } else {
            assert(new_ms.count(x) == kept.count(x));
            assert(kept.contains(x));
            assert(ms.contains(x));
        }
    }
    assert forall|x: Elt, y: Elt|
        new_ms.contains(x) && new_ms.contains(y) && x != y implies !dominates_spec(
        x.coords(),
        y.coords(),
    ) by {
        if x == e {
            assert(kept.contains(y));
            assert(pred(y));
        } else if y == e {
            assert(kept.contains(x));
            assert(ms.contains(x));
        } else {
            assert(kept.contains(x));
            assert(kept.contains(y));
            assert(ms.contains(x));
            assert(ms.contains(y));
        }
    }
}

/// A Pareto priority queue: maintains an antichain of guided elements and
/// extracts them in guide order.
pub trait PriorityQueue<Elt: ParetoElement + GuidedElement>: Sized {
    /// Well-formedness of the queue's internal structure.
    spec fn inv(&self) -> bool;

    /// The elements currently held, as a multiset.
    spec fn contents(&self) -> Multiset<Elt>;

    /// True when the queue may handle elements of `k` coordinates.
    spec fn compat(&self, k: nat) -> bool;

    /// Returns an element with minimum guide value; `None` only when the
    /// queue is empty.
    fn peek_minimum(&self) -> (r: Option<&Elt>)
        requires
            self.inv(),
        ensures
            match r {
                Some(e) => self.contents().contains(*e) && (forall|x: Elt| #[trigger]
                    self.contents().contains(x) ==> e.guide_spec() <= x.guide_spec()),
                None => self.contents().len() == 0,
            },
    ;

    /// Returns an element with maximum guide value; `None` only when the
    /// queue is empty.
    fn peek_maximum(&self) -> (r: Option<&Elt>)
        requires
            self.inv(),
        ensures
            match r {
                Some(e) => self.contents().contains(*e) && (forall|x: Elt| #[trigger]
                    self.contents().contains(x) ==> e.guide_spec() >= x.guide_spec()),
                None => self.contents().len() == 0,
            },
    ;

    /// Removes and returns an element with minimum guide value; `None` only
    /// when the queue is empty.
    fn pop_minimum(&mut self) -> (r: Option<Elt>)
        requires
            old(self).inv(),
        ensures
            final(self).inv(),
            forall|k: nat| #[trigger] old(self).compat(k) ==> final(self).compat(k),
            match r {
                Some(e) => {
                    &&& old(self).contents().contains(e)
                    &&& final(self).contents() == old(self).contents().remove(e)
                    &&& forall|x: Elt| #[trigger]
                        old(self).contents().contains(x) ==> e.guide_spec() <= x.guide_spec()
                },
                None => final(self).contents() == old(self).contents() && old(
                    self,
                ).contents().len() == 0,
            },
    ;

    /// Removes and returns an element with maximum guide value; `None` only
    /// when the queue is empty.
    fn pop_maximum(&mut self) -> (r: Option<Elt>)
        requires
            old(self).inv(),
        ensures
            final(self).inv(),
            forall|k: nat| #[trigger] old(self).compat(k) ==> final(self).compat(k),
            match r {
                Some(e) => {
                    &&& old(self).contents().contains(e)
                    &&& final(self).contents() == old(self).contents().remove(e)
                    &&& forall|x: Elt| #[trigger]
                        old(self).contents().contains(x) ==> e.guide_spec() >= x.guide_spec()
                },
                None => final(self).contents() == old(self).contents() && old(
                    self,
                ).contents().len() == 0,
            },
    ;

    /// Inserts an element. Returns `false` and leaves the queue unchanged if
    /// some present element dominates it; otherwise evicts exactly the
    /// elements it dominates, adds it, and returns `true`.
    fn insert(&mut self, elt: Elt) -> (r: bool)
        requires
            old(self).inv(),
            old(self).compat(elt.coords().len()),
        ensures
            final(self).inv(),
            final(self).compat(elt.coords().len()),
            r == !(exists|d: Elt| #[trigger] old(self).contents().contains(d) && dominates_spec(
                d.coords(),
                elt.coords(),
            )),
            r ==> final(self).contents() == old(self).contents().filter(
                |x: Elt| !dominates_spec(elt.coords(), x.coords()),
            ).insert(elt),
            !r ==> final(self).contents() == old(self).contents() && (forall|k: nat| #[trigger]
                old(self).compat(k) ==> final(self).compat(k)),
            antichain(old(self).contents()) ==> antichain(final(self).contents()),
    ;

    /// Returns the minimum guide value of the queue; `None` only when the
    /// queue is empty.
    fn peek_minimum_guide(&self) -> (r: Option<u32>)
        requires
            self.inv(),
        ensures
            match r {
                Some(g) => {
                    &&& exists|e: Elt| #[trigger] self.contents().contains(e) && e.guide_spec()
                        == g
                    &&& forall|x: Elt| #[trigger] self.contents().contains(x) ==> g
                        <= x.guide_spec()
                },
                None => self.contents().len() == 0,
            },
    {
        match self.peek_minimum() {
            Some(e) => Some(e.guide()),
            None => None,
        }
    }

    /// Returns the maximum guide value of the queue; `None` only when the
    /// queue is empty.
    fn peek_maximum_guide(&self) -> (r: Option<u32>)
        requires
            self.inv(),
        ensures
            match r {
                Some(g) => {
                    &&& exists|e: Elt| #[trigger] self.contents().contains(e) && e.guide_spec()
                        == g
                    &&& forall|x: Elt| #[trigger] self.contents().contains(x) ==> g
                        >= x.guide_spec()
                },
                None => self.contents().len() == 0,
            },
    {
        match self.peek_maximum() {
            Some(e) => Some(e.guide()),
            None => None,
        }
    }

    /// Returns true iff the queue is empty.
    fn is_empty(&self) -> (r: bool)
        requires
            self.inv(),
        ensures
            r == (self.contents().len() == 0),
    {
        proof {
            broadcast use vstd::multiset::group_multiset_axioms;

        }
        let r = self.peek_minimum();
        proof {
            if r is Some {
                assert(self.contents().contains(*r.unwrap()));
            }
        }
        r.is_none()
    }
}

/// Pareto-front-specific queries of a Pareto priority queue.
pub trait ParetoFront<Elt: ParetoElement + GuidedElement>: PriorityQueue<Elt> {
    /// Returns an element dominating the given one if any is present.
    fn find_dominating(&self, elt: &Elt) -> (r: Option<&Elt>)
        requires
            self.inv(),
            self.compat(elt.coords().len()),
        ensures
            match r {
                Some(d) => self.contents().contains(*d) && dominates_spec(
                    d.coords(),
                    elt.coords(),
                ),
                None => forall|x: Elt| #[trigger]
                    self.contents().contains(x) ==> !dominates_spec(x.coords(), elt.coords()),
            },
    ;
}

} // verus!
