use vstd::prelude::*;
use vstd::multiset::Multiset;

use crate::lemma_to_multiset_filter;
use crate::pareto_pq::{antichain, dominates_spec, lemma_insert_preserves_antichain, ParetoElement,
    ParetoFront};

verus! {

/// True when the coordinate vector `c` lies inside the axis-aligned box
/// spanned by `lo` and `hi`, borders included.
pub open spec fn in_range(lo: Seq<u16>, hi: Seq<u16>, c: Seq<u16>) -> bool {
    &&& c.len() == lo.len()
    &&& forall|i: int| 0 <= i < c.len() ==> lo[i] <= c[i] && c[i] <= hi[i]
}

/// Simple Pareto front that stores its elements in a vector.
#[derive(Debug)]
pub struct ListParetoFront<Elt> {
    elements: Vec<Elt>,
}

impl<Elt: ParetoElement> ListParetoFront<Elt> {
    /// Index of an element with minimum value on dimension `dim`.
    fn min_index(&self, dim: usize) -> (r: usize)
        requires
            self.elements@.len() > 0,
            forall|j: int| 0 <= j < self.elements@.len() ==> dim < #[trigger] self.elements@[j].coords().len(),
        ensures
            r < self.elements@.len(),
            forall|j: int|
                0 <= j < self.elements@.len() ==> self.elements@[r as int].coords()[dim as int]
                    <= #[trigger] self.elements@[j].coords()[dim as int],
    {
        let mut best: usize = 0;
        let mut i: usize = 1;
        while i < self.elements.len()
            invariant
                forall|j: int| 0 <= j < self.elements@.len() ==> dim < #[trigger] self.elements@[j].coords().len(),
                0 < i <= self.elements@.len(),
                best < i,
                forall|j: int|
                    0 <= j < i ==> self.elements@[best as int].coords()[dim as int]
                        <= #[trigger] self.elements@[j].coords()[dim as int],
            decreases self.elements@.len() - i,
        {
            if self.elements[i].kth(dim) < self.elements[best].kth(dim) {
                best = i;
            }
            i = i + 1;
        }
        best
    }

    /// Every element of the vector belongs to the front's contents.
    proof fn lemma_index_in_contents(&self)
        ensures
            forall|j: int|
                0 <= j < self.elements@.len() ==> #[trigger] self.contents().contains(
                    self.elements@[j],
                ),
            forall|x: Elt| #[trigger] self.contents().contains(x) ==> self.elements@.contains(x),
    {
        broadcast use vstd::seq_lib::group_to_multiset_ensures;

        assert forall|j: int| 0 <= j < self.elements@.len() implies #[trigger] self.contents().contains(
            self.elements@[j],
        ) by {
            assert(self.elements@.contains(self.elements@[j]));
        }
    }

    /// Returns the elements intersecting the query box, borders included.
    #[verifier::loop_isolation(false)]
    pub fn query(&self, min_bound: &[u16], max_bound: &[u16]) -> (r: Vec<&Elt>)
        requires
            min_bound@.len() == max_bound@.len(),
            self.compat(min_bound@.len()),
        ensures
            forall|j: int|
                0 <= j < r@.len() ==> self.contents().contains(*#[trigger] r@[j]) && in_range(
                    min_bound@,
                    max_bound@,
                    r@[j].coords(),
                ),
            r@.map_values(|p: &Elt| *p).to_multiset() == self.contents().filter(
                |x: Elt| in_range(min_bound@, max_bound@, x.coords()),
            ),
    {
        proof {
            self.lemma_index_in_contents();
        }
        let ghost pred = |x: Elt| in_range(min_bound@, max_bound@, x.coords());
        let mut r: Vec<&Elt> = Vec::new();
        let n: usize = self.elements.len();
        let mut i: usize = 0;
        while i < n
            invariant
                n == self.elements@.len(),
                min_bound@.len() == max_bound@.len(),
                self.compat(min_bound@.len()),
                i <= n,
                forall|j: int|
                    0 <= j < self.elements@.len() ==> #[trigger] self.contents().contains(
                        self.elements@[j],
                    ),
                forall|j: int|
                    0 <= j < r@.len() ==> self.contents().contains(*#[trigger] r@[j]) && in_range(
                        min_bound@,
                        max_bound@,
                        r@[j].coords(),
                    ),
                r@.map_values(|p: &Elt| *p) == self.elements@.take(i as int).filter(pred),
            decreases n - i,
        {
            let e = &self.elements[i];
            proof {
                assert(self.contents().contains(self.elements@[i as int]));
            }
            let k: usize = min_bound.len();
            let mut inside = true;
            let mut d: usize = 0;
            while d < k
                invariant
                    k == min_bound@.len(),
                    min_bound@.len() == max_bound@.len(),
                    e.coords().len() == k,
                    d <= k,
                    e == self.elements@[i as int],
                    0 <= i < self.elements@.len(),
                    inside == (forall|t: int|
                        0 <= t < d ==> min_bound@[t] <= #[trigger] e.coords()[t] && e.coords()[t]
                            <= max_bound@[t]),
                decreases k - d,
            {
                let v = e.kth(d);
                if v < min_bound[d] || v > max_bound[d] {
                    inside = false;
                }
                d = d + 1;
            }
            if inside {
                r.push(e);
                proof {
                    reveal(Seq::filter);
                    assert(self.elements@.take(i + 1).drop_last() =~= self.elements@.take(
                        i as int,
                    ));
                    assert(self.elements@.take(i + 1).last() == self.elements@[i as int]);
                    assert(e.coords() == self.elements@[i as int].coords());
                    assert(in_range(min_bound@, max_bound@, e.coords()));
                    assert(pred(self.elements@[i as int]));
                    assert(self.elements@.take(i + 1).filter(pred) == self.elements@.take(
                        i as int,
                    ).filter(pred).push(self.elements@[i as int]));
                    assert(r@.map_values(|p: &Elt| *p) =~= self.elements@.take(i + 1).filter(
                        pred,
                    ));
                }
            } else {
                proof {
                    reveal(Seq::filter);
                    assert(self.elements@.take(i + 1).drop_last() =~= self.elements@.take(
                        i as int,
                    ));
                    assert(self.elements@.take(i + 1).last() == self.elements@[i as int]);
                    assert(e.coords() == self.elements@[i as int].coords());
                    assert(!in_range(min_bound@, max_bound@, e.coords()));
                    assert(!pred(self.elements@[i as int]));
                    assert(self.elements@.take(i + 1).filter(pred) == self.elements@.take(
                        i as int,
                    ).filter(pred));
                    assert(r@.map_values(|p: &Elt| *p) =~= self.elements@.take(i + 1).filter(
                        pred,
                    ));
                }
            }
            i = i + 1;
        }
        proof {
            assert(self.elements@.take(n as int) =~= self.elements@);
            lemma_to_multiset_filter(self.elements@, pred);
        }
        r
    }
}

impl<Elt: ParetoElement> ParetoFront<Elt> for ListParetoFront<Elt> {
    open spec fn inv(&self) -> bool {
        true
    }

    closed spec fn contents(&self) -> Multiset<Elt> {
        self.elements@.to_multiset()
    }

    open spec fn compat(&self, k: nat) -> bool {
        forall|x: Elt| #[trigger] self.contents().contains(x) ==> x.coords().len() == k
    }

    fn pop_minimum_element(&mut self, dim: usize) -> (r: Option<Elt>) {
        broadcast use vstd::seq_lib::group_to_multiset_ensures;

        broadcast use vstd::multiset::group_multiset_axioms;

        proof {
            self.lemma_index_in_contents();
            assert forall|j: int| 0 <= j < self.elements@.len() implies dim
                < #[trigger] self.elements@[j].coords().len() by {
                let k0 = choose|k: nat| old(self).compat(k) && dim < k;
                assert(old(self).compat(k0));
                assert(self.contents().contains(self.elements@[j]));
            }
        }
        if self.elements.is_empty() {
            return None;
        }
        let pos: usize = self.min_index(dim);
        let ghost old_self = *self;
        let e = self.elements.remove(pos);
        proof {
            assert forall|x: Elt| #[trigger] old_self.contents().contains(x) implies e.coords()[dim as int]
                <= x.coords()[dim as int] by {
                assert(old_self.elements@.contains(x));
                let j = choose|j: int| 0 <= j < old_self.elements@.len() && old_self.elements@[j]
                    == x;
            }
            assert(self.contents() == old(self).contents().remove(e));
            assert forall|k: nat| #[trigger] old(self).compat(k) implies self.compat(k) by {
                assert forall|x: Elt| #[trigger] self.contents().contains(x) implies x.coords().len()
                    == k by {
                    assert(old(self).contents().contains(x));
                }
            }
        }
        Some(e)
    }

    fn peek_minimum_element(&self, dim: usize) -> (r: Option<&Elt>) {
        broadcast use vstd::seq_lib::group_to_multiset_ensures;

        proof {
            self.lemma_index_in_contents();
            assert forall|j: int| 0 <= j < self.elements@.len() implies dim
                < #[trigger] self.elements@[j].coords().len() by {
                let k0 = choose|k: nat| self.compat(k) && dim < k;
                assert(self.compat(k0));
                assert(self.contents().contains(self.elements@[j]));
            }
        }
        if self.elements.is_empty() {
            return None;
        }
        let pos: usize = self.min_index(dim);
        let e = &self.elements[pos];
        proof {
            assert forall|x: Elt| #[trigger] self.contents().contains(x) implies e.coords()[dim as int]
                <= x.coords()[dim as int] by {
                assert(self.elements@.contains(x));
                let j = choose|j: int| 0 <= j < self.elements@.len() && self.elements@[j] == x;
            }
        }
        Some(e)
    }

    fn peek_minimum_coordinate(&self, dim: usize) -> (r: Option<u16>) {
        match self.peek_minimum_element(dim) {
            Some(e) => Some(e.kth(dim)),
            None => None,
        }
    }

    fn find_dominating(&self, elt: &Elt) -> (r: Option<&Elt>) {
        proof {
            self.lemma_index_in_contents();
        }
        let n: usize = self.elements.len();
        let mut i: usize = 0;
        while i < n
            invariant
                n == self.elements@.len(),
                i <= n,
                self.compat(elt.coords().len()),
                forall|j: int|
                    0 <= j < self.elements@.len() ==> #[trigger] self.contents().contains(
                        self.elements@[j],
                    ),
                forall|j: int|
                    0 <= j < i ==> !dominates_spec(
                        #[trigger] self.elements@[j].coords(),
                        elt.coords(),
                    ),
            decreases n - i,
        {
            let e = &self.elements[i];
            proof {
                assert(self.contents().contains(self.elements@[i as int]));
            }
            if e.dominates(elt) {
                return Some(e);
            }
            i = i + 1;
        }
        proof {
            self.lemma_index_in_contents();
            assert forall|x: Elt| #[trigger] self.contents().contains(x) implies !dominates_spec(
                x.coords(),
                elt.coords(),
            ) by {
                assert(self.elements@.contains(x));
                let j = choose|j: int| 0 <= j < self.elements@.len() && self.elements@[j] == x;
            }
        }
        None
    }

    #[verifier::loop_isolation(false)]
    fn insert(&mut self, elt: Elt) -> (r: bool) {
        broadcast use vstd::seq_lib::group_to_multiset_ensures;

        if self.find_dominating(&elt).is_some() {
            return false;
        }
        let ghost old_self = *self;
        let ghost old_elems = self.elements@;
        let ghost pred = |x: Elt| !dominates_spec(elt.coords(), x.coords());
        proof {
            self.lemma_index_in_contents();
            reveal(Seq::filter);
            assert(old_elems.take(0).filter(pred) =~= Seq::<Elt>::empty());
        }
        let mut i: usize = 0;
        let ghost mut j: int = 0;
        while i < self.elements.len()
            invariant
                0 <= j <= old_elems.len(),
                i <= self.elements@.len(),
                old_self.compat(elt.coords().len()),
                old_self.elements@ == old_elems,
                forall|t: int|
                    0 <= t < old_elems.len() ==> #[trigger] old_self.contents().contains(
                        old_elems[t],
                    ),
                self.elements@ =~= old_elems.take(j).filter(pred) + old_elems.skip(j),
                i == old_elems.take(j).filter(pred).len(),
            decreases old_elems.len() - j,
        {
            proof {
                assert(self.elements@[i as int] == old_elems[j]);
                assert(old_self.contents().contains(old_elems[j]));
            }
            let ghost pre = self.elements@;
            if elt.dominates(&self.elements[i]) {
                self.elements.remove(i);
                proof {
                    reveal(Seq::filter);
                    assert(old_elems.take(j + 1).drop_last() =~= old_elems.take(j));
                    assert(old_elems.take(j + 1).last() == old_elems[j]);
                    assert(pre[i as int] == old_elems[j]);
                    assert(dominates_spec(elt.coords(), pre[i as int].coords()));
                    assert(!pred(old_elems[j]));
                    assert(old_elems.take(j + 1).filter(pred) == old_elems.take(j).filter(pred));
                    assert(self.elements@ =~= pre.remove(i as int));
                    j = j + 1;
                    assert(self.elements@ =~= old_elems.take(j).filter(pred) + old_elems.skip(j));
                }
            } else {
                i = i + 1;
                proof {
                    reveal(Seq::filter);
                    assert(old_elems.take(j + 1).drop_last() =~= old_elems.take(j));
                    assert(old_elems.take(j + 1).last() == old_elems[j]);
                    assert(pre[i - 1] == old_elems[j]);
                    assert(!dominates_spec(elt.coords(), pre[i - 1].coords()));
                    assert(pred(old_elems[j]));
                    assert(old_elems.take(j + 1).filter(pred) == old_elems.take(j).filter(
                        pred,
                    ).push(old_elems[j]));
                    j = j + 1;
                    assert(self.elements@ =~= old_elems.take(j).filter(pred) + old_elems.skip(j));
                }
            }
        }
        proof {
            assert(old_elems.take(j) =~= old_elems);
            assert(old_elems.skip(j) =~= Seq::<Elt>::empty());
            assert(self.elements@ =~= old_elems.filter(pred));
        }
        self.elements.push(elt);
        proof {
            broadcast use vstd::multiset::group_multiset_axioms;

            lemma_to_multiset_filter(old_elems, pred);
            assert(self.elements@ == old_elems.filter(pred).push(elt));
            assert(self.elements@.to_multiset() =~= old_elems.filter(pred).to_multiset().insert(
                elt,
            ));
            assert(self.contents() == old_self.contents().filter(pred).insert(elt));
            if antichain(old_self.contents()) {
                lemma_insert_preserves_antichain(old_self.contents(), self.contents(), elt);
            }
            assert forall|x: Elt| #[trigger] self.contents().contains(x) implies x.coords().len()
                == elt.coords().len() by {
                broadcast use vstd::multiset::group_multiset_axioms;

                if x != elt {
                    assert(old_self.contents().contains(x));
                }
            }
        }
        true
    }

    #[verifier::loop_isolation(false)]
    fn remove(&mut self, elt: &Elt) -> (r: bool) {
        broadcast use vstd::seq_lib::group_to_multiset_ensures;

        proof {
            self.lemma_index_in_contents();
        }
        let n: usize = self.elements.len();
        let mut i: usize = 0;
        while i < n
            invariant
                *self == *old(self),
                n == self.elements@.len(),
                i <= n,
                forall|t: int|
                    0 <= t < self.elements@.len() ==> #[trigger] self.contents().contains(
                        self.elements@[t],
                    ),
                forall|t: int| 0 <= t < i ==> #[trigger] self.elements@[t].coords() != elt.coords(),
            decreases n - i,
        {
            if self.elements[i].eq_elt(elt) {
                let ghost x = self.elements@[i as int];
                self.elements.remove(i);
                proof {
                    broadcast use vstd::multiset::group_multiset_axioms;

                    assert(old(self).contents().contains(x));
                    assert(self.elements@ == old(self).elements@.remove(i as int));
                    assert(old(self).elements@.remove(i as int).to_multiset() =~= old(
                        self,
                    ).elements@.to_multiset().remove(x));
                    assert(self.contents() == old(self).contents().remove(x));
                    assert forall|k: nat| #[trigger] old(self).compat(k) implies self.compat(
                        k,
                    ) by {
                        assert forall|y: Elt| #[trigger] self.contents().contains(y) implies y.coords().len()
                            == k by {
                            assert(old(self).contents().contains(y));
                        }
                    }
                }
                return true;
            }
            i = i + 1;
        }
        proof {
            self.lemma_index_in_contents();
            assert forall|x: Elt| #[trigger] self.contents().contains(x) implies x.coords()
                != elt.coords() by {
                assert(self.elements@.contains(x));
                let t = choose|t: int| 0 <= t < self.elements@.len() && self.elements@[t] == x;
            }
        }
        false
    }
}

impl<Elt: ParetoElement> ListParetoFront<Elt> {
    /// Creates a new empty front.
    pub fn create_empty() -> (r: Self)
        ensures
            r.inv(),
            r.contents() == Multiset::<Elt>::empty(),
            forall|k: nat| r.compat(k),
    {
        let r = ListParetoFront { elements: Vec::new() };
        proof {
            broadcast use vstd::seq_lib::group_to_multiset_ensures;
            broadcast use vstd::multiset::group_multiset_axioms;

            assert(r.elements@.to_multiset() =~= Multiset::<Elt>::empty());
        }
        r
    }
}

impl<Elt: ParetoElement> Default for ListParetoFront<Elt> {
    /// Creates a new empty front.
    fn default() -> (r: Self)
        ensures
            r.inv(),
            r.contents() == Multiset::<Elt>::empty(),
            forall|k: nat| r.compat(k),
    {
        Self::create_empty()
    }
}

} // verus!
