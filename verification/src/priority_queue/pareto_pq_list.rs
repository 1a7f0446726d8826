use vstd::prelude::*;
use vstd::multiset::Multiset;

use crate::lemma_to_multiset_filter;
use crate::priority_queue::{antichain, dominates_spec, lemma_insert_preserves_antichain,
    GuidedElement, ParetoElement, ParetoFront, PriorityQueue};

verus! {

/// Simple Pareto priority queue that stores its elements in a vector.
#[derive(Debug)]
pub struct ListParetoFront<Elt> {
    elements: Vec<Elt>,
}

impl<Elt: ParetoElement + GuidedElement> ListParetoFront<Elt> {
    /// Every element of the vector belongs to the queue's contents.
    proof fn lemma_index_in_contents(&self)
        ensures
            forall|j: int|
                0 <= j < self.elements@.len() ==> #[trigger] self.contents().contains(
                    self.elements@[j],
                ),
            forall|x: Elt| #[trigger] self.contents().contains(x) ==> self.elements@.contains(x),
    {
        broadcast use vstd::seq_lib::group_to_multiset_ensures;

        assert forall|j: int| 0 <= j < self.elements@.len() implies #[trigger] self.contents().contains(
            self.elements@[j],
        ) by {
            assert(self.elements@.contains(self.elements@[j]));
        }
    }

    /// Index of an element with minimum guide value.
    fn min_guide_index(&self) -> (r: usize)
        requires
            self.elements@.len() > 0,
        ensures
            r < self.elements@.len(),
            forall|j: int|
                0 <= j < self.elements@.len() ==> self.elements@[r as int].guide_spec()
                    <= #[trigger] self.elements@[j].guide_spec(),
    {
        let mut best: usize = 0;
        let mut i: usize = 1;
        while i < self.elements.len()
            invariant
                0 < i <= self.elements@.len(),
                best < i,
                forall|j: int|
                    0 <= j < i ==> self.elements@[best as int].guide_spec()
                        <= #[trigger] self.elements@[j].guide_spec(),
            decreases self.elements@.len() - i,
        {
            if self.elements[i].guide() < self.elements[best].guide() {
                best = i;
            }
            i = i + 1;
        }
        best
    }

    /// Index of an element with maximum guide value.
    fn max_guide_index(&self) -> (r: usize)
        requires
            self.elements@.len() > 0,
        ensures
            r < self.elements@.len(),
            forall|j: int|
                0 <= j < self.elements@.len() ==> self.elements@[r as int].guide_spec()
                    >= #[trigger] self.elements@[j].guide_spec(),
    {
        let mut best: usize = 0;
        let mut i: usize = 1;
        while i < self.elements.len()
            invariant
                0 < i <= self.elements@.len(),
                best < i,
                forall|j: int|
                    0 <= j < i ==> self.elements@[best as int].guide_spec()
                        >= #[trigger] self.elements@[j].guide_spec(),
            decreases self.elements@.len() - i,
        {
            if self.elements[i].guide() > self.elements[best].guide() {
                best = i;
            }
            i = i + 1;
        }
        best
    }

    /// Creates a new empty queue.
    pub fn create_empty() -> (r: Self)
        ensures
            r.inv(),
            r.contents() == Multiset::<Elt>::empty(),
            forall|k: nat| r.compat(k),
    {
        let r = ListParetoFront { elements: Vec::new() };
        proof {
            broadcast use vstd::seq_lib::group_to_multiset_ensures;
            broadcast use vstd::multiset::group_multiset_axioms;

            assert(r.elements@.to_multiset() =~= Multiset::<Elt>::empty());
        }
        r
    }
}

impl<Elt: ParetoElement + GuidedElement> PriorityQueue<Elt> for ListParetoFront<Elt> {
    open spec fn inv(&self) -> bool {
        true
    }

    closed spec fn contents(&self) -> Multiset<Elt> {
        self.elements@.to_multiset()
    }

    open spec fn compat(&self, k: nat) -> bool {
        forall|x: Elt| #[trigger] self.contents().contains(x) ==> x.coords().len() == k
    }

    fn peek_minimum(&self) -> (r: Option<&Elt>) {
        broadcast use vstd::seq_lib::group_to_multiset_ensures;

        proof {
            self.lemma_index_in_contents();
        }
        if self.elements.is_empty() {
            return None;
        }
        let pos: usize = self.min_guide_index();
        let e = &self.elements[pos];
        proof {
            assert forall|x: Elt| #[trigger] self.contents().contains(x) implies e.guide_spec()
                <= x.guide_spec() by {
                assert(self.elements@.contains(x));
                let j = choose|j: int| 0 <= j < self.elements@.len() && self.elements@[j] == x;
            }
        }
        Some(e)
    }

    fn peek_maximum(&self) -> (r: Option<&Elt>) {
        broadcast use vstd::seq_lib::group_to_multiset_ensures;

        proof {
            self.lemma_index_in_contents();
        }
        if self.elements.is_empty() {
            return None;
        }
        let pos: usize = self.max_guide_index();
        let e = &self.elements[pos];
        proof {
            assert forall|x: Elt| #[trigger] self.contents().contains(x) implies e.guide_spec()
                >= x.guide_spec() by {
                assert(self.elements@.contains(x));
                let j = choose|j: int| 0 <= j < self.elements@.len() && self.elements@[j] == x;
            }
        }
        Some(e)
    }

    fn pop_minimum(&mut self) -> (r: Option<Elt>) {
        broadcast use vstd::seq_lib::group_to_multiset_ensures;
        broadcast use vstd::multiset::group_multiset_axioms;

        proof {
            self.lemma_index_in_contents();
        }
        if self.elements.is_empty() {
            return None;
        }
        let pos: usize = self.min_guide_index();
        let ghost old_self = *self;
        let e = self.elements.remove(pos);
        proof {
            assert forall|x: Elt| #[trigger] old_self.contents().contains(x) implies e.guide_spec()
                <= x.guide_spec() by {
                assert(old_self.elements@.contains(x));
                let j = choose|j: int| 0 <= j < old_self.elements@.len() && old_self.elements@[j]
                    == x;
            }
            assert(self.contents() == old(self).contents().remove(e));
            assert forall|k: nat| #[trigger] old(self).compat(k) implies self.compat(k) by {
                assert forall|x: Elt| #[trigger] self.contents().contains(x) implies x.coords().len()
                    == k by {
                    assert(old(self).contents().contains(x));
                }
            }
        }
        Some(e)
    }

    fn pop_maximum(&mut self) -> (r: Option<Elt>) {
        broadcast use vstd::seq_lib::group_to_multiset_ensures;
        broadcast use vstd::multiset::group_multiset_axioms;

        proof {
            self.lemma_index_in_contents();
        }
        if self.elements.is_empty() {
            return None;
        }
        let pos: usize = self.max_guide_index();
        let ghost old_self = *self;
        let e = self.elements.remove(pos);
        proof {
            assert forall|x: Elt| #[trigger] old_self.contents().contains(x) implies e.guide_spec()
                >= x.guide_spec() by {
                assert(old_self.elements@.contains(x));
                let j = choose|j: int| 0 <= j < old_self.elements@.len() && old_self.elements@[j]
                    == x;
            }
            assert(self.contents() == old(self).contents().remove(e));
            assert forall|k: nat| #[trigger] old(self).compat(k) implies self.compat(k) by {
                assert forall|x: Elt| #[trigger] self.contents().contains(x) implies x.coords().len()
                    == k by {
                    assert(old(self).contents().contains(x));
                }
            }
        }
        Some(e)
    }

    #[verifier::loop_isolation(false)]
    fn insert(&mut self, elt: Elt) -> (r: bool) {
        broadcast use vstd::seq_lib::group_to_multiset_ensures;

        if self.find_dominating(&elt).is_some() {
            return false;
        }
        let ghost old_self = *self;
        let ghost old_elems = self.elements@;
        let ghost pred = |x: Elt| !dominates_spec(elt.coords(), x.coords());
        proof {
            self.lemma_index_in_contents();
            reveal(Seq::filter);
            assert(old_elems.take(0).filter(pred) =~= Seq::<Elt>::empty());
        }
        let mut i: usize = 0;
        let ghost mut j: int = 0;
        while i < self.elements.len()
            invariant
                0 <= j <= old_elems.len(),
                i <= self.elements@.len(),
                old_self.compat(elt.coords().len()),
                old_self.elements@ == old_elems,
                forall|t: int|
                    0 <= t < old_elems.len() ==> #[trigger] old_self.contents().contains(
                        old_elems[t],
                    ),
                self.elements@ =~= old_elems.take(j).filter(pred) + old_elems.skip(j),
                i == old_elems.take(j).filter(pred).len(),
            decreases old_elems.len() - j,
        {
            proof {
                assert(self.elements@[i as int] == old_elems[j]);
                assert(old_self.contents().contains(old_elems[j]));
            }
            let ghost pre = self.elements@;
            if elt.dominates(&self.elements[i]) {
                self.elements.remove(i);
                proof {
                    reveal(Seq::filter);
                    assert(old_elems.take(j + 1).drop_last() =~= old_elems.take(j));
                    assert(old_elems.take(j + 1).last() == old_elems[j]);
                    assert(pre[i as int] == old_elems[j]);
                    assert(!pred(old_elems[j]));
                    assert(old_elems.take(j + 1).filter(pred) == old_elems.take(j).filter(pred));
                    assert(self.elements@ =~= pre.remove(i as int));
                    j = j + 1;
                    assert(self.elements@ =~= old_elems.take(j).filter(pred) + old_elems.skip(j));
                }
            } else {
                i = i + 1;
                proof {
                    reveal(Seq::filter);
                    assert(old_elems.take(j + 1).drop_last() =~= old_elems.take(j));
                    assert(old_elems.take(j + 1).last() == old_elems[j]);
                    assert(pre[i - 1] == old_elems[j]);
                    assert(pred(old_elems[j]));
                    assert(old_elems.take(j + 1).filter(pred) == old_elems.take(j).filter(
                        pred,
                    ).push(old_elems[j]));
                    j = j + 1;
                    assert(self.elements@ =~= old_elems.take(j).filter(pred) + old_elems.skip(j));
                }
            }
        }
        proof {
            assert(old_elems.take(j) =~= old_elems);
            assert(old_elems.skip(j) =~= Seq::<Elt>::empty());
            assert(self.elements@ =~= old_elems.filter(pred));
        }
        self.elements.push(elt);
        proof {
            broadcast use vstd::multiset::group_multiset_axioms;

            lemma_to_multiset_filter(old_elems, pred);
            assert(self.elements@ == old_elems.filter(pred).push(elt));
            assert(self.elements@.to_multiset() =~= old_elems.filter(pred).to_multiset().insert(
                elt,
            ));
            assert(self.contents() == old_self.contents().filter(pred).insert(elt));
            if antichain(old_self.contents()) {
                lemma_insert_preserves_antichain(old_self.contents(), self.contents(), elt);
            }
            assert forall|x: Elt| #[trigger] self.contents().contains(x) implies x.coords().len()
                == elt.coords().len() by {
                if x != elt {
                    assert(old_self.contents().contains(x));
                }
            }
        }
        true
    }
}

impl<Elt: ParetoElement + GuidedElement> ParetoFront<Elt> for ListParetoFront<Elt> {
    fn find_dominating(&self, elt: &Elt) -> (r: Option<&Elt>) {
        proof {
            self.lemma_index_in_contents();
        }
        let n: usize = self.elements.len();
        let mut i: usize = 0;
        while i < n
            invariant
                n == self.elements@.len(),
                i <= n,
                self.compat(elt.coords().len()),
                forall|j: int|
                    0 <= j < self.elements@.len() ==> #[trigger] self.contents().contains(
                        self.elements@[j],
                    ),
                forall|j: int|
                    0 <= j < i ==> !dominates_spec(
                        #[trigger] self.elements@[j].coords(),
                        elt.coords(),
                    ),
            decreases n - i,
        {
            let e = &self.elements[i];
            proof {
                assert(self.contents().contains(self.elements@[i as int]));
            }
            if e.dominates(elt) {
                return Some(e);
            }
            i = i + 1;
        }
        proof {
            assert forall|x: Elt| #[trigger] self.contents().contains(x) implies !dominates_spec(
                x.coords(),
                elt.coords(),
            ) by {
                assert(self.elements@.contains(x));
                let j = choose|j: int| 0 <= j < self.elements@.len() && self.elements@[j] == x;
            }
        }
        None
    }
}

impl<Elt: ParetoElement + GuidedElement> Default for ListParetoFront<Elt> {
    /// Creates a new empty queue.
    fn default() -> (r: Self)
        ensures
            r.inv(),
            r.contents() == Multiset::<Elt>::empty(),
            forall|k: nat| r.compat(k),
    {
        Self::create_empty()
    }
}

} // verus!
