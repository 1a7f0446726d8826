//! Data structures for multi-objective search: Pareto fronts backed by lists
//! and kd-trees, a guided (priority-queue) variant, and set stores.

use vstd::prelude::*;
use vstd::multiset::Multiset;

/// Pareto fronts indexed purely by coordinate dominance.
pub mod pareto_pq;

/// Pareto priority queues: fronts that additionally carry a scalar guide
/// value for best-first extraction.
pub mod priority_queue;

/// Set stores: collections of sets supporting subset and superset queries.
pub mod set_store;

verus! {

/// Filtering a sequence and taking the multiset of the result is the same as
/// filtering the sequence's multiset.
pub(crate) proof fn lemma_to_multiset_filter<A>(s: Seq<A>, pred: spec_fn(A) -> bool)
    ensures
        s.filter(pred).to_multiset() == s.to_multiset().filter(pred),
    decreases s.len(),
{
    broadcast use vstd::multiset::group_multiset_axioms;
    broadcast use vstd::seq_lib::group_to_multiset_ensures;

    reveal(Seq::filter);
    if s.len() == 0 {
        assert(s.to_multiset() =~= Multiset::<A>::empty());
        assert(s.filter(pred).to_multiset() =~= s.to_multiset().filter(pred));
    } else {
        let d = s.drop_last();
        let a = s.last();
        lemma_to_multiset_filter(d, pred);
        assert(s =~= d.push(a));
        assert(d.push(a).to_multiset() =~= d.to_multiset().insert(a));
        if pred(a) {
            assert(s.filter(pred) == d.filter(pred).push(a));
            assert(d.filter(pred).push(a).to_multiset() =~= d.filter(pred).to_multiset().insert(
                a,
            ));
            assert(s.filter(pred).to_multiset() =~= s.to_multiset().filter(pred));
        } else {
            assert(s.filter(pred) == d.filter(pred));
            assert(s.filter(pred).to_multiset() =~= s.to_multiset().filter(pred));
        }
    }
}

} // verus!
