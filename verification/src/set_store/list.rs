use vstd::prelude::*;

use crate::set_store::{is_subset_spec, strictly_sorted, SetStore};

verus! {

/// Copies a slice of values into a fresh vector.
fn copy_slice(s: &[usize]) -> (r: Vec<usize>)
    ensures
        r@ == s@,
{
    let mut r: Vec<usize> = Vec::new();
    let n: usize = s.len();
    let mut i: usize = 0;
    while i < n
        invariant
            n == s@.len(),
            i <= n,
            r@ == s@.take(i as int),
        decreases n - i,
    {
        r.push(s[i]);
        proof {
            assert(r@ =~= s@.take(i + 1));
        }
        i = i + 1;
    }
    proof {
        assert(s@.take(n as int) =~= s@);
    }
    r
}

/// Elementwise equality of a stored vector and a queried slice.
fn seq_eq(v: &Vec<usize>, s: &[usize]) -> (r: bool)
    ensures
        r == (v@ == s@),
{
    let n: usize = v.len();
    if n != s.len() {
        return false;
    }
    let mut i: usize = 0;
    while i < n
        invariant
            n == v@.len(),
            n == s@.len(),
            i <= n,
            forall|j: int| 0 <= j < i ==> v@[j] == s@[j],
        decreases n - i,
    {
        if v[i] != s[i] {
            return false;
        }
        i = i + 1;
    }
    proof {
        assert(v@ =~= s@);
    }
    true
}

/// A strictly sorted sequence whose values all occur in another strictly
/// sorted sequence is at most as long.
proof fn lemma_sorted_subset_len(a: Seq<usize>, b: Seq<usize>)
    requires
        strictly_sorted(a),
        strictly_sorted(b),
        is_subset_spec(a, b),
    ensures
        a.len() <= b.len(),
    decreases a.len(),
{
    if a.len() > 0 {
        let last = a.last();
        assert(a.contains(last));
        assert(b.contains(last));
        let j = choose|j: int| 0 <= j < b.len() && b[j] == last;
        let a2 = a.drop_last();
        let b2 = b.take(j);
        assert forall|x: usize| a2.contains(x) implies b2.contains(x) by {
            let i = choose|i: int| 0 <= i < a2.len() && a2[i] == x;
            assert(a[i] == x);
            assert(a.contains(x));
            assert(x < last);
            assert(b.contains(x));
            let t = choose|t: int| 0 <= t < b.len() && b[t] == x;
            assert(t < j);
            assert(b2[t] == x);
        }
        lemma_sorted_subset_len(a2, b2);
    }
}

/// Maintains the stored sets in a vector; every operation is a linear scan.
#[derive(Debug)]
pub struct ListSetStore {
    list: Vec<Vec<usize>>,
}

impl ListSetStore {
    /// Creates a new empty store.
    pub fn create_empty() -> (r: Self)
        ensures
            r.inv(),
            r.sets() == Set::<Seq<usize>>::empty(),
    {
        let r = ListSetStore { list: Vec::new() };
        proof {
            assert(r.sets() =~= Set::<Seq<usize>>::empty());
        }
        r
    }

    /// Returns true iff `a` is a subset of `b`; both are given as strictly
    /// increasing sequences of values.
    #[verifier::loop_isolation(false)]
    pub fn is_subset(a: &[usize], b: &[usize]) -> (r: bool)
        requires
            strictly_sorted(a@),
            strictly_sorted(b@),
        ensures
            r == is_subset_spec(a@, b@),
    {
        if a.len() > b.len() {
            proof {
                if is_subset_spec(a@, b@) {
                    lemma_sorted_subset_len(a@, b@);
                }
            }
            return false;
        }
        let mut index_b: usize = 0;
        let mut ia: usize = 0;
        while ia < a.len()
            invariant
                ia <= a@.len(),
                index_b <= b@.len(),
                forall|j: int| 0 <= j < ia ==> b@.contains(#[trigger] a@[j]),
                forall|t: int| 0 <= t < index_b ==> ia > 0 && #[trigger] b@[t] < a@[ia - 1],
            decreases a@.len() - ia,
        {
            let e = a[ia];
            proof {
                assert forall|t: int| 0 <= t < index_b implies #[trigger] b@[t] < e by {
                    assert(b@[t] < a@[ia - 1]);
                }
            }
            while index_b < b.len() && b[index_b] < e
                invariant
                    index_b <= b@.len(),
                    forall|t: int| 0 <= t < index_b ==> #[trigger] b@[t] < e,
                decreases b@.len() - index_b,
            {
                index_b = index_b + 1;
            }
            if index_b == b.len() || b[index_b] > e {
                proof {
                    assert forall|t: int| 0 <= t < b@.len() implies #[trigger] b@[t] != e by {
                        if t >= index_b {
                            assert(b@[index_b as int] <= b@[t]);
                        }
                    }
                    assert(!b@.contains(e));
                    assert(a@.contains(e));
                }
                return false;
            }
            ia = ia + 1;
        }
        proof {
            assert forall|x: usize| a@.contains(x) implies b@.contains(x) by {
                let j = choose|j: int| 0 <= j < a@.len() && a@[j] == x;
            }
        }
        true
    }
}

impl SetStore for ListSetStore {
    closed spec fn inv(&self) -> bool {
        forall|i: int| 0 <= i < self.list@.len() ==> strictly_sorted(#[trigger] self.list@[i]@)
    }

    closed spec fn sets(&self) -> Set<Seq<usize>> {
        Set::new(
            |s: Seq<usize>|
                exists|i: int| 0 <= i < self.list@.len() && (#[trigger] self.list@[i])@ == s,
        )
    }

    /// This implementation does not test whether the set is already present;
    /// it stores it again and reports success.
    fn insert(&mut self, s: &[usize]) -> (r: bool) {
        let v = copy_slice(s);
        self.list.push(v);
        proof {
            assert forall|t: Seq<usize>| true implies (self.sets().contains(t) == (old(
                self,
            ).sets().contains(t) || t == s@)) by {
                if old(self).sets().contains(t) {
                    let i = choose|i: int|
                        0 <= i < old(self).list@.len() && (#[trigger] old(self).list@[i])@ == t;
                    assert(self.list@[i]@ == t);
                }
                if t == s@ {
                    assert(self.list@[self.list@.len() - 1]@ == t);
                }
                if self.sets().contains(t) {
                    let i = choose|i: int|
                        0 <= i < self.list@.len() && (#[trigger] self.list@[i])@ == t;
                    if i < self.list@.len() - 1 {
                        assert(old(self).list@[i]@ == t);
                    }
                }
            }
            assert(self.sets() =~= old(self).sets().insert(s@));
        }
        true
    }

    #[verifier::loop_isolation(false)]
    fn remove(&mut self, s: &[usize]) -> (r: bool) {
        let ghost old_list = self.list@;
        let ghost pred = |v: Vec<usize>| v@ != s@;
        proof {
            reveal(Seq::filter);
            assert(old_list.take(0).filter(pred) =~= Seq::<Vec<usize>>::empty());
        }
        let mut found = false;
        let mut i: usize = 0;
        let ghost mut j: int = 0;
        while i < self.list.len()
            invariant
                0 <= j <= old_list.len(),
                i <= self.list@.len(),
                self.list@ =~= old_list.take(j).filter(pred) + old_list.skip(j),
                i == old_list.take(j).filter(pred).len(),
                found == (exists|t: int| 0 <= t < j && (#[trigger] old_list[t])@ == s@),
            decreases old_list.len() - j,
        {
            proof {
                assert(self.list@[i as int] == old_list[j]);
            }
            let ghost pre = self.list@;
            if seq_eq(&self.list[i], s) {
                self.list.remove(i);
                found = true;
                proof {
                    reveal(Seq::filter);
                    assert(old_list.take(j + 1).drop_last() =~= old_list.take(j));
                    assert(old_list.take(j + 1).last() == old_list[j]);
                    assert(!pred(old_list[j]));
                    assert(old_list.take(j + 1).filter(pred) == old_list.take(j).filter(pred));
                    assert(self.list@ =~= pre.remove(i as int));
                    j = j + 1;
                    assert(old_list[j - 1]@ == s@);
                    assert(self.list@ =~= old_list.take(j).filter(pred) + old_list.skip(j));
                }
            } else {
                i = i + 1;
                proof {
                    reveal(Seq::filter);
                    assert(old_list.take(j + 1).drop_last() =~= old_list.take(j));
                    assert(old_list.take(j + 1).last() == old_list[j]);
                    assert(pred(old_list[j]));
                    assert(old_list.take(j + 1).filter(pred) == old_list.take(j).filter(
                        pred,
                    ).push(old_list[j]));
                    j = j + 1;
                    assert(self.list@ =~= old_list.take(j).filter(pred) + old_list.skip(j));
                }
            }
        }
        proof {
            broadcast use vstd::seq_lib::group_filter_ensures;

            assert(old_list.take(j) =~= old_list);
            assert(old_list.skip(j) =~= Seq::<Vec<usize>>::empty());
            assert(self.list@ =~= old_list.filter(pred));
            assert forall|t: Seq<usize>| true implies (self.sets().contains(t) == (old(
                self,
            ).sets().contains(t) && t != s@)) by {
                if self.sets().contains(t) {
                    let a = choose|a: int|
                        0 <= a < self.list@.len() && (#[trigger] self.list@[a])@ == t;
                    let v = self.list@[a];
                    assert(old_list.filter(pred).contains(v));
                    old_list.lemma_filter_contains_rev(pred, v);
                    assert(old_list.contains(v));
                    let b = choose|b: int| 0 <= b < old_list.len() && old_list[b] == v;
                    assert(old(self).list@[b]@ == t);
                    assert(pred(v));
                }
                if old(self).sets().contains(t) && t != s@ {
                    let b = choose|b: int|
                        0 <= b < old_list.len() && (#[trigger] old_list[b])@ == t;
                    assert(pred(old_list[b]));
                    assert(old_list.filter(pred).contains(old_list[b]));
                    let a = choose|a: int|
                        0 <= a < self.list@.len() && self.list@[a] == old_list[b];
                    assert(self.list@[a]@ == t);
                }
            }
            assert(self.sets() =~= old(self).sets().remove(s@));
            assert forall|a: int| 0 <= a < self.list@.len() implies strictly_sorted(
                #[trigger] self.list@[a]@,
            ) by {
                let v = self.list@[a];
                assert(old_list.filter(pred).contains(v));
                old_list.lemma_filter_contains_rev(pred, v);
                assert(old_list.contains(v));
                let b = choose|b: int| 0 <= b < old_list.len() && old_list[b] == v;
                assert(old(self).list@[b]@ == v@);
            }
            if found {
                let t = choose|t: int| 0 <= t < j && (#[trigger] old_list[t])@ == s@;
                assert(old(self).list@[t]@ == s@);
                assert(old(self).sets().contains(s@));
            } else {
                if old(self).sets().contains(s@) {
                    let b = choose|b: int|
                        0 <= b < old_list.len() && (#[trigger] old_list[b])@ == s@;
                }
            }
        }
        found
    }

    #[verifier::loop_isolation(false)]
    fn find_subsets(&self, s: &[usize]) -> (r: Vec<Vec<usize>>) {
        let mut r: Vec<Vec<usize>> = Vec::new();
        let n: usize = self.list.len();
        let mut i: usize = 0;
        while i < n
            invariant
                n == self.list@.len(),
                i <= n,
                forall|j: int|
                    0 <= j < r@.len() ==> self.sets().contains(#[trigger] r@[j]@)
                        && is_subset_spec(r@[j]@, s@),
            decreases n - i,
        {
            if Self::is_subset(self.list[i].as_slice(), s) {
                let v = copy_slice(self.list[i].as_slice());
                r.push(v);
                proof {
                    assert(self.sets().contains(self.list@[i as int]@));
                }
            }
            i = i + 1;
        }
        r
    }

    #[verifier::loop_isolation(false)]
    fn find_supersets(&self, s: &[usize]) -> (r: Vec<Vec<usize>>) {
        let mut r: Vec<Vec<usize>> = Vec::new();
        let n: usize = self.list.len();
        let mut i: usize = 0;
        while i < n
            invariant
                n == self.list@.len(),
                i <= n,
                forall|j: int|
                    0 <= j < r@.len() ==> self.sets().contains(#[trigger] r@[j]@)
                        && is_subset_spec(s@, r@[j]@),
            decreases n - i,
        {
            if Self::is_subset(s, self.list[i].as_slice()) {
                let v = copy_slice(self.list[i].as_slice());
                r.push(v);
                proof {
                    assert(self.sets().contains(self.list@[i as int]@));
                }
            }
            i = i + 1;
        }
        r
    }

    #[verifier::loop_isolation(false)]
    fn contains(&self, s: &[usize]) -> (r: bool) {
        let n: usize = self.list.len();
        let mut i: usize = 0;
        while i < n
            invariant
                n == self.list@.len(),
                i <= n,
                forall|j: int| 0 <= j < i ==> (#[trigger] self.list@[j])@ != s@,
            decreases n - i,
        {
            if seq_eq(&self.list[i], s) {
                proof {
                    assert(self.sets().contains(s@));
                }
                return true;
            }
            i = i + 1;
        }
        proof {
            if self.sets().contains(s@) {
                let j = choose|j: int|
                    0 <= j < self.list@.len() && (#[trigger] self.list@[j])@ == s@;
            }
        }
        false
    }
}

impl Default for ListSetStore {
    /// Creates a new empty store.
    fn default() -> (r: Self)
        ensures
            r.inv(),
            r.sets() == Set::<Seq<usize>>::empty(),
    {
        Self::create_empty()
    }
}

} // verus!
