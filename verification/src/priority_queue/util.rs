use vstd::prelude::*;

use crate::priority_queue::{dominates_spec, GuidedElement, ParetoElement};

verus! {

/// Sum of a sequence of coordinates, as an unbounded integer.
pub open spec fn coord_sum(s: Seq<u32>) -> int
    decreases s.len(),
{
    if s.len() == 0 {
        0
    } else {
        coord_sum(s.drop_last()) + s.last()
    }
}

/// The coordinate sum of any sequence is non-negative.
proof fn lemma_coord_sum_nonneg(s: Seq<u32>)
    ensures
        coord_sum(s) >= 0,
    decreases s.len(),
{
    if s.len() > 0 {
        lemma_coord_sum_nonneg(s.drop_last());
    }
}

/// The sum of a prefix of a coordinate sequence never exceeds the sum of the
/// whole sequence.
proof fn lemma_coord_sum_prefix(s: Seq<u32>, i: int)
    requires
        0 <= i <= s.len(),
    ensures
        coord_sum(s.take(i)) <= coord_sum(s),
        coord_sum(s.take(i)) >= 0,
    decreases s.len(),
{
    lemma_coord_sum_nonneg(s.take(i));
    if i == s.len() {
        assert(s.take(i) =~= s);
    } else {
        let d = s.drop_last();
        assert(d.take(i) =~= s.take(i));
        lemma_coord_sum_prefix(d, i);
    }
}

/// Simple point element for the Pareto priority queue, carrying its
/// coordinates as a vector of `u32`. Its guide value is the coordinate sum,
/// which the element keeps representable in a `u32`.
#[derive(Debug, PartialEq, Eq)]
pub struct CartesianParetoElement {
    /// coordinates
    coords: Vec<u32>,
}

impl CartesianParetoElement {
    /// The coordinate sum stays representable.
    #[verifier::type_invariant]
    spec fn wf(self) -> bool {
        coord_sum(self.coords@) <= u32::MAX
    }

    /// Constructor taking the coordinates.
    pub fn new(coords: Vec<u32>) -> (r: Self)
        requires
            coord_sum(coords@) <= u32::MAX,
        ensures
            r.coords() == coords@,
    {
        Self { coords }
    }
}

impl ParetoElement for CartesianParetoElement {
    closed spec fn coords(&self) -> Seq<u32> {
        self.coords@
    }

    fn nb_dimensions(&self) -> (r: usize) {
        self.coords.len()
    }

    fn kth(&self, k: usize) -> (r: u32) {
        self.coords[k]
    }

    fn dominates(&self, other: &Self) -> (r: bool) {
        let n = self.coords.len();
        for i in 0..n
            invariant
                n == self.coords@.len(),
                n == other.coords@.len(),
                forall|j: int| 0 <= j < i ==> self.coords@[j] <= other.coords@[j],
        {
            if self.coords[i] > other.coords[i] {
                return false;
            }
        }
        true
    }

    fn eq_elt(&self, other: &Self) -> (r: bool) {
        let n = self.coords.len();
        if n != other.coords.len() {
            return false;
        }
        for i in 0..n
            invariant
                n == self.coords@.len(),
                n == other.coords@.len(),
                forall|j: int| 0 <= j < i ==> self.coords@[j] == other.coords@[j],
        {
            if self.coords[i] != other.coords[i] {
                return false;
            }
        }
        proof {
            assert(self.coords@ =~= other.coords@);
        }
        true
    }
}

impl GuidedElement for CartesianParetoElement {
    closed spec fn guide_spec(&self) -> u32 {
        coord_sum(self.coords@) as u32
    }

    #[verifier::loop_isolation(false)]
    fn guide(&self) -> (r: u32) {
        proof {
            use_type_invariant(&*self);
            lemma_coord_sum_prefix(self.coords@, 0);
            assert(self.coords@.take(0) =~= Seq::<u32>::empty());
        }
        let n: usize = self.coords.len();
        let mut acc: u32 = 0;
        let mut i: usize = 0;
        while i < n
            invariant
                i <= n,
                acc == coord_sum(self.coords@.take(i as int)),
            decreases n - i,
        {
            proof {
                lemma_coord_sum_prefix(self.coords@, i + 1);
                assert(self.coords@.take(i + 1).drop_last() =~= self.coords@.take(i as int));
                assert(coord_sum(self.coords@.take(i + 1)) == acc + self.coords@[i as int]);
            }
            acc = acc + self.coords[i];
            i = i + 1;
        }
        proof {
            assert(self.coords@.take(n as int) =~= self.coords@);
        }
        acc
    }
}

} // verus!
