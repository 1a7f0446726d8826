use vstd::prelude::*;

use crate::pareto_pq::{dominates_spec, ParetoElement};

verus! {

/// Simple point element for the Pareto front, carrying its coordinates as a
/// vector of `u16`.
#[derive(Debug, Clone, PartialEq, Eq)]
pub struct CartesianParetoElement {
    /// coordinates
    coords: Vec<u16>,
}

impl ParetoElement for CartesianParetoElement {
    closed spec fn coords(&self) -> Seq<u16> {
        self.coords@
    }

    fn nb_dimensions(&self) -> (r: usize) {
        self.coords.len()
    }

    fn kth(&self, k: usize) -> (r: u16) {
        self.coords[k]
    }

    fn dominates(&self, other: &Self) -> (r: bool) {
        let n = self.coords.len();
        for i in 0..n
            invariant
                n == self.coords@.len(),
                n == other.coords@.len(),
                forall|j: int| 0 <= j < i ==> self.coords@[j] <= other.coords@[j],
        {
            if self.coords[i] > other.coords[i] {
                return false;
            }
        }
        true
    }

    fn eq_elt(&self, other: &Self) -> (r: bool) {
        let n = self.coords.len();
        if n != other.coords.len() {
            return false;
        }
        for i in 0..n
            invariant
                n == self.coords@.len(),
                n == other.coords@.len(),
                forall|j: int| 0 <= j < i ==> self.coords@[j] == other.coords@[j],
        {
            if self.coords[i] != other.coords[i] {
                return false;
            }
        }
        proof {
            assert(self.coords@ =~= other.coords@);
        }
        true
    }
}

impl CartesianParetoElement {
    /// Constructor taking the coordinates.
    pub fn new(coords: Vec<u16>) -> (r: Self)
        ensures
            r.coords() == coords@,
    {
        Self { coords }
    }
}

} // verus!
