use vstd::prelude::*;
use vstd::multiset::Multiset;

use crate::pareto_pq::{antichain, dominates_spec, lemma_insert_preserves_antichain, ParetoElement,
    ParetoFront};

verus! {

broadcast use vstd::multiset::group_multiset_axioms;

/// An owned, possibly absent subtree.
pub type Link<Elt> = Option<Box<Node<Elt>>>;

/// Node of the kd-tree.
#[derive(Debug)]
pub struct Node<Elt> {
    /// element of the node
    pub e: Elt,
    /// left child
    pub l: Link<Elt>,
    /// right child
    pub r: Link<Elt>,
    /// cached lower and upper bounds of the subtree, per dimension
    pub b: Vec<(u16, u16)>,
}

/// Elements of a possibly absent subtree, as a multiset.
pub open spec fn opt_elems<Elt: ParetoElement>(link: Link<Elt>) -> Multiset<Elt>
    decreases link,
{
    match link {
        None => Multiset::empty(),
        Some(n) => n.elems(),
    }
}

/// Number of nodes of a possibly absent subtree.
pub open spec fn opt_size<Elt: ParetoElement>(link: Link<Elt>) -> nat
    decreases link,
{
    match link {
        None => 0,
        Some(n) => n.size(),
    }
}

/// Every element of `ms` has exactly `k` coordinates.
pub open spec fn all_len<Elt: ParetoElement>(ms: Multiset<Elt>, k: nat) -> bool {
    forall|x: Elt| #[trigger] ms.contains(x) ==> x.coords().len() == k
}

/// Every element of `ms` lies between `lo` and `hi` on dimension `i`.
pub open spec fn covers_dim<Elt: ParetoElement>(ms: Multiset<Elt>, i: int, lo: u16, hi: u16) -> bool {
    forall|x: Elt| #[trigger] ms.contains(x) ==> lo <= x.coords()[i] && x.coords()[i] <= hi
}

/// Some element of `ms` reaches `v` on dimension `i`.
pub open spec fn attains_dim<Elt: ParetoElement>(ms: Multiset<Elt>, i: int, v: u16) -> bool {
    exists|x: Elt| #[trigger] ms.contains(x) && x.coords()[i] == v
}

/// The bound vector `b` holds, for each dimension, the exact minimum and
/// maximum of that coordinate over `ms`.
pub open spec fn bounds_ok<Elt: ParetoElement>(b: Seq<(u16, u16)>, ms: Multiset<Elt>) -> bool {
    forall|i: int|
        #![trigger b[i]]
        0 <= i < b.len() ==> covers_dim(ms, i, b[i].0, b[i].1) && attains_dim(ms, i, b[i].0)
            && attains_dim(ms, i, b[i].1)
}

/// Bound facts of a possibly absent subtree: the cached vector has arity `k`
/// and is the exact bounding box of the subtree's elements.
pub open spec fn opt_bok<Elt: ParetoElement>(link: Link<Elt>, k: nat) -> bool {
    match link {
        None => true,
        Some(n) => n.b@.len() == k && all_len(n.elems(), k) && bounds_ok(n.b@, n.elems()),
    }
}

/// Every element of `ms` is strictly below `v` on dimension `i`.
pub open spec fn all_below<Elt: ParetoElement>(ms: Multiset<Elt>, i: int, v: u16) -> bool {
    forall|x: Elt| #[trigger] ms.contains(x) ==> x.coords()[i] < v
}

/// Every element of `ms` is at least `v` on dimension `i`.
pub open spec fn all_at_least<Elt: ParetoElement>(ms: Multiset<Elt>, i: int, v: u16) -> bool {
    forall|x: Elt| #[trigger] ms.contains(x) ==> x.coords()[i] >= v
}

/// The discriminant dimension one level deeper.
pub open spec fn next_dim(dim: int, k: nat) -> int {
    if dim + 1 < k {
        dim + 1
    } else {
        0
    }
}

/// Well-formedness of a possibly absent subtree whose root discriminates on
/// dimension `dim`.
pub open spec fn opt_inv<Elt: ParetoElement>(link: Link<Elt>, k: nat, dim: int) -> bool
    decreases link,
{
    match link {
        None => true,
        Some(n) => n.inv(k, dim),
    }
}

impl<Elt: ParetoElement> Node<Elt> {
    /// Elements of the subtree rooted at this node, as a multiset.
    pub open spec fn elems(self) -> Multiset<Elt>
        decreases self,
    {
        opt_elems(self.l).add(opt_elems(self.r)).insert(self.e)
    }

    /// Number of nodes of the subtree rooted at this node.
    pub open spec fn size(self) -> nat
        decreases self,
    {
        1 + opt_size(self.l) + opt_size(self.r)
    }

    /// Well-formedness of the subtree rooted at this node, discriminating on
    /// dimension `dim`: all elements have `k` coordinates, the cached bounds
    /// are exact, the children split on `dim` around this node's element, and
    /// both children are well-formed one dimension further.
    pub open spec fn inv(self, k: nat, dim: int) -> bool
        decreases self,
    {
        &&& 0 <= dim < k
        &&& self.e.coords().len() == k
        &&& self.b@.len() == k
        &&& all_len(self.elems(), k)
        &&& bounds_ok(self.b@, self.elems())
        &&& all_below(opt_elems(self.l), dim, self.e.coords()[dim])
        &&& all_at_least(opt_elems(self.r), dim, self.e.coords()[dim])
        &&& opt_inv(self.l, k, next_dim(dim, k))
        &&& opt_inv(self.r, k, next_dim(dim, k))
    }

    /// Returns the node element.
    pub fn elt(&self) -> (r: &Elt)
        ensures
            *r == self.e,
    {
        &self.e
    }

    /// Returns the left child.
    pub fn left(&self) -> (r: &Link<Elt>)
        ensures
            *r == self.l,
    {
        &self.l
    }

    /// Returns the right child.
    pub fn right(&self) -> (r: &Link<Elt>)
        ensures
            *r == self.r,
    {
        &self.r
    }

    /// Returns a mutable reference to the left child. The caller is
    /// responsible for refreshing the cached bounds after a change.
    pub fn left_mut(&mut self) -> (r: &mut Link<Elt>)
        ensures
            *r == old(self).l,
            final(self).l == *final(r),
            final(self).e == old(self).e,
            final(self).r == old(self).r,
    {
        &mut self.l
    }

    /// Returns a mutable reference to the right child. The caller is
    /// responsible for refreshing the cached bounds after a change.
    pub fn right_mut(&mut self) -> (r: &mut Link<Elt>)
        ensures
            *r == old(self).r,
            final(self).r == *final(r),
            final(self).e == old(self).e,
            final(self).l == old(self).l,
    {
        &mut self.r
    }

    /// Returns the bounds of the node.
    pub fn bounds(&self) -> (r: &Vec<(u16, u16)>)
        ensures
            *r == self.b,
    {
        &self.b
    }

    /// Computes the exact per-dimension bounds of a subtree made of the
    /// element `e` and the subtrees `l` and `r`.
    #[verifier::loop_isolation(false)]
    pub fn compute_bounds(e: &Elt, l: &Link<Elt>, r: &Link<Elt>) -> (b: Vec<(u16, u16)>)
        requires
            opt_bok(*l, e.coords().len()),
            opt_bok(*r, e.coords().len()),
        ensures
            b@.len() == e.coords().len(),
            bounds_ok(b@, opt_elems(*l).add(opt_elems(*r)).insert(*e)),
            all_len(opt_elems(*l).add(opt_elems(*r)).insert(*e), e.coords().len()),
    {
        broadcast use vstd::multiset::group_multiset_axioms;

        let ghost ms = opt_elems(*l).add(opt_elems(*r)).insert(*e);
        let k: usize = e.nb_dimensions();
        proof {
            assert forall|x: Elt| #[trigger] ms.contains(x) implies x.coords().len()
                == k as nat by {
                if x != *e {
                    if opt_elems(*l).contains(x) {
                        assert(all_len(opt_elems(*l), k as nat));
                    } else {
                        assert(opt_elems(*r).contains(x));
                    }
                }
            }
        }
        let mut b: Vec<(u16, u16)> = Vec::new();
        let mut i: usize = 0;
        while i < k
            invariant
                i <= k,
                b@.len() == i,
                forall|t: int|
                    #![trigger b@[t]]
                    0 <= t < i ==> covers_dim(ms, t, b@[t].0, b@[t].1) && attains_dim(
                        ms,
                        t,
                        b@[t].0,
                    ) && attains_dim(ms, t, b@[t].1),
            decreases k - i,
        {
            let mut lo: u16 = e.kth(i);
            let mut hi: u16 = lo;
            proof {
                assert(ms.contains(*e));
            }
            let ghost mut lo_wit: Elt = *e;
            let ghost mut hi_wit: Elt = *e;
            if let Some(n) = l {
                let p = n.b[i];
                proof {
                    assert(attains_dim(n.elems(), i as int, p.0));
                    assert(attains_dim(n.elems(), i as int, p.1));
                }
                if p.0 < lo {
                    lo = p.0;
                    proof {
                        lo_wit = choose|x: Elt| #[trigger] n.elems().contains(x)
                            && x.coords()[i as int] == p.0;
                    }
                }
                if p.1 > hi {
                    hi = p.1;
                    proof {
                        hi_wit = choose|x: Elt| #[trigger] n.elems().contains(x)
                            && x.coords()[i as int] == p.1;
                    }
                }
            }
            if let Some(n) = r {
                let p = n.b[i];
                proof {
                    assert(attains_dim(n.elems(), i as int, p.0));
                    assert(attains_dim(n.elems(), i as int, p.1));
                }
                if p.0 < lo {
                    lo = p.0;
                    proof {
                        lo_wit = choose|x: Elt| #[trigger] n.elems().contains(x)
                            && x.coords()[i as int] == p.0;
                    }
                }
                if p.1 > hi {
                    hi = p.1;
                    proof {
                        hi_wit = choose|x: Elt| #[trigger] n.elems().contains(x)
                            && x.coords()[i as int] == p.1;
                    }
                }
            }
            proof {
                assert(ms.contains(lo_wit) && lo_wit.coords()[i as int] == lo);
                assert(ms.contains(hi_wit) && hi_wit.coords()[i as int] == hi);
                assert forall|x: Elt| #[trigger] ms.contains(x) implies lo <= x.coords()[i as int]
                    && x.coords()[i as int] <= hi by {
                    if x != *e {
                        if opt_elems(*l).contains(x) {
                            let n = l.unwrap();
                            assert(covers_dim(n.elems(), i as int, n.b@[i as int].0, n.b@[i as int].1));
                        } else {
                            assert(opt_elems(*r).contains(x));
                            let n = r.unwrap();
                            assert(covers_dim(n.elems(), i as int, n.b@[i as int].0, n.b@[i as int].1));
                        }
                    }
                }
            }
            b.push((lo, hi));
            i = i + 1;
        }
        b
    }

    /// Creates a node from an element and two subtrees, computing its bounds.
    pub fn new(e: Elt, l: Link<Elt>, r: Link<Elt>) -> (result: Self)
        requires
            opt_bok(l, e.coords().len()),
            opt_bok(r, e.coords().len()),
        ensures
            result.e == e,
            result.l == l,
            result.r == r,
            result.b@.len() == e.coords().len(),
            bounds_ok(result.b@, result.elems()),
            all_len(result.elems(), e.coords().len()),
    {
        let b = Self::compute_bounds(&e, &l, &r);
        Self { e, l, r, b }
    }

    /// Decomposes the node into its element and subtrees.
    pub fn decompose(self) -> (r: (Elt, Link<Elt>, Link<Elt>))
        ensures
            r.0 == self.e,
            r.1 == self.l,
            r.2 == self.r,
    {
        (self.e, self.l, self.r)
    }

    /// Recomputes the cached bounds of the node.
    pub fn update_bounds(&mut self)
        requires
            opt_bok(old(self).l, old(self).e.coords().len()),
            opt_bok(old(self).r, old(self).e.coords().len()),
        ensures
            final(self).e == old(self).e,
            final(self).l == old(self).l,
            final(self).r == old(self).r,
            final(self).b@.len() == old(self).e.coords().len(),
            bounds_ok(final(self).b@, final(self).elems()),
            all_len(final(self).elems(), old(self).e.coords().len()),
    {
        let b = Self::compute_bounds(&self.e, &self.l, &self.r);
        self.b = b;
    }

    /// Attaches a subtree as the left child and recomputes the bounds.
    /// Returns the previous left child.
    pub fn attach_left(&mut self, t: Link<Elt>) -> (res: Link<Elt>)
        requires
            opt_bok(t, old(self).e.coords().len()),
            opt_bok(old(self).r, old(self).e.coords().len()),
        ensures
            res == old(self).l,
            final(self).e == old(self).e,
            final(self).l == t,
            final(self).r == old(self).r,
            final(self).b@.len() == old(self).e.coords().len(),
            bounds_ok(final(self).b@, final(self).elems()),
            all_len(final(self).elems(), old(self).e.coords().len()),
    {
        let mut res = t;
        core::mem::swap(&mut res, &mut self.l);
        self.update_bounds();
        res
    }

    /// Attaches a subtree as the right child and recomputes the bounds.
    /// Returns the previous right child.
    pub fn attach_right(&mut self, t: Link<Elt>) -> (res: Link<Elt>)
        requires
            opt_bok(t, old(self).e.coords().len()),
            opt_bok(old(self).l, old(self).e.coords().len()),
        ensures
            res == old(self).r,
            final(self).e == old(self).e,
            final(self).l == old(self).l,
            final(self).r == t,
            final(self).b@.len() == old(self).e.coords().len(),
            bounds_ok(final(self).b@, final(self).elems()),
            all_len(final(self).elems(), old(self).e.coords().len()),
    {
        let mut res = t;
        core::mem::swap(&mut res, &mut self.r);
        self.update_bounds();
        res
    }
}

/// Law: in a well-formed subtree, the cached bound vector holds, for every
/// dimension, exactly the minimum and the maximum of that coordinate over
/// the subtree's elements: each bound is attained by some element, and every
/// element lies between the two.
pub proof fn lemma_bounds_exact<Elt: ParetoElement>(n: Node<Elt>, k: nat, dim: int, i: int)
    requires
        n.inv(k, dim),
        0 <= i < k,
    ensures
        covers_dim(n.elems(), i, n.b@[i].0, n.b@[i].1),
        attains_dim(n.elems(), i, n.b@[i].0),
        attains_dim(n.elems(), i, n.b@[i].1),
{
}

/// Well-formedness implies the cached-bound facts.
proof fn lemma_inv_bok<Elt: ParetoElement>(link: Link<Elt>, k: nat, dim: int)
    requires
        opt_inv(link, k, dim),
    ensures
        opt_bok(link, k),
{
}

/// Kd-tree based Pareto front structure.
#[derive(Debug)]
pub struct KDTreeFront<Elt> {
    /// root node
    root: Link<Elt>,
    /// number of coordinates of every element the tree accepts
    nb_dim: usize,
}

impl<Elt: ParetoElement> KDTreeFront<Elt> {
    /// Creates a new empty front for elements of `nb_dim` coordinates.
    pub fn create_empty(nb_dim: usize) -> (r: Self)
        requires
            nb_dim >= 1,
        ensures
            r.inv(),
            r.contents() == Multiset::<Elt>::empty(),
            forall|k: nat| #[trigger] r.compat(k) <==> k == nb_dim,
    {
        let r = KDTreeFront { root: None, nb_dim };
        proof {
            assert(r.contents() =~= Multiset::<Elt>::empty());
        }
        r
    }

    /// Returns true iff the front is empty.
    pub fn is_empty(&self) -> (r: bool)
        requires
            self.inv(),
        ensures
            r == (self.contents().len() == 0),
    {
        proof {
            if self.root is Some {
                let n = self.root.unwrap();
                assert(n.elems().contains(n.e));
                assert(n.elems().len() > 0);
            } else {
                assert(self.contents() =~= Multiset::<Elt>::empty());
            }
        }
        self.root.is_none()
    }

    /// Adds the element below this node following the rotating discriminant,
    /// without any dominance check, and refreshes the bounds on the way up.
    fn rec_insert_without_check(node: &mut Node<Elt>, elt: Elt, dim: usize, nb_dim: usize)
        requires
            old(node).inv(nb_dim as nat, dim as int),
            elt.coords().len() == nb_dim,
            dim < nb_dim,
        ensures
            final(node).inv(nb_dim as nat, dim as int),
            final(node).elems() == old(node).elems().insert(elt),
        decreases old(node).size(),
    {
        let nd: usize = if dim + 1 < nb_dim {
            dim + 1
        } else {
            0
        };
        let ghost k = nb_dim as nat;
        if elt.kth(dim) < node.e.kth(dim) {
            // go left
            match &mut node.l {
                None => {
                    let leaf = Node::new(elt, None, None);
                    proof {
                        assert(leaf.elems() =~= Multiset::<Elt>::empty().insert(elt));
                        assert(leaf.inv(k, next_dim(dim as int, k)));
                        lemma_inv_bok(node.r, k, next_dim(dim as int, k));
                    }
                    node.attach_left(Some(Box::new(leaf)));
                }
                Some(n) => {
                    Self::rec_insert_without_check(&mut *n, elt, nd, nb_dim);
                }
            }
            proof {
                lemma_inv_bok(node.l, k, next_dim(dim as int, k));
                lemma_inv_bok(node.r, k, next_dim(dim as int, k));
                assert(opt_elems(node.l) =~= opt_elems(old(node).l).insert(elt));
                assert forall|x: Elt| #[trigger] opt_elems(node.l).contains(x) implies
                    x.coords()[dim as int] < node.e.coords()[dim as int] by {
                    if x != elt {
                        assert(opt_elems(old(node).l).contains(x));
                    }
                }
            }
        } else {
            // go right
            match &mut node.r {
                None => {
                    let leaf = Node::new(elt, None, None);
                    proof {
                        assert(leaf.elems() =~= Multiset::<Elt>::empty().insert(elt));
                        assert(leaf.inv(k, next_dim(dim as int, k)));
                        lemma_inv_bok(node.l, k, next_dim(dim as int, k));
                    }
                    node.attach_right(Some(Box::new(leaf)));
                }
                Some(n) => {
                    Self::rec_insert_without_check(&mut *n, elt, nd, nb_dim);
                }
            }
            proof {
                lemma_inv_bok(node.l, k, next_dim(dim as int, k));
                lemma_inv_bok(node.r, k, next_dim(dim as int, k));
                assert(opt_elems(node.r) =~= opt_elems(old(node).r).insert(elt));
                assert forall|x: Elt| #[trigger] opt_elems(node.r).contains(x) implies
                    x.coords()[dim as int] >= node.e.coords()[dim as int] by {
                    if x != elt {
                        assert(opt_elems(old(node).r).contains(x));
                    }
                }
            }
        }
        node.update_bounds();
        proof {
            assert(final(node).elems() =~= old(node).elems().insert(elt));
        }
    }

    /// Adds the element to the tree without any dominance check.
    pub fn insert_without_check(&mut self, elt: Elt)
        requires
            old(self).inv(),
            old(self).compat(elt.coords().len()),
        ensures
            final(self).inv(),
            final(self).contents() == old(self).contents().insert(elt),
            forall|k: nat| #[trigger] final(self).compat(k) <==> old(self).compat(k),
    {
        let nb_dim: usize = self.nb_dim;
        match &mut self.root {
            None => {
                let leaf = Node::new(elt, None, None);
                proof {
                    assert(leaf.elems() =~= Multiset::<Elt>::empty().insert(elt));
                    assert(leaf.inv(nb_dim as nat, 0));
                }
                self.root = Some(Box::new(leaf));
            }
            Some(n) => {
                Self::rec_insert_without_check(&mut *n, elt, 0, nb_dim);
            }
        }
        proof {
            assert(final(self).contents() =~= old(self).contents().insert(elt));
        }
    }
}

impl<Elt: ParetoElement> KDTreeFront<Elt> {
    /// Recursive search for an element carrying the given coordinate vector.
    fn rec_search<'a>(link: &'a Link<Elt>, elt: &Elt, dim: usize, nb_dim: usize) -> (r: Option<
        &'a Elt,
    >)
        requires
            opt_inv(*link, nb_dim as nat, dim as int),
            elt.coords().len() == nb_dim,
            dim < nb_dim,
        ensures
            match r {
                Some(x) => opt_elems(*link).contains(*x) && x.coords() == elt.coords(),
                None => forall|y: Elt| #[trigger]
                    opt_elems(*link).contains(y) ==> y.coords() != elt.coords(),
            },
        decreases link,
    {
        let nd: usize = if dim + 1 < nb_dim {
            dim + 1
        } else {
            0
        };
        match link {
            None => None,
            Some(node) => {
                if node.e.eq_elt(elt) {
                    Some(&node.e)
                } else if elt.kth(dim) < node.e.kth(dim) {
                    // the element can only live in the left subtree
                    let r = Self::rec_search(&node.l, elt, nd, nb_dim);
                    proof {
                        if r is None {
                            assert forall|y: Elt| #[trigger] opt_elems(*link).contains(y) implies
                                y.coords() != elt.coords() by {
                                if y != node.e && !opt_elems(node.l).contains(y) {
                                    assert(opt_elems(node.r).contains(y));
                                    assert(y.coords()[dim as int] >= node.e.coords()[dim as int]);
                                }
                            }
                        }
                    }
                    r
                } else {
                    // the element can only live in the right subtree
                    let r = Self::rec_search(&node.r, elt, nd, nb_dim);
                    proof {
                        if r is None {
                            assert forall|y: Elt| #[trigger] opt_elems(*link).contains(y) implies
                                y.coords() != elt.coords() by {
                                if y != node.e && !opt_elems(node.r).contains(y) {
                                    assert(opt_elems(node.l).contains(y));
                                    assert(y.coords()[dim as int] < node.e.coords()[dim as int]);
                                }
                            }
                        }
                    }
                    r
                }
            }
        }
    }

    /// Searches an element with the given coordinate vector in the tree.
    pub fn search(&self, elt: &Elt) -> (r: Option<&Elt>)
        requires
            self.inv(),
            self.compat(elt.coords().len()),
        ensures
            match r {
                Some(x) => self.contents().contains(*x) && x.coords() == elt.coords(),
                None => forall|y: Elt| #[trigger]
                    self.contents().contains(y) ==> y.coords() != elt.coords(),
            },
    {
        Self::rec_search(&self.root, elt, 0, self.nb_dim)
    }

    /// Recursive, bound-pruned search for an element dominating `elt`.
    #[verifier::loop_isolation(false)]
    fn rec_exists_dominating<'a>(
        link: &'a Link<Elt>,
        elt: &Elt,
        Ghost(dim): Ghost<int>,
        nb_dim: usize,
    ) -> (r: Option<&'a Elt>)
        requires
            opt_inv(*link, nb_dim as nat, dim),
            elt.coords().len() == nb_dim,
        ensures
            match r {
                Some(d) => opt_elems(*link).contains(*d) && dominates_spec(
                    d.coords(),
                    elt.coords(),
                ),
                None => forall|x: Elt| #[trigger]
                    opt_elems(*link).contains(x) ==> !dominates_spec(x.coords(), elt.coords()),
            },
        decreases link,
    {
        match link {
            None => None,
            Some(node) => {
                // if the element is below the subtree's minimum on some
                // dimension, nothing below this node can dominate it
                let mut i: usize = 0;
                while i < nb_dim
                    invariant
                        i <= nb_dim,
                    decreases nb_dim - i,
                {
                    if elt.kth(i) < node.b[i].0 {
                        proof {
                            assert forall|x: Elt| #[trigger] opt_elems(*link).contains(x) implies
                                !dominates_spec(x.coords(), elt.coords()) by {
                                assert(covers_dim(
                                    node.elems(),
                                    i as int,
                                    node.b@[i as int].0,
                                    node.b@[i as int].1,
                                ));
                                assert(x.coords()[i as int] > elt.coords()[i as int]);
                            }
                        }
                        return None;
                    }
                    i = i + 1;
                }
                if node.e.dominates(elt) {
                    Some(&node.e)
                } else {
                    let ghost k = nb_dim as nat;
                    match Self::rec_exists_dominating(
                        &node.l,
                        elt,
                        Ghost(next_dim(dim, k)),
                        nb_dim,
                    ) {
                        Some(d) => Some(d),
                        None => {
                            let r = Self::rec_exists_dominating(
                                &node.r,
                                elt,
                                Ghost(next_dim(dim, k)),
                                nb_dim,
                            );
                            proof {
                                if r is None {
                                    assert forall|x: Elt| #[trigger] opt_elems(
                                        *link,
                                    ).contains(x) implies !dominates_spec(
                                        x.coords(),
                                        elt.coords(),
                                    ) by {
                                        if x != node.e && !opt_elems(node.l).contains(x) {
                                            assert(opt_elems(node.r).contains(x));
                                        }
                                    }
                                }
                            }
                            r
                        }
                    }
                }
            }
        }
    }

    /// Recursive, bound-directed search for an element with minimum value on
    /// dimension `target`.
    fn rec_search_minimum<'a>(
        link: &'a Link<Elt>,
        target: usize,
        nb_dim: usize,
        Ghost(dim): Ghost<int>,
    ) -> (r: Option<&'a Elt>)
        requires
            opt_inv(*link, nb_dim as nat, dim),
            target < nb_dim,
        ensures
            match r {
                Some(m) => opt_elems(*link).contains(*m) && (forall|x: Elt| #[trigger]
                    opt_elems(*link).contains(x) ==> m.coords()[target as int]
                        <= x.coords()[target as int]),
                None => *link is None,
            },
        decreases link,
    {
        match link {
            None => None,
            Some(node) => {
                let ghost k = nb_dim as nat;
                let ghost nd = next_dim(dim, k);
                proof {
                    assert(node.inv(k, dim));
                    assert(opt_inv(node.l, k, nd));
                    assert(opt_inv(node.r, k, nd));
                    if node.l is Some {
                        assert(node.l.unwrap().inv(k, nd));
                    }
                    if node.r is Some {
                        assert(node.r.unwrap().inv(k, nd));
                    }
                }
                let v_e = node.e.kth(target);
                let mut go_left = false;
                let mut go_right = false;
                match (&node.l, &node.r) {
                    (None, None) => {}
                    (None, Some(rn)) => {
                        if rn.b[target].0 < v_e {
                            go_right = true;
                        }
                    }
                    (Some(ln), None) => {
                        if ln.b[target].0 < v_e {
                            go_left = true;
                        }
                    }
                    (Some(ln), Some(rn)) => {
                        let vl = ln.b[target].0;
                        let vr = rn.b[target].0;
                        if vl < v_e && vl < vr {
                            go_left = true;
                        } else if vr < v_e {
                            go_right = true;
                        }
                    }
                }
                if go_left {
                    let r = Self::rec_search_minimum(&node.l, target, nb_dim, Ghost(nd));
                    proof {
                        let m = *r.unwrap();
                        let ln = node.l.unwrap();
                        assert(covers_dim(ln.elems(), target as int, ln.b@[target as int].0, ln.b@[target as int].1));
                        assert(attains_dim(ln.elems(), target as int, ln.b@[target as int].0));
                        let w = choose|x: Elt| #[trigger] ln.elems().contains(x)
                            && x.coords()[target as int] == ln.b@[target as int].0;
                        assert(m.coords()[target as int] <= w.coords()[target as int]);
                        assert forall|x: Elt| #[trigger] opt_elems(*link).contains(x) implies
                            m.coords()[target as int] <= x.coords()[target as int] by {
                            if !ln.elems().contains(x) {
                                if x == node.e {
                                } else {
                                    assert(opt_elems(node.r).contains(x));
                                    let rn = node.r.unwrap();
                                    assert(covers_dim(rn.elems(), target as int, rn.b@[target as int].0, rn.b@[target as int].1));
                                }
                            }
                        }
                    }
                    r
                } else if go_right {
                    let r = Self::rec_search_minimum(&node.r, target, nb_dim, Ghost(nd));
                    proof {
                        let m = *r.unwrap();
                        let rn = node.r.unwrap();
                        assert(covers_dim(rn.elems(), target as int, rn.b@[target as int].0, rn.b@[target as int].1));
                        assert(attains_dim(rn.elems(), target as int, rn.b@[target as int].0));
                        let w = choose|x: Elt| #[trigger] rn.elems().contains(x)
                            && x.coords()[target as int] == rn.b@[target as int].0;
                        assert(m.coords()[target as int] <= w.coords()[target as int]);
                        assert forall|x: Elt| #[trigger] opt_elems(*link).contains(x) implies
                            m.coords()[target as int] <= x.coords()[target as int] by {
                            if !rn.elems().contains(x) {
                                if x == node.e {
                                } else {
                                    assert(opt_elems(node.l).contains(x));
                                    let ln = node.l.unwrap();
                                    assert(covers_dim(ln.elems(), target as int, ln.b@[target as int].0, ln.b@[target as int].1));
                                }
                            }
                        }
                    }
                    r
                } else {
                    proof {
                        assert forall|x: Elt| #[trigger] opt_elems(*link).contains(x) implies
                            node.e.coords()[target as int] <= x.coords()[target as int] by {
                            if x != node.e {
                                if opt_elems(node.l).contains(x) {
                                    let ln = node.l.unwrap();
                                    assert(covers_dim(ln.elems(), target as int, ln.b@[target as int].0, ln.b@[target as int].1));
                                } else {
                                    assert(opt_elems(node.r).contains(x));
                                    let rn = node.r.unwrap();
                                    assert(covers_dim(rn.elems(), target as int, rn.b@[target as int].0, rn.b@[target as int].1));
                                }
                            }
                        }
                    }
                    Some(&node.e)
                }
            }
        }
    }

    /// Removes the node held by this link, if any, and returns its element.
    /// The removed element is replaced by the element of the right subtree
    /// that is minimal on the link's discriminant dimension `dim`; a node
    /// with only a left subtree first moves it into the right slot.
    fn remove_link(link: &mut Link<Elt>, dim: usize, nb_dim: usize) -> (r: Option<Elt>)
        requires
            opt_inv(*old(link), nb_dim as nat, dim as int),
            dim < nb_dim,
        ensures
            opt_inv(*final(link), nb_dim as nat, dim as int),
            match r {
                Some(e) => {
                    &&& *old(link) is Some
                    &&& e == old(link).unwrap().e
                    &&& opt_elems(*final(link)) == opt_elems(*old(link)).remove(e)
                },
                None => *old(link) is None && *final(link) is None,
            },
        decreases opt_size(*old(link)), 0nat,
    {
        let ghost k = nb_dim as nat;
        let nd: usize = if dim + 1 < nb_dim {
            dim + 1
        } else {
            0
        };
        match link.take() {
            None => None,
            Some(mut node) => {
                proof {
                    assert(node.inv(k, dim as int));
                    if node.l is Some {
                        assert(node.l.unwrap().inv(k, next_dim(dim as int, k)));
                    }
                    if node.r is Some {
                        assert(node.r.unwrap().inv(k, next_dim(dim as int, k)));
                    }
                }
                let ghost old_node = *node;
                if node.r.is_some() {
                    // promote the right subtree's minimum on `dim`
                    let l = node.l.take();
                    let r = node.r.take().unwrap();
                    let (e, _dl, _dr) = (*node).decompose();
                    proof {
                        assert(opt_size(*old(link)) == old_node.size());
                        assert(r.size() == opt_size(old_node.r));
                        assert(r.size() < opt_size(*old(link)));
                    }
                    let (r2, m) = Self::remove_minimum(r, nd, dim, nb_dim);
                    proof {
                        lemma_inv_bok(l, k, next_dim(dim as int, k));
                        lemma_inv_bok(r2, k, next_dim(dim as int, k));
                        assert(old_node.r.unwrap().elems().contains(m));
                        assert(m.coords()[dim as int] >= old_node.e.coords()[dim as int]);
                        assert forall|x: Elt| #[trigger] opt_elems(l).contains(x) implies
                            x.coords()[dim as int] < m.coords()[dim as int] by {
                            assert(x.coords()[dim as int] < old_node.e.coords()[dim as int]);
                        }
                        assert forall|x: Elt| #[trigger] opt_elems(r2).contains(x) implies
                            x.coords()[dim as int] >= m.coords()[dim as int] by {
                            assert(old_node.r.unwrap().elems().contains(x));
                        }
                    }
                    let newnode = Node::new(m, l, r2);
                    proof {
                        assert(newnode.inv(k, dim as int));
                        assert(newnode.elems() =~= opt_elems(*old(link)).remove(e));
                    }
                    *link = Some(Box::new(newnode));
                    Some(e)
                } else if node.l.is_some() {
                    // only a left subtree: move it into the right slot first
                    let l = node.l.take().unwrap();
                    let (e, _dl, _dr) = (*node).decompose();
                    proof {
                        assert(opt_size(*old(link)) == old_node.size());
                        assert(l.size() == opt_size(old_node.l));
                        assert(l.size() < opt_size(*old(link)));
                    }
                    let (r2, m) = Self::remove_minimum(l, nd, dim, nb_dim);
                    proof {
                        lemma_inv_bok(r2, k, next_dim(dim as int, k));
                        assert(old_node.l.unwrap().elems().contains(m));
                        assert forall|x: Elt| #[trigger] opt_elems(r2).contains(x) implies
                            x.coords()[dim as int] >= m.coords()[dim as int] by {
                            assert(old_node.l.unwrap().elems().contains(x));
                        }
                    }
                    let newnode = Node::new(m, None, r2);
                    proof {
                        assert(opt_elems(None::<Box<Node<Elt>>>) =~= Multiset::<Elt>::empty());
                        assert(newnode.inv(k, dim as int));
                        assert(newnode.elems() =~= opt_elems(*old(link)).remove(e));
                    }
                    *link = Some(Box::new(newnode));
                    Some(e)
                } else {
                    // the node is a leaf: remove it directly
                    let (e, _dl, _dr) = (*node).decompose();
                    proof {
                        assert(opt_elems(*final(link)) =~= opt_elems(*old(link)).remove(e));
                    }
                    Some(e)
                }
            }
        }
    }

    /// Removes and returns an element of the subtree that is minimal on
    /// dimension `target`, descending along the cached bounds.
    fn remove_minimum(node: Box<Node<Elt>>, dim: usize, target: usize, nb_dim: usize) -> (res: (
        Link<Elt>,
        Elt,
    ))
        requires
            node.inv(nb_dim as nat, dim as int),
            target < nb_dim,
            dim < nb_dim,
        ensures
            opt_inv(res.0, nb_dim as nat, dim as int),
            node.elems().contains(res.1),
            opt_elems(res.0) == node.elems().remove(res.1),
            forall|x: Elt| #[trigger]
                node.elems().contains(x) ==> res.1.coords()[target as int]
                    <= x.coords()[target as int],
        decreases node.size(), 1nat,
    {
        let ghost k = nb_dim as nat;
        let ghost nd_g = next_dim(dim as int, k);
        let nd: usize = if dim + 1 < nb_dim {
            dim + 1
        } else {
            0
        };
        proof {
            assert(node.inv(k, dim as int));
            if node.l is Some {
                assert(node.l.unwrap().inv(k, nd_g));
            }
            if node.r is Some {
                assert(node.r.unwrap().inv(k, nd_g));
            }
        }
        let mut node = node;
        let ghost old_node = *node;
        let v_e = node.e.kth(target);
        let mut go_left = false;
        let mut go_right = false;
        match (&node.l, &node.r) {
            (None, None) => {}
            (None, Some(rn)) => {
                if rn.b[target].0 < v_e {
                    go_right = true;
                }
            }
            (Some(ln), None) => {
                if ln.b[target].0 < v_e {
                    go_left = true;
                }
            }
            (Some(ln), Some(rn)) => {
                let vl = ln.b[target].0;
                let vr = rn.b[target].0;
                if vl < v_e && vl < vr {
                    go_left = true;
                } else if vr < v_e {
                    go_right = true;
                }
            }
        }
        if go_left {
            let child = node.l.take().unwrap();
            let (l2, m) = Self::remove_minimum(child, nd, target, nb_dim);
            node.l = l2;
            proof {
                lemma_inv_bok(node.l, k, nd_g);
                lemma_inv_bok(node.r, k, nd_g);
            }
            node.update_bounds();
            proof {
                let ln = old_node.l.unwrap();
                assert(covers_dim(ln.elems(), target as int, ln.b@[target as int].0, ln.b@[target as int].1));
                assert(attains_dim(ln.elems(), target as int, ln.b@[target as int].0));
                let w = choose|x: Elt| #[trigger] ln.elems().contains(x) && x.coords()[target as int]
                    == ln.b@[target as int].0;
                assert(m.coords()[target as int] <= w.coords()[target as int]);
                assert forall|x: Elt| #[trigger] old_node.elems().contains(x) implies
                    m.coords()[target as int] <= x.coords()[target as int] by {
                    if !ln.elems().contains(x) {
                        if x == old_node.e {
                        } else {
                            assert(opt_elems(old_node.r).contains(x));
                            let rn = old_node.r.unwrap();
                            assert(covers_dim(rn.elems(), target as int, rn.b@[target as int].0, rn.b@[target as int].1));
                        }
                    }
                }
                assert forall|x: Elt| #[trigger] opt_elems(node.l).contains(x) implies
                    x.coords()[dim as int] < node.e.coords()[dim as int] by {
                    assert(ln.elems().contains(x));
                }
                assert(node.inv(k, dim as int));
                assert(node.elems() =~= old_node.elems().remove(m));
            }
            (Some(node), m)
        } else if go_right {
            let child = node.r.take().unwrap();
            let (r2, m) = Self::remove_minimum(child, nd, target, nb_dim);
            node.r = r2;
            proof {
                lemma_inv_bok(node.l, k, nd_g);
                lemma_inv_bok(node.r, k, nd_g);
            }
            node.update_bounds();
            proof {
                let rn = old_node.r.unwrap();
                assert(covers_dim(rn.elems(), target as int, rn.b@[target as int].0, rn.b@[target as int].1));
                assert(attains_dim(rn.elems(), target as int, rn.b@[target as int].0));
                let w = choose|x: Elt| #[trigger] rn.elems().contains(x) && x.coords()[target as int]
                    == rn.b@[target as int].0;
                assert(m.coords()[target as int] <= w.coords()[target as int]);
                assert forall|x: Elt| #[trigger] old_node.elems().contains(x) implies
                    m.coords()[target as int] <= x.coords()[target as int] by {
                    if !rn.elems().contains(x) {
                        if x == old_node.e {
                        } else {
                            assert(opt_elems(old_node.l).contains(x));
                            let ln = old_node.l.unwrap();
                            assert(covers_dim(ln.elems(), target as int, ln.b@[target as int].0, ln.b@[target as int].1));
                        }
                    }
                }
                assert forall|x: Elt| #[trigger] opt_elems(node.r).contains(x) implies
                    x.coords()[dim as int] >= node.e.coords()[dim as int] by {
                    assert(rn.elems().contains(x));
                }
                assert(node.inv(k, dim as int));
                assert(node.elems() =~= old_node.elems().remove(m));
            }
            (Some(node), m)
        } else {
            // this node holds the subtree's minimum on `target`
            proof {
                assert forall|x: Elt| #[trigger] old_node.elems().contains(x) implies
                    old_node.e.coords()[target as int] <= x.coords()[target as int] by {
                    if x != old_node.e {
                        if opt_elems(old_node.l).contains(x) {
                            let ln = old_node.l.unwrap();
                            assert(covers_dim(ln.elems(), target as int, ln.b@[target as int].0, ln.b@[target as int].1));
                        } else {
                            assert(opt_elems(old_node.r).contains(x));
                            let rn = old_node.r.unwrap();
                            assert(covers_dim(rn.elems(), target as int, rn.b@[target as int].0, rn.b@[target as int].1));
                        }
                    }
                }
            }
            let mut sub: Link<Elt> = Some(node);
            let r = Self::remove_link(&mut sub, dim, nb_dim);
            let e = r.unwrap();
            (sub, e)
        }
    }

    /// Removes from the subtree every element dominated by `elt`, cleaning
    /// the children before the node itself, and skipping subtrees whose
    /// cached bounds show that nothing below can be dominated.
    #[verifier::loop_isolation(false)]
    fn rec_remove_dominated_by(link: &mut Link<Elt>, elt: &Elt, dim: usize, nb_dim: usize)
        requires
            opt_inv(*old(link), nb_dim as nat, dim as int),
            elt.coords().len() == nb_dim,
            dim < nb_dim,
        ensures
            opt_inv(*final(link), nb_dim as nat, dim as int),
            opt_elems(*final(link)) == opt_elems(*old(link)).filter(
                |x: Elt| !dominates_spec(elt.coords(), x.coords()),
            ),
        decreases opt_size(*old(link)),
    {
        let ghost k = nb_dim as nat;
        let ghost nd_g = next_dim(dim as int, k);
        let ghost pred = |x: Elt| !dominates_spec(elt.coords(), x.coords());
        let nd: usize = if dim + 1 < nb_dim {
            dim + 1
        } else {
            0
        };
        match link.take() {
            None => {
                proof {
                    assert(opt_elems(*final(link)) =~= opt_elems(*old(link)).filter(pred));
                }
            }
            Some(mut node) => {
                proof {
                    assert(node.inv(k, dim as int));
                    if node.l is Some {
                        assert(node.l.unwrap().inv(k, nd_g));
                    }
                    if node.r is Some {
                        assert(node.r.unwrap().inv(k, nd_g));
                    }
                }
                let ghost old_node = *node;
                // if the element is above the subtree's maximum on some
                // dimension, nothing below this node is dominated by it
                let mut i: usize = 0;
                while i < nb_dim
                    invariant
                        i <= nb_dim,
                    decreases nb_dim - i,
                {
                    if elt.kth(i) > node.b[i].1 {
                        proof {
                            assert forall|x: Elt| #[trigger] node.elems().contains(x) implies pred(
                                x,
                            ) by {
                                assert(covers_dim(
                                    node.elems(),
                                    i as int,
                                    node.b@[i as int].0,
                                    node.b@[i as int].1,
                                ));
                                assert(x.coords()[i as int] < elt.coords()[i as int]);
                            }
                            assert forall|v: Elt| true implies #[trigger] node.elems().filter(
                                pred,
                            ).count(v) == node.elems().count(v) by {
                                if node.elems().count(v) > 0 {
                                    assert(node.elems().contains(v));
                                    assert(pred(v));
                                }
                            }
                            assert(node.elems().filter(pred) =~= node.elems());
                        }
                        *link = Some(node);
                        return ;
                    }
                    i = i + 1;
                }
                Self::rec_remove_dominated_by(&mut node.l, elt, nd, nb_dim);
                Self::rec_remove_dominated_by(&mut node.r, elt, nd, nb_dim);
                proof {
                    lemma_inv_bok(node.l, k, nd_g);
                    lemma_inv_bok(node.r, k, nd_g);
                    assert forall|x: Elt| #[trigger] opt_elems(node.l).contains(x) implies
                        x.coords()[dim as int] < node.e.coords()[dim as int] by {
                        assert(opt_elems(old_node.l).contains(x));
                    }
                    assert forall|x: Elt| #[trigger] opt_elems(node.r).contains(x) implies
                        x.coords()[dim as int] >= node.e.coords()[dim as int] by {
                        assert(opt_elems(old_node.r).contains(x));
                    }
                }
                node.update_bounds();
                proof {
                    assert(node.inv(k, dim as int));
                }
                if elt.dominates(&node.e) {
                    let ghost nval = *node;
                    let mut sub: Link<Elt> = Some(node);
                    let _removed = Self::remove_link(&mut sub, dim, nb_dim);
                    *link = sub;
                    proof {
                        assert(opt_elems(*final(link)) == nval.elems().remove(nval.e));
                        assert(opt_elems(*final(link)) =~= opt_elems(*old(link)).filter(pred));
                    }
                } else {
                    *link = Some(node);
                    proof {
                        assert(opt_elems(*final(link)) =~= opt_elems(*old(link)).filter(pred));
                    }
                }
            }
        }
    }

    /// Recursive removal of an element carrying the given coordinate vector.
    fn remove_from(link: &mut Link<Elt>, elt: &Elt, dim: usize, nb_dim: usize) -> (r: Option<Elt>)
        requires
            opt_inv(*old(link), nb_dim as nat, dim as int),
            elt.coords().len() == nb_dim,
            dim < nb_dim,
        ensures
            opt_inv(*final(link), nb_dim as nat, dim as int),
            match r {
                Some(x) => {
                    &&& opt_elems(*old(link)).contains(x)
                    &&& x.coords() == elt.coords()
                    &&& opt_elems(*final(link)) == opt_elems(*old(link)).remove(x)
                },
                None => opt_elems(*final(link)) == opt_elems(*old(link)) && (forall|y: Elt|
                    #[trigger] opt_elems(*old(link)).contains(y) ==> y.coords() != elt.coords()),
            },
        decreases opt_size(*old(link)),
    {
        let ghost k = nb_dim as nat;
        let ghost nd_g = next_dim(dim as int, k);
        let nd: usize = if dim + 1 < nb_dim {
            dim + 1
        } else {
            0
        };
        match link.take() {
            None => {
                proof {
                    assert(opt_elems(*final(link)) =~= opt_elems(*old(link)));
                }
                None
            }
            Some(mut node) => {
                proof {
                    assert(node.inv(k, dim as int));
                    if node.l is Some {
                        assert(node.l.unwrap().inv(k, nd_g));
                    }
                    if node.r is Some {
                        assert(node.r.unwrap().inv(k, nd_g));
                    }
                }
                let ghost old_node = *node;
                if node.e.eq_elt(elt) {
                    let ghost e0 = node.e;
                    let mut sub: Link<Elt> = Some(node);
                    let r = Self::remove_link(&mut sub, dim, nb_dim);
                    *link = sub;
                    proof {
                        assert(old_node.elems().contains(e0));
                    }
                    r
                } else if elt.kth(dim) < node.e.kth(dim) {
                    let r = Self::remove_from(&mut node.l, elt, nd, nb_dim);
                    proof {
                        lemma_inv_bok(node.l, k, nd_g);
                        lemma_inv_bok(node.r, k, nd_g);
                        assert forall|x: Elt| #[trigger] opt_elems(node.l).contains(x) implies
                            x.coords()[dim as int] < node.e.coords()[dim as int] by {
                            if r is Some {
                                assert(opt_elems(old_node.l).contains(x));
                            }
                        }
                    }
                    node.update_bounds();
                    *link = Some(node);
                    proof {
                        if r is Some {
                            let x = r.unwrap();
                            assert(opt_elems(*final(link)) =~= opt_elems(*old(link)).remove(x));
                        } else {
                            assert(opt_elems(*final(link)) =~= opt_elems(*old(link)));
                            assert forall|y: Elt| #[trigger] opt_elems(*old(link)).contains(
                                y,
                            ) implies y.coords() != elt.coords() by {
                                if y != old_node.e && !opt_elems(old_node.l).contains(y) {
                                    assert(opt_elems(old_node.r).contains(y));
                                    assert(y.coords()[dim as int] >= old_node.e.coords()[dim as int]);
                                }
                            }
                        }
                    }
                    r
                } else {
                    let r = Self::remove_from(&mut node.r, elt, nd, nb_dim);
                    proof {
                        lemma_inv_bok(node.l, k, nd_g);
                        lemma_inv_bok(node.r, k, nd_g);
                        assert forall|x: Elt| #[trigger] opt_elems(node.r).contains(x) implies
                            x.coords()[dim as int] >= node.e.coords()[dim as int] by {
                            if r is Some {
                                assert(opt_elems(old_node.r).contains(x));
                            }
                        }
                    }
                    node.update_bounds();
                    *link = Some(node);
                    proof {
                        if r is Some {
                            let x = r.unwrap();
                            assert(opt_elems(*final(link)) =~= opt_elems(*old(link)).remove(x));
                        } else {
                            assert(opt_elems(*final(link)) =~= opt_elems(*old(link)));
                            assert forall|y: Elt| #[trigger] opt_elems(*old(link)).contains(
                                y,
                            ) implies y.coords() != elt.coords() by {
                                if y != old_node.e && !opt_elems(old_node.r).contains(y) {
                                    assert(opt_elems(old_node.l).contains(y));
                                    assert(y.coords()[dim as int] < old_node.e.coords()[dim as int]);
                                }
                            }
                        }
                    }
                    r
                }
            }
        }
    }

    /// Removes and returns the element carrying the given coordinate vector,
    /// or `None` if no such element is present.
    pub fn remove_and_return(&mut self, elt: &Elt) -> (r: Option<Elt>)
        requires
            old(self).inv(),
            old(self).compat(elt.coords().len()),
        ensures
            final(self).inv(),
            forall|k: nat| #[trigger] old(self).compat(k) ==> final(self).compat(k),
            match r {
                Some(x) => {
                    &&& old(self).contents().contains(x)
                    &&& x.coords() == elt.coords()
                    &&& final(self).contents() == old(self).contents().remove(x)
                },
                None => final(self).contents() == old(self).contents() && (forall|y: Elt|
                    #[trigger] old(self).contents().contains(y) ==> y.coords() != elt.coords()),
            },
    {
        let nb_dim: usize = self.nb_dim;
        Self::remove_from(&mut self.root, elt, 0, nb_dim)
    }

}

impl<Elt: ParetoElement> ParetoFront<Elt> for KDTreeFront<Elt> {
    closed spec fn inv(&self) -> bool {
        self.nb_dim >= 1 && opt_inv(self.root, self.nb_dim as nat, 0)
    }

    closed spec fn contents(&self) -> Multiset<Elt> {
        opt_elems(self.root)
    }

    closed spec fn compat(&self, k: nat) -> bool {
        k == self.nb_dim
    }

    fn pop_minimum_element(&mut self, dim: usize) -> (r: Option<Elt>) {
        proof {
            let k0 = choose|kk: nat| old(self).compat(kk) && dim < kk;
            assert(old(self).compat(k0));
        }
        let nb_dim: usize = self.nb_dim;
        match self.root.take() {
            None => {
                proof {
                    assert(self.contents() =~= old(self).contents());
                    assert(old(self).contents() =~= Multiset::<Elt>::empty());
                }
                None
            }
            Some(node) => {
                let (sub, m) = Self::remove_minimum(node, 0, dim, nb_dim);
                self.root = sub;
                Some(m)
            }
        }
    }

    fn peek_minimum_element(&self, dim: usize) -> (r: Option<&Elt>) {
        proof {
            let k0 = choose|kk: nat| self.compat(kk) && dim < kk;
            assert(self.compat(k0));
        }
        let r = Self::rec_search_minimum(&self.root, dim, self.nb_dim, Ghost(0));
        proof {
            if r is None {
                assert(self.contents() =~= Multiset::<Elt>::empty());
            }
        }
        r
    }

    fn peek_minimum_coordinate(&self, dim: usize) -> (r: Option<u16>) {
        match self.peek_minimum_element(dim) {
            Some(e) => Some(e.kth(dim)),
            None => None,
        }
    }

    fn find_dominating(&self, elt: &Elt) -> (r: Option<&Elt>) {
        Self::rec_exists_dominating(&self.root, elt, Ghost(0), self.nb_dim)
    }

    fn insert(&mut self, elt: Elt) -> (r: bool) {
        if self.find_dominating(&elt).is_some() {
            return false;
        }
        let ghost pre = *self;
        let ghost pred = |x: Elt| !dominates_spec(elt.coords(), x.coords());
        let nb_dim: usize = self.nb_dim;
        // evict every element dominated by the new element
        Self::rec_remove_dominated_by(&mut self.root, &elt, 0, nb_dim);
        // then attach it as a fresh leaf
        self.insert_without_check(elt);
        proof {
            assert(self.contents() == pre.contents().filter(pred).insert(elt));
            if antichain(pre.contents()) {
                lemma_insert_preserves_antichain(pre.contents(), self.contents(), elt);
            }
        }
        true
    }

    fn remove(&mut self, elt: &Elt) -> (r: bool) {
        match self.remove_and_return(elt) {
            Some(_e) => true,
            None => false,
        }
    }
}

} // verus!
