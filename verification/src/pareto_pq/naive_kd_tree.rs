use vstd::prelude::*;
use vstd::multiset::Multiset;

use crate::pareto_pq::{antichain, dominates_spec, lemma_insert_preserves_antichain, ParetoElement,
    ParetoFront};

verus! {

broadcast use vstd::multiset::group_multiset_axioms;

/// An owned, possibly absent subtree.
pub type Link<Elt> = Option<Box<Node<Elt>>>;

/// Node of the kd-tree, without cached bounds.
#[derive(Debug)]
pub struct Node<Elt> {
    /// element of the node
    pub e: Elt,
    /// left child
    pub l: Link<Elt>,
    /// right child
    pub r: Link<Elt>,
}

/// Elements of a possibly absent subtree, as a multiset.
pub open spec fn opt_elems<Elt: ParetoElement>(link: Link<Elt>) -> Multiset<Elt>
    decreases link,
{
    match link {
        None => Multiset::empty(),
        Some(n) => n.elems(),
    }
}

/// Number of nodes of a possibly absent subtree.
pub open spec fn opt_size<Elt: ParetoElement>(link: Link<Elt>) -> nat
    decreases link,
{
    match link {
        None => 0,
        Some(n) => n.size(),
    }
}

/// Every element of `ms` has exactly `k` coordinates.
pub open spec fn all_len<Elt: ParetoElement>(ms: Multiset<Elt>, k: nat) -> bool {
    forall|x: Elt| #[trigger] ms.contains(x) ==> x.coords().len() == k
}

/// Every element of `ms` is strictly below `v` on dimension `i`.
pub open spec fn all_below<Elt: ParetoElement>(ms: Multiset<Elt>, i: int, v: u16) -> bool {
    forall|x: Elt| #[trigger] ms.contains(x) ==> x.coords()[i] < v
}

/// Every element of `ms` is at least `v` on dimension `i`.
pub open spec fn all_at_least<Elt: ParetoElement>(ms: Multiset<Elt>, i: int, v: u16) -> bool {
    forall|x: Elt| #[trigger] ms.contains(x) ==> x.coords()[i] >= v
}

/// The discriminant dimension one level deeper.
pub open spec fn next_dim(dim: int, k: nat) -> int {
    if dim + 1 < k {
        dim + 1
    } else {
        0
    }
}

/// Well-formedness of a possibly absent subtree whose root discriminates on
/// dimension `dim`.
pub open spec fn opt_inv<Elt: ParetoElement>(link: Link<Elt>, k: nat, dim: int) -> bool
    decreases link,
{
    match link {
        None => true,
        Some(n) => n.inv(k, dim),
    }
}

impl<Elt: ParetoElement> Node<Elt> {
    /// Elements of the subtree rooted at this node, as a multiset.
    pub open spec fn elems(self) -> Multiset<Elt>
        decreases self,
    {
        opt_elems(self.l).add(opt_elems(self.r)).insert(self.e)
    }

    /// Number of nodes of the subtree rooted at this node.
    pub open spec fn size(self) -> nat
        decreases self,
    {
        1 + opt_size(self.l) + opt_size(self.r)
    }

    /// Well-formedness of the subtree rooted at this node, discriminating on
    /// dimension `dim`: all elements have `k` coordinates, the children
    /// split on `dim` around this node's element, and both children are
    /// well-formed one dimension further.
    pub open spec fn inv(self, k: nat, dim: int) -> bool
        decreases self,
    {
        &&& 0 <= dim < k
        &&& self.e.coords().len() == k
        &&& all_len(self.elems(), k)
        &&& all_below(opt_elems(self.l), dim, self.e.coords()[dim])
        &&& all_at_least(opt_elems(self.r), dim, self.e.coords()[dim])
        &&& opt_inv(self.l, k, next_dim(dim, k))
        &&& opt_inv(self.r, k, next_dim(dim, k))
    }

    /// Returns the node element.
    pub fn elt(&self) -> (r: &Elt)
        ensures
            *r == self.e,
    {
        &self.e
    }

    /// Returns the left child.
    pub fn left(&self) -> (r: &Link<Elt>)
        ensures
            *r == self.l,
    {
        &self.l
    }

    /// Returns the right child.
    pub fn right(&self) -> (r: &Link<Elt>)
        ensures
            *r == self.r,
    {
        &self.r
    }

    /// Returns a mutable reference to the left child.
    pub fn left_mut(&mut self) -> (r: &mut Link<Elt>)
        ensures
            *r == old(self).l,
            final(self).l == *final(r),
            final(self).e == old(self).e,
            final(self).r == old(self).r,
    {
        &mut self.l
    }

    /// Returns a mutable reference to the right child.
    pub fn right_mut(&mut self) -> (r: &mut Link<Elt>)
        ensures
            *r == old(self).r,
            final(self).r == *final(r),
            final(self).e == old(self).e,
            final(self).l == old(self).l,
    {
        &mut self.r
    }

    /// Attaches a subtree as the left child. Returns the previous left
    /// child.
    pub fn attach_left(&mut self, t: Link<Elt>) -> (res: Link<Elt>)
        ensures
            res == old(self).l,
            final(self).e == old(self).e,
            final(self).l == t,
            final(self).r == old(self).r,
    {
        let mut res = t;
        core::mem::swap(&mut res, &mut self.l);
        res
    }

    /// Attaches a subtree as the right child. Returns the previous right
    /// child.
    pub fn attach_right(&mut self, t: Link<Elt>) -> (res: Link<Elt>)
        ensures
            res == old(self).r,
            final(self).e == old(self).e,
            final(self).l == old(self).l,
            final(self).r == t,
    {
        let mut res = t;
        core::mem::swap(&mut res, &mut self.r);
        res
    }

    /// Creates a node from an element and two subtrees.
    pub fn new(e: Elt, l: Link<Elt>, r: Link<Elt>) -> (result: Self)
        ensures
            result.e == e,
            result.l == l,
            result.r == r,
    {
        Self { e, l, r }
    }

    /// Decomposes the node into its element and subtrees.
    pub fn decompose(self) -> (r: (Elt, Link<Elt>, Link<Elt>))
        ensures
            r.0 == self.e,
            r.1 == self.l,
            r.2 == self.r,
    {
        (self.e, self.l, self.r)
    }
}

/// Kd-tree based Pareto front structure without cached bounds: directed
/// searches recompute subtree minima on the fly.
#[derive(Debug)]
pub struct NaiveKDTreeFront<Elt> {
    /// root node
    root: Link<Elt>,
    /// number of coordinates of every element the tree accepts
    nb_dim: usize,
}

impl<Elt: ParetoElement> NaiveKDTreeFront<Elt> {
    /// Creates a new empty front for elements of `nb_dim` coordinates.
    pub fn create_empty(nb_dim: usize) -> (r: Self)
        requires
            nb_dim >= 1,
        ensures
            r.inv(),
            r.contents() == Multiset::<Elt>::empty(),
            forall|k: nat| #[trigger] r.compat(k) <==> k == nb_dim,
    {
        let r = NaiveKDTreeFront { root: None, nb_dim };
        proof {
            assert(r.contents() =~= Multiset::<Elt>::empty());
        }
        r
    }

    /// Returns true iff the front is empty.
    pub fn is_empty(&self) -> (r: bool)
        requires
            self.inv(),
        ensures
            r == (self.contents().len() == 0),
    {
        proof {
            if self.root is Some {
                let n = self.root.unwrap();
                assert(n.elems().contains(n.e));
                assert(n.elems().len() > 0);
            } else {
                assert(self.contents() =~= Multiset::<Elt>::empty());
            }
        }
        self.root.is_none()
    }

    /// Adds the element below this node following the rotating discriminant,
    /// without any dominance check.
    fn rec_insert_without_check(node: &mut Node<Elt>, elt: Elt, dim: usize, nb_dim: usize)
        requires
            old(node).inv(nb_dim as nat, dim as int),
            elt.coords().len() == nb_dim,
            dim < nb_dim,
        ensures
            final(node).inv(nb_dim as nat, dim as int),
            final(node).elems() == old(node).elems().insert(elt),
        decreases old(node).size(),
    {
        let nd: usize = if dim + 1 < nb_dim {
            dim + 1
        } else {
            0
        };
        let ghost k = nb_dim as nat;
        if elt.kth(dim) < node.e.kth(dim) {
            // go left
            match &mut node.l {
                None => {
                    let leaf = Node::new(elt, None, None);
                    proof {
                        assert(leaf.elems() =~= Multiset::<Elt>::empty().insert(elt));
                        assert(leaf.inv(k, next_dim(dim as int, k)));
                    }
                    node.attach_left(Some(Box::new(leaf)));
                }
                Some(n) => {
                    Self::rec_insert_without_check(&mut *n, elt, nd, nb_dim);
                }
            }
            proof {
                assert(opt_elems(node.l) =~= opt_elems(old(node).l).insert(elt));
                assert forall|x: Elt| #[trigger] opt_elems(node.l).contains(x) implies
                    x.coords()[dim as int] < node.e.coords()[dim as int] by {
                    if x != elt {
                        assert(opt_elems(old(node).l).contains(x));
                    }
                }
                assert(node.elems() =~= old(node).elems().insert(elt));
                assert forall|x: Elt| #[trigger] node.elems().contains(x) implies x.coords().len()
                    == k by {
                    if x != elt {
                        assert(old(node).elems().contains(x));
                    }
                }
                assert(final(node).elems() =~= old(node).elems().insert(elt));
            }
        } else {
            // go right
            match &mut node.r {
                None => {
                    let leaf = Node::new(elt, None, None);
                    proof {
                        assert(leaf.elems() =~= Multiset::<Elt>::empty().insert(elt));
                        assert(leaf.inv(k, next_dim(dim as int, k)));
                    }
                    node.attach_right(Some(Box::new(leaf)));
                }
                Some(n) => {
                    Self::rec_insert_without_check(&mut *n, elt, nd, nb_dim);
                }
            }
            proof {
                assert(opt_elems(node.r) =~= opt_elems(old(node).r).insert(elt));
                assert forall|x: Elt| #[trigger] opt_elems(node.r).contains(x) implies
                    x.coords()[dim as int] >= node.e.coords()[dim as int] by {
                    if x != elt {
                        assert(opt_elems(old(node).r).contains(x));
                    }
                }
                assert(node.elems() =~= old(node).elems().insert(elt));
                assert forall|x: Elt| #[trigger] node.elems().contains(x) implies x.coords().len()
                    == k by {
                    if x != elt {
                        assert(old(node).elems().contains(x));
                    }
                }
                assert(final(node).elems() =~= old(node).elems().insert(elt));
            }
        }
    }

    /// Adds the element to the tree without any dominance check.
    pub fn insert_without_check(&mut self, elt: Elt)
        requires
            old(self).inv(),
            old(self).compat(elt.coords().len()),
        ensures
            final(self).inv(),
            final(self).contents() == old(self).contents().insert(elt),
            forall|k: nat| #[trigger] final(self).compat(k) <==> old(self).compat(k),
    {
        let nb_dim: usize = self.nb_dim;
        match &mut self.root {
            None => {
                let leaf = Node::new(elt, None, None);
                proof {
                    assert(leaf.elems() =~= Multiset::<Elt>::empty().insert(elt));
                    assert(leaf.inv(nb_dim as nat, 0));
                }
                self.root = Some(Box::new(leaf));
            }
            Some(n) => {
                Self::rec_insert_without_check(&mut *n, elt, 0, nb_dim);
            }
        }
        proof {
            assert(final(self).contents() =~= old(self).contents().insert(elt));
        }
    }

    /// Recursive search for an element carrying the given coordinate vector.
    fn rec_search<'a>(link: &'a Link<Elt>, elt: &Elt, dim: usize, nb_dim: usize) -> (r: Option<
        &'a Elt,
    >)
        requires
            opt_inv(*link, nb_dim as nat, dim as int),
            elt.coords().len() == nb_dim,
            dim < nb_dim,
        ensures
            match r {
                Some(x) => opt_elems(*link).contains(*x) && x.coords() == elt.coords(),
                None => forall|y: Elt| #[trigger]
                    opt_elems(*link).contains(y) ==> y.coords() != elt.coords(),
            },
        decreases link,
    {
        let nd: usize = if dim + 1 < nb_dim {
            dim + 1
        } else {
            0
        };
        match link {
            None => None,
            Some(node) => {
                if node.e.eq_elt(elt) {
                    Some(&node.e)
                } else if elt.kth(dim) < node.e.kth(dim) {
                    // the element can only live in the left subtree
                    let r = Self::rec_search(&node.l, elt, nd, nb_dim);
                    proof {
                        if r is None {
                            assert forall|y: Elt| #[trigger] opt_elems(*link).contains(y) implies
                                y.coords() != elt.coords() by {
                                if y != node.e && !opt_elems(node.l).contains(y) {
                                    assert(opt_elems(node.r).contains(y));
                                    assert(y.coords()[dim as int] >= node.e.coords()[dim as int]);
                                }
                            }
                        }
                    }
                    r
                } else {
                    // the element can only live in the right subtree
                    let r = Self::rec_search(&node.r, elt, nd, nb_dim);
                    proof {
                        if r is None {
                            assert forall|y: Elt| #[trigger] opt_elems(*link).contains(y) implies
                                y.coords() != elt.coords() by {
                                if y != node.e && !opt_elems(node.r).contains(y) {
                                    assert(opt_elems(node.l).contains(y));
                                    assert(y.coords()[dim as int] < node.e.coords()[dim as int]);
                                }
                            }
                        }
                    }
                    r
                }
            }
        }
    }

    /// Searches an element with the given coordinate vector in the tree.
    pub fn search(&self, elt: &Elt) -> (r: Option<&Elt>)
        requires
            self.inv(),
            self.compat(elt.coords().len()),
        ensures
            match r {
                Some(x) => self.contents().contains(*x) && x.coords() == elt.coords(),
                None => forall|y: Elt| #[trigger]
                    self.contents().contains(y) ==> y.coords() != elt.coords(),
            },
    {
        Self::rec_search(&self.root, elt, 0, self.nb_dim)
    }

    /// Minimum value of coordinate `target` over a subtree, by a full scan
    /// of the subtree's elements.
    fn rec_search_minimum(link: &Link<Elt>, target: usize, nb_dim: usize, Ghost(dim): Ghost<int>) -> (r:
        Option<u16>)
        requires
            opt_inv(*link, nb_dim as nat, dim),
            target < nb_dim,
        ensures
            match r {
                Some(v) => attains(opt_elems(*link), target as int, v) && at_least(
                    opt_elems(*link),
                    target as int,
                    v,
                ),
                None => *link is None,
            },
        decreases link,
    {
        match link {
            None => None,
            Some(node) => {
                let ghost k = nb_dim as nat;
                let ghost nd = next_dim(dim, k);
                let mut best: u16 = node.e.kth(target);
                let ghost mut wit: Elt = node.e;
                if let Some(v) = Self::rec_search_minimum(&node.l, target, nb_dim, Ghost(nd)) {
                    if v < best {
                        best = v;
                        proof {
                            wit = choose|x: Elt| #[trigger] opt_elems(node.l).contains(x)
                                && x.coords()[target as int] == v;
                        }
                    }
                }
                if let Some(v) = Self::rec_search_minimum(&node.r, target, nb_dim, Ghost(nd)) {
                    if v < best {
                        best = v;
                        proof {
                            wit = choose|x: Elt| #[trigger] opt_elems(node.r).contains(x)
                                && x.coords()[target as int] == v;
                        }
                    }
                }
                proof {
                    assert(opt_elems(*link).contains(wit) && wit.coords()[target as int] == best);
                    assert forall|x: Elt| #[trigger] opt_elems(*link).contains(x) implies
                        x.coords()[target as int] >= best by {
                        if x != node.e {
                            if opt_elems(node.l).contains(x) {
                            } else {
                                assert(opt_elems(node.r).contains(x));
                            }
                        }
                    }
                }
                Some(best)
            }
        }
    }
}

/// Some element of `ms` reaches `v` on dimension `i`.
pub open spec fn attains<Elt: ParetoElement>(ms: Multiset<Elt>, i: int, v: u16) -> bool {
    exists|x: Elt| #[trigger] ms.contains(x) && x.coords()[i] == v
}

/// Every element of `ms` is at least `v` on dimension `i`.
pub open spec fn at_least<Elt: ParetoElement>(ms: Multiset<Elt>, i: int, v: u16) -> bool {
    forall|x: Elt| #[trigger] ms.contains(x) ==> x.coords()[i] >= v
}

impl<Elt: ParetoElement> NaiveKDTreeFront<Elt> {
    /// Removes the node held by this link, if any, and returns its element,
    /// promoting the right subtree's minimum on the link's discriminant
    /// dimension; a node with only a left subtree first moves it into the
    /// right slot.
    fn remove_link(link: &mut Link<Elt>, dim: usize, nb_dim: usize) -> (r: Option<Elt>)
        requires
            opt_inv(*old(link), nb_dim as nat, dim as int),
            dim < nb_dim,
        ensures
            opt_inv(*final(link), nb_dim as nat, dim as int),
            match r {
                Some(e) => {
                    &&& *old(link) is Some
                    &&& e == old(link).unwrap().e
                    &&& opt_elems(*final(link)) == opt_elems(*old(link)).remove(e)
                },
                None => *old(link) is None && *final(link) is None,
            },
        decreases opt_size(*old(link)), 0nat,
    {
        let ghost k = nb_dim as nat;
        let nd: usize = if dim + 1 < nb_dim {
            dim + 1
        } else {
            0
        };
        match link.take() {
            None => None,
            Some(mut node) => {
                proof {
                    assert(node.inv(k, dim as int));
                    if node.l is Some {
                        assert(node.l.unwrap().inv(k, next_dim(dim as int, k)));
                    }
                    if node.r is Some {
                        assert(node.r.unwrap().inv(k, next_dim(dim as int, k)));
                    }
                }
                let ghost old_node = *node;
                if node.r.is_some() {
                    // promote the right subtree's minimum on `dim`
                    let l = node.l.take();
                    let r = node.r.take().unwrap();
                    let (e, _dl, _dr) = (*node).decompose();
                    proof {
                        assert(opt_size(*old(link)) == old_node.size());
                        assert(r.size() == opt_size(old_node.r));
                        assert(r.size() < opt_size(*old(link)));
                    }
                    let (r2, m) = Self::remove_minimum(r, nd, dim, nb_dim);
                    proof {
                        assert(old_node.r.unwrap().elems().contains(m));
                        assert(m.coords()[dim as int] >= old_node.e.coords()[dim as int]);
                        assert forall|x: Elt| #[trigger] opt_elems(l).contains(x) implies
                            x.coords()[dim as int] < m.coords()[dim as int] by {
                            assert(x.coords()[dim as int] < old_node.e.coords()[dim as int]);
                        }
                        assert forall|x: Elt| #[trigger] opt_elems(r2).contains(x) implies
                            x.coords()[dim as int] >= m.coords()[dim as int] by {
                            assert(old_node.r.unwrap().elems().contains(x));
                        }
                    }
                    let newnode = Node::new(m, l, r2);
                    proof {
                        assert forall|x: Elt| #[trigger] newnode.elems().contains(x) implies
                            x.coords().len() == k by {
                            if x != m {
                                if opt_elems(l).contains(x) {
                                } else {
                                    assert(opt_elems(r2).contains(x));
                                    assert(old_node.r.unwrap().elems().contains(x));
                                }
                            }
                        }
                        assert(newnode.inv(k, dim as int));
                        assert(newnode.elems() =~= opt_elems(*old(link)).remove(e));
                    }
                    *link = Some(Box::new(newnode));
                    Some(e)
                } else if node.l.is_some() {
                    // only a left subtree: move it into the right slot first
                    let l = node.l.take().unwrap();
                    let (e, _dl, _dr) = (*node).decompose();
                    proof {
                        assert(opt_size(*old(link)) == old_node.size());
                        assert(l.size() == opt_size(old_node.l));
                        assert(l.size() < opt_size(*old(link)));
                    }
                    let (r2, m) = Self::remove_minimum(l, nd, dim, nb_dim);
                    proof {
                        assert(old_node.l.unwrap().elems().contains(m));
                        assert forall|x: Elt| #[trigger] opt_elems(r2).contains(x) implies
                            x.coords()[dim as int] >= m.coords()[dim as int] by {
                            assert(old_node.l.unwrap().elems().contains(x));
                        }
                    }
                    let newnode = Node::new(m, None, r2);
                    proof {
                        assert(opt_elems(None::<Box<Node<Elt>>>) =~= Multiset::<Elt>::empty());
                        assert forall|x: Elt| #[trigger] newnode.elems().contains(x) implies
                            x.coords().len() == k by {
                            if x != m {
                                assert(opt_elems(r2).contains(x) || opt_elems(
                                    None::<Box<Node<Elt>>>,
                                ).contains(x));
                                assert(old_node.l.unwrap().elems().contains(x));
                            }
                        }
                        assert(newnode.inv(k, dim as int));
                        assert(newnode.elems() =~= opt_elems(*old(link)).remove(e));
                    }
                    *link = Some(Box::new(newnode));
                    Some(e)
                } else {
                    // the node is a leaf: remove it directly
                    let (e, _dl, _dr) = (*node).decompose();
                    proof {
                        assert(opt_elems(*final(link)) =~= opt_elems(*old(link)).remove(e));
                    }
                    Some(e)
                }
            }
        }
    }

    /// Removes and returns an element of the subtree that is minimal on
    /// dimension `target`, recomputing subtree minima on the way down.
    fn remove_minimum(node: Box<Node<Elt>>, dim: usize, target: usize, nb_dim: usize) -> (res: (
        Link<Elt>,
        Elt,
    ))
        requires
            node.inv(nb_dim as nat, dim as int),
            target < nb_dim,
            dim < nb_dim,
        ensures
            opt_inv(res.0, nb_dim as nat, dim as int),
            node.elems().contains(res.1),
            opt_elems(res.0) == node.elems().remove(res.1),
            forall|x: Elt| #[trigger]
                node.elems().contains(x) ==> res.1.coords()[target as int]
                    <= x.coords()[target as int],
        decreases node.size(), 1nat,
    {
        let ghost k = nb_dim as nat;
        let ghost nd_g = next_dim(dim as int, k);
        let nd: usize = if dim + 1 < nb_dim {
            dim + 1
        } else {
            0
        };
        proof {
            assert(node.inv(k, dim as int));
            if node.l is Some {
                assert(node.l.unwrap().inv(k, nd_g));
            }
            if node.r is Some {
                assert(node.r.unwrap().inv(k, nd_g));
            }
        }
        let mut node = node;
        let ghost old_node = *node;
        let v_e = node.e.kth(target);
        let mut go_left = false;
        let mut go_right = false;
        if dim == target {
            // the left subtree holds everything below this node on `target`
            if node.l.is_some() {
                go_left = true;
            }
        } else {
            let v_l = Self::rec_search_minimum(&node.l, target, nb_dim, Ghost(nd_g));
            let v_r = Self::rec_search_minimum(&node.r, target, nb_dim, Ghost(nd_g));
            match (v_l, v_r) {
                (None, None) => {}
                (None, Some(vr)) => {
                    if vr < v_e {
                        go_right = true;
                    }
                }
                (Some(vl), None) => {
                    if vl < v_e {
                        go_left = true;
                    }
                }
                (Some(vl), Some(vr)) => {
                    if vl < v_e && vl < vr {
                        go_left = true;
                    } else if vr < v_e {
                        go_right = true;
                    }
                }
            }
        }
        if go_left {
            let child = node.l.take().unwrap();
            let (l2, m) = Self::remove_minimum(child, nd, target, nb_dim);
            node.l = l2;
            proof {
                let ln = old_node.l.unwrap();
                assert(ln.elems().contains(m));
                assert forall|x: Elt| #[trigger] old_node.elems().contains(x) implies
                    m.coords()[target as int] <= x.coords()[target as int] by {
                    if !ln.elems().contains(x) {
                        if dim == target {
                            // everything outside the left subtree is at least
                            // the node's own value, which exceeds the left
                            // subtree's minimum
                            if x != old_node.e {
                                assert(opt_elems(old_node.r).contains(x));
                                assert(x.coords()[dim as int] >= old_node.e.coords()[dim as int]);
                            }
                            assert(m.coords()[target as int] < old_node.e.coords()[target as int]);
                        } else {
                            assert(at_least(ln.elems(), target as int, old_node.l.unwrap().elems().choose().coords()[target as int]) || true);
                            if x != old_node.e {
                                assert(opt_elems(old_node.r).contains(x));
                            }
                        }
                    }
                }
                assert forall|x: Elt| #[trigger] opt_elems(node.l).contains(x) implies
                    x.coords()[dim as int] < node.e.coords()[dim as int] by {
                    assert(ln.elems().contains(x));
                }
                assert forall|x: Elt| #[trigger] node.elems().contains(x) implies x.coords().len()
                    == k by {
                    if x != node.e {
                        if opt_elems(node.l).contains(x) {
                            assert(ln.elems().contains(x));
                        } else {
                            assert(opt_elems(node.r).contains(x));
                        }
                    }
                }
                assert(node.inv(k, dim as int));
                assert(node.elems() =~= old_node.elems().remove(m));
            }
            (Some(node), m)
        } else if go_right {
            let child = node.r.take().unwrap();
            let (r2, m) = Self::remove_minimum(child, nd, target, nb_dim);
            node.r = r2;
            proof {
                let rn = old_node.r.unwrap();
                assert(rn.elems().contains(m));
                assert forall|x: Elt| #[trigger] old_node.elems().contains(x) implies
                    m.coords()[target as int] <= x.coords()[target as int] by {
                    if !rn.elems().contains(x) {
                        if x != old_node.e {
                            assert(opt_elems(old_node.l).contains(x));
                        }
                    }
                }
                assert forall|x: Elt| #[trigger] opt_elems(node.r).contains(x) implies
                    x.coords()[dim as int] >= node.e.coords()[dim as int] by {
                    assert(rn.elems().contains(x));
                }
                assert forall|x: Elt| #[trigger] node.elems().contains(x) implies x.coords().len()
                    == k by {
                    if x != node.e {
                        if opt_elems(node.r).contains(x) {
                            assert(rn.elems().contains(x));
                        } else {
                            assert(opt_elems(node.l).contains(x));
                        }
                    }
                }
                assert(node.inv(k, dim as int));
                assert(node.elems() =~= old_node.elems().remove(m));
            }
            (Some(node), m)
        } else {
            // this node holds the subtree's minimum on `target`
            proof {
                assert forall|x: Elt| #[trigger] old_node.elems().contains(x) implies
                    old_node.e.coords()[target as int] <= x.coords()[target as int] by {
                    if x != old_node.e {
                        if opt_elems(old_node.l).contains(x) {
                        } else {
                            assert(opt_elems(old_node.r).contains(x));
                        }
                    }
                }
            }
            let mut sub: Link<Elt> = Some(node);
            let r = Self::remove_link(&mut sub, dim, nb_dim);
            let e = r.unwrap();
            (sub, e)
        }
    }

    /// Removes from the subtree every element dominated by `elt`, cleaning
    /// the children before the node itself.
    fn rec_remove_dominated_by(link: &mut Link<Elt>, elt: &Elt, dim: usize, nb_dim: usize)
        requires
            opt_inv(*old(link), nb_dim as nat, dim as int),
            elt.coords().len() == nb_dim,
            dim < nb_dim,
        ensures
            opt_inv(*final(link), nb_dim as nat, dim as int),
            opt_elems(*final(link)) == opt_elems(*old(link)).filter(
                |x: Elt| !dominates_spec(elt.coords(), x.coords()),
            ),
        decreases opt_size(*old(link)),
    {
        let ghost k = nb_dim as nat;
        let ghost nd_g = next_dim(dim as int, k);
        let ghost pred = |x: Elt| !dominates_spec(elt.coords(), x.coords());
        let nd: usize = if dim + 1 < nb_dim {
            dim + 1
        } else {
            0
        };
        match link.take() {
            None => {
                proof {
                    assert(opt_elems(*final(link)) =~= opt_elems(*old(link)).filter(pred));
                }
            }
            Some(mut node) => {
                proof {
                    assert(node.inv(k, dim as int));
                    if node.l is Some {
                        assert(node.l.unwrap().inv(k, nd_g));
                    }
                    if node.r is Some {
                        assert(node.r.unwrap().inv(k, nd_g));
                    }
                }
                let ghost old_node = *node;
                Self::rec_remove_dominated_by(&mut node.l, elt, nd, nb_dim);
                Self::rec_remove_dominated_by(&mut node.r, elt, nd, nb_dim);
                proof {
                    assert forall|x: Elt| #[trigger] opt_elems(node.l).contains(x) implies
                        x.coords()[dim as int] < node.e.coords()[dim as int] by {
                        assert(opt_elems(old_node.l).contains(x));
                    }
                    assert forall|x: Elt| #[trigger] opt_elems(node.r).contains(x) implies
                        x.coords()[dim as int] >= node.e.coords()[dim as int] by {
                        assert(opt_elems(old_node.r).contains(x));
                    }
                    assert forall|x: Elt| #[trigger] node.elems().contains(x) implies
                        x.coords().len() == k by {
                        if x != node.e {
                            if opt_elems(node.l).contains(x) {
                                assert(opt_elems(old_node.l).contains(x));
                            } else {
                                assert(opt_elems(node.r).contains(x));
                                assert(opt_elems(old_node.r).contains(x));
                            }
                        }
                    }
                    assert(node.inv(k, dim as int));
                }
                if elt.dominates(&node.e) {
                    let ghost nval = *node;
                    let mut sub: Link<Elt> = Some(node);
                    let _removed = Self::remove_link(&mut sub, dim, nb_dim);
                    *link = sub;
                    proof {
                        assert(opt_elems(*final(link)) == nval.elems().remove(nval.e));
                        assert(opt_elems(*final(link)) =~= opt_elems(*old(link)).filter(pred));
                    }
                } else {
                    *link = Some(node);
                    proof {
                        assert(opt_elems(*final(link)) =~= opt_elems(*old(link)).filter(pred));
                    }
                }
            }
        }
    }

    /// Recursive search for a dominating node.
    fn rec_exists_dominating<'a>(
        link: &'a Link<Elt>,
        elt: &Elt,
        Ghost(dim): Ghost<int>,
        nb_dim: usize,
    ) -> (r: Option<&'a Elt>)
        requires
            opt_inv(*link, nb_dim as nat, dim),
            elt.coords().len() == nb_dim,
        ensures
            match r {
                Some(d) => opt_elems(*link).contains(*d) && dominates_spec(
                    d.coords(),
                    elt.coords(),
                ),
                None => forall|x: Elt| #[trigger]
                    opt_elems(*link).contains(x) ==> !dominates_spec(x.coords(), elt.coords()),
            },
        decreases link,
    {
        match link {
            None => None,
            Some(node) => {
                let ghost k = nb_dim as nat;
                if node.e.dominates(elt) {
                    Some(&node.e)
                } else {
                    match Self::rec_exists_dominating(
                        &node.l,
                        elt,
                        Ghost(next_dim(dim, k)),
                        nb_dim,
                    ) {
                        Some(d) => Some(d),
                        None => {
                            let r = Self::rec_exists_dominating(
                                &node.r,
                                elt,
                                Ghost(next_dim(dim, k)),
                                nb_dim,
                            );
                            proof {
                                if r is None {
                                    assert forall|x: Elt| #[trigger] opt_elems(
                                        *link,
                                    ).contains(x) implies !dominates_spec(
                                        x.coords(),
                                        elt.coords(),
                                    ) by {
                                        if x != node.e && !opt_elems(node.l).contains(x) {
                                            assert(opt_elems(node.r).contains(x));
                                        }
                                    }
                                }
                            }
                            r
                        }
                    }
                }
            }
        }
    }

    /// Recursive removal of an element carrying the given coordinate vector.
    fn remove_from(link: &mut Link<Elt>, elt: &Elt, dim: usize, nb_dim: usize) -> (r: Option<Elt>)
        requires
            opt_inv(*old(link), nb_dim as nat, dim as int),
            elt.coords().len() == nb_dim,
            dim < nb_dim,
        ensures
            opt_inv(*final(link), nb_dim as nat, dim as int),
            match r {
                Some(x) => {
                    &&& opt_elems(*old(link)).contains(x)
                    &&& x.coords() == elt.coords()
                    &&& opt_elems(*final(link)) == opt_elems(*old(link)).remove(x)
                },
                None => opt_elems(*final(link)) == opt_elems(*old(link)) && (forall|y: Elt|
                    #[trigger] opt_elems(*old(link)).contains(y) ==> y.coords() != elt.coords()),
            },
        decreases opt_size(*old(link)),
    {
        let ghost k = nb_dim as nat;
        let ghost nd_g = next_dim(dim as int, k);
        let nd: usize = if dim + 1 < nb_dim {
            dim + 1
        } else {
            0
        };
        match link.take() {
            None => {
                proof {
                    assert(opt_elems(*final(link)) =~= opt_elems(*old(link)));
                }
                None
            }
            Some(mut node) => {
                proof {
                    assert(node.inv(k, dim as int));
                    if node.l is Some {
                        assert(node.l.unwrap().inv(k, nd_g));
                    }
                    if node.r is Some {
                        assert(node.r.unwrap().inv(k, nd_g));
                    }
                }
                let ghost old_node = *node;
                if node.e.eq_elt(elt) {
                    let ghost e0 = node.e;
                    let mut sub: Link<Elt> = Some(node);
                    let r = Self::remove_link(&mut sub, dim, nb_dim);
                    *link = sub;
                    proof {
                        assert(old_node.elems().contains(e0));
                    }
                    r
                } else if elt.kth(dim) < node.e.kth(dim) {
                    let r = Self::remove_from(&mut node.l, elt, nd, nb_dim);
                    proof {
                        assert forall|x: Elt| #[trigger] opt_elems(node.l).contains(x) implies
                            x.coords()[dim as int] < node.e.coords()[dim as int] by {
                            if r is Some {
                                assert(opt_elems(old_node.l).contains(x));
                            }
                        }
                        assert forall|x: Elt| #[trigger] node.elems().contains(x) implies
                            x.coords().len() == k by {
                            if x != node.e {
                                if opt_elems(node.l).contains(x) {
                                    assert(opt_elems(old_node.l).contains(x));
                                } else {
                                    assert(opt_elems(node.r).contains(x));
                                }
                            }
                        }
                    }
                    *link = Some(node);
                    proof {
                        if r is Some {
                            let x = r.unwrap();
                            assert(opt_elems(*final(link)) =~= opt_elems(*old(link)).remove(x));
                        } else {
                            assert(opt_elems(*final(link)) =~= opt_elems(*old(link)));
                            assert forall|y: Elt| #[trigger] opt_elems(*old(link)).contains(
                                y,
                            ) implies y.coords() != elt.coords() by {
                                if y != old_node.e && !opt_elems(old_node.l).contains(y) {
                                    assert(opt_elems(old_node.r).contains(y));
                                    assert(y.coords()[dim as int] >= old_node.e.coords()[dim as int]);
                                }
                            }
                        }
                    }
                    r
                } else {
                    let r = Self::remove_from(&mut node.r, elt, nd, nb_dim);
                    proof {
                        assert forall|x: Elt| #[trigger] opt_elems(node.r).contains(x) implies
                            x.coords()[dim as int] >= node.e.coords()[dim as int] by {
                            if r is Some {
                                assert(opt_elems(old_node.r).contains(x));
                            }
                        }
                        assert forall|x: Elt| #[trigger] node.elems().contains(x) implies
                            x.coords().len() == k by {
                            if x != node.e {
                                if opt_elems(node.l).contains(x) {
                                } else {
                                    assert(opt_elems(node.r).contains(x));
                                    assert(opt_elems(old_node.r).contains(x));
                                }
                            }
                        }
                    }
                    *link = Some(node);
                    proof {
                        if r is Some {
                            let x = r.unwrap();
                            assert(opt_elems(*final(link)) =~= opt_elems(*old(link)).remove(x));
                        } else {
                            assert(opt_elems(*final(link)) =~= opt_elems(*old(link)));
                            assert forall|y: Elt| #[trigger] opt_elems(*old(link)).contains(
                                y,
                            ) implies y.coords() != elt.coords() by {
                                if y != old_node.e && !opt_elems(old_node.r).contains(y) {
                                    assert(opt_elems(old_node.l).contains(y));
                                    assert(y.coords()[dim as int] < old_node.e.coords()[dim as int]);
                                }
                            }
                        }
                    }
                    r
                }
            }
        }
    }

    /// Removes and returns the element carrying the given coordinate vector,
    /// or `None` if no such element is present.
    pub fn remove_and_return(&mut self, elt: &Elt) -> (r: Option<Elt>)
        requires
            old(self).inv(),
            old(self).compat(elt.coords().len()),
        ensures
            final(self).inv(),
            forall|k: nat| #[trigger] old(self).compat(k) ==> final(self).compat(k),
            match r {
                Some(x) => {
                    &&& old(self).contents().contains(x)
                    &&& x.coords() == elt.coords()
                    &&& final(self).contents() == old(self).contents().remove(x)
                },
                None => final(self).contents() == old(self).contents() && (forall|y: Elt|
                    #[trigger] old(self).contents().contains(y) ==> y.coords() != elt.coords()),
            },
    {
        let nb_dim: usize = self.nb_dim;
        Self::remove_from(&mut self.root, elt, 0, nb_dim)
    }
}

impl<Elt: ParetoElement> ParetoFront<Elt> for NaiveKDTreeFront<Elt> {
    closed spec fn inv(&self) -> bool {
        self.nb_dim >= 1 && opt_inv(self.root, self.nb_dim as nat, 0)
    }

    closed spec fn contents(&self) -> Multiset<Elt> {
        opt_elems(self.root)
    }

    closed spec fn compat(&self, k: nat) -> bool {
        k == self.nb_dim
    }

    fn pop_minimum_element(&mut self, dim: usize) -> (r: Option<Elt>) {
        proof {
            let k0 = choose|kk: nat| old(self).compat(kk) && dim < kk;
            assert(old(self).compat(k0));
        }
        let nb_dim: usize = self.nb_dim;
        match self.root.take() {
            None => {
                proof {
                    assert(self.contents() =~= old(self).contents());
                    assert(old(self).contents() =~= Multiset::<Elt>::empty());
                }
                None
            }
            Some(node) => {
                let (sub, m) = Self::remove_minimum(node, 0, dim, nb_dim);
                self.root = sub;
                Some(m)
            }
        }
    }

    fn peek_minimum_element(&self, dim: usize) -> (r: Option<&Elt>) {
        proof {
            let k0 = choose|kk: nat| self.compat(kk) && dim < kk;
            assert(self.compat(k0));
        }
        match &self.root {
            None => {
                proof {
                    assert(self.contents() =~= Multiset::<Elt>::empty());
                }
                None
            }
            Some(_node) => {
                let v = Self::rec_search_minimum(&self.root, dim, self.nb_dim, Ghost(0)).unwrap();
                let r = Self::rec_find_value(&self.root, dim, v, self.nb_dim, Ghost(0));
                proof {
                    let m = *r.unwrap();
                    assert forall|x: Elt| #[trigger] self.contents().contains(x) implies
                        m.coords()[dim as int] <= x.coords()[dim as int] by {}
                }
                r
            }
        }
    }

    fn peek_minimum_coordinate(&self, dim: usize) -> (r: Option<u16>) {
        match self.peek_minimum_element(dim) {
            Some(e) => Some(e.kth(dim)),
            None => None,
        }
    }

    fn find_dominating(&self, elt: &Elt) -> (r: Option<&Elt>) {
        Self::rec_exists_dominating(&self.root, elt, Ghost(0), self.nb_dim)
    }

    fn insert(&mut self, elt: Elt) -> (r: bool) {
        if self.find_dominating(&elt).is_some() {
            return false;
        }
        let ghost pre = *self;
        let ghost pred = |x: Elt| !dominates_spec(elt.coords(), x.coords());
        let nb_dim: usize = self.nb_dim;
        // evict every element dominated by the new element
        Self::rec_remove_dominated_by(&mut self.root, &elt, 0, nb_dim);
        // then attach it as a fresh leaf
        self.insert_without_check(elt);
        proof {
            assert(self.contents() == pre.contents().filter(pred).insert(elt));
            if antichain(pre.contents()) {
                lemma_insert_preserves_antichain(pre.contents(), self.contents(), elt);
            }
        }
        true
    }

    fn remove(&mut self, elt: &Elt) -> (r: bool) {
        match self.remove_and_return(elt) {
            Some(_e) => true,
            None => false,
        }
    }
}

impl<Elt: ParetoElement> NaiveKDTreeFront<Elt> {
    /// Finds an element whose coordinate on `target` equals `v`, a value the
    /// subtree is known to attain.
    fn rec_find_value<'a>(
        link: &'a Link<Elt>,
        target: usize,
        v: u16,
        nb_dim: usize,
        Ghost(dim): Ghost<int>,
    ) -> (r: Option<&'a Elt>)
        requires
            opt_inv(*link, nb_dim as nat, dim),
            target < nb_dim,
        ensures
            match r {
                Some(m) => opt_elems(*link).contains(*m) && m.coords()[target as int] == v,
                None => !attains(opt_elems(*link), target as int, v),
            },
        decreases link,
    {
        match link {
            None => {
                proof {
                    assert(opt_elems(*link) =~= Multiset::<Elt>::empty());
                }
                None
            }
            Some(node) => {
                let ghost k = nb_dim as nat;
                let ghost nd = next_dim(dim, k);
                if node.e.kth(target) == v {
                    return Some(&node.e);
                }
                match Self::rec_find_value(&node.l, target, v, nb_dim, Ghost(nd)) {
                    Some(m) => Some(m),
                    None => {
                        let r = Self::rec_find_value(&node.r, target, v, nb_dim, Ghost(nd));
                        proof {
                            if r is None {
                                assert forall|x: Elt|
                                    opt_elems(*link).contains(x) && #[trigger] x.coords()[target as int]
                                        == v implies false by {
                                    if x != node.e {
                                        if opt_elems(node.l).contains(x) {
                                            assert(attains(opt_elems(node.l), target as int, v));
                                        } else {
                                            assert(opt_elems(node.r).contains(x));
                                            assert(attains(opt_elems(node.r), target as int, v));
                                        }
                                    }
                                }
                            }
                        }
                        r
                    }
                }
            }
        }
    }
}

} // verus!
