use vstd::prelude::*;

use crate::set_store::{is_subset_spec, strictly_sorted, SetStore};

verus! {

broadcast use vstd::std_specs::vec::group_vec_axioms;

/// True when the trie rooted at `n` stores the value sequence `s`.
pub open spec fn holds_set(n: Node, s: Seq<usize>) -> bool
    decreases s.len(),
{
    if s.len() == 0 {
        n.contains_set
    } else {
        let i = s[0] - n.offset;
        &&& 0 <= i < n.children@.len()
        &&& match n.children@[i] {
            Some(c) => holds_set(*c, s.drop_first()),
            None => false,
        }
    }
}

/// Structural well-formedness of a trie node: the child slot range does not
/// overflow, and the child reached through value `v` covers values from
/// `v + 1` on.
pub open spec fn node_wf(n: Node) -> bool
    decreases n,
{
    &&& n.offset + n.children@.len() <= usize::MAX
    &&& forall|i: int|
        0 <= i < n.children@.len() && (#[trigger] n.children@[i]) is Some ==> {
            &&& n.children@[i].unwrap().offset == n.offset + i + 1
            &&& node_wf(*n.children@[i].unwrap())
        }
}

/// Trie node.
#[derive(Debug)]
pub struct Node {
    /// true iff a stored set ends at this node
    pub contains_set: bool,
    /// children of the node, indexed by value minus the offset
    pub children: Vec<Option<Box<Node>>>,
    /// value covered by the first child slot
    pub offset: usize,
}

/// Replaces the child slot `i` with `val` and returns the previous entry.
fn replace_child(children: &mut Vec<Option<Box<Node>>>, i: usize, val: Option<Box<Node>>) -> (r:
    Option<Box<Node>>)
    requires
        i < old(children)@.len(),
    ensures
        r == old(children)@[i as int],
        final(children)@ == old(children)@.update(i as int, val),
{
    children.push(val);
    let r = children.swap_remove(i);
    proof {
        assert(final(children)@ =~= old(children)@.update(i as int, val));
    }
    r
}

impl Node {
    /// Creates a new empty node covering values from 0 on.
    pub fn new() -> (r: Self)
        ensures
            node_wf(r),
            r.offset == 0,
            r.contains_set == false,
            forall|t: Seq<usize>| !holds_set(r, t),
    {
        let r = Node { contains_set: false, children: Vec::new(), offset: 0 };
        proof {
            assert forall|t: Seq<usize>| !holds_set(r, t) by {
                if t.len() > 0 {
                    assert(r.children@.len() == 0);
                }
            }
        }
        r
    }

    /// Returns true iff the given value falls outside the child slot range.
    pub fn is_out_of_bounds(&self, v: usize) -> (r: bool)
        ensures
            r == !(self.offset <= v && v - self.offset < self.children@.len()),
    {
        v < self.offset || v - self.offset >= self.children.len()
    }

    /// Returns the child reached through value `v`.
    pub fn child(&self, v: usize) -> (r: &Option<Box<Node>>)
        requires
            self.offset <= v,
            v - self.offset < self.children@.len(),
        ensures
            *r == self.children@[v - self.offset],
    {
        &self.children[v - self.offset]
    }

    /// Ensures a child slot exists for value `v`, creating an empty child
    /// there if the slot was absent.
    pub fn add_child(&mut self, v: usize)
        requires
            node_wf(*old(self)),
            v >= old(self).offset,
            v < usize::MAX,
        ensures
            node_wf(*final(self)),
            final(self).offset == old(self).offset,
            final(self).contains_set == old(self).contains_set,
            final(self).children@.len() >= old(self).children@.len(),
            v - final(self).offset < final(self).children@.len(),
            final(self).children@[v - final(self).offset] is Some,
            forall|t: Seq<usize>| #[trigger]
                holds_set(*final(self), t) == holds_set(*old(self), t),
            forall|i: int|
                0 <= i < final(self).children@.len() && i != v - final(self).offset
                    ==> #[trigger] final(self).children@[i] == (if i < old(
                    self,
                ).children@.len() {
                    old(self).children@[i]
                } else {
                    None::<Box<Node>>
                }),
            ({
                let c = final(self).children@[v - final(self).offset].unwrap();
                &&& c.offset == v + 1
                &&& node_wf(*c)
                &&& forall|u: Seq<usize>| #[trigger]
                    holds_set(*c, u) == holds_set(*old(self), seq![v] + u)
            }),
    {
        let idx: usize = v - self.offset;
        while self.children.len() <= idx
            invariant
                node_wf(*old(self)),
                self.offset == old(self).offset,
                self.contains_set == old(self).contains_set,
                idx == v - self.offset,
                v < usize::MAX,
                self.children@.len() >= old(self).children@.len(),
                self.children@.len() <= idx + 1 || self.children@.len() == old(
                    self,
                ).children@.len(),
                forall|i: int|
                    0 <= i < self.children@.len() ==> #[trigger] self.children@[i] == (if i < old(
                        self,
                    ).children@.len() {
                        old(self).children@[i]
                    } else {
                        None::<Box<Node>>
                    }),
            decreases idx + 1 - self.children@.len(),
        {
            self.children.push(None);
        }
        proof {
            assert(node_wf(*self)) by {
                assert forall|i: int|
                    0 <= i < self.children@.len() && (#[trigger] self.children@[i]) is Some implies {
                    &&& self.children@[i].unwrap().offset == self.offset + i + 1
                    &&& node_wf(*self.children@[i].unwrap())
                } by {
                    assert(i < old(self).children@.len());
                }
            }
        }
        let mut fresh = false;
        match &self.children[idx] {
            None => {
                fresh = true;
            }
            Some(_c) => {}
        }
        let ghost ext = *self;
        if fresh {
            let child = Node { contains_set: false, children: Vec::new(), offset: v + 1 };
            proof {
                assert(node_wf(child));
                assert forall|u: Seq<usize>| !holds_set(child, u) by {
                    if u.len() > 0 {
                        assert(child.children@.len() == 0);
                    }
                }
            }
            let ghost pre = self.children@;
            replace_child(&mut self.children, idx, Some(Box::new(child)));
            proof {
                assert(node_wf(*self)) by {
                    assert forall|i: int|
                        0 <= i < self.children@.len() && (#[trigger] self.children@[i]) is Some implies {
                        &&& self.children@[i].unwrap().offset == self.offset + i + 1
                        &&& node_wf(*self.children@[i].unwrap())
                    } by {
                        if i != idx {
                            assert(self.children@[i] == pre[i]);
                        }
                    }
                }
            }
        }
        proof {
            // extending the slot range with absent children, and placing an
            // empty child in an absent slot, stores no new set
            assert forall|t: Seq<usize>| #[trigger] holds_set(ext, t) == holds_set(
                *old(self),
                t,
            ) by {
                if t.len() > 0 {
                    let q = t[0] - ext.offset;
                    if 0 <= q < ext.children@.len() && q >= old(self).children@.len() {
                        assert(ext.children@[q] is None);
                    }
                }
            }
            assert forall|t: Seq<usize>| #[trigger] holds_set(*self, t) == holds_set(
                *old(self),
                t,
            ) by {
                if t.len() > 0 {
                    let q = t[0] - self.offset;
                    if q == idx && fresh {
                        let c = self.children@[idx as int].unwrap();
                        assert(!holds_set(*c, t.drop_first()));
                        assert(!holds_set(ext, t));
                    } else if 0 <= q < self.children@.len() {
                        assert(self.children@[q] == ext.children@[q]);
                    }
                }
            }
            let c = self.children@[idx as int].unwrap();
            assert forall|u: Seq<usize>| #[trigger] holds_set(*c, u) == holds_set(
                *old(self),
                seq![v] + u,
            ) by {
                let t = seq![v] + u;
                assert(t[0] == v);
                assert(t.drop_first() =~= u);
                assert(holds_set(*self, t) == holds_set(*c, u));
            }
        }
    }

    /// Clears the child slot for value `v`. Returns false when the value
    /// falls outside the slot range.
    pub fn remove_child(&mut self, v: usize) -> (r: bool)
        requires
            node_wf(*old(self)),
        ensures
            node_wf(*final(self)),
            final(self).offset == old(self).offset,
            final(self).contains_set == old(self).contains_set,
            final(self).children@.len() == old(self).children@.len(),
            !r ==> *final(self) == *old(self),
            r ==> old(self).offset <= v && v - old(self).offset < old(self).children@.len()
                && final(self).children@ == (old(self).children@.update(
                v - old(self).offset,
                None::<Box<Node>>,
            )),
    {
        if self.is_out_of_bounds(v) {
            return false;
        }
        let idx: usize = v - self.offset;
        let ghost pre = self.children@;
        replace_child(&mut self.children, idx, None);
        proof {
            assert(node_wf(*self)) by {
                assert forall|i: int|
                    0 <= i < self.children@.len() && (#[trigger] self.children@[i]) is Some implies {
                    &&& self.children@[i].unwrap().offset == self.offset + i + 1
                    &&& node_wf(*self.children@[i].unwrap())
                } by {
                    assert(self.children@[i] == pre[i]);
                }
            }
        }
        true
    }

    /// Marks a stored set as ending at this node. Returns true iff the set
    /// was newly added.
    pub fn add_set(&mut self) -> (r: bool)
        ensures
            r == !old(self).contains_set,
            *final(self) == (Node { contains_set: true, ..*old(self) }),
    {
        if self.contains_set {
            false
        } else {
            self.contains_set = true;
            true
        }
    }

    /// Returns true iff a stored set ends at this node.
    pub fn has_set(&self) -> (r: bool)
        ensures
            r == self.contains_set,
    {
        self.contains_set
    }

    /// Removes the set ending at this node, if any.
    pub fn remove_set(&mut self)
        ensures
            *final(self) == (Node { contains_set: false, ..*old(self) }),
    {
        self.contains_set = false;
    }

    /// Returns the number of child slots.
    pub fn nb_children(&self) -> (r: usize)
        ensures
            r == self.children@.len(),
    {
        self.children.len()
    }
}

/// Set trie: stores sets keyed by their sorted values, sharing prefixes.
#[derive(Debug)]
pub struct TrieSetStore {
    /// root node of the trie
    root: Option<Box<Node>>,
}

impl TrieSetStore {
    /// Creates a new empty store.
    pub fn create_empty() -> (r: Self)
        ensures
            r.inv(),
            r.sets() == Set::<Seq<usize>>::empty(),
    {
        let r = TrieSetStore { root: Some(Box::new(Node::new())) };
        proof {
            assert(r.sets() =~= Set::<Seq<usize>>::empty());
        }
        r
    }

    /// Recursive insertion of the suffix `s[i..]` below `node`.
    fn insert_rec(node: &mut Node, s: &[usize], i: usize) -> (r: bool)
        requires
            node_wf(*old(node)),
            strictly_sorted(s@),
            i <= s@.len(),
            forall|t: int| 0 <= t < s@.len() ==> #[trigger] s@[t] < usize::MAX,
            i < s@.len() ==> s@[i as int] >= old(node).offset,
        ensures
            node_wf(*final(node)),
            final(node).offset == old(node).offset,
            r == !holds_set(*old(node), s@.skip(i as int)),
            forall|t: Seq<usize>| #[trigger]
                holds_set(*final(node), t) == (holds_set(*old(node), t) || t == s@.skip(i as int)),
        decreases s@.len() - i,
    {
        if i == s.len() {
            let r = node.add_set();
            proof {
                assert(s@.skip(i as int).len() == 0);
                assert(s@.skip(i as int) =~= Seq::<usize>::empty());
                assert forall|t: Seq<usize>| #[trigger] holds_set(*node, t) == (holds_set(
                    *old(node),
                    t,
                ) || t == s@.skip(i as int)) by {
                    if t.len() == 0 {
                        assert(t =~= Seq::<usize>::empty());
                    }
                }
            }
            r
        } else {
            let v = s[i];
            node.add_child(v);
            let idx: usize = v - node.offset;
            let ghost mid = *node;
            let taken = replace_child(&mut node.children, idx, None);
            let mut c = taken.unwrap();
            proof {
                assert(mid.children@[idx as int].unwrap() == *c);
                assert(c.offset == v + 1);
                assert(node_wf(*c));
                if i + 1 < s@.len() {
                    assert(s@[i as int] < s@[i + 1]);
                }
            }
            let r = Self::insert_rec(&mut *c, s, i + 1);
            let ghost cfin = *c;
            replace_child(&mut node.children, idx, Some(c));
            proof {
                // restore well-formedness
                assert(node_wf(*node)) by {
                    assert forall|q: int|
                        0 <= q < node.children@.len() && (#[trigger] node.children@[q]) is Some implies {
                        &&& node.children@[q].unwrap().offset == node.offset + q + 1
                        &&& node_wf(*node.children@[q].unwrap())
                    } by {
                        if q != idx {
                            assert(node.children@[q] == mid.children@[q]);
                        }
                    }
                }
                let suf = s@.skip(i as int);
                assert(suf[0] == s@[i as int]);
                assert(suf.drop_first() =~= s@.skip(i + 1));
                let cmid = mid.children@[idx as int].unwrap();
                // relate the rebuilt node to the state after the child slot
                // was ensured, then to the input state
                assert forall|t: Seq<usize>| #[trigger] holds_set(*node, t) == (holds_set(
                    mid,
                    t,
                ) || t == suf) by {
                    if t.len() == 0 {
                        assert(holds_set(*node, t) == node.contains_set);
                        assert(t != suf);
                    } else {
                        let q = t[0] - node.offset;
                        if q == idx {
                            assert(node.children@[idx as int].unwrap() == cfin);
                            assert(holds_set(*node, t) == holds_set(cfin, t.drop_first()));
                            assert(holds_set(mid, t) == holds_set(*cmid, t.drop_first()));
                            assert(holds_set(cfin, t.drop_first()) == (holds_set(
                                *cmid,
                                t.drop_first(),
                            ) || t.drop_first() == s@.skip(i + 1)));
                            if t.drop_first() == s@.skip(i + 1) && t[0] == v {
                                assert(t =~= seq![t[0]] + t.drop_first());
                                assert(suf =~= seq![suf[0]] + suf.drop_first());
                                assert(t =~= suf);
                            }
                            if t == suf {
                                assert(t[0] == v);
                            }
                        } else {
                            if 0 <= q < node.children@.len() {
                                assert(node.children@[q] == mid.children@[q]);
                            }
                            assert(holds_set(*node, t) == holds_set(mid, t));
                            assert(t != suf);
                        }
                    }
                }
                assert forall|t: Seq<usize>| #[trigger] holds_set(*node, t) == (holds_set(
                    *old(node),
                    t,
                ) || t == suf) by {
                    assert(holds_set(mid, t) == holds_set(*old(node), t));
                }
                // the result reports whether the suffix was newly stored
                assert(holds_set(*cmid, s@.skip(i + 1)) == holds_set(*old(node), seq![v] + s@.skip(i + 1)));
                assert(seq![v] + s@.skip(i + 1) =~= suf);
                assert(r == !holds_set(*old(node), suf));
            }
            r
        }
    }

    /// Recursive membership test of the suffix `s[i..]` below `node`.
    fn contains_rec(node: &Node, s: &[usize], i: usize) -> (r: bool)
        requires
            i <= s@.len(),
        ensures
            r == holds_set(*node, s@.skip(i as int)),
        decreases s@.len() - i,
    {
        if i == s.len() {
            proof {
                assert(s@.skip(i as int).len() == 0);
            }
            node.has_set()
        } else {
            let v = s[i];
            proof {
                assert(s@.skip(i as int)[0] == s@[i as int]);
                assert(s@.skip(i as int).drop_first() =~= s@.skip(i + 1));
            }
            if node.is_out_of_bounds(v) {
                return false;
            }
            match node.child(v) {
                None => false,
                Some(c) => Self::contains_rec(c, s, i + 1),
            }
        }
    }

    /// Recursive removal of the suffix `s[i..]` below `node`, pruning child
    /// nodes left without slots and without a stored set.
    fn remove_rec(node: &mut Node, s: &[usize], i: usize) -> (r: bool)
        requires
            node_wf(*old(node)),
            i <= s@.len(),
        ensures
            node_wf(*final(node)),
            final(node).offset == old(node).offset,
            r == holds_set(*old(node), s@.skip(i as int)),
            forall|t: Seq<usize>| #[trigger]
                holds_set(*final(node), t) == (holds_set(*old(node), t) && t != s@.skip(i as int)),
        decreases s@.len() - i,
    {
        if i == s.len() {
            proof {
                assert(s@.skip(i as int).len() == 0);
                assert(s@.skip(i as int) =~= Seq::<usize>::empty());
            }
            let r = node.has_set();
            node.remove_set();
            proof {
                assert forall|t: Seq<usize>| #[trigger] holds_set(*node, t) == (holds_set(
                    *old(node),
                    t,
                ) && t != s@.skip(i as int)) by {
                    if t.len() == 0 {
                        assert(t =~= Seq::<usize>::empty());
                    }
                }
            }
            r
        } else {
            let v = s[i];
            proof {
                assert(s@.skip(i as int)[0] == s@[i as int]);
                assert(s@.skip(i as int).drop_first() =~= s@.skip(i + 1));
            }
            if node.is_out_of_bounds(v) {
                proof {
                    assert(!holds_set(*node, s@.skip(i as int)));
                    assert forall|t: Seq<usize>| #[trigger] holds_set(*node, t) == (holds_set(
                        *old(node),
                        t,
                    ) && t != s@.skip(i as int)) by {
                        if t == s@.skip(i as int) {
                            assert(!holds_set(*node, t));
                        }
                    }
                }
                return false;
            }
            let mut absent = false;
            match node.child(v) {
                None => {
                    absent = true;
                }
                Some(_c) => {}
            }
            if absent {
                proof {
                    assert(!holds_set(*node, s@.skip(i as int)));
                    assert forall|t: Seq<usize>| #[trigger] holds_set(*node, t) == (holds_set(
                        *old(node),
                        t,
                    ) && t != s@.skip(i as int)) by {
                        if t == s@.skip(i as int) {
                            assert(!holds_set(*node, t));
                        }
                    }
                }
                return false;
            }
            let idx: usize = v - node.offset;
            let ghost mid = *node;
            let taken = replace_child(&mut node.children, idx, None);
            let mut c = taken.unwrap();
            proof {
                assert(mid.children@[idx as int].unwrap() == *c);
                assert(node_wf(*c));
            }
            let res = Self::remove_rec(&mut *c, s, i + 1);
            let ghost cfin = *c;
            let prune = res && c.nb_children() == 0 && !c.has_set();
            if !prune {
                replace_child(&mut node.children, idx, Some(c));
            }
            proof {
                assert(node_wf(*node)) by {
                    assert forall|q: int|
                        0 <= q < node.children@.len() && (#[trigger] node.children@[q]) is Some implies {
                        &&& node.children@[q].unwrap().offset == node.offset + q + 1
                        &&& node_wf(*node.children@[q].unwrap())
                    } by {
                        if q != idx {
                            assert(node.children@[q] == mid.children@[q]);
                        }
                    }
                }
                let suf = s@.skip(i as int);
                assert(suf[0] == s@[i as int]);
                assert(suf.drop_first() =~= s@.skip(i + 1));
                let cmid = mid.children@[idx as int].unwrap();
                if prune {
                    assert forall|u: Seq<usize>| !holds_set(cfin, u) by {
                        if u.len() > 0 {
                            assert(cfin.children@.len() == 0);
                        }
                    }
                }
                assert forall|t: Seq<usize>| #[trigger] holds_set(*node, t) == (holds_set(
                    mid,
                    t,
                ) && t != suf) by {
                    if t.len() == 0 {
                        assert(t != suf);
                        assert(holds_set(*node, t) == node.contains_set);
                    } else {
                        let q = t[0] - node.offset;
                        if q == idx {
                            assert(holds_set(mid, t) == holds_set(*cmid, t.drop_first()));
                            assert(holds_set(cfin, t.drop_first()) == (holds_set(
                                *cmid,
                                t.drop_first(),
                            ) && t.drop_first() != s@.skip(i + 1)));
                            if prune {
                                assert(node.children@[idx as int] is None);
                                assert(!holds_set(*node, t));
                                assert(!holds_set(cfin, t.drop_first()));
                            } else {
                                assert(node.children@[idx as int].unwrap() == cfin);
                                assert(holds_set(*node, t) == holds_set(cfin, t.drop_first()));
                            }
                            if t.drop_first() == s@.skip(i + 1) && t[0] == v {
                                assert(t =~= seq![t[0]] + t.drop_first());
                                assert(suf =~= seq![suf[0]] + suf.drop_first());
                                assert(t =~= suf);
                            }
                            if t == suf {
                                assert(t[0] == v);
                            }
                        } else {
                            if 0 <= q < node.children@.len() {
                                assert(node.children@[q] == mid.children@[q]);
                            }
                            assert(holds_set(*node, t) == holds_set(mid, t));
                            assert(t != suf);
                        }
                    }
                }
                assert(res == holds_set(*old(node), suf)) by {
                    assert(holds_set(mid, suf) == holds_set(*cmid, suf.drop_first()));
                }
            }
            res
        }
    }

/// Collects stored sets below `node` whose values are all drawn from the
    /// query; each result is the accumulated prefix followed by such a set.
    #[verifier::loop_isolation(false)]
    fn rec_find_subsets(node: &Node, e: &[usize], index: usize, selected: &Vec<usize>) -> (r: Vec<
        Vec<usize>,
    >)
        requires
            index <= e@.len(),
        ensures
            forall|j: int|
                0 <= j < r@.len() ==> {
                    let out = (#[trigger] r@[j])@;
                    &&& out.len() >= selected@.len()
                    &&& out.take(selected@.len() as int) == selected@
                    &&& holds_set(*node, out.skip(selected@.len() as int))
                    &&& forall|x: usize| #[trigger]
                        out.skip(selected@.len() as int).contains(x) ==> e@.contains(x)
                },
        decreases *node,
    {
        let ghost sl = selected@.len() as int;
        let mut r: Vec<Vec<usize>> = Vec::new();
        if node.has_set() {
            let base = copy_vals(selected);
            r.push(base);
            proof {
                let out = (r@[0])@;
                assert(out.take(sl) =~= selected@);
                assert(out.skip(sl) =~= Seq::<usize>::empty());
            }
        }
        let mut i: usize = index;
        while i < e.len()
            invariant
                index <= i <= e@.len(),
                forall|j: int|
                    0 <= j < r@.len() ==> {
                        let out = (#[trigger] r@[j])@;
                        &&& out.len() >= selected@.len()
                        &&& out.take(selected@.len() as int) == selected@
                        &&& holds_set(*node, out.skip(selected@.len() as int))
                        &&& forall|x: usize| #[trigger]
                            out.skip(selected@.len() as int).contains(x) ==> e@.contains(x)
                    },
            decreases e@.len() - i,
        {
            let v = e[i];
            if !node.is_out_of_bounds(v) {
                match node.child(v) {
                    None => {}
                    Some(child) => {
                        let mut new_selected = copy_vals(selected);
                        new_selected.push(v);
                        let ghost nsl = new_selected@.len() as int;
                        let mut sub = Self::rec_find_subsets(child, e, i, &new_selected);
                        let ghost pre = r@;
                        let ghost subs = sub@;
                        r.append(&mut sub);
                        proof {
                            assert forall|j: int|
                                0 <= j < r@.len() implies {
                                let out = (#[trigger] r@[j])@;
                                &&& out.len() >= selected@.len()
                                &&& out.take(selected@.len() as int) == selected@
                                &&& holds_set(*node, out.skip(selected@.len() as int))
                                &&& forall|x: usize| #[trigger]
                                    out.skip(selected@.len() as int).contains(x) ==> e@.contains(
                                        x,
                                    )
                            } by {
                                if j < pre.len() {
                                    assert(r@[j] == pre[j]);
                                } else {
                                    assert(r@[j] == subs[j - pre.len()]);
                                    let out = (subs[j - pre.len()])@;
                                    assert(out.take(nsl) == new_selected@);
                                    assert(out.take(sl) =~= selected@);
                                    let t = out.skip(sl);
                                    assert(out[sl] == new_selected@[sl]);
                                    assert(t[0] == v);
                                    assert(t.drop_first() =~= out.skip(nsl));
                                    assert(holds_set(*node, t));
                                    assert forall|x: usize| #[trigger] t.contains(x) implies
                                        e@.contains(x) by {
                                        let w = choose|w: int| 0 <= w < t.len() && t[w] == x;
                                        if w == 0 {
                                            assert(e@[i as int] == x);
                                        } else {
                                            assert(out.skip(nsl)[w - 1] == x);
                                            assert(out.skip(nsl).contains(x));
                                        }
                                    }
                                }
                            }
                        }
                    }
                }
            }
            i = i + 1;
        }
        r
    }

    /// Collects stored sets below `node` that contain every remaining query
    /// value; each result is the accumulated prefix followed by such a set.
    #[verifier::loop_isolation(false)]
    fn rec_find_supersets(node: &Node, e: &[usize], index: usize, selected: &Vec<usize>) -> (r:
        Vec<Vec<usize>>)
        requires
            node_wf(*node),
            index <= e@.len(),
            forall|t: int| 0 <= t < e@.len() ==> #[trigger] e@[t] < usize::MAX,
        ensures
            forall|j: int|
                0 <= j < r@.len() ==> {
                    let out = (#[trigger] r@[j])@;
                    &&& out.len() >= selected@.len()
                    &&& out.take(selected@.len() as int) == selected@
                    &&& holds_set(*node, out.skip(selected@.len() as int))
                    &&& forall|x: usize|
                        e@.skip(index as int).contains(x) ==> #[trigger] out.skip(
                            selected@.len() as int,
                        ).contains(x)
                },
        decreases *node,
    {
        let ghost sl = selected@.len() as int;
        let mut r: Vec<Vec<usize>> = Vec::new();
        if index >= e.len() {
            // no constraint remains: collect every set below this node
            if node.has_set() {
                let base = copy_vals(selected);
                r.push(base);
                proof {
                    let out = (r@[0])@;
                    assert(out.take(sl) =~= selected@);
                    assert(out.skip(sl) =~= Seq::<usize>::empty());
                    assert(e@.skip(index as int).len() == 0);
                }
            }
            let n: usize = node.nb_children();
            let mut i: usize = 0;
            while i < n
                invariant
                    n == node.children@.len(),
                    i <= n,
                    index >= e@.len(),
                    forall|j: int|
                        0 <= j < r@.len() ==> {
                            let out = (#[trigger] r@[j])@;
                            &&& out.len() >= selected@.len()
                            &&& out.take(selected@.len() as int) == selected@
                            &&& holds_set(*node, out.skip(selected@.len() as int))
                            &&& forall|x: usize|
                                e@.skip(index as int).contains(x) ==> #[trigger] out.skip(
                                    selected@.len() as int,
                                ).contains(x)
                        },
                decreases n - i,
            {
                let there = match &node.children[i] {
                    None => false,
                    Some(_c) => true,
                };
                if there {
                    let v: usize = node.offset + i;
                    let mut new_selected = copy_vals(selected);
                    new_selected.push(v);
                    let ghost nsl = new_selected@.len() as int;
                    let child = match &node.children[i] {
                        None => unreached(),
                        Some(c) => c,
                    };
                    let mut sub = Self::rec_find_supersets(child, e, index, &new_selected);
                    let ghost pre = r@;
                    let ghost subs = sub@;
                    r.append(&mut sub);
                    proof {
                        assert forall|j: int|
                            0 <= j < r@.len() implies {
                            let out = (#[trigger] r@[j])@;
                            &&& out.len() >= selected@.len()
                            &&& out.take(selected@.len() as int) == selected@
                            &&& holds_set(*node, out.skip(selected@.len() as int))
                            &&& forall|x: usize|
                                e@.skip(index as int).contains(x) ==> #[trigger] out.skip(
                                    selected@.len() as int,
                                ).contains(x)
                        } by {
                            if j < pre.len() {
                                assert(r@[j] == pre[j]);
                            } else {
                                assert(r@[j] == subs[j - pre.len()]);
                                let out = (subs[j - pre.len()])@;
                                assert(out.take(nsl) == new_selected@);
                                assert(out.take(sl) =~= selected@);
                                let t = out.skip(sl);
                                assert(out[sl] == new_selected@[sl]);
                                assert(t[0] == v);
                                assert(t.drop_first() =~= out.skip(nsl));
                                assert(holds_set(*node, t));
                                assert(e@.skip(index as int).len() == 0);
                            }
                        }
                    }
                }
                i = i + 1;
            }
        } else {
            let v = e[index];
            let mut i: usize = 0;
            while i <= v
                invariant
                    i <= v + 1,
                    v == e@[index as int],
                    v < usize::MAX,
                    index < e@.len(),
                    forall|j: int|
                        0 <= j < r@.len() ==> {
                            let out = (#[trigger] r@[j])@;
                            &&& out.len() >= selected@.len()
                            &&& out.take(selected@.len() as int) == selected@
                            &&& holds_set(*node, out.skip(selected@.len() as int))
                            &&& forall|x: usize|
                                e@.skip(index as int).contains(x) ==> #[trigger] out.skip(
                                    selected@.len() as int,
                                ).contains(x)
                        },
                decreases v + 1 - i,
            {
                if !node.is_out_of_bounds(i) {
                    let there = match node.child(i) {
                        None => false,
                        Some(_c) => true,
                    };
                    if there {
                        let mut new_selected = copy_vals(selected);
                        new_selected.push(i);
                        let ghost nsl = new_selected@.len() as int;
                        let next_index: usize = if i == v {
                            index + 1
                        } else {
                            index
                        };
                        let child = match node.child(i) {
                            None => unreached(),
                            Some(c) => c,
                        };
                        let mut sub = Self::rec_find_supersets(child, e, next_index, &new_selected);
                        let ghost pre = r@;
                        let ghost subs = sub@;
                        r.append(&mut sub);
                        proof {
                            assert forall|j: int|
                                0 <= j < r@.len() implies {
                                let out = (#[trigger] r@[j])@;
                                &&& out.len() >= selected@.len()
                                &&& out.take(selected@.len() as int) == selected@
                                &&& holds_set(*node, out.skip(selected@.len() as int))
                                &&& forall|x: usize|
                                    e@.skip(index as int).contains(x) ==> #[trigger] out.skip(
                                        selected@.len() as int,
                                    ).contains(x)
                            } by {
                                if j < pre.len() {
                                    assert(r@[j] == pre[j]);
                                } else {
                                    assert(r@[j] == subs[j - pre.len()]);
                                    let out = (subs[j - pre.len()])@;
                                    assert(out.take(nsl) == new_selected@);
                                    assert(out.take(sl) =~= selected@);
                                    let t = out.skip(sl);
                                    assert(out[sl] == new_selected@[sl]);
                                    assert(t[0] == i);
                                    assert(t.drop_first() =~= out.skip(nsl));
                                    assert(holds_set(*node, t));
                                    assert forall|x: usize|
                                        e@.skip(index as int).contains(x) implies #[trigger] t.contains(
                                        x,
                                    ) by {
                                        if i == v && x == v {
                                            assert(t[0] == x);
                                        } else {
                                            assert(e@.skip(next_index as int).contains(x)) by {
                                                let w = choose|w: int|
                                                    0 <= w < e@.skip(index as int).len()
                                                        && e@.skip(index as int)[w] == x;
                                                if i == v {
                                                    assert(w != 0);
                                                    assert(e@.skip(index + 1)[w - 1] == x);
                                                }
                                            }
                                            assert(out.skip(nsl).contains(x));
                                            let w2 = choose|w2: int|
                                                0 <= w2 < out.skip(nsl).len() && out.skip(
                                                    nsl,
                                                )[w2] == x;
                                            assert(t[w2 + 1] == x);
                                        }
                                    }
                                }
                            }
                        }
                    }
                }
                i = i + 1;
            }
        }
        r
    }
}

impl SetStore for TrieSetStore {
    closed spec fn inv(&self) -> bool {
        self.root is Some && node_wf(*self.root.unwrap()) && self.root.unwrap().offset == 0
    }

    closed spec fn sets(&self) -> Set<Seq<usize>> {
        Set::new(|t: Seq<usize>| self.root is Some && holds_set(*self.root.unwrap(), t))
    }

    fn insert(&mut self, s: &[usize]) -> (r: bool) {
        let mut root = self.root.take().unwrap();
        let r = Self::insert_rec(&mut *root, s, 0);
        self.root = Some(root);
        proof {
            assert(s@.skip(0) =~= s@);
            assert(self.sets() =~= old(self).sets().insert(s@));
        }
        r
    }

    fn remove(&mut self, s: &[usize]) -> (r: bool) {
        let mut root = self.root.take().unwrap();
        let r = Self::remove_rec(&mut *root, s, 0);
        self.root = Some(root);
        proof {
            assert(s@.skip(0) =~= s@);
            assert(self.sets() =~= old(self).sets().remove(s@));
        }
        r
    }

    fn find_subsets(&self, s: &[usize]) -> (r: Vec<Vec<usize>>) {
        let root = self.root.as_ref().unwrap();
        let selected: Vec<usize> = Vec::new();
        let r = Self::rec_find_subsets(root, s, 0, &selected);
        proof {
            assert forall|j: int|
                0 <= j < r@.len() implies self.sets().contains(#[trigger] r@[j]@)
                && is_subset_spec(r@[j]@, s@) by {
                let out = (r@[j])@;
                assert(out.skip(0) =~= out);
                assert(holds_set(**root, out));
                assert forall|x: usize| #[trigger] out.contains(x) implies s@.contains(x) by {
                    assert(out.skip(0).contains(x));
                }
            }
        }
        r
    }

    fn find_supersets(&self, s: &[usize]) -> (r: Vec<Vec<usize>>) {
        let root = self.root.as_ref().unwrap();
        let selected: Vec<usize> = Vec::new();
        let r = Self::rec_find_supersets(root, s, 0, &selected);
        proof {
            assert forall|j: int|
                0 <= j < r@.len() implies self.sets().contains(#[trigger] r@[j]@)
                && is_subset_spec(s@, r@[j]@) by {
                let out = (r@[j])@;
                assert(out.skip(0) =~= out);
                assert(holds_set(**root, out));
                assert forall|x: usize| #[trigger] s@.contains(x) implies out.contains(x) by {
                    assert(s@.skip(0) =~= s@);
                    assert(s@.skip(0).contains(x));
                    assert(out.skip(0).contains(x));
                }
            }
        }
        r
    }

    fn contains(&self, s: &[usize]) -> (r: bool) {
        let root = self.root.as_ref().unwrap();
        let r = Self::contains_rec(root, s, 0);
        proof {
            assert(s@.skip(0) =~= s@);
        }
        r
    }
}

impl Default for TrieSetStore {
    /// Creates a new empty store.
    fn default() -> (r: Self)
        ensures
            r.inv(),
            r.sets() == Set::<Seq<usize>>::empty(),
    {
        Self::create_empty()
    }
}

/// Copies the accumulated prefix into a fresh vector.
fn copy_vals(s: &Vec<usize>) -> (r: Vec<usize>)
    ensures
        r@ == s@,
{
    let mut r: Vec<usize> = Vec::new();
    let n: usize = s.len();
    let mut i: usize = 0;
    while i < n
        invariant
            n == s@.len(),
            i <= n,
            r@ == s@.take(i as int),
        decreases n - i,
    {
        r.push(s[i]);
        proof {
            assert(r@ =~= s@.take(i + 1));
        }
        i = i + 1;
    }
    proof {
        assert(s@.take(n as int) =~= s@);
    }
    r
}

} // verus!
