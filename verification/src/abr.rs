use vstd::prelude::*;

verus! {

use core::cmp::Ordering;
use crate::abr_iterator::ABRIterator;
use crate::node::Node;
use crate::total_order::TotalOrder;

/// A binary search tree with a key/value system.
///
/// A binary tree, where each node has between 0 and 2 children, and whose
/// length is known (the number of nodes in the tree).
pub struct ABR<K: TotalOrder, V> {
    pub root: Option<Box<Node<K, V>>>,
    pub length: usize,
}

impl<K: TotalOrder, V> View for ABR<K, V> {
    type V = Map<K::Repr, V>;

    open spec fn view(&self) -> Map<K::Repr, V> {
        Node::opt_as_map(self.root)
    }
}

impl<K: TotalOrder, V> ABR<K, V> {
    /// The tree invariant: the root subtree satisfies the binary search
    /// ordering property and `length` counts its nodes.
    pub open spec fn wf(self) -> bool {
        &&& Node::opt_wf(self.root)
        &&& self.length == Node::opt_size(self.root)
    }

    /// The full in-order sequence of (key value, value) pairs of the tree.
    pub open spec fn in_order(self) -> Seq<(K::Repr, V)> {
        Node::opt_in_seq(self.root)
    }

    /// Create a new, empty binary search tree.
    pub fn new() -> (t: ABR<K, V>)
        ensures
            t.wf(),
            t.root is None,
            t.length == 0,
            t@ =~= Map::<K::Repr, V>::empty(),
            t.in_order() =~= Seq::<(K::Repr, V)>::empty(),
    {
        ABR { root: None, length: 0 }
    }

    /// Returns `true` if the tree is empty.
    pub fn is_empty(&self) -> (r: bool)
        ensures
            r == (self.length == 0),
    {
        self.length == 0
    }

    /// Inserts a key and value pair in the tree.
    ///
    /// Returns the value previously stored under an equal key, if any. The
    /// node count grows by one exactly when the key was absent.
    pub fn insert(&mut self, key: K, value: V) -> (r: Option<V>)
        requires
            old(self).wf(),
            old(self)@.dom().contains(key.repr()) || old(self).length < usize::MAX,
        ensures
            final(self).wf(),
            final(self)@ =~= old(self)@.insert(key.repr(), value),
            final(self).root == Node::spec_insert(old(self).root, key, value),
            r is Some <==> old(self)@.dom().contains(key.repr()),
            r is Some ==> r.unwrap() == old(self)@[key.repr()],
            final(self).length == old(self).length + (if old(self)@.dom().contains(key.repr()) {
                0int
            } else {
                1int
            }),
    {
        match self.root.take() {
            None => {
                self.root = Some(Box::new(Node::new(key, value)));
                self.length = self.length + 1;
                None
            },
            Some(mut node) => {
                let r = (&mut *node).insert(key, value);
                self.root = Some(node);
                if r.is_none() {
                    self.length = self.length + 1;
                }
                r
            },
        }
    }

    /// Removes a node from the tree.
    ///
    /// Tries to remove a node from the tree, given its key. If the key is
    /// found, the removed value is returned in a `Some(value)` and the node
    /// count shrinks by one; if not, `None` is returned and the tree is
    /// unchanged.
    pub fn remove(&mut self, key: &K) -> (r: Option<V>)
        requires
            old(self).wf(),
        ensures
            final(self).wf(),
            final(self)@ =~= old(self)@.remove(key.repr()),
            r is Some <==> old(self)@.dom().contains(key.repr()),
            r is Some ==> r.unwrap() == old(self)@[key.repr()],
            final(self).length == old(self).length - (if old(self)@.dom().contains(key.repr()) {
                1int
            } else {
                0int
            }),
            !old(self)@.dom().contains(key.repr()) ==> *final(self) == *old(self),
    {
        let r = Self::remove_rec(&mut self.root, key);
        if r.is_some() {
            self.length = self.length - 1;
        }
        r
    }

    /// Removes the node at the root of the given slot, reattaching its
    /// children; an empty slot stays empty.
    ///
    /// A node with at most one child is spliced out directly; a node with
    /// two children is replaced by its in-order successor, the minimum of
    /// its right subtree.
    pub fn remove_node(child_ref: &mut Option<Box<Node<K, V>>>) -> (r: Option<V>)
        requires
            Node::opt_wf(*old(child_ref)),
        ensures
            Node::opt_wf(*final(child_ref)),
            match *old(child_ref) {
                None => r is None && *final(child_ref) is None,
                Some(n) => {
                    &&& r == Some(n.value)
                    &&& Node::opt_as_map(*final(child_ref)) =~= n.as_map().remove(n.key.repr())
                    &&& Node::opt_size(*final(child_ref)) == n.size() - 1
                },
            },
    {
        match child_ref.take() {
            None => None,
            Some(mut boxed) => {
                let ghost n0 = *boxed;
                proof {
                    let sk = n0.key.repr();
                    let lm = Node::opt_as_map(n0.left);
                    let rm = Node::opt_as_map(n0.right);
                    assert(n0.as_map() == lm.union_prefer_right(rm).insert(sk, n0.value));
                    assert forall|k: K::Repr| #[trigger]
                        lm.dom().contains(k) implies k != sk && !rm.dom().contains(k) by {
                        K::lemma_before_trichotomy(k, sk);
                        if rm.dom().contains(k) {
                            K::lemma_before_trichotomy(sk, k);
                        }
                    }
                    assert forall|k: K::Repr| #[trigger]
                        rm.dom().contains(k) implies k != sk by {
                        K::lemma_before_trichotomy(sk, k);
                    }
                }
                if boxed.left.is_none() && boxed.right.is_none() {
                    proof {
                        assert(Node::opt_as_map(*child_ref) =~= n0.as_map().remove(n0.key.repr()));
                    }
                    Some(boxed.value)
                } else if boxed.left.is_none() {
                    proof {
                        assert(Node::opt_as_map(n0.right) =~= n0.as_map().remove(n0.key.repr()));
                    }
                    *child_ref = boxed.right;
                    Some(boxed.value)
                } else if boxed.right.is_none() {
                    proof {
                        assert(Node::opt_as_map(n0.left) =~= n0.as_map().remove(n0.key.repr()));
                    }
                    *child_ref = boxed.left;
                    Some(boxed.value)
                } else {
                    let (mk, mv) = Node::remove_min(&mut boxed.right);
                    boxed.key = mk;
                    let mut out = mv;
                    core::mem::swap(&mut boxed.value, &mut out);
                    *child_ref = Some(boxed);
                    proof {
                        let sk = n0.key.repr();
                        let mkr = mk.repr();
                        let lm = Node::opt_as_map(n0.left);
                        let rm = Node::opt_as_map(n0.right);
                        // the successor key sits in the right subtree, so it is
                        // above the removed key and below the rest of the right
                        // subtree
                        assert(rm.dom().contains(mkr));
                        K::lemma_before_trichotomy(sk, mkr);
                        assert forall|k: K::Repr| #[trigger]
                            lm.dom().contains(k) implies K::before(k, mkr) by {
                            K::lemma_before_transitive(k, sk, mkr);
                        }
                        assert(Node::opt_as_map(boxed.right) =~= rm.remove(mkr));
                        assert(Node::opt_as_map(*child_ref) == lm.union_prefer_right(
                            rm.remove(mkr),
                        ).insert(mkr, mv));
                        assert(Node::opt_as_map(*child_ref) =~= n0.as_map().remove(sk));
                        assert(Node::opt_size(*child_ref) == n0.size() - 1);
                    }
                    Some(out)
                }
            },
        }
    }

    /// Locates the slot holding `key` and removes its node there.
    fn remove_rec(node: &mut Option<Box<Node<K, V>>>, key: &K) -> (r: Option<V>)
        requires
            Node::opt_wf(*old(node)),
        ensures
            Node::opt_wf(*final(node)),
            Node::opt_as_map(*final(node)) =~= Node::opt_as_map(*old(node)).remove(key.repr()),
            r is Some <==> Node::opt_as_map(*old(node)).dom().contains(key.repr()),
            r is Some ==> r.unwrap() == Node::opt_as_map(*old(node))[key.repr()],
            Node::opt_size(*final(node)) == Node::opt_size(*old(node)) - (if Node::opt_as_map(
                *old(node),
            ).dom().contains(key.repr()) {
                1int
            } else {
                0int
            }),
            !Node::opt_as_map(*old(node)).dom().contains(key.repr()) ==> *final(node) == *old(node),
        decreases *old(node),
    {
        match node.take() {
            None => None,
            Some(mut boxed) => {
                let ghost n0 = *boxed;
                match key.compare(&boxed.key) {
                    Ordering::Equal => {
                        *node = Some(boxed);
                        Self::remove_node(node)
                    },
                    Ordering::Less => {
                        let r = Self::remove_rec(&mut boxed.left, key);
                        *node = Some(boxed);
                        proof {
                            let kr = key.repr();
                            n0.lemma_subtrees_miss_key(kr);
                            assert(Node::opt_as_map(*node) =~= Node::opt_as_map(
                                *old(node),
                            ).remove(kr));
                        }
                        r
                    },
                    Ordering::Greater => {
                        let r = Self::remove_rec(&mut boxed.right, key);
                        *node = Some(boxed);
                        proof {
                            let kr = key.repr();
                            n0.lemma_subtrees_miss_key(kr);
                            assert(Node::opt_as_map(*node) =~= Node::opt_as_map(
                                *old(node),
                            ).remove(kr));
                        }
                        r
                    },
                }
            },
        }
    }

    /// Returns `true` if the specified key is contained in the binary tree.
    pub fn contains_key(&self, key: K) -> (r: bool)
        requires
            self.wf(),
        ensures
            r == self@.dom().contains(key.repr()),
    {
        match &self.root {
            Some(node) => node.get(&key).is_some(),
            None => false,
        }
    }

    /// Returns an iterator from the tree.
    ///
    /// The tree must not be empty; the fresh cursor yields exactly the
    /// tree's in-order sequence.
    pub fn iter<'a>(&'a self) -> (it: ABRIterator<'a, K, V>)
        requires
            self.root is Some,
        ensures
            it.remaining() == self.in_order(),
            crate::abr_iterator::deref_seq(it.small_nodes@) == self.root.unwrap().spine_ready(),
            crate::abr_iterator::deref_seq(it.big_nodes@) == self.root.unwrap().spine_pending(),
    {
        ABRIterator::new(self)
    }

    /// For any well-formed tree, the full in-order traversal sequence is
    /// strictly ascending in key order, free of duplicates, and visits
    /// exactly the tree's entries: whatever distinct keys were inserted
    /// into an empty tree, a full sequential traversal yields each of them
    /// exactly once, in ascending order.
    pub proof fn lemma_in_order_sorted(self)
        requires
            self.wf(),
        ensures
            self.in_order().len() == self.length,
            forall|i: int, j: int|
                0 <= i < j < self.in_order().len() ==> K::before(
                    (#[trigger] self.in_order()[i]).0,
                    (#[trigger] self.in_order()[j]).0,
                ),
            forall|i: int, j: int|
                0 <= i < j < self.in_order().len() ==> (#[trigger] self.in_order()[i]).0 != (
                #[trigger] self.in_order()[j]).0,
            forall|i: int|
                0 <= i < self.in_order().len() ==> self@.dom().contains(
                    (#[trigger] self.in_order()[i]).0,
                ) && self@[self.in_order()[i].0] == self.in_order()[i].1,
            forall|k: K::Repr| #[trigger]
                self@.dom().contains(k) ==> exists|i: int|
                    0 <= i < self.in_order().len() && (#[trigger] self.in_order()[i]).0 == k,
    {
        Node::lemma_opt_in_seq_props(self.root);
        Node::lemma_opt_in_seq_size(self.root);
        assert(self.in_order() == Node::opt_in_seq(self.root));
        assert(self@ == Node::opt_as_map(self.root));
        assert forall|i: int, j: int| 0 <= i < j < self.in_order().len() implies (
        #[trigger] self.in_order()[i]).0 != (#[trigger] self.in_order()[j]).0 by {
            K::lemma_before_trichotomy(self.in_order()[i].0, self.in_order()[j].0);
        }
        assert forall|k: K::Repr| self@.dom().contains(k) implies exists|i: int|
            0 <= i < self.in_order().len() && (#[trigger] self.in_order()[i]).0 == k by {
            let i = choose|i: int|
                0 <= i < Node::opt_in_seq(self.root).len() && (#[trigger] Node::opt_in_seq(
                    self.root,
                )[i]).0 == k;
            assert(self.in_order()[i].0 == k);
        }
    }

    /// Returns the value associated to a key.
    ///
    /// If the key is present in the tree, the function will return
    /// `Some(value)`, where `value` is the associated value to the key.
    /// If not, the function will return `None`.
    pub fn get(&self, key: K) -> (r: Option<&V>)
        requires
            self.wf(),
        ensures
            match r {
                Some(v) => self@.dom().contains(key.repr()) && *v == self@[key.repr()],
                None => !self@.dom().contains(key.repr()),
            },
    {
        match &self.root {
            Some(node) => node.get(&key),
            None => None,
        }
    }
}

/// Idempotence of insert: writing the same key twice, with any two values,
/// leaves the map exactly as if only the second write had happened. In
/// particular the key already sits in the domain after the first write, so
/// by the contract of [`ABR::insert`] the second call leaves the node
/// count unchanged, and lookup afterwards returns the second value.
pub proof fn lemma_insert_twice<K: TotalOrder, V>(m: Map<K::Repr, V>, k: K::Repr, v1: V, v2: V)
    ensures
        m.insert(k, v1).insert(k, v2) =~= m.insert(k, v2),
        m.insert(k, v1).dom().contains(k),
        m.insert(k, v1).insert(k, v2).dom() =~= m.insert(k, v1).dom(),
        m.insert(k, v1).insert(k, v2)[k] == v2,
{
}

} // verus!
