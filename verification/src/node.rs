use vstd::prelude::*;

verus! {

use core::cmp::Ordering;
use crate::total_order::TotalOrder;

/// A node in the binary search tree.
///
/// A node is composed of a key and a corresponding value, together with an
/// optional left and right child, each exclusively owned.
pub struct Node<K: TotalOrder, V> {
    pub key: K,
    pub value: V,
    pub left: Option<Box<Node<K, V>>>,
    pub right: Option<Box<Node<K, V>>>,
}

impl<K: TotalOrder, V> Node<K, V> {
    /// Number of nodes in the subtree rooted here.
    pub open spec fn size(self) -> nat
        decreases self,
    {
        1 + Node::opt_size(self.left) + Node::opt_size(self.right)
    }

    /// Number of nodes in an optional subtree.
    pub open spec fn opt_size(node: Option<Box<Node<K, V>>>) -> nat
        decreases node,
    {
        match node {
            None => 0,
            Some(n) => n.size(),
        }
    }

    /// The map from key values to values represented by this subtree.
    pub open spec fn as_map(self) -> Map<K::Repr, V>
        decreases self,
    {
        Node::opt_as_map(self.left).union_prefer_right(Node::opt_as_map(self.right)).insert(
            self.key.repr(),
            self.value,
        )
    }

    /// The map represented by an optional subtree.
    pub open spec fn opt_as_map(node: Option<Box<Node<K, V>>>) -> Map<K::Repr, V>
        decreases node,
    {
        match node {
            None => Map::empty(),
            Some(n) => n.as_map(),
        }
    }

    /// The in-order sequence of (key value, value) pairs of this subtree.
    pub open spec fn in_seq(self) -> Seq<(K::Repr, V)>
        decreases self,
    {
        Node::opt_in_seq(self.left) + seq![(self.key.repr(), self.value)] + Node::opt_in_seq(
            self.right,
        )
    }

    /// The in-order sequence of an optional subtree.
    pub open spec fn opt_in_seq(node: Option<Box<Node<K, V>>>) -> Seq<(K::Repr, V)>
        decreases node,
    {
        match node {
            None => Seq::empty(),
            Some(n) => n.in_seq(),
        }
    }

    /// The binary-search-tree ordering invariant: all keys in the left
    /// subtree come strictly before this node's key, all keys in the right
    /// subtree strictly after, recursively.
    pub open spec fn wf(self) -> bool
        decreases self,
    {
        &&& forall|k: K::Repr| #[trigger]
            Node::opt_as_map(self.left).dom().contains(k) ==> K::before(k, self.key.repr())
        &&& forall|k: K::Repr| #[trigger]
            Node::opt_as_map(self.right).dom().contains(k) ==> K::before(self.key.repr(), k)
        &&& Node::opt_wf(self.left)
        &&& Node::opt_wf(self.right)
    }

    /// Well-formedness of an optional subtree.
    pub open spec fn opt_wf(node: Option<Box<Node<K, V>>>) -> bool
        decreases node,
    {
        match node {
            None => true,
            Some(n) => n.wf(),
        }
    }

    /// The exact tree produced by inserting a pair: an equal key value
    /// replaces the stored value in place, a smaller one goes into the
    /// left subtree, a greater one into the right, and an empty slot
    /// becomes a fresh leaf.
    pub open spec fn spec_insert(
        node: Option<Box<Node<K, V>>>,
        key: K,
        value: V,
    ) -> Option<Box<Node<K, V>>>
        decreases node,
    {
        match node {
            None => Some(Box::new(Node { key, value, left: None, right: None })),
            Some(n) => {
                if key.repr() == n.key.repr() {
                    Some(Box::new(Node { key: n.key, value, left: n.left, right: n.right }))
                } else if K::before(key.repr(), n.key.repr()) {
                    Some(
                        Box::new(
                            Node {
                                key: n.key,
                                value: n.value,
                                left: Node::spec_insert(n.left, key, value),
                                right: n.right,
                            },
                        ),
                    )
                } else {
                    Some(
                        Box::new(
                            Node {
                                key: n.key,
                                value: n.value,
                                left: n.left,
                                right: Node::spec_insert(n.right, key, value),
                            },
                        ),
                    )
                }
            },
        }
    }

    /// The ready run produced by walking the leftmost spine from this
    /// node: the nodes delivered immediately, in their final order.
    pub open spec fn spine_ready(self) -> Seq<Node<K, V>>
        decreases self,
    {
        if self.left is Some {
            self.left.unwrap().spine_ready()
        } else if self.right is Some {
            seq![self] + self.right.unwrap().spine_ready()
        } else {
            seq![self]
        }
    }

    /// The ancestors the same walk leaves pending, front of the queue
    /// first: the deepest ancestor comes first, this node itself last.
    pub open spec fn spine_pending(self) -> Seq<Node<K, V>>
        decreases self,
    {
        if self.left is Some {
            self.left.unwrap().spine_pending() + seq![self]
        } else if self.right is Some {
            self.right.unwrap().spine_pending()
        } else {
            Seq::empty()
        }
    }

    /// Every ancestor the spine walk leaves pending still has an
    /// unexplored left subtree; every node of the ready run has none left
    /// to explore.
    pub proof fn lemma_spine_shape(self)
        ensures
            forall|i: int|
                0 <= i < self.spine_pending().len() ==> (#[trigger] self.spine_pending()[
                i]).left is Some,
            forall|i: int|
                0 <= i < self.spine_ready().len() ==> (#[trigger] self.spine_ready()[
                i]).left is None,
        decreases self,
    {
        if self.left is Some {
            self.left.unwrap().lemma_spine_shape();
        } else if self.right is Some {
            self.right.unwrap().lemma_spine_shape();
        }
    }

    /// Under the ordering invariant, the spine walk enqueues only nodes of
    /// this subtree, delivers its ready run in strictly ascending key
    /// order, and enqueues no key twice, within or across the two queues.
    pub proof fn lemma_spine_keys(self)
        requires
            self.wf(),
        ensures
            forall|i: int|
                0 <= i < self.spine_ready().len() ==> self.as_map().dom().contains(
                    (#[trigger] self.spine_ready()[i]).key.repr(),
                ),
            forall|i: int|
                0 <= i < self.spine_pending().len() ==> self.as_map().dom().contains(
                    (#[trigger] self.spine_pending()[i]).key.repr(),
                ),
            forall|i: int, j: int|
                0 <= i < j < self.spine_ready().len() ==> K::before(
                    (#[trigger] self.spine_ready()[i]).key.repr(),
                    (#[trigger] self.spine_ready()[j]).key.repr(),
                ),
            forall|i: int, j: int|
                0 <= i < j < self.spine_pending().len() ==> (#[trigger] self.spine_pending()[
                i]).key.repr() != (#[trigger] self.spine_pending()[j]).key.repr(),
            forall|i: int, j: int|
                0 <= i < self.spine_ready().len() && 0 <= j < self.spine_pending().len() ==> (
                #[trigger] self.spine_ready()[i]).key.repr() != (#[trigger] self.spine_pending()[
                j]).key.repr(),
        decreases self,
    {
        let sk = self.key.repr();
        self.lemma_map_frame();
        if self.left is Some {
            let l = *self.left.unwrap();
            l.lemma_spine_keys();
            assert(Node::opt_as_map(self.left) == l.as_map());
            let sr = self.spine_ready();
            let sp = self.spine_pending();
            assert(sr == l.spine_ready());
            assert(sp == l.spine_pending() + seq![self]);
            assert forall|i: int| 0 <= i < sp.len() implies self.as_map().dom().contains(
                (#[trigger] sp[i]).key.repr(),
            ) by {
                if i < sp.len() - 1 {
                    assert(sp[i] == l.spine_pending()[i]);
                    assert(l.as_map().dom().contains(sp[i].key.repr()));
                } else {
                    assert(sp[i] == self);
                }
            }
            assert forall|i: int, j: int| 0 <= i < j < sp.len() implies (
            #[trigger] sp[i]).key.repr() != (#[trigger] sp[j]).key.repr() by {
                if j < sp.len() - 1 {
                    assert(sp[i] == l.spine_pending()[i]);
                    assert(sp[j] == l.spine_pending()[j]);
                } else {
                    assert(sp[i] == l.spine_pending()[i]);
                    assert(l.as_map().dom().contains(sp[i].key.repr()));
                    // keys of the left subtree come strictly before this key
                    K::lemma_before_trichotomy(sp[i].key.repr(), sk);
                }
            }
            assert forall|i: int, j: int|
                0 <= i < sr.len() && 0 <= j < sp.len() implies (#[trigger] sr[i]).key.repr() != (
            #[trigger] sp[j]).key.repr() by {
                if j < sp.len() - 1 {
                    assert(sp[j] == l.spine_pending()[j]);
                } else {
                    assert(l.as_map().dom().contains(sr[i].key.repr()));
                    K::lemma_before_trichotomy(sr[i].key.repr(), sk);
                }
            }
        } else if self.right is Some {
            let r = *self.right.unwrap();
            r.lemma_spine_keys();
            assert(Node::opt_as_map(self.right) == r.as_map());
            let sr = self.spine_ready();
            let sp = self.spine_pending();
            assert(sr == seq![self] + r.spine_ready());
            assert(sp == r.spine_pending());
            assert forall|i: int| 0 <= i < sr.len() implies self.as_map().dom().contains(
                (#[trigger] sr[i]).key.repr(),
            ) by {
                if i > 0 {
                    assert(sr[i] == r.spine_ready()[i - 1]);
                    assert(r.as_map().dom().contains(sr[i].key.repr()));
                } else {
                    assert(sr[i] == self);
                }
            }
            assert forall|i: int| 0 <= i < sp.len() implies self.as_map().dom().contains(
                (#[trigger] sp[i]).key.repr(),
            ) by {
                assert(r.as_map().dom().contains(sp[i].key.repr()));
            }
            assert forall|i: int, j: int| 0 <= i < j < sr.len() implies K::before(
                (#[trigger] sr[i]).key.repr(),
                (#[trigger] sr[j]).key.repr(),
            ) by {
                assert(sr[j] == r.spine_ready()[j - 1]);
                assert(r.as_map().dom().contains(sr[j].key.repr()));
                if i > 0 {
                    assert(sr[i] == r.spine_ready()[i - 1]);
                } else {
                    assert(sr[i] == self);
                    // every key of the right subtree comes after this one
                }
            }
            assert forall|i: int, j: int|
                0 <= i < sr.len() && 0 <= j < sp.len() implies (#[trigger] sr[i]).key.repr() != (
            #[trigger] sp[j]).key.repr() by {
                assert(r.as_map().dom().contains(sp[j].key.repr()));
                if i > 0 {
                    assert(sr[i] == r.spine_ready()[i - 1]);
                } else {
                    assert(sr[i] == self);
                    K::lemma_before_trichotomy(sk, sp[j].key.repr());
                }
            }
        } else {
            assert(self.spine_ready() == seq![self]);
        }
    }

    /// The in-order sequence has exactly one pair per node.
    pub proof fn lemma_in_seq_size(self)
        ensures
            self.in_seq().len() == self.size(),
        decreases self,
    {
        Node::lemma_opt_in_seq_size(self.left);
        Node::lemma_opt_in_seq_size(self.right);
    }

    /// The in-order sequence of an optional subtree has one pair per node.
    pub proof fn lemma_opt_in_seq_size(node: Option<Box<Node<K, V>>>)
        ensures
            Node::opt_in_seq(node).len() == Node::opt_size(node),
        decreases node,
    {
        match node {
            None => {},
            Some(n) => {
                n.lemma_in_seq_size();
            },
        }
    }

    /// In a well-formed subtree, the in-order sequence carries exactly the
    /// entries of the subtree's map, each key exactly once, in strictly
    /// ascending key order.
    pub proof fn lemma_in_seq_props(self)
        requires
            self.wf(),
        ensures
            forall|i: int|
                0 <= i < self.in_seq().len() ==> self.as_map().dom().contains(
                    (#[trigger] self.in_seq()[i]).0,
                ) && self.as_map()[self.in_seq()[i].0] == self.in_seq()[i].1,
            forall|k: K::Repr| #[trigger]
                self.as_map().dom().contains(k) ==> exists|i: int|
                    0 <= i < self.in_seq().len() && (#[trigger] self.in_seq()[i]).0 == k,
            forall|i: int, j: int|
                0 <= i < j < self.in_seq().len() ==> K::before(
                    (#[trigger] self.in_seq()[i]).0,
                    (#[trigger] self.in_seq()[j]).0,
                ),
        decreases self,
    {
        let s = self.in_seq();
        let sl = Node::opt_in_seq(self.left);
        let sr = Node::opt_in_seq(self.right);
        let lm = Node::opt_as_map(self.left);
        let rm = Node::opt_as_map(self.right);
        let sk = self.key.repr();
        let nl = sl.len() as int;
        Node::lemma_opt_in_seq_props(self.left);
        Node::lemma_opt_in_seq_props(self.right);
        self.lemma_map_frame();
        assert(s.len() == nl + 1 + sr.len());
        assert(s[nl] == (sk, self.value));
        assert forall|i: int| 0 <= i < nl implies s[i] == sl[i] by {}
        assert forall|i: int| nl + 1 <= i < s.len() implies s[i] == sr[i - nl - 1] by {}

        assert forall|i: int| 0 <= i < s.len() implies self.as_map().dom().contains((s[i]).0)
            && self.as_map()[s[i].0] == s[i].1 by {
            if i < nl {
                assert(lm.dom().contains(sl[i].0));
            } else if i > nl {
                assert(rm.dom().contains(sr[i - nl - 1].0));
            }
        }
        assert forall|k: K::Repr| self.as_map().dom().contains(k) implies exists|i: int|
            0 <= i < s.len() && (#[trigger] s[i]).0 == k by {
            if k == sk {
                assert(s[nl].0 == k);
            } else if rm.dom().contains(k) {
                let i = choose|i: int| 0 <= i < sr.len() && (#[trigger] sr[i]).0 == k;
                assert(s[i + nl + 1].0 == k);
            } else {
                assert(lm.dom().contains(k));
                let i = choose|i: int| 0 <= i < sl.len() && (#[trigger] sl[i]).0 == k;
                assert(s[i].0 == k);
            }
        }
        assert forall|i: int, j: int| 0 <= i < j < s.len() implies K::before(
            (s[i]).0,
            (s[j]).0,
        ) by {
            if i < nl && j == nl {
                assert(lm.dom().contains(sl[i].0));
            } else if i < nl && j > nl {
                assert(lm.dom().contains(sl[i].0));
                assert(rm.dom().contains(sr[j - nl - 1].0));
                K::lemma_before_transitive(sl[i].0, sk, sr[j - nl - 1].0);
            } else if i == nl && j > nl {
                assert(rm.dom().contains(sr[j - nl - 1].0));
            }
        }
    }

    /// The in-order properties of `lemma_in_seq_props`, lifted to an
    /// optional subtree.
    pub proof fn lemma_opt_in_seq_props(node: Option<Box<Node<K, V>>>)
        requires
            Node::opt_wf(node),
        ensures
            forall|i: int|
                0 <= i < Node::opt_in_seq(node).len() ==> Node::opt_as_map(node).dom().contains(
                    (#[trigger] Node::opt_in_seq(node)[i]).0,
                ) && Node::opt_as_map(node)[Node::opt_in_seq(node)[i].0] == Node::opt_in_seq(
                    node,
                )[i].1,
            forall|k: K::Repr| #[trigger]
                Node::opt_as_map(node).dom().contains(k) ==> exists|i: int|
                    0 <= i < Node::opt_in_seq(node).len() && (#[trigger] Node::opt_in_seq(
                        node,
                    )[i]).0 == k,
            forall|i: int, j: int|
                0 <= i < j < Node::opt_in_seq(node).len() ==> K::before(
                    (#[trigger] Node::opt_in_seq(node)[i]).0,
                    (#[trigger] Node::opt_in_seq(node)[j]).0,
                ),
        decreases node,
    {
        match node {
            None => {},
            Some(n) => {
                n.lemma_in_seq_props();
                assert(Node::opt_in_seq(node) == n.in_seq());
                assert(Node::opt_as_map(node) == n.as_map());
                let s = Node::opt_in_seq(node);
                assert forall|k: K::Repr|
                    Node::opt_as_map(node).dom().contains(k) implies exists|i: int|
                    0 <= i < s.len() && (#[trigger] s[i]).0 == k by {
                    let i = choose|i: int|
                        0 <= i < n.in_seq().len() && (#[trigger] n.in_seq()[i]).0 == k;
                    assert(s[i].0 == k);
                }
            },
        }
    }

    /// Creates a new node with a key and a value.
    pub fn new(key: K, value: V) -> (n: Node<K, V>)
        ensures
            n.key == key,
            n.value == value,
            n.left is None,
            n.right is None,
            n.wf(),
            n.size() == 1,
            n.as_map() =~= Map::empty().insert(key.repr(), value),
            n.in_seq() =~= seq![(key.repr(), value)],
    {
        Node { key, value, left: None, right: None }
    }

    /// Returns whether or not the node is a leaf (has no children).
    pub fn is_leaf(&self) -> (r: bool)
        ensures
            r == (self.left is None && self.right is None),
    {
        self.left.is_none() && self.right.is_none()
    }

    /// Returns the number of children on the node.
    pub fn nb_children(&self) -> (r: usize)
        ensures
            r == (if self.left is Some { 1int } else { 0int }) + (if self.right is Some {
                1int
            } else {
                0int
            }),
    {
        let l: usize = if self.left.is_some() { 1 } else { 0 };
        let rc: usize = if self.right.is_some() { 1 } else { 0 };
        l + rc
    }

    pub fn has_left_child(&self) -> (r: bool)
        ensures
            r == (self.left is Some),
    {
        self.left.is_some()
    }

    pub fn has_right_child(&self) -> (r: bool)
        ensures
            r == (self.right is Some),
    {
        self.right.is_some()
    }

    /// Inserts a key/value pair in the node's children.
    ///
    /// Returns the value previously stored under an equal key, if any; when
    /// it does, the node count of the subtree is unchanged, otherwise it
    /// grows by one.
    pub fn insert(&mut self, key: K, value: V) -> (r: Option<V>)
        requires
            old(self).wf(),
        ensures
            final(self).wf(),
            final(self).as_map() =~= old(self).as_map().insert(key.repr(), value),
            Some(Box::new(*final(self))) == Node::spec_insert(
                Some(Box::new(*old(self))),
                key,
                value,
            ),
            r is Some <==> old(self).as_map().dom().contains(key.repr()),
            r is Some ==> r.unwrap() == old(self).as_map()[key.repr()],
            final(self).size() == old(self).size() + (if old(self).as_map().dom().contains(
                key.repr(),
            ) {
                0int
            } else {
                1int
            }),
        decreases *old(self),
    {
        match key.compare(&self.key) {
            Ordering::Equal => {
                proof {
                    Self::lemma_subtrees_miss_key(*self, key.repr());
                }
                let mut out = value;
                core::mem::swap(&mut self.value, &mut out);
                proof {
                    assert(*self == Node {
                        key: old(self).key,
                        value,
                        left: old(self).left,
                        right: old(self).right,
                    });
                    assert(*Box::new(*old(self)) == *old(self));
                    assert(Node::spec_insert(Some(Box::new(*old(self))), key, value) == Some(
                        Box::new(*self),
                    ));
                }
                Some(out)
            },
            Ordering::Less => {
                proof {
                    Self::lemma_subtrees_miss_key(*self, key.repr());
                }
                let r = Self::insert_opt(&mut self.left, key, value);
                proof {
                    assert(*self == Node {
                        key: old(self).key,
                        value: old(self).value,
                        left: Node::spec_insert(old(self).left, key, value),
                        right: old(self).right,
                    });
                    assert(*Box::new(*old(self)) == *old(self));
                    assert(Node::spec_insert(Some(Box::new(*old(self))), key, value) == Some(
                        Box::new(*self),
                    ));
                }
                r
            },
            Ordering::Greater => {
                proof {
                    Self::lemma_subtrees_miss_key(*self, key.repr());
                }
                let r = Self::insert_opt(&mut self.right, key, value);
                proof {
                    assert(*self == Node {
                        key: old(self).key,
                        value: old(self).value,
                        left: old(self).left,
                        right: Node::spec_insert(old(self).right, key, value),
                    });
                    K::lemma_before_trichotomy(old(self).key.repr(), key.repr());
                    assert(*Box::new(*old(self)) == *old(self));
                    assert(Node::spec_insert(Some(Box::new(*old(self))), key, value) == Some(
                        Box::new(*self),
                    ));
                }
                r
            },
        }
    }

    /// Inserts into an optional subtree, creating the node if the slot is
    /// empty.
    fn insert_opt(node: &mut Option<Box<Node<K, V>>>, key: K, value: V) -> (r: Option<V>)
        requires
            Node::opt_wf(*old(node)),
        ensures
            Node::opt_wf(*final(node)),
            Node::opt_as_map(*final(node)) =~= Node::opt_as_map(*old(node)).insert(
                key.repr(),
                value,
            ),
            *final(node) == Node::spec_insert(*old(node), key, value),
            r is Some <==> Node::opt_as_map(*old(node)).dom().contains(key.repr()),
            r is Some ==> r.unwrap() == Node::opt_as_map(*old(node))[key.repr()],
            Node::opt_size(*final(node)) == Node::opt_size(*old(node)) + (if Node::opt_as_map(
                *old(node),
            ).dom().contains(key.repr()) {
                0int
            } else {
                1int
            }),
        decreases *old(node),
    {
        match node.take() {
            None => {
                *node = Some(Box::new(Node::new(key, value)));
                None
            },
            Some(mut child) => {
                let r = (&mut *child).insert(key, value);
                *node = Some(child);
                r
            },
        }
    }

    /// In a well-formed node, a key value that compares equal, less or
    /// greater against this node's key can sit in at most one place: the
    /// node itself, the left subtree, or the right subtree.
    pub(crate) proof fn lemma_subtrees_miss_key(self, k: K::Repr)
        requires
            self.wf(),
        ensures
            K::before(k, self.key.repr()) ==> !Node::opt_as_map(self.right).dom().contains(k)
                && k != self.key.repr(),
            K::before(self.key.repr(), k) ==> !Node::opt_as_map(self.left).dom().contains(k) && k
                != self.key.repr(),
            k == self.key.repr() ==> !Node::opt_as_map(self.left).dom().contains(k)
                && !Node::opt_as_map(self.right).dom().contains(k),
    {
        let sk = self.key.repr();
        K::lemma_before_trichotomy(k, sk);
        if Node::opt_as_map(self.right).dom().contains(k) {
            // from well-formedness, the node's key comes before k
            K::lemma_before_trichotomy(sk, k);
        }
        if Node::opt_as_map(self.left).dom().contains(k) {
            K::lemma_before_trichotomy(k, sk);
        }
    }

    /// Removes and returns the minimum (key, value) pair of a non-empty
    /// subtree, the pair whose key value comes before every other key value
    /// in it.
    pub(crate) fn remove_min(node: &mut Option<Box<Node<K, V>>>) -> (kv: (K, V))
        requires
            *old(node) is Some,
            Node::opt_wf(*old(node)),
        ensures
            Node::opt_wf(*final(node)),
            Node::opt_as_map(*old(node)).dom().contains(kv.0.repr()),
            Node::opt_as_map(*old(node))[kv.0.repr()] == kv.1,
            Node::opt_as_map(*final(node)) =~= Node::opt_as_map(*old(node)).remove(kv.0.repr()),
            Node::opt_size(*final(node)) == Node::opt_size(*old(node)) - 1,
            forall|k: K::Repr| #[trigger]
                Node::opt_as_map(*old(node)).dom().contains(k) ==> k == kv.0.repr() || K::before(
                    kv.0.repr(),
                    k,
                ),
        decreases *old(node),
    {
        let mut boxed = node.take().unwrap();
        if boxed.left.is_none() {
            proof {
                let ghost n0 = *boxed;
                let sk = n0.key.repr();
                assert(Node::opt_as_map(*old(node)) == n0.as_map());
                assert forall|k: K::Repr| #[trigger]
                    Node::opt_as_map(n0.right).dom().contains(k) implies k != sk && K::before(
                    sk,
                    k,
                ) by {
                    K::lemma_before_trichotomy(sk, k);
                }
                assert forall|k: K::Repr| #[trigger]
                    n0.as_map().dom().contains(k) implies k == sk || K::before(sk, k) by {
                    if k != sk {
                        assert(Node::opt_as_map(n0.right).dom().contains(k));
                    }
                }
                assert(Node::opt_as_map(n0.right) =~= n0.as_map().remove(sk));
                assert(Node::opt_size(*old(node)) == 1 + Node::opt_size(n0.right));
            }
            *node = boxed.right;
            (boxed.key, boxed.value)
        } else {
            let ghost n0 = *boxed;
            let kv = Self::remove_min(&mut boxed.left);
            *node = Some(boxed);
            proof {
                let mk = kv.0.repr();
                let sk = n0.key.repr();
                assert(Node::opt_as_map(*old(node)) == n0.as_map());
                // the minimum of the left subtree is below this node's key,
                // hence below everything in the right subtree as well
                assert(Node::opt_as_map(n0.left).dom().contains(mk));
                K::lemma_before_trichotomy(mk, sk);
                assert forall|k: K::Repr| #[trigger]
                    Node::opt_as_map(n0.right).dom().contains(k) implies k != mk && K::before(
                    mk,
                    k,
                ) by {
                    K::lemma_before_transitive(mk, sk, k);
                    K::lemma_before_trichotomy(mk, k);
                }
                let lm = Node::opt_as_map(n0.left);
                let rm = Node::opt_as_map(n0.right);
                assert(n0.as_map() == lm.union_prefer_right(rm).insert(sk, n0.value));
                assert(!rm.dom().contains(mk));
                assert(lm[mk] == kv.1);
                assert(n0.as_map()[mk] == kv.1);
                assert forall|k: K::Repr| #[trigger]
                    n0.as_map().dom().contains(k) implies k == mk || K::before(mk, k) by {
                    if rm.dom().contains(k) {
                    } else if k == sk {
                    } else {
                        assert(lm.dom().contains(k));
                    }
                }
                assert(Node::opt_as_map(*node) =~= n0.as_map().remove(mk));
                assert(Node::opt_size(*old(node)) == 1 + Node::opt_size(n0.left)
                    + Node::opt_size(n0.right));
                assert(Node::opt_size(*node) == 1 + Node::opt_size(boxed.left) + Node::opt_size(
                    n0.right,
                ));
            }
            kv
        }
    }

    /// Fetches a node object from a given key.
    ///
    /// The key must be present in the subtree; the returned slot holds the
    /// node carrying it.
    pub fn get_node<'x>(node: &'x Option<Box<Node<K, V>>>, key: &K) -> (r: &'x Option<
        Box<Node<K, V>>,
    >)
        requires
            Node::opt_wf(*node),
            Node::opt_as_map(*node).dom().contains(key.repr()),
        ensures
            *r is Some,
            r.unwrap().wf(),
            r.unwrap().key.repr() == key.repr(),
            r.unwrap().value == Node::opt_as_map(*node)[key.repr()],
            forall|k: K::Repr| #[trigger]
                r.unwrap().as_map().dom().contains(k) ==> Node::opt_as_map(*node).dom().contains(k)
                    && r.unwrap().as_map()[k] == Node::opt_as_map(*node)[k],
        decreases *node,
    {
        let boxed = node.as_ref().unwrap();
        match key.compare(&boxed.key) {
            Ordering::Equal => {
                proof {
                    Self::lemma_subtrees_miss_key(**boxed, key.repr());
                }
                node
            },
            Ordering::Less => {
                proof {
                    Self::lemma_subtrees_miss_key(**boxed, key.repr());
                    Self::lemma_map_frame(**boxed);
                }
                Node::get_node(&boxed.left, key)
            },
            Ordering::Greater => {
                proof {
                    Self::lemma_subtrees_miss_key(**boxed, key.repr());
                    Self::lemma_map_frame(**boxed);
                }
                Node::get_node(&boxed.right, key)
            },
        }
    }

    /// Each entry of a well-formed node's subtrees is an entry of the
    /// node's own map, unchanged.
    pub(crate) proof fn lemma_map_frame(self)
        requires
            self.wf(),
        ensures
            forall|k: K::Repr| #[trigger]
                Node::opt_as_map(self.left).dom().contains(k) ==> self.as_map().dom().contains(k)
                    && self.as_map()[k] == Node::opt_as_map(self.left)[k],
            forall|k: K::Repr| #[trigger]
                Node::opt_as_map(self.right).dom().contains(k) ==> self.as_map().dom().contains(k)
                    && self.as_map()[k] == Node::opt_as_map(self.right)[k],
    {
        let sk = self.key.repr();
        assert forall|k: K::Repr| #[trigger]
            Node::opt_as_map(self.left).dom().contains(k) implies self.as_map().dom().contains(k)
            && self.as_map()[k] == Node::opt_as_map(self.left)[k] by {
            K::lemma_before_trichotomy(k, sk);
            if Node::opt_as_map(self.right).dom().contains(k) {
                K::lemma_before_trichotomy(sk, k);
            }
        }
        assert forall|k: K::Repr| #[trigger]
            Node::opt_as_map(self.right).dom().contains(k) implies self.as_map().dom().contains(k)
            && self.as_map()[k] == Node::opt_as_map(self.right)[k] by {
            K::lemma_before_trichotomy(sk, k);
        }
    }

    /// Fetches and returns the minimum node slot from a subtree, reached by
    /// descending left children while one exists.
    pub fn get_min<'x>(node: &'x Option<Box<Node<K, V>>>) -> (r: &'x Option<Box<Node<K, V>>>)
        requires
            *node is Some,
            Node::opt_wf(*node),
        ensures
            *r is Some,
            r.unwrap().wf(),
            r.unwrap().left is None,
            Node::opt_as_map(*node).dom().contains(r.unwrap().key.repr()),
            r.unwrap().value == Node::opt_as_map(*node)[r.unwrap().key.repr()],
            forall|k: K::Repr| #[trigger]
                Node::opt_as_map(*node).dom().contains(k) ==> k == r.unwrap().key.repr()
                    || K::before(r.unwrap().key.repr(), k),
        decreases *node,
    {
        let boxed = node.as_ref().unwrap();
        if boxed.left.is_some() {
            let r = Node::get_min(&boxed.left);
            proof {
                let mk = r.unwrap().key.repr();
                let sk = boxed.key.repr();
                Self::lemma_map_frame(**boxed);
                K::lemma_before_trichotomy(mk, sk);
                assert forall|k: K::Repr| #[trigger]
                    Node::opt_as_map(*node).dom().contains(k) implies k == mk || K::before(
                    mk,
                    k,
                ) by {
                    if Node::opt_as_map(boxed.right).dom().contains(k) {
                        K::lemma_before_transitive(mk, sk, k);
                    } else if k != sk {
                        assert(Node::opt_as_map(boxed.left).dom().contains(k));
                    }
                }
            }
            r
        } else {
            proof {
                let sk = boxed.key.repr();
                let lm = Node::opt_as_map(boxed.left);
                let rm = Node::opt_as_map(boxed.right);
                assert(Node::opt_as_map(*node) == lm.union_prefer_right(rm).insert(
                    sk,
                    boxed.value,
                ));
                assert forall|k: K::Repr| #[trigger]
                    Node::opt_as_map(*node).dom().contains(k) implies k == sk || K::before(
                    sk,
                    k,
                ) by {
                    if k != sk {
                        assert(lm.dom().contains(k) || rm.dom().contains(k));
                        assert(rm.dom().contains(k));
                    }
                }
            }
            node
        }
    }

    /// Fetches and returns if possible a value from a given key.
    ///
    /// If the key is present in the subtree, `Some(value)` is returned.
    /// If not, `None` is returned.
    pub fn get(&self, key: &K) -> (r: Option<&V>)
        requires
            self.wf(),
        ensures
            match r {
                Some(v) => self.as_map().dom().contains(key.repr()) && *v == self.as_map()[
                    key.repr()
                ],
                None => !self.as_map().dom().contains(key.repr()),
            },
        decreases self,
    {
        match key.compare(&self.key) {
            Ordering::Equal => {
                proof {
                    Self::lemma_subtrees_miss_key(*self, key.repr());
                }
                Some(&self.value)
            },
            Ordering::Less => {
                proof {
                    Self::lemma_subtrees_miss_key(*self, key.repr());
                }
                match &self.left {
                    Some(child) => child.get(key),
                    None => None,
                }
            },
            Ordering::Greater => {
                proof {
                    Self::lemma_subtrees_miss_key(*self, key.repr());
                }
                match &self.right {
                    Some(child) => child.get(key),
                    None => None,
                }
            },
        }
    }
}

} // verus!
