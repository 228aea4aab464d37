use vstd::prelude::*;

verus! {

use std::collections::VecDeque;
use vstd::seq_lib::lemma_flatten_concat;
use crate::abr::ABR;
use crate::abr_iterator::ABRIterator;
use crate::abr_iterator::deref_seq;
use crate::abr_iterator::lemma_pending_cons;
use crate::abr_iterator::lemma_pending_len;
use crate::abr_iterator::lemma_pending_snoc;
use crate::abr_iterator::pending_seq;
use crate::abr_iterator::ready_seq;
use crate::node::Node;
use crate::total_order::TotalOrder;

/// A splittable cursor over an [`ABR`](crate::abr::ABR).
///
/// It shares the two-queue state of the sequential cursor and additionally
/// offers the splitting contract an adaptive fork-join scheduler consumes: a
/// cheap size estimate, a split into two independent order-respecting parts,
/// and a downgrade to a sequential cursor.
///
/// Extracting a bounded prefix without relinquishing the remainder is not
/// supported: split, then downgrade the part to be drained.
pub struct ABRParallelIterator<'a, K: TotalOrder, V> {
    pub small_nodes: VecDeque<&'a Node<K, V>>,
    pub big_nodes: VecDeque<&'a Node<K, V>>,
}

impl<'a, K: TotalOrder, V> ABRParallelIterator<'a, K, V> {
    /// The exact sequence of pairs this cursor has still to yield.
    pub open spec fn remaining(self) -> Seq<(K::Repr, V)> {
        ready_seq(self.small_nodes@) + pending_seq(self.big_nodes@)
    }

    /// The work left fits comfortably in a machine word, so that the size
    /// estimate can be computed without overflow. Splits only shrink the
    /// remaining work, so every cursor derived from a tree keeps this.
    pub open spec fn inv(self) -> bool {
        self.remaining().len() + 2 <= usize::MAX
    }

    /// The O(1) size estimate: one for a non-empty ready queue, one per
    /// pending ancestor, and one more when the back-most pending ancestor
    /// still has an unexplored right subtree.
    pub open spec fn size_estimate(self) -> int {
        (if self.small_nodes@.len() > 0 {
            1int
        } else {
            0int
        }) + self.big_nodes@.len() + (if self.big_nodes@.len() > 0
            && self.big_nodes@.last().right is Some {
            1int
        } else {
            0int
        })
    }

    /// Create a new splittable cursor from a tree.
    ///
    /// The tree must not be empty; the fresh cursor owes exactly the tree's
    /// full in-order sequence.
    pub fn new(tree: &'a ABR<K, V>) -> (it: ABRParallelIterator<'a, K, V>)
        requires
            tree.root is Some,
            tree.wf(),
            tree.length <= usize::MAX - 2,
        ensures
            it.remaining() == tree.in_order(),
            it.inv(),
            deref_seq(it.small_nodes@) == tree.root.unwrap().spine_ready(),
            deref_seq(it.big_nodes@) == tree.root.unwrap().spine_pending(),
    {
        let mut small_nodes: VecDeque<&'a Node<K, V>> = VecDeque::new();
        let mut big_nodes: VecDeque<&'a Node<K, V>> = VecDeque::new();

        let root = tree.root.as_ref().unwrap();
        ABRIterator::descent(&mut small_nodes, &mut big_nodes, &**root);

        proof {
            assert(ready_seq(small_nodes@) + pending_seq(big_nodes@) =~= tree.in_order());
            Node::lemma_opt_in_seq_size(tree.root);
            assert(deref_seq(small_nodes@) =~= tree.root.unwrap().spine_ready());
            assert(deref_seq(big_nodes@) =~= tree.root.unwrap().spine_pending());
        }
        ABRParallelIterator { small_nodes, big_nodes }
    }

    /// The scheduler's cheap estimate of the work left: always defined, and
    /// exactly the size-estimate formula.
    ///
    /// It undercounts at most: it never walks a subtree, so unexplored
    /// right subtrees of pending ancestors beyond the back-most one are not
    /// counted. Still, it never exceeds the true remaining count, and it is
    /// zero exactly when the traversal is exhausted. An estimate of one
    /// may come from a lone ready node with nothing pending, so it is no
    /// licence to split; an estimate of at least two guarantees a pending
    /// ancestor to hand off, which is what a split requires.
    pub fn base_length(&self) -> (r: Option<usize>)
        requires
            self.inv(),
        ensures
            r is Some,
            r.unwrap() == self.size_estimate(),
            r.unwrap() <= self.remaining().len(),
            r.unwrap() == 0 <==> self.remaining().len() == 0,
            r.unwrap() >= 2 ==> self.big_nodes@.len() > 0,
    {
        proof {
            lemma_pending_len(self.big_nodes@);
            if self.big_nodes@.len() == 0 {
                assert(pending_seq(self.big_nodes@).len() == 0);
            }
        }
        let mut est: usize = if self.small_nodes.len() > 0 {
            1
        } else {
            0
        };
        est = est + self.big_nodes.len();
        if self.big_nodes.len() > 0 {
            let back = &self.big_nodes[self.big_nodes.len() - 1];
            if back.has_right_child() {
                est = est + 1;
            }
        }
        Some(est)
    }

    /// Splits the cursor into a left part and a new right part, handing a
    /// contiguous order-respecting suffix of the remaining work to the
    /// right part: the two parts' remaining sequences concatenate, left
    /// then right, to exactly the original one.
    ///
    /// The cut always happens at the next available ancestor boundary: the
    /// back-most pending ancestor moves to the right part, while already
    /// resolved ready nodes always stay with the left part. When only one
    /// pending ancestor is left and nothing is ready, that ancestor is
    /// first promoted into the ready queue and its right subtree expanded
    /// one level, so the split still has something to offer. The index is
    /// accepted for interface compatibility but does not move the cut.
    #[allow(unused_variables)]
    pub fn divide_at(self, index: usize) -> (parts: (Self, Self))
        requires
            self.inv(),
            self.big_nodes@.len() > 0,
        ensures
            parts.0.inv(),
            parts.1.inv(),
            parts.0.remaining() + parts.1.remaining() == self.remaining(),
            parts.0.remaining().len() > 0,
            parts.1.small_nodes@.len() == 0,
            parts.1.big_nodes@.len() <= 1,
            self.big_nodes@.len() >= 2 || self.small_nodes@.len() > 0 ==> parts.0.small_nodes@
                == self.small_nodes@ && parts.0.big_nodes@ == self.big_nodes@.drop_last()
                && parts.1.big_nodes@ == seq![self.big_nodes@.last()],
            self.big_nodes@.len() == 1 && self.small_nodes@.len() == 0
                ==> parts.0.small_nodes@.len() > 0 && parts.0.small_nodes@[0]
                == self.big_nodes@[0],
            self.big_nodes@.len() == 1 && self.small_nodes@.len() == 0 && self.big_nodes@[0].right is None ==> parts.0.small_nodes@ == seq![self.big_nodes@[0]]
                && parts.0.big_nodes@.len() == 0 && parts.1.big_nodes@.len() == 0,
            self.big_nodes@.len() == 1 && self.small_nodes@.len() == 0 && self.big_nodes@[0].right is Some ==> deref_seq(parts.0.small_nodes@) == seq![*self.big_nodes@[0]]
                + self.big_nodes@[0].right.unwrap().spine_ready() && deref_seq(
                parts.0.big_nodes@,
            ) + deref_seq(parts.1.big_nodes@) == self.big_nodes@[0].right.unwrap().spine_pending(),
            self.big_nodes@.len() == 1 && self.small_nodes@.len() == 0 && self.big_nodes@[0].right is Some && self.big_nodes@[0].right.unwrap().spine_pending().len() > 0
                ==> parts.1.big_nodes@.len() == 1 && *parts.1.big_nodes@[0] == self.big_nodes@[0].right.unwrap().spine_pending().last(),
    {
        let ABRParallelIterator { mut small_nodes, mut big_nodes } = self;
        let ghost promoted = big_nodes@.len() == 1 && small_nodes@.len() == 0;
        if big_nodes.len() == 1 && small_nodes.len() == 0 {
            let node = big_nodes.pop_back().unwrap();
            proof {
                assert(node == self.big_nodes@[0]);
                assert(self.big_nodes@ =~= seq![node] + Seq::<&Node<K, V>>::empty());
                lemma_pending_cons(Seq::<&Node<K, V>>::empty(), node);
            }
            small_nodes.push_back(node);
            proof {
                assert(small_nodes@ =~= seq![node]);
                assert(ready_seq(small_nodes@) =~= seq![(node.key.repr(), node.value)]);
                assert(deref_seq(small_nodes@) =~= seq![*node]);
                assert(big_nodes@ =~= Seq::<&Node<K, V>>::empty());
            }
            if node.has_right_child() {
                let right = node.right.as_ref().unwrap();
                ABRIterator::descent(&mut small_nodes, &mut big_nodes, &**right);
                proof {
                    assert(deref_seq(small_nodes@) =~= seq![*node]
                        + node.right.unwrap().spine_ready());
                    assert(deref_seq(big_nodes@) =~= node.right.unwrap().spine_pending());
                    assert(small_nodes@.len() > 0 && small_nodes@[0] == node);
                }
            }
            proof {
                assert(ready_seq(small_nodes@) + pending_seq(big_nodes@) =~= self.remaining());
            }
        }
        let ghost mid_small = small_nodes@;
        let ghost mid_big = big_nodes@;
        let given = big_nodes.pop_back();
        let right_part = match given {
            Some(g) => {
                let mut handed: VecDeque<&'a Node<K, V>> = VecDeque::new();
                handed.push_back(g);
                proof {
                    assert(mid_big =~= big_nodes@.push(g));
                    lemma_pending_snoc(big_nodes@, g);
                    assert(handed@ =~= seq![g] + Seq::<&Node<K, V>>::empty());
                    lemma_pending_cons(Seq::<&Node<K, V>>::empty(), g);
                }
                ABRParallelIterator { small_nodes: VecDeque::new(), big_nodes: handed }
            },
            None => {
                ABRParallelIterator {
                    small_nodes: VecDeque::new(),
                    big_nodes: VecDeque::new(),
                }
            },
        };
        let left_part = ABRParallelIterator { small_nodes, big_nodes };
        proof {
            assert(left_part.remaining() + right_part.remaining() =~= ready_seq(mid_small)
                + pending_seq(mid_big));
            assert(ready_seq(mid_small) + pending_seq(mid_big) == self.remaining());
            lemma_pending_len(left_part.big_nodes@);
            if !promoted {
                assert(left_part.big_nodes@ =~= self.big_nodes@.drop_last());
                assert(right_part.big_nodes@ =~= seq![self.big_nodes@.last()]);
                if self.small_nodes@.len() == 0 {
                    assert(left_part.big_nodes@.len() >= 1);
                    assert(left_part.remaining().len() > 0);
                }
            } else {
                assert(mid_small.len() > 0);
                assert(left_part.remaining().len() > 0);
                if mid_big.len() > 0 {
                    assert(deref_seq(mid_big).last() == *mid_big.last());
                    assert(deref_seq(left_part.big_nodes@) + deref_seq(right_part.big_nodes@)
                        =~= deref_seq(mid_big));
                }
            }
        }
        (left_part, right_part)
    }

    /// Downgrade to a sequential cursor over the very same two-queue state,
    /// for leaf-level execution once no further splitting is worthwhile.
    pub fn to_sequential(self) -> (it: ABRIterator<'a, K, V>)
        ensures
            it.remaining() == self.remaining(),
            it.small_nodes@ == self.small_nodes@,
            it.big_nodes@ == self.big_nodes@,
    {
        ABRIterator { small_nodes: self.small_nodes, big_nodes: self.big_nodes }
    }
}

/// Splitting a traversal and then splitting its left part again yields,
/// concatenated in left-to-right order, the same sequence as the traversal
/// itself: the three ordered parts cut it at the two corresponding
/// boundaries.
pub proof fn lemma_split_associative<'a, K: TotalOrder, V>(
    whole: ABRParallelIterator<'a, K, V>,
    left: ABRParallelIterator<'a, K, V>,
    right: ABRParallelIterator<'a, K, V>,
    left_left: ABRParallelIterator<'a, K, V>,
    left_right: ABRParallelIterator<'a, K, V>,
)
    requires
        left.remaining() + right.remaining() == whole.remaining(),
        left_left.remaining() + left_right.remaining() == left.remaining(),
    ensures
        left_left.remaining() + left_right.remaining() + right.remaining() == whole.remaining(),
{
}

/// Replacing one part of an ordered division of work by two parts that
/// concatenate to it leaves the concatenation of the whole division
/// unchanged. Repeatedly splitting a traversal to arbitrary depth therefore
/// never reorders or loses work: draining the leaves in left-to-right order
/// reproduces the original sequence.
pub proof fn lemma_flatten_split<T>(parts: Seq<Seq<T>>, i: int, left: Seq<T>, right: Seq<T>)
    requires
        0 <= i < parts.len(),
        parts[i] == left + right,
    ensures
        (parts.take(i) + seq![left, right] + parts.skip(i + 1)).flatten() == parts.flatten(),
{
    let before = parts.take(i);
    let after = parts.skip(i + 1);
    broadcast use Seq::lemma_flatten_singleton;

    lemma_flatten_concat(before + seq![left, right], after);
    lemma_flatten_concat(before, seq![left, right]);
    assert(seq![left, right].flatten() == left + seq![right].flatten()) by {
        assert(seq![left, right].drop_first() =~= seq![right]);
    }
    assert(seq![right].flatten() == right);
    lemma_flatten_concat(before + seq![parts[i]], after);
    lemma_flatten_concat(before, seq![parts[i]]);
    assert(seq![parts[i]].flatten() == parts[i]);
    assert(parts =~= before + seq![parts[i]] + after);
    assert((before + seq![left, right] + after).flatten() == before.flatten() + (left + right)
        + after.flatten());
}

} // verus!
