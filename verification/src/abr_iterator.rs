use vstd::prelude::*;

verus! {

use std::collections::VecDeque;
use crate::abr::ABR;
use crate::node::Node;
use crate::total_order::TotalOrder;

/// The pairs delivered by a ready queue: each node yields exactly its own
/// (key value, value) pair, in queue order.
pub open spec fn ready_seq<K: TotalOrder, V>(s: Seq<&Node<K, V>>) -> Seq<(K::Repr, V)> {
    s.map_values(|n: &Node<K, V>| (n.key.repr(), n.value))
}

/// The pairs still owed by a pending queue: each pending ancestor yields its
/// own pair followed by the full in-order sequence of its right subtree,
/// front to back.
pub open spec fn pending_seq<K: TotalOrder, V>(s: Seq<&Node<K, V>>) -> Seq<(K::Repr, V)>
    decreases s.len(),
{
    if s.len() == 0 {
        Seq::empty()
    } else {
        seq![(s[0].key.repr(), s[0].value)] + Node::opt_in_seq(s[0].right) + pending_seq(
            s.drop_first(),
        )
    }
}

/// The nodes of a queue, by value, in queue order.
pub open spec fn deref_seq<K: TotalOrder, V>(s: Seq<&Node<K, V>>) -> Seq<Node<K, V>> {
    s.map_values(|n: &Node<K, V>| *n)
}

/// A sequential cursor over an [`ABR`](crate::abr::ABR), yielding its nodes
/// in ascending key order.
///
/// The cursor state is a ready queue of nodes already in their final
/// in-order positions, drained front first, and a pending queue of
/// ancestors whose right subtree has not been explored yet, the front being
/// the next ancestor to resume into.
pub struct ABRIterator<'a, K: TotalOrder, V> {
    pub small_nodes: VecDeque<&'a Node<K, V>>,
    pub big_nodes: VecDeque<&'a Node<K, V>>,
}

/// Prepending a node to a pending queue prepends its pair and its right
/// subtree's sequence to what the queue owes.
pub proof fn lemma_pending_cons<K: TotalOrder, V>(s: Seq<&Node<K, V>>, n: &Node<K, V>)
    ensures
        pending_seq(seq![n] + s) == seq![(n.key.repr(), n.value)] + Node::opt_in_seq(n.right)
            + pending_seq(s),
{
    let t = seq![n] + s;
    assert(t[0] == n);
    assert(t.drop_first() =~= s);
}

/// Appending a node to the back of a pending queue appends its pair and its
/// right subtree's sequence to what the queue owes.
pub proof fn lemma_pending_snoc<K: TotalOrder, V>(s: Seq<&Node<K, V>>, n: &Node<K, V>)
    ensures
        pending_seq(s.push(n)) == pending_seq(s) + (seq![(n.key.repr(), n.value)]
            + Node::opt_in_seq(n.right)),
    decreases s.len(),
{
    let t = s.push(n);
    if s.len() == 0 {
        assert(t[0] == n);
        assert(t.drop_first() =~= Seq::<&Node<K, V>>::empty());
        assert(pending_seq(t) == seq![(n.key.repr(), n.value)] + Node::opt_in_seq(n.right)
            + pending_seq(t.drop_first()));
        assert(pending_seq(t.drop_first()) =~= Seq::<(K::Repr, V)>::empty());
        assert(pending_seq(t) =~= pending_seq(s) + (seq![(n.key.repr(), n.value)]
            + Node::opt_in_seq(n.right)));
    } else {
        lemma_pending_snoc(s.drop_first(), n);
        assert(t[0] == s[0]);
        assert(t.drop_first() =~= s.drop_first().push(n));
        assert(pending_seq(t) =~= pending_seq(s) + (seq![(n.key.repr(), n.value)]
            + Node::opt_in_seq(n.right)));
    }
}

/// A pending queue owes at least one pair per queued node, one more when
/// the back node has a right subtree.
pub proof fn lemma_pending_len<K: TotalOrder, V>(s: Seq<&Node<K, V>>)
    ensures
        pending_seq(s).len() >= s.len(),
        s.len() > 0 && s.last().right is Some ==> pending_seq(s).len() >= s.len() + 1,
    decreases s.len(),
{
    if s.len() > 0 {
        lemma_pending_len(s.drop_first());
        if s.len() == 1 {
            assert(s.last() == s[0]);
            if s[0].right is Some {
                Node::lemma_opt_in_seq_size(s[0].right);
            }
        } else {
            assert(s.drop_first().last() == s.last());
            assert(s.drop_first().len() == s.len() - 1);
        }
    }
}

impl<'a, K: TotalOrder, V> ABRIterator<'a, K, V> {
    /// The exact sequence of pairs this cursor has still to yield.
    pub open spec fn remaining(self) -> Seq<(K::Repr, V)> {
        ready_seq(self.small_nodes@) + pending_seq(self.big_nodes@)
    }

    /// Create a new iterator from a tree.
    ///
    /// The tree must not be empty; the fresh cursor owes exactly the tree's
    /// full in-order sequence.
    pub fn new(tree: &'a ABR<K, V>) -> (it: ABRIterator<'a, K, V>)
        requires
            tree.root is Some,
        ensures
            it.remaining() == tree.in_order(),
            deref_seq(it.small_nodes@) == tree.root.unwrap().spine_ready(),
            deref_seq(it.big_nodes@) == tree.root.unwrap().spine_pending(),
    {
        let mut smalls: VecDeque<&'a Node<K, V>> = VecDeque::new();
        let mut bigs: VecDeque<&'a Node<K, V>> = VecDeque::new();

        let root = tree.root.as_ref().unwrap();
        ABRIterator::descent(&mut smalls, &mut bigs, &**root);

        proof {
            assert(ready_seq(smalls@) + pending_seq(bigs@) =~= tree.in_order());
            assert(deref_seq(smalls@) =~= tree.root.unwrap().spine_ready());
            assert(deref_seq(bigs@) =~= tree.root.unwrap().spine_pending());
        }
        ABRIterator { small_nodes: smalls, big_nodes: bigs }
    }

    /// Walk the leftmost spine of the subtree rooted at `start`, extending
    /// the two queues so that together they owe, after what they already
    /// owed, exactly the in-order sequence of that subtree.
    ///
    /// The per-queue effect is fully determined: the ready queue is
    /// extended, in place, by exactly the spine's ready run, and the
    /// pending queue gains exactly the spine's pending ancestors at its
    /// front. Every newly pended ancestor still has a left child, no newly
    /// ready node does, and on a well-formed subtree the new ready run
    /// ascends strictly and no key is enqueued twice. One linear pass, no
    /// node visited twice.
    pub fn descent(
        smalls: &mut VecDeque<&'a Node<K, V>>,
        bigs: &mut VecDeque<&'a Node<K, V>>,
        start: &'a Node<K, V>,
    )
        ensures
            ready_seq(final(smalls)@) + pending_seq(final(bigs)@) == ready_seq(old(smalls)@)
                + start.in_seq() + pending_seq(old(bigs)@),
            deref_seq(final(smalls)@) == deref_seq(old(smalls)@) + start.spine_ready(),
            deref_seq(final(bigs)@) == start.spine_pending() + deref_seq(old(bigs)@),
            old(smalls)@.is_prefix_of(final(smalls)@),
            old(bigs)@.is_suffix_of(final(bigs)@),
            forall|i: int|
                0 <= i < start.spine_pending().len() ==> (#[trigger] final(bigs)@[i]).left is Some,
            forall|i: int|
                old(smalls)@.len() <= i < final(smalls)@.len() ==> (#[trigger] final(smalls)@[i]).left is None,
            start.wf() ==> forall|i: int, j: int|
                old(smalls)@.len() <= i < j < final(smalls)@.len() ==> K::before(
                    (#[trigger] final(smalls)@[i]).key.repr(),
                    (#[trigger] final(smalls)@[j]).key.repr(),
                ),
            start.wf() ==> forall|i: int, j: int|
                0 <= i < j < start.spine_pending().len() ==> (#[trigger] final(bigs)@[i]).key.repr() != (#[trigger] final(bigs)@[j]).key.repr(),
            start.wf() ==> forall|i: int, j: int|
                old(smalls)@.len() <= i < final(smalls)@.len() && 0 <= j
                    < start.spine_pending().len() ==> (#[trigger] final(smalls)@[i]).key.repr() != (#[trigger] final(bigs)@[j]).key.repr(),
    {
        let mut cur = start;
        loop
            invariant_except_break
                ready_seq(smalls@) + cur.in_seq() + pending_seq(bigs@) =~= ready_seq(
                    old(smalls)@,
                ) + start.in_seq() + pending_seq(old(bigs)@),
                deref_seq(smalls@) + cur.spine_ready() =~= deref_seq(old(smalls)@)
                    + start.spine_ready(),
                bigs@.len() >= old(bigs)@.len(),
                cur.spine_pending() + deref_seq(
                    bigs@.take(bigs@.len() - old(bigs)@.len()),
                ) =~= start.spine_pending(),
                old(smalls)@.is_prefix_of(smalls@),
                old(bigs)@.is_suffix_of(bigs@),
            ensures
                ready_seq(smalls@) + pending_seq(bigs@) == ready_seq(old(smalls)@)
                    + start.in_seq() + pending_seq(old(bigs)@),
                deref_seq(smalls@) == deref_seq(old(smalls)@) + start.spine_ready(),
                deref_seq(bigs@) == start.spine_pending() + deref_seq(old(bigs)@),
                old(smalls)@.is_prefix_of(smalls@),
                old(bigs)@.is_suffix_of(bigs@),
            decreases cur.size(),
        {
            let ghost smalls0 = smalls@;
            let ghost bigs0 = bigs@;
            if cur.nb_children() == 0 {
                smalls.push_back(cur);
                proof {
                    assert(cur.in_seq() =~= seq![(cur.key.repr(), cur.value)]);
                    assert(ready_seq(smalls@) =~= ready_seq(smalls0) + seq![
                        (cur.key.repr(), cur.value),
                    ]);
                    assert(ready_seq(smalls@) + pending_seq(bigs@) =~= ready_seq(old(smalls)@)
                        + start.in_seq() + pending_seq(old(bigs)@));
                    assert(cur.spine_ready() == seq![*cur]);
                    assert(deref_seq(smalls@) =~= deref_seq(smalls0) + seq![*cur]);
                    assert(deref_seq(smalls@) =~= deref_seq(old(smalls)@) + start.spine_ready());
                    assert(deref_seq(bigs@.take(bigs@.len() - old(bigs)@.len()))
                        =~= start.spine_pending());
                    assert(bigs@ =~= bigs@.take(bigs@.len() - old(bigs)@.len()) + old(bigs)@);
                    assert(deref_seq(bigs@) =~= start.spine_pending() + deref_seq(old(bigs)@));
                    assert(old(smalls)@.is_prefix_of(smalls@));
                }
                break ;
            }
            if cur.has_left_child() {
                bigs.push_front(cur);
                let next = cur.left.as_ref().unwrap();
                proof {
                    lemma_pending_cons(bigs0, cur);
                    assert(ready_seq(smalls@) + next.in_seq() + pending_seq(bigs@) =~= ready_seq(
                        smalls0,
                    ) + cur.in_seq() + pending_seq(bigs0));
                    assert(cur.spine_pending() == next.spine_pending() + seq![*cur]);
                    assert(cur.spine_ready() == next.spine_ready());
                    assert(bigs@.take(bigs@.len() - old(bigs)@.len()) =~= seq![cur] + bigs0.take(
                        bigs0.len() - old(bigs)@.len(),
                    ));
                    assert(deref_seq(bigs@.take(bigs@.len() - old(bigs)@.len())) =~= seq![*cur]
                        + deref_seq(bigs0.take(bigs0.len() - old(bigs)@.len())));
                    assert(next.spine_pending() + deref_seq(
                        bigs@.take(bigs@.len() - old(bigs)@.len()),
                    ) =~= start.spine_pending());
                    assert(old(bigs)@.is_suffix_of(bigs@));
                }
                cur = &**next;
            } else {
                smalls.push_back(cur);
                let next = cur.right.as_ref().unwrap();
                proof {
                    assert(ready_seq(smalls@) =~= ready_seq(smalls0) + seq![
                        (cur.key.repr(), cur.value),
                    ]);
                    assert(ready_seq(smalls@) + next.in_seq() + pending_seq(bigs@) =~= ready_seq(
                        smalls0,
                    ) + cur.in_seq() + pending_seq(bigs0));
                    assert(cur.spine_ready() == seq![*cur] + next.spine_ready());
                    assert(cur.spine_pending() == next.spine_pending());
                    assert(deref_seq(smalls@) =~= deref_seq(smalls0) + seq![*cur]);
                    assert(deref_seq(smalls@) + next.spine_ready() =~= deref_seq(old(smalls)@)
                        + start.spine_ready());
                    assert(old(smalls)@.is_prefix_of(smalls@));
                }
                cur = &**next;
            }
        }
        proof {
            let d = start.spine_pending().len() as int;
            assert(deref_seq(bigs@).len() == bigs@.len());
            assert(bigs@.len() - old(bigs)@.len() == d);
            assert(deref_seq(smalls@).len() == smalls@.len());
            start.lemma_spine_shape();
            assert forall|i: int| 0 <= i < d implies (#[trigger] bigs@[i]).left is Some by {
                assert(deref_seq(bigs@)[i] == *bigs@[i]);
                assert(deref_seq(bigs@)[i] == start.spine_pending()[i]);
            }
            let n0 = old(smalls)@.len() as int;
            assert forall|i: int| n0 <= i < smalls@.len() implies (#[trigger] smalls@[
            i]).left is None by {
                assert(deref_seq(smalls@)[i] == *smalls@[i]);
                assert(deref_seq(smalls@)[i] == start.spine_ready()[i - n0]);
            }
            if start.wf() {
                start.lemma_spine_keys();
                assert forall|i: int, j: int| n0 <= i < j < smalls@.len() implies K::before(
                    (#[trigger] smalls@[i]).key.repr(),
                    (#[trigger] smalls@[j]).key.repr(),
                ) by {
                    assert(deref_seq(smalls@)[i] == *smalls@[i]);
                    assert(deref_seq(smalls@)[j] == *smalls@[j]);
                    assert(deref_seq(smalls@)[i] == start.spine_ready()[i - n0]);
                    assert(deref_seq(smalls@)[j] == start.spine_ready()[j - n0]);
                }
                assert forall|i: int, j: int| 0 <= i < j < d implies (#[trigger] bigs@[
                i]).key.repr() != (#[trigger] bigs@[j]).key.repr() by {
                    assert(deref_seq(bigs@)[i] == *bigs@[i]);
                    assert(deref_seq(bigs@)[j] == *bigs@[j]);
                    assert(deref_seq(bigs@)[i] == start.spine_pending()[i]);
                    assert(deref_seq(bigs@)[j] == start.spine_pending()[j]);
                }
                assert forall|i: int, j: int|
                    n0 <= i < smalls@.len() && 0 <= j < d implies (#[trigger] smalls@[
                i]).key.repr() != (#[trigger] bigs@[j]).key.repr() by {
                    assert(deref_seq(smalls@)[i] == *smalls@[i]);
                    assert(deref_seq(smalls@)[i] == start.spine_ready()[i - n0]);
                    assert(deref_seq(bigs@)[j] == *bigs@[j]);
                    assert(deref_seq(bigs@)[j] == start.spine_pending()[j]);
                }
            }
        }
    }

    /// Returns the next node in ascending key order, or `None` once the
    /// cursor is exhausted.
    ///
    /// The yielded pair is always the head of the remaining sequence, and
    /// the cursor afterwards owes exactly its tail.
    pub fn next(&mut self) -> (r: Option<&'a Node<K, V>>)
        ensures
            match r {
                Some(n) => {
                    &&& old(self).remaining().len() > 0
                    &&& (n.key.repr(), n.value) == old(self).remaining()[0]
                    &&& final(self).remaining() == old(self).remaining().drop_first()
                },
                None => {
                    &&& old(self).remaining().len() == 0
                    &&& final(self).remaining() == old(self).remaining()
                },
            },
    {
        let ghost ready0 = self.small_nodes@;
        let ghost pend0 = self.big_nodes@;
        match self.small_nodes.pop_front() {
            Some(node) => {
                proof {
                    assert(ready_seq(ready0)[0] == (node.key.repr(), node.value));
                    assert(self.remaining() =~= old(self).remaining().drop_first());
                }
                Some(node)
            },
            None => {
                match self.big_nodes.pop_front() {
                    Some(n) => {
                        proof {
                            assert(pend0[0] == n);
                            assert(self.big_nodes@ =~= pend0.drop_first());
                            assert(old(self).remaining() =~= seq![(n.key.repr(), n.value)]
                                + Node::opt_in_seq(n.right) + pending_seq(pend0.drop_first()));
                        }
                        if n.right.is_some() {
                            let right = n.right.as_ref().unwrap();
                            ABRIterator::descent(
                                &mut self.small_nodes,
                                &mut self.big_nodes,
                                &**right,
                            );
                        }
                        proof {
                            assert(self.remaining() =~= old(self).remaining().drop_first());
                        }
                        Some(n)
                    },
                    None => {
                        proof {
                            assert(old(self).remaining() =~= Seq::<(K::Repr, V)>::empty());
                        }
                        None
                    },
                }
            },
        }
    }
}

} // verus!
