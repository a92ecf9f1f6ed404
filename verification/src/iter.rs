//! The lazy in-order iterator: a stack of the nodes that are still owed a
//! visit.

use crate::tree::Bst;
use vstd::prelude::*;

verus! {

/// An in-order iterator over a tree.
///
/// It borrows the tree and keeps a stack of references to the nodes on the
/// path to the current one that have not been visited yet; the current node
/// is on top.
#[derive(Debug)]
pub struct BstIter<'a, E> {
    nodes: Vec<&'a Bst<E>>,
}

/// One step of an iteration, over the elements that are left before and
/// after it: the first of them is produced and leaves; where none is left,
/// nothing is produced and nothing changes.
pub open spec fn yields<E>(before: Seq<E>, item: Option<&E>, after: Seq<E>) -> bool {
    if before.len() == 0 {
        item is None && after == before
    } else {
        item == Some(&before[0]) && after == before.drop_first()
    }
}

impl<'a, E> BstIter<'a, E> {
    /// The left spine of `node`: `node`, then its left child, then the left
    /// child of that, down to the first node that has no left child.
    pub closed spec fn spine(node: &'a Bst<E>) -> Seq<&'a Bst<E>>
        decreases node,
    {
        match node.left {
            None => seq![node],
            Some(child) => seq![node] + Self::spine(&*child),
        }
    }

    /// The left spine of the right child of `node`; empty where `node` has no
    /// right child.
    pub closed spec fn right_spine(node: &'a Bst<E>) -> Seq<&'a Bst<E>> {
        match node.right {
            None => Seq::empty(),
            Some(child) => Self::spine(&*child),
        }
    }

    /// The nodes that the iterator holds, from the bottom of its stack to the
    /// top.
    pub closed spec fn stack(&self) -> Seq<&'a Bst<E>> {
        self.nodes@
    }

    /// What a stack of nodes stands for: for each node from the top down, its
    /// element and then the elements of its right subtree.
    spec fn owed(stack: Seq<&'a Bst<E>>) -> Seq<E>
        decreases stack.len(),
    {
        if stack.len() == 0 {
            Seq::empty()
        } else {
            seq![stack.last().value] + Bst::listing(stack.last().right) + Self::owed(
                stack.drop_last(),
            )
        }
    }

    /// The elements that the iterator has yet to produce, in the order in
    /// which it will produce them.
    pub closed spec fn remaining(&self) -> Seq<E> {
        Self::owed(self.nodes@)
    }

    /// The number of node references that the iterator holds.
    pub open spec fn depth(&self) -> nat {
        self.stack().len()
    }

    /// A bound on `depth` that never grows: the height of the bottom node of
    /// the stack, zero once the iterator is exhausted.
    pub open spec fn ceiling(&self) -> nat {
        if self.stack().len() == 0 {
            0
        } else {
            self.stack()[0].height()
        }
    }

    /// Each node of `stack` is the left child of the one under it or lies
    /// below that left child.
    pub closed spec fn chained(stack: Seq<&'a Bst<E>>) -> bool {
        forall|i: int| 0 <= i < stack.len() - 1 ==> stack[i].left_covers(*#[trigger] stack[i + 1])
    }

    /// The order of the stack: each node on it lies in the left subtree of
    /// the one under it, so that the stack runs along one way down the tree.
    /// Every iterator that `new` makes has it, and `next` keeps it.
    pub closed spec fn well_formed(&self) -> bool {
        Self::chained(self.nodes@)
    }

    /// A left spine starts at its node, is chained, ends in a node without a
    /// left child, and is no longer than the node is high.
    pub proof fn lemma_spine(node: &'a Bst<E>)
        ensures
            Self::spine(node).len() >= 1,
            Self::spine(node)[0] == node,
            Self::spine(node).last().at(seq![false]) is None,
            Self::spine(node).len() <= node.height(),
            Self::chained(Self::spine(node)),
        decreases node,
    {
        let spine = Self::spine(node);
        match node.left {
            None => {},
            Some(child) => {
                let below = Self::spine(&*child);
                Self::lemma_spine(&*child);
                assert(spine.last() == below.last());
                assert forall|i: int| 0 <= i < spine.len() - 1 implies spine[i].left_covers(
                    *#[trigger] spine[i + 1],
                ) by {
                    if i > 0 {
                        assert(spine[i] == below[i - 1] && spine[i + 1] == below[i - 1 + 1]);
                    }
                }
            },
        }
    }

    /// A chained stack is no deeper than its bottom node is high.
    proof fn lemma_chained_depth(stack: Seq<&'a Bst<E>>)
        requires
            stack.len() > 0,
            Self::chained(stack),
        ensures
            stack.len() + stack.last().height() <= stack[0].height() + 1,
        decreases stack.len(),
    {
        if stack.len() > 1 {
            let rest = stack.drop_last();
            assert forall|i: int| 0 <= i < rest.len() - 1 implies rest[i].left_covers(
                *#[trigger] rest[i + 1],
            ) by {
                assert(rest[i + 1] == stack[i + 1]);
            }
            Self::lemma_chained_depth(rest);
            let under = rest.last();
            assert(under.left_covers(*stack[rest.len() - 1 + 1]));
            under.left.unwrap().lemma_covers(*stack.last(), *stack.last());
        }
    }

    /// The iterator never holds more references than the tree is high.
    pub proof fn lemma_depth_within_ceiling(&self)
        requires
            self.well_formed(),
        ensures
            self.depth() <= self.ceiling(),
    {
        if self.nodes@.len() > 0 {
            Self::lemma_chained_depth(self.nodes@);
        }
    }

    /// Pushes `node` and the chain of left children below it, so that the
    /// least element of `node` comes out next and all of `node` before what
    /// was owed so far.
    fn fill_left(&mut self, node: &'a Bst<E>)
        requires
            old(self).well_formed(),
            old(self).nodes@.len() > 0 ==> old(self).nodes@.last().left_covers(*node),
        ensures
            final(self).nodes@ == old(self).nodes@ + Self::spine(node),
            final(self).remaining() == node@ + old(self).remaining(),
            final(self).well_formed(),
    {
        let mut cur = node;
        self.nodes.push(cur);
        assert(self.nodes@.drop_last() =~= old(self).nodes@);
        loop
            invariant
                self.nodes@ + Self::spine(cur).drop_first() =~= old(self).nodes@ + Self::spine(
                    node,
                ),
                Bst::listing(cur.left) + Self::owed(self.nodes@) =~= node@ + Self::owed(
                    old(self).nodes@,
                ),
                self.nodes@.len() > 0,
                self.nodes@.last() == cur,
                Self::chained(self.nodes@),
            ensures
                self.nodes@ =~= old(self).nodes@ + Self::spine(node),
                Self::owed(self.nodes@) =~= node@ + Self::owed(old(self).nodes@),
                Self::chained(self.nodes@),
            decreases cur@.len(),
        {
            match &cur.left {
                None => {
                    break ;
                },
                Some(child) => {
                    let ghost before = self.nodes@;
                    cur = &**child;
                    self.nodes.push(cur);
                    assert(self.nodes@.drop_last() =~= before);
                },
            }
        }
    }

    /// An iterator over the whole of `node`, starting at its least element:
    /// its stack is the left spine of `node`.
    pub fn new(node: &'a Bst<E>) -> (it: BstIter<'a, E>)
        ensures
            it.stack() == Self::spine(node),
            it.remaining() == node@,
            it.well_formed(),
            it.ceiling() == node.height(),
    {
        let mut this = Self { nodes: Vec::new() };
        this.fill_left(node);
        proof {
            Self::lemma_spine(node);
        }
        this
    }

    /// Produces the next element in order, or `None` once all have been
    /// produced; after that every call gives `None` again.
    ///
    /// A step takes the top node off the stack and puts the left spine of its
    /// right child there; the nodes below stay.
    pub fn next(&mut self) -> (item: Option<&'a E>)
        requires
            old(self).well_formed(),
        ensures
            yields(old(self).remaining(), item, final(self).remaining()),
            old(self).stack().len() > 0 ==> final(self).stack() == old(self).stack().drop_last()
                + Self::right_spine(old(self).stack().last()),
            old(self).stack().len() == 0 ==> final(self).stack() == old(self).stack(),
            final(self).well_formed(),
            final(self).ceiling() <= old(self).ceiling(),
    {
        match self.nodes.pop() {
            None => None,
            Some(node) => {
                let ghost rest = self.nodes@;
                proof {
                    assert(rest =~= old(self).nodes@.drop_last());
                    if rest.len() > 0 {
                        let under = rest.last();
                        assert(under.left_covers(*old(self).nodes@[rest.len() - 1 + 1]));
                    }
                }
                if let Some(right_child) = node.right.as_ref() {
                    proof {
                        assert(right_child.covers(**right_child));
                        assert(node.covers(**right_child));
                        node.lemma_covers(**right_child, **right_child);
                        if rest.len() > 0 {
                            rest.last().left.unwrap().lemma_covers(*node, **right_child);
                        }
                        Self::lemma_spine(&**right_child);
                    }
                    self.fill_left(right_child);
                } else {
                    assert(self.nodes@ =~= rest + Self::right_spine(node));
                }
                assert(self.remaining() =~= old(self).remaining().drop_first());
                Some(&node.value)
            },
        }
    }
}

impl<E: Ord> Bst<E> {
    /// An iterator over the elements in ascending order, starting at the
    /// least.
    pub fn iter(&self) -> (it: BstIter<'_, E>)
        ensures
            it.stack() == BstIter::spine(self),
            it.remaining() == self@,
            it.well_formed(),
            it.ceiling() == self.height(),
    {
        BstIter::new(self)
    }
}

} // verus!
