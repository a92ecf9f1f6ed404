//! The tree itself: construction and insertion.

use crate::order::{
    ascending, holds, lemma_ascending_parts, lemma_holds_middle, lemma_insert_before,
    lemma_insert_behind, lemma_order_facts, total_order, with_inserted,
};
use core::cmp::Ordering;
use vstd::prelude::*;

verus! {

/// A binary search tree with element type `E`.
///
/// A tree is never empty: it is a node that holds one element and owns up to
/// two subtrees.
#[derive(Debug)]
pub struct Bst<E> {
    pub(crate) value: E,
    pub(crate) left: Option<Box<Bst<E>>>,
    pub(crate) right: Option<Box<Bst<E>>>,
}

impl<E> Bst<E> {
    /// In-order listing of an optional subtree; empty where there is none.
    pub open(crate) spec fn listing(link: Option<Box<Bst<E>>>) -> Seq<E>
        decreases link,
    {
        match link {
            None => Seq::empty(),
            Some(node) => node.in_order(),
        }
    }

    /// Height of an optional subtree; zero where there is none.
    pub open(crate) spec fn reach(link: Option<Box<Bst<E>>>) -> nat
        decreases link,
    {
        match link {
            None => 0,
            Some(node) => node.height(),
        }
    }

    /// The number of nodes on the longest way from this node down to a leaf.
    pub open(crate) spec fn height(self) -> nat
        decreases self,
    {
        if Self::reach(self.left) >= Self::reach(self.right) {
            1 + Self::reach(self.left)
        } else {
            1 + Self::reach(self.right)
        }
    }

    /// The element at the end of `path`, which leads from the root downwards:
    /// `false` is a step to the left child, `true` one to the right child.
    /// `None` where the path leaves the tree.
    pub open(crate) spec fn at(self, path: Seq<bool>) -> Option<E>
        decreases path.len(),
    {
        if path.len() == 0 {
            Some(self.value)
        } else {
            match if path[0] {
                self.right
            } else {
                self.left
            } {
                None => None,
                Some(child) => child.at(path.drop_first()),
            }
        }
    }

    /// `node` is this tree or one of the subtrees below it.
    pub open(crate) spec fn covers(self, node: Bst<E>) -> bool
        decreases self,
    {
        ||| self == node
        ||| (match self.left {
            Some(child) => child.covers(node),
            None => false,
        })
        ||| (match self.right {
            Some(child) => child.covers(node),
            None => false,
        })
    }

    /// `node` is the left child of this tree or one of the subtrees below
    /// that child.
    pub open(crate) spec fn left_covers(self, node: Bst<E>) -> bool {
        match self.left {
            Some(child) => child.covers(node),
            None => false,
        }
    }

    /// The elements of the tree: left subtree, then the node, then the right
    /// subtree.
    pub open(crate) spec fn in_order(self) -> Seq<E>
        decreases self,
    {
        Self::listing(self.left).push(self.value) + Self::listing(self.right)
    }
}

impl<E> Bst<E> {
    /// A tree is at least one node high and no higher than it has elements.
    pub proof fn lemma_height_bounds(self)
        ensures
            1 <= self.height() <= self@.len(),
        decreases self,
    {
        if let Some(child) = self.left {
            child.lemma_height_bounds();
        }
        if let Some(child) = self.right {
            child.lemma_height_bounds();
        }
    }
}

impl<E> Bst<E> {
    /// What lies within a subtree lies within the tree, and is no higher.
    pub proof fn lemma_covers(self, middle: Bst<E>, node: Bst<E>)
        requires
            self.covers(middle),
            middle.covers(node),
        ensures
            self.covers(node),
            middle.height() <= self.height(),
        decreases self,
    {
        if self != middle {
            if let Some(child) = self.left {
                if child.covers(middle) {
                    child.lemma_covers(middle, node);
                }
            }
            if let Some(child) = self.right {
                if child.covers(middle) {
                    child.lemma_covers(middle, node);
                }
            }
        }
    }
}

impl<E> View for Bst<E> {
    type V = Seq<E>;

    open spec fn view(&self) -> Seq<E> {
        self.in_order()
    }
}

impl<E: Clone> Clone for Bst<E> {
    /// A deep copy: a tree of the same shape that shares no node with this
    /// one and holds a clone of each element at the place of the element.
    fn clone(&self) -> (copy: Self)
        ensures
            copy@.len() == self@.len(),
            forall|i: int| 0 <= i < self@.len() ==> cloned::<E>(#[trigger] self@[i], copy@[i]),
            forall|path: Seq<bool>| (#[trigger] copy.at(path)) is Some <==> self.at(path) is Some,
            forall|path: Seq<bool>|
                self.at(path) is Some ==> cloned::<E>(
                    self.at(path).unwrap(),
                    (#[trigger] copy.at(path)).unwrap(),
                ),
            copy.height() == self.height(),
        decreases self@.len(),
    {
        let left = match &self.left {
            Some(child) => Some(Box::new((&**child).clone())),
            None => None,
        };
        let value = self.value.clone();
        let right = match &self.right {
            Some(child) => Some(Box::new((&**child).clone())),
            None => None,
        };
        let copy = Bst { value, left, right };
        proof {
            assert forall|path: Seq<bool>|
                ((#[trigger] copy.at(path)) is Some <==> self.at(path) is Some) && (self.at(
                    path,
                ) is Some ==> cloned::<E>(self.at(path).unwrap(), copy.at(path).unwrap())) by {
                if path.len() > 0 {
                    let rest = path.drop_first();
                    if path[0] {
                        if self.right is Some {
                            assert(copy.at(path) == copy.right.unwrap().at(rest));
                        }
                    } else {
                        if self.left is Some {
                            assert(copy.at(path) == copy.left.unwrap().at(rest));
                        }
                    }
                }
            }
        }
        copy
    }
}

impl<E: Ord> Bst<E> {
    /// The search-tree property: the elements are in strictly ascending
    /// order, so no two of them compare as equal.
    pub open spec fn well_formed(&self) -> bool {
        ascending(self@)
    }

    /// A tree of one element.
    pub fn new(value: E) -> (tree: Self)
        ensures
            tree@ == seq![value],
            tree.well_formed(),
            tree.height() == 1,
            forall|path: Seq<bool>| path.len() > 0 ==> (#[trigger] tree.at(path)) is None,
    {
        Bst { value, left: None, right: None }
    }

    /// Inserts `new_val` at its place in the order.
    ///
    /// Returns `true` if it was inserted, and `false`, with the tree
    /// unchanged, if the tree already held an element that compares as equal.
    pub fn insert(&mut self, new_val: E) -> (inserted: bool)
        requires
            total_order::<E>(),
            old(self).well_formed(),
        ensures
            final(self).well_formed(),
            final(self)@ == with_inserted(old(self)@, new_val),
            inserted == !holds(old(self)@, new_val),
            forall|path: Seq<bool>|
                old(self).at(path) is Some ==> (#[trigger] final(self).at(path)) == old(self).at(
                    path,
                ),
            old(self).height() <= final(self).height() <= old(self).height() + 1,
        decreases old(self)@.len(),
    {
        let ghost l = Self::listing(self.left);
        let ghost r = Self::listing(self.right);
        proof {
            lemma_ascending_parts(l, self.value, r);
            lemma_order_facts(new_val, self.value, new_val);
            crate::order::lemma_insert_ascending(self@, new_val);
        }
        let inserted = match new_val.cmp(&self.value) {
            Ordering::Equal => {
                proof {
                    lemma_holds_middle(l, self.value, r, new_val);
                }
                false
            },
            Ordering::Less => {
                proof {
                    lemma_insert_before(l, self.value, r, new_val);
                }
                match self.left.as_mut() {
                    Some(left_child) => left_child.insert(new_val),
                    None => {
                        self.left = Some(Box::new(Bst::new(new_val)));
                        true
                    },
                }
            },
            Ordering::Greater => {
                proof {
                    lemma_insert_behind(l, self.value, r, new_val);
                }
                match self.right.as_mut() {
                    Some(right_child) => right_child.insert(new_val),
                    None => {
                        self.right = Some(Box::new(Bst::new(new_val)));
                        true
                    },
                }
            },
        };
        proof {
            assert(self@ =~= with_inserted(old(self)@, new_val));
            assert forall|path: Seq<bool>| old(self).at(path) is Some implies (#[trigger] self.at(
                path,
            )) == old(self).at(path) by {
                if path.len() > 0 {
                    let rest = path.drop_first();
                    if path[0] {
                        assert(self.at(path) == self.right.unwrap().at(rest));
                    } else {
                        assert(self.at(path) == self.left.unwrap().at(rest));
                    }
                }
            }
        }
        inserted
    }
}

} // verus!
