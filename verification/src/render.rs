//! The textual form of a tree: its elements in order, separated by single
//! spaces.

use crate::tree::Bst;
use std::fmt::Display;
use vstd::prelude::*;
use vstd::string::{to_string_from_display_ensures, StringExecFns};

verus! {

/// `labels` joined by single spaces, with no space before the first or after
/// the last.
pub open spec fn spaced(labels: Seq<Seq<char>>) -> Seq<char>
    decreases labels.len(),
{
    if labels.len() == 0 {
        Seq::empty()
    } else if labels.len() == 1 {
        labels[0]
    } else {
        spaced(labels.drop_last()) + seq![' '] + labels.last()
    }
}

/// `labels` are texts of `values`, one for one: each is what `to_string` may
/// give for its element.
pub open spec fn labelled<E: Display>(values: Seq<E>, labels: Seq<String>) -> bool {
    &&& labels.len() == values.len()
    &&& forall|i: int|
        0 <= i < values.len() ==> to_string_from_display_ensures::<E>(
            &#[trigger] values[i],
            labels[i],
        )
}

/// The characters of each label.
pub open spec fn characters(labels: Seq<String>) -> Seq<Seq<char>> {
    labels.map_values(|label: String| label@)
}

/// `text` is a rendering of `values`: texts of the elements, in the order of
/// `values`, separated by single spaces.
pub open spec fn renders<E: Display>(values: Seq<E>, text: Seq<char>) -> bool {
    exists|labels: Seq<String>| #[trigger]
        labelled(values, labels) && text == spaced(characters(labels))
}

/// Labels that make `text` a rendering of `values`, where `text` is one.
spec fn witness<E: Display>(values: Seq<E>, text: Seq<char>) -> Seq<String> {
    choose|labels: Seq<String>| #[trigger]
        labelled(values, labels) && text == spaced(characters(labels))
}

/// Joining distributes over a concatenation of two non-empty lists.
pub proof fn lemma_spaced_concat(a: Seq<Seq<char>>, b: Seq<Seq<char>>)
    requires
        a.len() > 0,
        b.len() > 0,
    ensures
        spaced(a + b) == spaced(a) + seq![' '] + spaced(b),
    decreases b.len(),
{
    assert((a + b).drop_last() =~= a + b.drop_last());
    if b.len() > 1 {
        lemma_spaced_concat(a, b.drop_last());
    }
}

/// The text of a node from the texts of its parts: the left subtree's and a
/// space if there is a left subtree, the element's, and a space and the right
/// subtree's if there is a right subtree.
pub fn compose(left: Option<String>, label: String, right: Option<String>) -> (text: String)
    ensures
        text@ == (match left {
            Some(l) => l@ + seq![' '],
            None => Seq::empty(),
        }) + label@ + (match right {
            Some(r) => seq![' '] + r@,
            None => Seq::empty(),
        }),
{
    proof {
        reveal_strlit(" ");
    }
    let mut text = String::new();
    if let Some(l) = left {
        text.append(l.as_str());
        text.append(" ");
    }
    text.append(label.as_str());
    if let Some(r) = right {
        text.append(" ");
        text.append(r.as_str());
    }
    assert(text@ =~= (match left {
        Some(l) => l@ + seq![' '],
        None => Seq::empty(),
    }) + label@ + (match right {
        Some(r) => seq![' '] + r@,
        None => Seq::empty(),
    }));
    text
}

impl<E: Display> Bst<E> {
    /// The in-order listing of the elements as text, separated by single
    /// spaces, with no space at either end.
    ///
    /// The text of each element is what its `to_string` gives.
    pub fn render(&self) -> (text: String)
        ensures
            renders(self@, text@),
        decreases self@.len(),
    {
        let left = match &self.left {
            Some(child) => Some(child.render()),
            None => None,
        };
        let label = self.value.to_string();
        let right = match &self.right {
            Some(child) => Some(child.render()),
            None => None,
        };
        let ghost l_labels = if left is Some {
            witness(Self::listing(self.left), left.unwrap()@)
        } else {
            Seq::empty()
        };
        let ghost r_labels = if right is Some {
            witness(Self::listing(self.right), right.unwrap()@)
        } else {
            Seq::empty()
        };
        let text = compose(left, label, right);
        proof {
            let labels = l_labels.push(label) + r_labels;
            let head = characters(l_labels.push(label));
            assert(labelled(self@, labels));
            assert(characters(labels) =~= head + characters(r_labels));
            assert(head =~= characters(l_labels) + seq![label@]);
            if l_labels.len() > 0 {
                lemma_spaced_concat(characters(l_labels), seq![label@]);
            }
            if r_labels.len() > 0 {
                lemma_spaced_concat(head, characters(r_labels));
            }
            assert(text@ =~= spaced(characters(labels)));
        }
        text
    }
}

} // verus!
