//! Laws of the library: what holds of every tree, of every iteration and of
//! how the operations go together, each proved from the contracts of the
//! operations.

use crate::iter::yields;
use crate::order::{
    ascending, below, holds, lemma_below_bounds, lemma_insert_ascending, lemma_order_facts,
    precedes, ties, total_order, with_inserted,
};
use crate::render::{characters, labelled, renders, spaced};
use crate::sum::{tally, Accumulate};
use crate::tree::Bst;
use std::fmt::Display;
use vstd::prelude::*;
use vstd::string::to_string_from_display_ensures;

verus! {

/// The elements of a tree that was made of `first` and then had the elements
/// of `rest` inserted one after the other.
pub open spec fn grown<E: Ord>(first: E, rest: Seq<E>) -> Seq<E>
    decreases rest.len(),
{
    if rest.len() == 0 {
        seq![first]
    } else {
        with_inserted(grown(first, rest.drop_last()), rest.last())
    }
}

/// No two elements of `s` compare as equal.
pub open spec fn distinct<E: Ord>(s: Seq<E>) -> bool {
    forall|i: int, j: int| 0 <= i < j < s.len() ==> !ties(s[i], s[j])
}

/// A tree built by insertions alone lists its elements in strictly ascending
/// order, whatever was inserted and in whatever order.
pub proof fn lemma_grown_ascending<E: Ord>(first: E, rest: Seq<E>)
    requires
        total_order::<E>(),
    ensures
        ascending(grown(first, rest)),
    decreases rest.len(),
{
    if rest.len() > 0 {
        lemma_grown_ascending(first, rest.drop_last());
        lemma_insert_ascending(grown(first, rest.drop_last()), rest.last());
    }
}

/// After an insertion the sequence holds what the one before held and what
/// was inserted, and nothing else.
pub proof fn lemma_insert_holds<E: Ord>(s: Seq<E>, v: E, w: E)
    requires
        total_order::<E>(),
    ensures
        holds(with_inserted(s, v), w) <==> holds(s, w) || ties(w, v),
{
    let t = with_inserted(s, v);
    if holds(s, v) {
        if ties(w, v) {
            let i = choose|i: int| 0 <= i < s.len() && ties(v, s[i]);
            lemma_order_facts(w, v, s[i]);
        }
    } else {
        let k = below(s, v);
        lemma_below_bounds(s, v);
        if holds(s, w) {
            let i = choose|i: int| 0 <= i < s.len() && ties(w, s[i]);
            let at = if i < k {
                i
            } else {
                i + 1
            };
            assert(t[at] == s[i]);
        }
        if ties(w, v) {
            assert(t[k] == v);
        }
        if holds(t, w) {
            let i = choose|i: int| 0 <= i < t.len() && ties(w, t[i]);
            if i < k {
                assert(t[i] == s[i]);
            } else if i > k {
                assert(t[i] == s[i - 1]);
            }
        }
    }
}

/// An element that the tree holds is not inserted again: the insertion
/// changes nothing. And what was inserted is held, so a second insertion of
/// the same element changes nothing either.
pub proof fn lemma_insert_again<E: Ord>(s: Seq<E>, v: E)
    requires
        total_order::<E>(),
    ensures
        holds(s, v) ==> with_inserted(s, v) == s,
        holds(with_inserted(s, v), v),
        with_inserted(with_inserted(s, v), v) == with_inserted(s, v),
{
    lemma_order_facts(v, v, v);
    lemma_insert_holds(s, v, v);
}

/// A tree built from elements of which no two compare as equal holds as many
/// elements as were put in.
pub proof fn lemma_grown_length<E: Ord>(first: E, rest: Seq<E>)
    requires
        total_order::<E>(),
        distinct(seq![first] + rest),
    ensures
        grown(first, rest).len() == rest.len() + 1,
        forall|w: E| holds(grown(first, rest), w) <==> holds(seq![first] + rest, w),
    decreases rest.len(),
{
    let all = seq![first] + rest;
    if rest.len() > 0 {
        let front = rest.drop_last();
        let v = rest.last();
        let before = seq![first] + front;
        assert(before =~= all.drop_last());
        lemma_grown_length(first, front);
        lemma_below_bounds(grown(first, front), v);
        if holds(before, v) {
            let i = choose|i: int| 0 <= i < before.len() && ties(v, before[i]);
            lemma_order_facts(v, all[i], v);
            assert(!ties(all[i], all[all.len() - 1]));
        }
        assert forall|w: E| holds(grown(first, rest), w) <==> holds(all, w) by {
            lemma_insert_holds(grown(first, front), v, w);
            if holds(before, w) {
                let i = choose|i: int| 0 <= i < before.len() && ties(w, before[i]);
                assert(all[i] == before[i]);
            }
            if ties(w, v) {
                assert(ties(w, all[all.len() - 1]));
            }
            if holds(all, w) {
                let i = choose|i: int| 0 <= i < all.len() && ties(w, all[i]);
                if i < before.len() {
                    assert(all[i] == before[i]);
                }
            }
        }
    }
}

/// A run of an iterator: `left[k]` lists what is left before step `k` and
/// `items[k]` is what that step gives, as `yields` says; `left[0]` is what was
/// left when the run began.
pub open spec fn run<E>(left: Seq<Seq<E>>, items: Seq<Option<&E>>) -> bool {
    &&& left.len() == items.len() + 1
    &&& forall|k: int| 0 <= k < items.len() ==> yields(#[trigger] left[k], items[k], left[k + 1])
}

/// An iteration produces exactly the elements that were left when it began,
/// in their order, and after them nothing, however often it is asked.
pub proof fn lemma_iteration<E>(left: Seq<Seq<E>>, items: Seq<Option<&E>>)
    requires
        run(left, items),
    ensures
        forall|k: int|
            0 <= k < items.len() ==> #[trigger] items[k] == if k < left[0].len() {
                Some(&left[0][k])
            } else {
                None
            },
        forall|k: int|
            0 <= k <= items.len() ==> #[trigger] left[k] == if k < left[0].len() {
                left[0].skip(k)
            } else {
                Seq::empty()
            },
    decreases items.len(),
{
    if items.len() > 0 {
        let n = items.len() - 1;
        let first_left = left.take(n + 1);
        let first_items = items.take(n);
        assert forall|k: int| 0 <= k < n implies yields(
            #[trigger] first_left[k],
            first_items[k],
            first_left[k + 1],
        ) by {
            assert(yields(left[k], items[k], left[k + 1]));
        }
        lemma_iteration(first_left, first_items);
        assert(first_left[0] == left[0] && first_left[n] == left[n]);
        assert(yields(left[n], items[n], left[n + 1]));
        if n < left[0].len() {
            assert(left[0].skip(n).drop_first() =~= left[0].skip(n + 1));
        }
        assert forall|k: int| 0 <= k < items.len() implies #[trigger] items[k] == if k
            < left[0].len() {
            Some(&left[0][k])
        } else {
            None
        } by {
            if k < n {
                assert(first_items[k] == items[k]);
            }
        }
        assert forall|k: int| 0 <= k <= items.len() implies #[trigger] left[k] == if k
            < left[0].len() {
            left[0].skip(k)
        } else {
            Seq::empty()
        } by {
            if k <= n {
                assert(first_left[k] == left[k]);
            }
        }
    }
}

/// An iterator over a well-formed tree produces its items in strictly
/// ascending order.
pub proof fn lemma_traversal_ascending<E: Ord>(
    tree: Bst<E>,
    left: Seq<Seq<E>>,
    items: Seq<Option<&E>>,
)
    requires
        tree.well_formed(),
        run(left, items),
        left[0] == tree@,
    ensures
        forall|j: int, k: int|
            0 <= j < k < items.len() && items[k] is Some ==> items[j] is Some && precedes(
                *items[j].unwrap(),
                *items[k].unwrap(),
            ),
{
    lemma_iteration(left, items);
}

/// An iterator over a tree built from `n` elements of which no two compare as
/// equal produces `n` items and then none.
pub proof fn lemma_traversal_count<E: Ord>(
    first: E,
    rest: Seq<E>,
    left: Seq<Seq<E>>,
    items: Seq<Option<&E>>,
)
    requires
        total_order::<E>(),
        distinct(seq![first] + rest),
        run(left, items),
        left[0] == grown(first, rest),
    ensures
        forall|k: int| 0 <= k < items.len() ==> (#[trigger] items[k] is Some <==> k < rest.len() + 1),
{
    lemma_grown_length(first, rest);
    lemma_iteration(left, items);
}

/// The items that an iterator over a tree produces, each turned to text and
/// the texts joined by single spaces, are a rendering of the tree:
/// `labels[k]` is a text of the item of step `k`, and the run is as long as
/// the tree has elements.
pub proof fn lemma_traversal_renders<E: Display>(
    tree: Bst<E>,
    left: Seq<Seq<E>>,
    items: Seq<Option<&E>>,
    labels: Seq<String>,
)
    requires
        run(left, items),
        left[0] == tree@,
        items.len() == tree@.len(),
        labels.len() == items.len(),
        forall|k: int|
            0 <= k < items.len() ==> items[k] is Some ==> to_string_from_display_ensures::<E>(
                #[trigger] items[k].unwrap(),
                labels[k],
            ),
    ensures
        renders(tree@, spaced(characters(labels))),
{
    lemma_iteration(left, items);
    assert forall|i: int| 0 <= i < tree@.len() implies to_string_from_display_ensures::<E>(
        &#[trigger] tree@[i],
        labels[i],
    ) by {
        assert(items[i].unwrap() == &tree@[i]);
    }
    assert(labelled(tree@, labels));
}

/// The total of a concatenation is the sum of the totals of its parts.
pub proof fn lemma_tally_concat<E: Accumulate>(a: Seq<E>, b: Seq<E>)
    ensures
        tally(a + b) == tally(a) + tally(b),
    decreases b.len(),
{
    if b.len() == 0 {
        assert(a + b =~= a);
    } else {
        assert((a + b).drop_last() =~= a + b.drop_last());
        lemma_tally_concat(a, b.drop_last());
    }
}

/// An insertion adds the amount of what was inserted to the total, and
/// nothing where the tree held the element already. So the sum after an
/// insertion is the sum before it plus the new element, wrapped around, and
/// exactly that where the type can hold it.
pub proof fn lemma_sum_after_insert<E: Ord + Accumulate>(s: Seq<E>, v: E)
    ensures
        holds(s, v) ==> tally(with_inserted(s, v)) == tally(s),
        !holds(s, v) ==> tally(with_inserted(s, v)) == tally(s) + v.amount(),
        !holds(s, v) ==> E::wrapped(tally(with_inserted(s, v))) == E::wrapped(
            E::wrapped(tally(s)) + v.amount(),
        ),
        !holds(s, v) && E::fits(E::wrapped(tally(s)) + v.amount()) ==> E::wrapped(
            tally(with_inserted(s, v)),
        ) == E::wrapped(tally(s)) + v.amount(),
{
    if !holds(s, v) {
        let k = below(s, v);
        lemma_below_bounds(s, v);
        let head = s.take(k).push(v);
        assert(s.insert(k, v) =~= head + s.skip(k));
        assert(s =~= s.take(k) + s.skip(k));
        assert(head.drop_last() =~= s.take(k));
        lemma_tally_concat(head, s.skip(k));
        lemma_tally_concat(s.take(k), s.skip(k));
        E::lemma_wrapped(tally(s), v.amount());
        E::lemma_wrapped(E::wrapped(tally(s)) + v.amount(), 0);
    }
}

/// Where cloning an element gives the element, a copy of a tree lists the
/// elements of the tree.
pub proof fn lemma_exact_copy<E: Clone>(original: Seq<E>, copy: Seq<E>)
    requires
        copy.len() == original.len(),
        forall|i: int| 0 <= i < original.len() ==> cloned::<E>(#[trigger] original[i], copy[i]),
        forall|a: E, b: E| cloned::<E>(a, b) ==> a == b,
    ensures
        copy == original,
{
}

/// Where cloning an element gives the element, a copy of a tree renders as
/// the tree does. Trees are values: an insertion into one of the two changes
/// that one and can change nothing of the other, which keeps this rendering.
pub proof fn lemma_copy_renders_alike<E: Clone + Display>(
    original: Seq<E>,
    copy: Seq<E>,
    text: Seq<char>,
)
    requires
        copy.len() == original.len(),
        forall|i: int| 0 <= i < original.len() ==> cloned::<E>(#[trigger] original[i], copy[i]),
        forall|a: E, b: E| cloned::<E>(a, b) ==> a == b,
    ensures
        renders(copy, text) <==> renders(original, text),
{
    lemma_exact_copy(original, copy);
}

} // verus!
