//! Ordered sequences: the mathematical model behind the tree.
//!
//! A tree is described by the sequence of its elements in order. The
//! functions here say what it means for such a sequence to be ascending and
//! what inserting an element into one gives.

use core::cmp::Ordering;
use vstd::prelude::*;
use vstd::std_specs::cmp::{OrdSpec, PartialEqSpec, PartialOrdSpec};

verus! {

/// The comparison of `E` is a total order that its `cmp` computes.
pub open spec fn total_order<E: Ord>() -> bool {
    &&& E::obeys_cmp_spec()
    &&& vstd::laws_cmp::obeys_cmp::<E>()
}

/// `a` orders strictly before `b`.
pub open spec fn precedes<E: Ord>(a: E, b: E) -> bool {
    a.cmp_spec(&b) == Ordering::Less
}

/// `a` and `b` compare as equal.
pub open spec fn ties<E: Ord>(a: E, b: E) -> bool {
    a.cmp_spec(&b) == Ordering::Equal
}

/// `a` orders strictly behind `b`.
pub open spec fn follows<E: Ord>(a: E, b: E) -> bool {
    a.cmp_spec(&b) == Ordering::Greater
}

/// Every element orders strictly before all that follow it.
pub open spec fn ascending<E: Ord>(s: Seq<E>) -> bool {
    forall|i: int, j: int| 0 <= i < j < s.len() ==> precedes(s[i], s[j])
}

/// Some element of `s` compares as equal to `v`.
pub open spec fn holds<E: Ord>(s: Seq<E>, v: E) -> bool {
    exists|i: int| 0 <= i < s.len() && ties(v, s[i])
}

/// The number of elements of `s` that order strictly before `v`.
pub open spec fn below<E: Ord>(s: Seq<E>, v: E) -> int
    decreases s.len(),
{
    if s.len() == 0 {
        0
    } else {
        below(s.drop_last(), v) + if precedes(s.last(), v) {
            1int
        } else {
            0int
        }
    }
}

/// `s` after an insertion of `v`: unchanged where `s` holds an equal element,
/// else with `v` placed behind the elements that order before it.
pub open spec fn with_inserted<E: Ord>(s: Seq<E>, v: E) -> Seq<E> {
    if holds(s, v) {
        s
    } else {
        s.insert(below(s, v), v)
    }
}

/// What the comparison laws give for three elements.
pub proof fn lemma_order_facts<E: Ord>(a: E, b: E, c: E)
    requires
        total_order::<E>(),
    ensures
        precedes(a, b) <==> follows(b, a),
        precedes(a, b) && precedes(b, c) ==> precedes(a, c),
        ties(a, b) <==> ties(b, a),
        ties(a, b) && ties(b, c) ==> ties(a, c),
        precedes(a, b) || ties(a, b) || precedes(b, a),
        ties(a, a),
{
    reveal(vstd::laws_cmp::obeys_cmp_ord);
    reveal(vstd::laws_cmp::obeys_cmp_partial_ord);
    reveal(vstd::laws_cmp::obeys_partial_cmp_spec_properties);
    reveal(vstd::laws_eq::obeys_eq_spec_properties);
}

/// `below` counts: it lies between zero and the length.
pub proof fn lemma_below_bounds<E: Ord>(s: Seq<E>, v: E)
    ensures
        0 <= below(s, v) <= s.len(),
    decreases s.len(),
{
    if s.len() > 0 {
        lemma_below_bounds(s.drop_last(), v);
    }
}

/// `below` adds up over a concatenation.
pub proof fn lemma_below_concat<E: Ord>(a: Seq<E>, b: Seq<E>, v: E)
    ensures
        below(a + b, v) == below(a, v) + below(b, v),
    decreases b.len(),
{
    if b.len() > 0 {
        assert((a + b).drop_last() =~= a + b.drop_last());
        lemma_below_concat(a, b.drop_last(), v);
    }
}

/// Where no element orders before `v`, none is counted.
pub proof fn lemma_below_none<E: Ord>(s: Seq<E>, v: E)
    requires
        forall|i: int| 0 <= i < s.len() ==> !precedes(s[i], v),
    ensures
        below(s, v) == 0,
    decreases s.len(),
{
    if s.len() > 0 {
        lemma_below_none(s.drop_last(), v);
    }
}

/// Where every element orders before `v`, all are counted.
pub proof fn lemma_below_all<E: Ord>(s: Seq<E>, v: E)
    requires
        forall|i: int| 0 <= i < s.len() ==> precedes(s[i], v),
    ensures
        below(s, v) == s.len(),
    decreases s.len(),
{
    if s.len() > 0 {
        lemma_below_all(s.drop_last(), v);
    }
}

/// In an ascending sequence the elements that order before `v` come first:
/// `below` is the place where `v` belongs.
pub proof fn lemma_below_splits<E: Ord>(s: Seq<E>, v: E)
    requires
        total_order::<E>(),
        ascending(s),
    ensures
        forall|i: int| 0 <= i < below(s, v) ==> precedes(s[i], v),
        forall|i: int| below(s, v) <= i < s.len() ==> !precedes(s[i], v),
    decreases s.len(),
{
    lemma_below_bounds(s, v);
    if s.len() > 0 {
        let front = s.drop_last();
        if precedes(s.last(), v) {
            assert forall|i: int| 0 <= i < front.len() implies precedes(front[i], v) by {
                lemma_order_facts(s[i], s.last(), v);
            }
            lemma_below_all(front, v);
            assert forall|i: int| 0 <= i < below(s, v) implies precedes(s[i], v) by {
                if i < front.len() {
                    assert(s[i] == front[i]);
                }
            }
        } else {
            lemma_below_splits(front, v);
            lemma_below_bounds(front, v);
            assert forall|i: int| below(s, v) <= i < s.len() implies !precedes(s[i], v) by {
                if i < front.len() {
                    assert(s[i] == front[i]);
                }
            }
            assert forall|i: int| 0 <= i < below(s, v) implies precedes(s[i], v) by {
                assert(s[i] == front[i]);
            }
        }
    }
}

/// Inserting into an ascending sequence gives an ascending sequence.
pub proof fn lemma_insert_ascending<E: Ord>(s: Seq<E>, v: E)
    requires
        total_order::<E>(),
        ascending(s),
    ensures
        ascending(with_inserted(s, v)),
{
    if !holds(s, v) {
        let k = below(s, v);
        let t = s.insert(k, v);
        lemma_below_bounds(s, v);
        lemma_below_splits(s, v);
        assert forall|i: int, j: int| 0 <= i < j < t.len() implies precedes(t[i], t[j]) by {
            if i == k {
                lemma_order_facts(s[j - 1], v, v);
            }
        }
    }
}

/// The two sides of an element in an ascending sequence.
pub proof fn lemma_ascending_parts<E: Ord>(l: Seq<E>, x: E, r: Seq<E>)
    requires
        ascending(l.push(x) + r),
    ensures
        ascending(l),
        ascending(r),
        forall|i: int| 0 <= i < l.len() ==> precedes(l[i], x),
        forall|j: int| 0 <= j < r.len() ==> precedes(x, r[j]),
{
    let s = l.push(x) + r;
    let n = l.len() as int;
    assert forall|i: int, j: int| 0 <= i < j < l.len() implies precedes(l[i], l[j]) by {
        assert(s[i] == l[i] && s[j] == l[j]);
    }
    assert forall|i: int, j: int| 0 <= i < j < r.len() implies precedes(r[i], r[j]) by {
        assert(s[n + 1 + i] == r[i] && s[n + 1 + j] == r[j]);
    }
    assert forall|i: int| 0 <= i < l.len() implies precedes(l[i], x) by {
        assert(s[i] == l[i] && s[n] == x);
    }
    assert forall|j: int| 0 <= j < r.len() implies precedes(x, r[j]) by {
        assert(s[n] == x && s[n + 1 + j] == r[j]);
    }
}

/// A sequence holds whatever compares as equal to one of its elements.
pub proof fn lemma_holds_middle<E: Ord>(l: Seq<E>, x: E, r: Seq<E>, v: E)
    requires
        ties(v, x),
    ensures
        holds(l.push(x) + r, v),
{
    let s = l.push(x) + r;
    assert(s[l.len() as int] == x);
}

/// An insertion of an element that orders before `x` happens on the left of
/// `x`.
pub proof fn lemma_insert_before<E: Ord>(l: Seq<E>, x: E, r: Seq<E>, v: E)
    requires
        total_order::<E>(),
        ascending(l.push(x) + r),
        precedes(v, x),
    ensures
        holds(l.push(x) + r, v) == holds(l, v),
        with_inserted(l.push(x) + r, v) == with_inserted(l, v).push(x) + r,
{
    let s = l.push(x) + r;
    let n = l.len() as int;
    lemma_ascending_parts(l, x, r);
    let tail = seq![x] + r;
    assert(s =~= l + tail);
    assert forall|i: int| 0 <= i < tail.len() implies precedes(v, #[trigger] tail[i]) by {
        if i > 0 {
            lemma_order_facts(v, x, r[i - 1]);
        }
    }
    assert forall|i: int| 0 <= i < tail.len() implies !precedes(#[trigger] tail[i], v) by {
        lemma_order_facts(v, tail[i], v);
    }
    lemma_below_none(tail, v);
    lemma_below_concat(l, tail, v);
    lemma_below_bounds(l, v);
    if holds(l, v) {
        let i = choose|i: int| 0 <= i < l.len() && ties(v, l[i]);
        assert(s[i] == l[i]);
    }
    if holds(s, v) {
        let i = choose|i: int| 0 <= i < s.len() && ties(v, s[i]);
        if i < n {
            assert(s[i] == l[i]);
        } else {
            assert(s[i] == tail[i - n]);
        }
    }
}

/// An insertion of an element that orders behind `x` happens on the right of
/// `x`.
pub proof fn lemma_insert_behind<E: Ord>(l: Seq<E>, x: E, r: Seq<E>, v: E)
    requires
        total_order::<E>(),
        ascending(l.push(x) + r),
        precedes(x, v),
    ensures
        holds(l.push(x) + r, v) == holds(r, v),
        with_inserted(l.push(x) + r, v) == l.push(x) + with_inserted(r, v),
{
    let s = l.push(x) + r;
    let n = l.len() as int;
    lemma_ascending_parts(l, x, r);
    let head = l.push(x);
    assert forall|i: int| 0 <= i < head.len() implies precedes(#[trigger] head[i], v) by {
        if i < n {
            lemma_order_facts(l[i], x, v);
        }
    }
    lemma_below_all(head, v);
    lemma_below_concat(head, r, v);
    lemma_below_bounds(r, v);
    if holds(r, v) {
        let j = choose|j: int| 0 <= j < r.len() && ties(v, r[j]);
        assert(s[n + 1 + j] == r[j]);
    }
    if holds(s, v) {
        let i = choose|i: int| 0 <= i < s.len() && ties(v, s[i]);
        if i <= n {
            lemma_order_facts(head[i], v, v);
        } else {
            assert(s[i] == r[i - n - 1]);
        }
    }
}

} // verus!
