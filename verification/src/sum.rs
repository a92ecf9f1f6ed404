//! Adding up the elements of a tree.

use crate::tree::Bst;
use vstd::arithmetic::div_mod::{
    lemma_add_mod_noop_right, lemma_mod_add_multiples_vanish, lemma_mod_bound, lemma_small_mod,
};
use vstd::prelude::*;

verus! {

/// `n` brought into the `2 * half` integers from `-half` up to `half - 1` by
/// adding or taking away a multiple of `2 * half`: what an addition that wraps
/// around keeps of its exact result.
pub open spec fn wrap_around(n: int, half: int) -> int {
    (n + half) % (2 * half) - half
}

/// Wrapping leaves what is in range as it is, gives what is in range, and may
/// be done after each addition or once at the end.
pub proof fn lemma_wrap_around(a: int, b: int, half: int)
    requires
        half > 0,
    ensures
        -half <= a < half ==> wrap_around(a, half) == a,
        -half <= wrap_around(a, half) < half,
        wrap_around(wrap_around(a, half) + b, half) == wrap_around(a + b, half),
{
    let m = 2 * half;
    lemma_mod_bound(a + half, m);
    if -half <= a < half {
        lemma_small_mod((a + half) as nat, m as nat);
    }
    lemma_add_mod_noop_right(b, a + half, m);
    assert(wrap_around(a, half) + b + half == b + (a + half) % m);
    assert(a + b + half == b + (a + half));
}

/// The sum of two integers in range is at most one step of `2 * half` out of
/// range; wrapping takes that step back.
pub proof fn lemma_wrap_once(n: int, half: int)
    requires
        half > 0,
        -2 * half <= n < 2 * half,
    ensures
        wrap_around(n, half) == if n >= half {
            n - 2 * half
        } else if n < -half {
            n + 2 * half
        } else {
            n
        },
{
    let m = 2 * half;
    if n >= half {
        lemma_mod_add_multiples_vanish(n - m + half, m);
        lemma_small_mod((n - m + half) as nat, m as nat);
    } else if n < -half {
        lemma_mod_add_multiples_vanish(n + half, m);
        lemma_small_mod((n + m + half) as nat, m as nat);
    } else {
        lemma_small_mod((n + half) as nat, m as nat);
    }
}

/// Element types that can be added up: they have a zero and an addition in
/// place.
///
/// Each element stands for an integer, its `amount`, and adding goes by the
/// amounts, so that the order in which elements are added does not matter to
/// the result. An addition whose exact result the type cannot hold wraps
/// around.
pub trait Accumulate: Sized {
    /// The integer that an element stands for.
    spec fn amount(&self) -> int;

    /// Whether the type has an element that stands for `n`.
    spec fn fits(n: int) -> bool;

    /// The amount that is kept of the exact result `n` of an addition: `n`
    /// itself where it fits.
    spec fn wrapped(n: int) -> int;

    /// Zero fits; what fits is kept as it is; and wrapping may be done after
    /// each addition or once at the end.
    proof fn lemma_wrapped(a: int, b: int)
        ensures
            Self::fits(0),
            Self::fits(a) ==> Self::wrapped(a) == a,
            Self::wrapped(Self::wrapped(a) + b) == Self::wrapped(a + b),
    ;

    /// The element that stands for zero.
    fn zero() -> (z: Self)
        ensures
            z.amount() == 0,
    ;

    /// Adds `item` to `self`.
    fn accumulate(&mut self, item: &Self)
        ensures
            final(self).amount() == Self::wrapped(old(self).amount() + item.amount()),
    ;
}

impl Accumulate for i32 {
    open spec fn amount(&self) -> int {
        *self as int
    }

    open spec fn fits(n: int) -> bool {
        i32::MIN <= n <= i32::MAX
    }

    open spec fn wrapped(n: int) -> int {
        wrap_around(n, 0x8000_0000)
    }

    proof fn lemma_wrapped(a: int, b: int) {
        lemma_wrap_around(a, b, 0x8000_0000);
    }

    fn zero() -> (z: i32) {
        0
    }

    fn accumulate(&mut self, item: &i32) {
        proof {
            lemma_wrap_once(*self + *item, 0x8000_0000);
        }
        *self = self.wrapping_add(*item);
    }
}

impl Accumulate for i64 {
    open spec fn amount(&self) -> int {
        *self as int
    }

    open spec fn fits(n: int) -> bool {
        i64::MIN <= n <= i64::MAX
    }

    open spec fn wrapped(n: int) -> int {
        wrap_around(n, 0x8000_0000_0000_0000)
    }

    proof fn lemma_wrapped(a: int, b: int) {
        lemma_wrap_around(a, b, 0x8000_0000_0000_0000);
    }

    fn zero() -> (z: i64) {
        0
    }

    fn accumulate(&mut self, item: &i64) {
        proof {
            lemma_wrap_once(*self + *item, 0x8000_0000_0000_0000);
        }
        *self = self.wrapping_add(*item);
    }
}

impl Accumulate for i128 {
    open spec fn amount(&self) -> int {
        *self as int
    }

    open spec fn fits(n: int) -> bool {
        i128::MIN <= n <= i128::MAX
    }

    open spec fn wrapped(n: int) -> int {
        wrap_around(n, 0x8000_0000_0000_0000_0000_0000_0000_0000)
    }

    proof fn lemma_wrapped(a: int, b: int) {
        lemma_wrap_around(a, b, 0x8000_0000_0000_0000_0000_0000_0000_0000);
    }

    fn zero() -> (z: i128) {
        0
    }

    fn accumulate(&mut self, item: &i128) {
        proof {
            lemma_wrap_once(*self + *item, 0x8000_0000_0000_0000_0000_0000_0000_0000);
        }
        *self = self.wrapping_add(*item);
    }
}

/// The arithmetic total of the amounts of `s`.
pub open spec fn tally<E: Accumulate>(s: Seq<E>) -> int
    decreases s.len(),
{
    if s.len() == 0 {
        0
    } else {
        tally(s.drop_last()) + s.last().amount()
    }
}

impl<E: Ord + Accumulate> Bst<E> {
    /// The sum of the elements: starting from zero, each element is added in
    /// ascending order.
    ///
    /// The result is the arithmetic total of the elements where the element
    /// type can hold it, and the total wrapped around where it cannot.
    pub fn sum(&self) -> (total: E)
        ensures
            total.amount() == E::wrapped(tally(self@)),
            E::fits(tally(self@)) ==> total.amount() == tally(self@),
    {
        let mut it = self.iter();
        let mut total = E::zero();
        let ghost mut done: int = 0;
        proof {
            E::lemma_wrapped(0, 0);
            E::lemma_wrapped(tally(self@), 0);
        }
        loop
            invariant
                0 <= done <= self@.len(),
                it.well_formed(),
                it.remaining() == self@.skip(done),
                total.amount() == E::wrapped(tally(self@.take(done))),
            ensures
                total.amount() == E::wrapped(tally(self@)),
            decreases self@.len() - done,
        {
            match it.next() {
                None => {
                    assert(self@.take(done) =~= self@);
                    break ;
                },
                Some(item) => {
                    proof {
                        assert(self@.take(done + 1).drop_last() =~= self@.take(done));
                        E::lemma_wrapped(tally(self@.take(done)), item.amount());
                    }
                    total.accumulate(item);
                    proof {
                        done = done + 1;
                    }
                },
            }
        }
        total
    }
}

} // verus!
