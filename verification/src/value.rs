//! The algebra that the elements of a tree are drawn from.

use vstd::prelude::*;

verus! {

/// A commutative monoid whose elements can be copied, added, and scaled by a
/// count.
///
/// `zero`, `plus` and `times` are the mathematical operations. The laws make
/// `zero` and `plus` a commutative monoid and `times` the repeated sum. The
/// executable methods compute exactly those operations.
pub trait Summable: Sized {
    /// The neutral element of `plus`.
    spec fn zero() -> Self;

    /// The sum of two elements.
    spec fn plus(self, rhs: Self) -> Self;

    /// The sum of `n` copies of an element.
    spec fn times(self, n: nat) -> Self;

    /// Adding `zero` on the left changes nothing.
    proof fn lemma_zero_neutral(a: Self)
        ensures
            Self::zero().plus(a) == a,
    ;

    /// `plus` does not depend on the order of its operands.
    proof fn lemma_plus_commutes(a: Self, b: Self)
        ensures
            a.plus(b) == b.plus(a),
    ;

    /// `plus` does not depend on how a sum of three is grouped.
    proof fn lemma_plus_associates(a: Self, b: Self, c: Self)
        ensures
            a.plus(b).plus(c) == a.plus(b.plus(c)),
    ;

    /// No copies sum to `zero`.
    proof fn lemma_times_none(a: Self)
        ensures
            a.times(0) == Self::zero(),
    ;

    /// One more copy adds the element once more.
    proof fn lemma_times_next(a: Self, n: nat)
        ensures
            a.times(n + 1) == a.times(n).plus(a),
    ;

    /// A fresh copy of the neutral element.
    fn zero_value() -> (z: Self)
        ensures
            z == Self::zero(),
    ;

    /// The sum of `self` and `rhs`.
    fn sum_with(&self, rhs: &Self) -> (s: Self)
        ensures
            s == self.plus(*rhs),
    ;

    /// The sum of `n` copies of `self`.
    fn scaled(&self, n: i64) -> (s: Self)
        requires
            n >= 0,
        ensures
            s == self.times(n as nat),
    ;

    /// A copy of `self`.
    fn duplicate(&self) -> (c: Self)
        ensures
            c == *self,
    ;
}

/// The 64-bit integers with wrapping addition and wrapping multiplication:
/// the integers modulo `2^64`, which are a commutative monoid, and in which
/// the wrapping product with a count is the wrapping sum of that many copies.
impl Summable for i64 {
    open spec fn zero() -> Self {
        0
    }

    open spec fn plus(self, rhs: Self) -> Self {
        vstd::wrapping::i64_specs::wrapping_add(self, rhs)
    }

    open spec fn times(self, n: nat) -> Self {
        vstd::wrapping::i64_specs::signed_crop(self * n)
    }

    proof fn lemma_zero_neutral(a: Self) {
    }

    proof fn lemma_plus_commutes(a: Self, b: Self) {
    }

    proof fn lemma_plus_associates(a: Self, b: Self, c: Self) {
    }

    proof fn lemma_times_none(a: Self) {
    }

    proof fn lemma_times_next(a: Self, n: nat) {
        assert(a * (n + 1) == a * n + a) by (nonlinear_arith);
    }

    fn zero_value() -> (z: Self) {
        0
    }

    fn sum_with(&self, rhs: &Self) -> (s: Self) {
        self.wrapping_add(*rhs)
    }

    fn scaled(&self, n: i64) -> (s: Self) {
        self.wrapping_mul(n)
    }

    fn duplicate(&self) -> (c: Self) {
        *self
    }
}

/// Pairs, with every operation taken component by component.
impl<A: Summable, B: Summable> Summable for (A, B) {
    open spec fn zero() -> Self {
        (A::zero(), B::zero())
    }

    open spec fn plus(self, rhs: Self) -> Self {
        (self.0.plus(rhs.0), self.1.plus(rhs.1))
    }

    open spec fn times(self, n: nat) -> Self {
        (self.0.times(n), self.1.times(n))
    }

    proof fn lemma_zero_neutral(a: Self) {
        A::lemma_zero_neutral(a.0);
        B::lemma_zero_neutral(a.1);
    }

    proof fn lemma_plus_commutes(a: Self, b: Self) {
        A::lemma_plus_commutes(a.0, b.0);
        B::lemma_plus_commutes(a.1, b.1);
    }

    proof fn lemma_plus_associates(a: Self, b: Self, c: Self) {
        A::lemma_plus_associates(a.0, b.0, c.0);
        B::lemma_plus_associates(a.1, b.1, c.1);
    }

    proof fn lemma_times_none(a: Self) {
        A::lemma_times_none(a.0);
        B::lemma_times_none(a.1);
    }

    proof fn lemma_times_next(a: Self, n: nat) {
        A::lemma_times_next(a.0, n);
        B::lemma_times_next(a.1, n);
    }

    fn zero_value() -> (z: Self) {
        (A::zero_value(), B::zero_value())
    }

    fn sum_with(&self, rhs: &Self) -> (s: Self) {
        (self.0.sum_with(&rhs.0), self.1.sum_with(&rhs.1))
    }

    fn scaled(&self, n: i64) -> (s: Self) {
        (self.0.scaled(n), self.1.scaled(n))
    }

    fn duplicate(&self) -> (c: Self) {
        (self.0.duplicate(), self.1.duplicate())
    }
}

} // verus!
