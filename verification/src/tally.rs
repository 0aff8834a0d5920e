//! Numbers of votes. A tally may be a whole number of votes, or a number of votes with a fixed
//! number of decimal places; either way it stands for a non-negative number.

use vstd::prelude::*;

verus! {

/// A non-negative number of votes, compared and added by the number it stands for.
pub trait TallyValue: Copy + Sized {
    /// The number this tally stands for, in its smallest unit.
    spec fn value(&self) -> nat;

    /// The largest number representable.
    spec fn max_value() -> nat;

    /// Every tally is representable.
    proof fn lemma_bounded(t: Self)
        ensures
            t.value() <= Self::max_value(),
    ;

    /// Two tallies standing for the same number are the same tally.
    proof fn lemma_value_injective(a: Self, b: Self)
        requires
            a.value() == b.value(),
        ensures
            a == b,
    ;

    /// The zero tally.
    fn zero() -> (res: Self)
        ensures
            res.value() == 0,
    ;

    /// The value standing for one whole vote.
    spec fn unit() -> nat;

    /// A whole vote is worth something.
    proof fn lemma_unit_positive()
        ensures
            Self::unit() >= 1,
    ;

    /// The tally of a whole number of votes.
    fn from_whole(n: usize) -> (res: Self)
        requires
            n * Self::unit() <= Self::max_value(),
        ensures
            res.value() == n * Self::unit(),
    ;

    /// The largest tally.
    fn max_tally() -> (res: Self)
        ensures
            res.value() == Self::max_value(),
    ;

    /// True iff this tally is smaller than `other`.
    fn is_less(&self, other: &Self) -> (res: bool)
        ensures
            res == (self.value() < other.value()),
    ;

    /// True iff this tally equals `other`.
    fn is_same(&self, other: &Self) -> (res: bool)
        ensures
            res == (self.value() == other.value()),
    ;

    /// The sum of two tallies.
    fn plus(&self, other: &Self) -> (res: Self)
        requires
            self.value() + other.value() <= Self::max_value(),
        ensures
            res.value() == self.value() + other.value(),
    ;

    /// The difference of two tallies.
    fn minus(&self, other: &Self) -> (res: Self)
        requires
            other.value() <= self.value(),
        ensures
            res.value() == self.value() - other.value(),
    ;
}

impl TallyValue for usize {
    open spec fn value(&self) -> nat {
        *self as nat
    }

    open spec fn max_value() -> nat {
        usize::MAX as nat
    }

    proof fn lemma_bounded(t: Self) {
    }

    proof fn lemma_value_injective(a: Self, b: Self) {
    }

    fn zero() -> (res: Self) {
        0
    }

    open spec fn unit() -> nat {
        1
    }

    proof fn lemma_unit_positive() {
    }

    fn from_whole(n: usize) -> (res: Self) {
        n
    }

    fn max_tally() -> (res: Self) {
        usize::MAX
    }

    fn is_less(&self, other: &Self) -> (res: bool) {
        *self < *other
    }

    fn is_same(&self, other: &Self) -> (res: bool) {
        *self == *other
    }

    fn plus(&self, other: &Self) -> (res: Self) {
        *self + *other
    }

    fn minus(&self, other: &Self) -> (res: Self) {
        *self - *other
    }
}

/// The sum of two tally values, or the largest tally value if the sum is larger.
pub open spec fn capped_sum<T: TallyValue>(a: nat, b: nat) -> nat {
    if a + b <= T::max_value() {
        a + b
    } else {
        T::max_value()
    }
}

/// The sum of two tallies, or the largest tally if the sum is larger.
pub fn plus_capped<T: TallyValue>(a: &T, b: &T) -> (res: T)
    ensures
        res.value() == capped_sum::<T>(a.value(), b.value()),
{
    let max = T::max_tally();
    proof {
        T::lemma_bounded(*a);
    }
    let room = max.minus(a);
    if b.is_less(&room) || b.is_same(&room) {
        a.plus(b)
    } else {
        max
    }
}

/// The difference of two tallies, or zero if the second is larger.
pub fn minus_floored<T: TallyValue>(a: &T, b: &T) -> (res: T)
    ensures
        res.value() == if b.value() <= a.value() {
            a.value() - b.value()
        } else {
            0
        },
{
    if a.is_less(b) {
        T::zero()
    } else {
        a.minus(b)
    }
}

} // verus!
