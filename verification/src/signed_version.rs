//! A signed version of some type of number. Used when a number is almost always positive, but in
//! some rare situations may be negative, like votes lost to rounding if rounding isn't always down.

use vstd::prelude::*;
use crate::tally::TallyValue;

verus! {

/// A sign and a magnitude.
#[derive(Clone, Copy, Eq, PartialEq, Debug)]
pub struct SignedVersion<Tally> {
    /// Should always be false for zero.
    pub negative: bool,
    pub value: Tally,
}

/// The number a signed tally stands for.
pub open spec fn signed_value<Tally: TallyValue>(s: SignedVersion<Tally>) -> int {
    if s.negative {
        -(s.value.value() as int)
    } else {
        s.value.value() as int
    }
}

impl<Tally: Copy> SignedVersion<Tally> {
    /// Extract the value as a positive value. It must not be negative.
    pub fn assume_positive(&self) -> (res: Tally)
        requires
            !self.negative,
        ensures
            res == self.value,
    {
        self.value
    }

    /// A non-negative value.
    pub fn from_value(value: Tally) -> (res: Self)
        ensures
            !res.negative,
            res.value == value,
    {
        SignedVersion { negative: false, value }
    }
}

impl<Tally: TallyValue> SignedVersion<Tally> {
    /// Zero.
    pub fn zero() -> (res: Self)
        ensures
            signed_value(res) == 0,
            !res.negative,
    {
        SignedVersion { negative: false, value: Tally::zero() }
    }

    /// True iff this is zero.
    pub fn is_zero(&self) -> (res: bool)
        ensures
            res == (self.value.value() == 0),
    {
        self.value.is_same(&Tally::zero())
    }

    /// The sum of two signed values.
    pub fn add(self, rhs: Self) -> (res: Self)
        requires
            self.value.value() + rhs.value.value() <= Tally::max_value(),
        ensures
            signed_value(res) == signed_value(self) + signed_value(rhs),
    {
        if self.negative == rhs.negative {
            let value = self.value.plus(&rhs.value);
            SignedVersion { negative: self.negative, value }
        } else if self.value.is_same(&rhs.value) {
            Self::zero()
        } else if rhs.value.is_less(&self.value) {
            SignedVersion { negative: self.negative, value: self.value.minus(&rhs.value) }
        } else {
            SignedVersion { negative: rhs.negative, value: rhs.value.minus(&self.value) }
        }
    }

    /// The difference of two signed values.
    pub fn sub(self, rhs: Self) -> (res: Self)
        requires
            self.value.value() + rhs.value.value() <= Tally::max_value(),
        ensures
            signed_value(res) == signed_value(self) - signed_value(rhs),
    {
        if self.negative != rhs.negative {
            SignedVersion { negative: self.negative, value: self.value.plus(&rhs.value) }
        } else if self.value.is_same(&rhs.value) {
            Self::zero()
        } else if rhs.value.is_less(&self.value) {
            SignedVersion { negative: self.negative, value: self.value.minus(&rhs.value) }
        } else {
            SignedVersion { negative: !rhs.negative, value: rhs.value.minus(&self.value) }
        }
    }

    /// Add a non-negative amount.
    pub fn add_assign(&mut self, rhs: Tally)
        requires
            old(self).value.value() + rhs.value() <= Tally::max_value(),
        ensures
            signed_value(*final(self)) == signed_value(*old(self)) + rhs.value(),
    {
        if self.negative {
            if self.value.is_same(&rhs) {
                self.negative = false;
                self.value = Tally::zero();
            } else if rhs.is_less(&self.value) {
                self.value = self.value.minus(&rhs);
            } else {
                self.negative = false;
                self.value = rhs.minus(&self.value);
            }
        } else {
            self.value = self.value.plus(&rhs);
        }
    }

    /// Subtract a non-negative amount.
    pub fn sub_assign(&mut self, rhs: Tally)
        requires
            old(self).value.value() + rhs.value() <= Tally::max_value(),
        ensures
            signed_value(*final(self)) == signed_value(*old(self)) - rhs.value(),
    {
        if !self.negative {
            if self.value.is_same(&rhs) {
                self.negative = false;
                self.value = Tally::zero();
            } else if rhs.is_less(&self.value) {
                self.value = self.value.minus(&rhs);
            } else {
                self.negative = true;
                self.value = rhs.minus(&self.value);
            }
        } else {
            self.value = self.value.plus(&rhs);
        }
    }

    /// Order by sign, negative first, and then by the number stood for.
    pub fn is_less(&self, other: &Self) -> (res: bool)
        ensures
            res == ((self.negative && !other.negative) || (self.negative == other.negative && signed_value(*self)
                < signed_value(*other))),
    {
        if self.negative != other.negative {
            self.negative
        } else if self.negative {
            other.value.is_less(&self.value)
        } else {
            self.value.is_less(&other.value)
        }
    }
}

} // verus!
