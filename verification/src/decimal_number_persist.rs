//! The pair form in which a fixed-point number is kept between calls.

use vstd::prelude::*;
use crate::decimal_number_wrapper::{
    checked_add,
    checked_mul,
    encode,
    product_of,
    representable,
    sum_of,
    valid,
    DecimalNumberWrapper,
    DECIMAL_MODIFIER,
};
use crate::types::{DecimalNumber, VotingSystemError};

verus! {

#[derive(Clone, Copy, Debug, PartialEq, Eq, Structural)]
pub struct DecimalNumberPersist {
    pub whole: u32,
    pub fractional: u32,
}

impl DecimalNumberPersist {
    /// Validity of the pair.
    pub open spec fn wf(self) -> bool {
        valid(self.pair())
    }

    /// The number as a pair.
    pub open spec fn pair(self) -> DecimalNumber {
        (self.whole, self.fractional)
    }

    /// The encoding `whole * 1000 + fractional`.
    pub open spec fn raw(self) -> nat {
        encode(self.pair())
    }

    /// A number from its two parts; the fractional part must have no more
    /// than three digits.
    pub fn new(whole: u32, fractional: u32) -> (res: Result<Self, VotingSystemError>)
        ensures
            fractional < 1000 ==> res == Ok::<Self, VotingSystemError>(
                DecimalNumberPersist { whole, fractional },
            ),
            fractional >= 1000 ==> res == Err::<Self, VotingSystemError>(
                VotingSystemError::InvalidFractional,
            ),
    {
        DecimalNumberPersist { whole, fractional }.validate()
    }

    /// Hands the number back if it is valid.
    pub fn validate(self) -> (res: Result<Self, VotingSystemError>)
        ensures
            self.wf() ==> res == Ok::<Self, VotingSystemError>(self),
            !self.wf() ==> res == Err::<Self, VotingSystemError>(
                VotingSystemError::InvalidFractional,
            ),
    {
        if self.fractional >= DECIMAL_MODIFIER {
            Err(VotingSystemError::InvalidFractional)
        } else {
            Ok(self)
        }
    }

    /// The encoding of a number, widened so that it always fits.
    pub fn prepare_number(number: DecimalNumberPersist) -> (res: u64)
        ensures
            res == number.raw(),
    {
        DecimalNumberWrapper::prepare_number(
            DecimalNumberWrapper { whole: number.whole, fractional: number.fractional },
        )
    }

    /// Exact sum.
    pub fn add(a: DecimalNumberPersist, b: DecimalNumberPersist) -> (res: DecimalNumberPersist)
        requires
            a.wf(),
            b.wf(),
            representable(a.raw() + b.raw()),
        ensures
            res.wf(),
            res.raw() == a.raw() + b.raw(),
            Ok::<DecimalNumber, VotingSystemError>(res.pair()) == sum_of(a.pair(), b.pair()),
    {
        match checked_add(a.as_tuple(), b.as_tuple()) {
            Ok(value) => DecimalNumberPersist { whole: value.0, fractional: value.1 },
            Err(_) => a,
        }
    }

    /// Product of the two encodings divided by 1000: the truncated product.
    pub fn mul(a: DecimalNumberPersist, b: DecimalNumberPersist) -> (res: DecimalNumberPersist)
        requires
            a.wf(),
            b.wf(),
            representable(a.raw() * b.raw() / 1000),
        ensures
            res.wf(),
            res.raw() == a.raw() * b.raw() / 1000,
            Ok::<DecimalNumber, VotingSystemError>(res.pair()) == product_of(a.pair(), b.pair()),
    {
        match checked_mul(a.as_tuple(), b.as_tuple()) {
            Ok(value) => DecimalNumberPersist { whole: value.0, fractional: value.1 },
            Err(_) => a,
        }
    }

    /// The number as a pair.
    pub fn as_tuple(&self) -> (res: DecimalNumber)
        ensures
            res == self.pair(),
    {
        (self.whole, self.fractional)
    }
}

impl From<DecimalNumber> for DecimalNumberPersist {
    /// The pair as it is, valid or not.
    fn from(value: DecimalNumber) -> (res: Self) {
        DecimalNumberPersist { whole: value.0, fractional: value.1 }
    }
}

impl vstd::std_specs::convert::FromSpecImpl<DecimalNumber> for DecimalNumberPersist {
    open spec fn obeys_from_spec() -> bool {
        true
    }

    open spec fn from_spec(value: DecimalNumber) -> Self {
        DecimalNumberPersist { whole: value.0, fractional: value.1 }
    }
}

} // verus!
