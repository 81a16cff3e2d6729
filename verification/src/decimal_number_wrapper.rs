//! Exact fixed-point arithmetic with three decimal digits.
//!
//! A number is encoded as the integer `whole * 1000 + fractional`; every
//! operation is stated over that encoding. Nothing is rounded: products and
//! quotients are truncated towards zero, differences below zero are zero.

use vstd::prelude::*;
use vstd::string::StringSliceAdditionalSpecFns;
use crate::decimal_text::{decimal, parse_decimal};
use crate::types::{DecimalNumber, VotingSystemError};

verus! {

pub const DECIMAL_POINTS: u32 = 3;

pub const DECIMAL_MODIFIER: u32 = 1000;

/// Encoding of a `(whole, fractional)` pair.
pub open spec fn encode(value: DecimalNumber) -> nat {
    (value.0 * 1000 + value.1) as nat
}

/// The pair that an encoding stands for; meaningful when `representable(raw)`.
pub open spec fn decode(raw: nat) -> DecimalNumber {
    ((raw / 1000) as u32, (raw % 1000) as u32)
}

/// Whether the whole part of `raw` fits in 32 bits.
pub open spec fn representable(raw: nat) -> bool {
    raw / 1000 <= u32::MAX
}

/// Whether a pair is a fixed-point number: its fractional part has three digits.
pub open spec fn valid(value: DecimalNumber) -> bool {
    value.1 < 1000
}

/// The number encoded by `raw`, or an overflow where it has none.
pub open spec fn checked(raw: nat) -> Result<DecimalNumber, VotingSystemError> {
    if representable(raw) {
        Ok(decode(raw))
    } else {
        Err(VotingSystemError::ArithmeticOverflow)
    }
}

/// Exact sum of two numbers. A pair that is no number is rejected first.
pub open spec fn sum_of(a: DecimalNumber, b: DecimalNumber) -> Result<
    DecimalNumber,
    VotingSystemError,
> {
    if !valid(a) || !valid(b) {
        Err(VotingSystemError::InvalidFractional)
    } else {
        checked(encode(a) + encode(b))
    }
}

/// Product of the two encodings divided by 1000: the truncated product.
pub open spec fn product_of(a: DecimalNumber, b: DecimalNumber) -> Result<
    DecimalNumber,
    VotingSystemError,
> {
    if !valid(a) || !valid(b) {
        Err(VotingSystemError::InvalidFractional)
    } else {
        checked(encode(a) * encode(b) / 1000)
    }
}

/// Quotient `a * 1000 / b` of the encodings; a divisor that encodes to zero is
/// rejected.
pub open spec fn quotient_of(a: DecimalNumber, b: DecimalNumber) -> Result<
    DecimalNumber,
    VotingSystemError,
> {
    if !valid(a) || !valid(b) {
        Err(VotingSystemError::InvalidFractional)
    } else if encode(b) == 0 {
        Err(VotingSystemError::DivisionByZero)
    } else {
        checked(encode(a) * 1000 / encode(b))
    }
}

/// Difference of the two encodings, zero where the first is not the larger.
pub open spec fn difference_of(a: DecimalNumber, b: DecimalNumber) -> DecimalNumber {
    if encode(a) <= encode(b) {
        (0, 0)
    } else {
        decode((encode(a) - encode(b)) as nat)
    }
}

/// Decoding undoes encoding on every valid pair.
pub proof fn lemma_decode_encode(value: DecimalNumber)
    requires
        valid(value),
    ensures
        representable(encode(value)),
        decode(encode(value)) == value,
{
}

/// Encoding undoes decoding on every representable integer.
pub proof fn lemma_encode_decode(raw: nat)
    requires
        representable(raw),
    ensures
        valid(decode(raw)),
        encode(decode(raw)) == raw,
{
}

/// Addition does not depend on the order of its operands.
pub proof fn lemma_add_commutative(a: DecimalNumber, b: DecimalNumber)
    ensures
        sum_of(a, b) == sum_of(b, a),
{
}

/// Multiplication does not depend on the order of its operands.
pub proof fn lemma_mul_commutative(a: DecimalNumber, b: DecimalNumber)
    ensures
        product_of(a, b) == product_of(b, a),
{
    assert(encode(a) * encode(b) == encode(b) * encode(a)) by (nonlinear_arith);
}

/// Subtracting a number that is at least as large leaves zero.
pub proof fn lemma_sub_saturates(a: DecimalNumber, b: DecimalNumber)
    requires
        encode(a) <= encode(b),
    ensures
        difference_of(a, b) == (0u32, 0u32),
{
}

/// Division of numbers fails exactly when the divisor encodes to zero,
/// whatever the dividend, as long as the quotient is a number that fits.
pub proof fn lemma_div_fails_iff_zero_divisor(a: DecimalNumber, b: DecimalNumber)
    requires
        valid(a),
        valid(b),
        encode(b) != 0 ==> representable(encode(a) * 1000 / encode(b)),
    ensures
        quotient_of(a, b) is Err <==> encode(b) == 0,
        quotient_of(a, b) is Err ==> quotient_of(a, b) == Err::<DecimalNumber, VotingSystemError>(
            VotingSystemError::DivisionByZero,
        ),
{
}

fn prepare(value: DecimalNumber) -> (res: u64)
    ensures
        res == encode(value),
{
    value.0 as u64 * 1000 + value.1 as u64
}

fn finish(raw: u128) -> (res: Result<DecimalNumber, VotingSystemError>)
    ensures
        res == checked(raw as nat),
{
    let whole: u128 = raw / 1000;
    if whole > u32::MAX as u128 {
        Err(VotingSystemError::ArithmeticOverflow)
    } else {
        let fractional: u128 = raw % 1000;
        Ok((whole as u32, fractional as u32))
    }
}

/// Sum of two numbers, or an overflow.
pub fn checked_add(a: DecimalNumber, b: DecimalNumber) -> (res: Result<
    DecimalNumber,
    VotingSystemError,
>)
    ensures
        res == sum_of(a, b),
        res matches Ok(value) ==> valid(value),
{
    if a.1 >= DECIMAL_MODIFIER || b.1 >= DECIMAL_MODIFIER {
        return Err(VotingSystemError::InvalidFractional);
    }
    finish(prepare(a) as u128 + prepare(b) as u128)
}

/// Truncated product of two numbers, or an overflow.
pub fn checked_mul(a: DecimalNumber, b: DecimalNumber) -> (res: Result<
    DecimalNumber,
    VotingSystemError,
>)
    ensures
        res == product_of(a, b),
        res matches Ok(value) ==> valid(value),
{
    if a.1 >= DECIMAL_MODIFIER || b.1 >= DECIMAL_MODIFIER {
        return Err(VotingSystemError::InvalidFractional);
    }
    let x: u128 = prepare(a) as u128;
    let y: u128 = prepare(b) as u128;
    assert(x * y <= 0x1000_0000_0000 * 0x1000_0000_0000) by (nonlinear_arith)
        requires
            x <= 0x1000_0000_0000,
            y <= 0x1000_0000_0000,
    ;
    finish(x * y / 1000)
}

/// Truncated quotient of two numbers, a division by zero, or an overflow.
pub fn checked_div(a: DecimalNumber, b: DecimalNumber) -> (res: Result<
    DecimalNumber,
    VotingSystemError,
>)
    ensures
        res == quotient_of(a, b),
        res matches Ok(value) ==> valid(value),
{
    if a.1 >= DECIMAL_MODIFIER || b.1 >= DECIMAL_MODIFIER {
        return Err(VotingSystemError::InvalidFractional);
    }
    let divisor: u64 = prepare(b);
    if divisor == 0 {
        return Err(VotingSystemError::DivisionByZero);
    }
    finish(prepare(a) as u128 * 1000 / divisor as u128)
}

/// Difference of two numbers, zero where the first is not the larger.
pub fn saturating_sub(a: DecimalNumber, b: DecimalNumber) -> (res: DecimalNumber)
    ensures
        res == difference_of(a, b),
        valid(res),
{
    let x: u64 = prepare(a);
    let y: u64 = prepare(b);
    if x <= y {
        return (0, 0);
    }
    let result: u64 = x - y;
    ((result / 1000) as u32, (result % 1000) as u32)
}

#[derive(Clone, Copy, Debug, PartialEq, Eq, Structural)]
pub struct DecimalNumberWrapper {
    pub whole: u32,
    pub fractional: u32,
}

impl DecimalNumberWrapper {
    /// Validity of the wrapped pair.
    pub open spec fn wf(self) -> bool {
        valid(self.pair())
    }

    /// The number as a pair.
    pub open spec fn pair(self) -> DecimalNumber {
        (self.whole, self.fractional)
    }

    /// The encoding `whole * 1000 + fractional`.
    pub open spec fn raw(self) -> nat {
        encode(self.pair())
    }

    /// The number that a pair stands for.
    pub open spec fn of_pair(value: DecimalNumber) -> Self {
        DecimalNumberWrapper { whole: value.0, fractional: value.1 }
    }

    /// The number with the given encoding.
    pub open spec fn of_raw(raw: nat) -> Self {
        Self::of_pair(decode(raw))
    }

    /// The sum of two numbers: the number whose encoding is the sum of theirs.
    pub open spec fn sum(a: Self, b: Self) -> Self {
        Self::of_raw(a.raw() + b.raw())
    }

    /// The product of two numbers: the number whose encoding is the product of
    /// theirs divided by 1000.
    pub open spec fn product(a: Self, b: Self) -> Self {
        Self::of_raw(a.raw() * b.raw() / 1000)
    }

    /// `add` gives the same number whichever operand comes first, and the
    /// sum fits one way round exactly when it fits the other way round.
    pub proof fn lemma_add_commutative(a: Self, b: Self)
        requires
            a.wf(),
            b.wf(),
        ensures
            Self::sum(a, b) == Self::sum(b, a),
            Self::sum(a, b).pair() == Self::sum(b, a).pair(),
            representable(a.raw() + b.raw()) == representable(b.raw() + a.raw()),
    {
    }

    /// `mul` gives the same number whichever operand comes first, and the
    /// product fits one way round exactly when it fits the other way round.
    pub proof fn lemma_mul_commutative(a: Self, b: Self)
        requires
            a.wf(),
            b.wf(),
        ensures
            Self::product(a, b) == Self::product(b, a),
            Self::product(a, b).pair() == Self::product(b, a).pair(),
            representable(a.raw() * b.raw() / 1000) == representable(b.raw() * a.raw() / 1000),
    {
        assert(a.raw() * b.raw() == b.raw() * a.raw()) by (nonlinear_arith);
    }

    /// Reads a number from its text, such as `12.34`.
    pub fn new(value: &str) -> (res: Result<Self, VotingSystemError>)
        ensures
            res matches Ok(number) ==> number.wf() && decimal(value.spec_bytes()) == Ok::<
                DecimalNumber,
                VotingSystemError,
            >(number.pair()),
            res matches Err(e) ==> decimal(value.spec_bytes()) == Err::<
                DecimalNumber,
                VotingSystemError,
            >(e),
    {
        match parse_decimal(value) {
            Ok(pair) => Ok(DecimalNumberWrapper { whole: pair.0, fractional: pair.1 }),
            Err(e) => Err(e),
        }
    }

    /// Wraps a pair that is known to be a number.
    pub fn of(value: DecimalNumber) -> (res: Self)
        requires
            valid(value),
        ensures
            res == Self::of_pair(value),
            res.wf(),
    {
        DecimalNumberWrapper { whole: value.0, fractional: value.1 }
    }

    /// Wraps a pair, rejecting a fractional part of more than three digits.
    pub fn from_tuple(value: DecimalNumber) -> (res: Result<Self, VotingSystemError>)
        ensures
            valid(value) ==> res == Ok::<Self, VotingSystemError>(Self::of_pair(value)),
            !valid(value) ==> res == Err::<Self, VotingSystemError>(
                VotingSystemError::InvalidFractional,
            ),
    {
        DecimalNumberWrapper { whole: value.0, fractional: value.1 }.validate()
    }

    /// The number with the given encoding.
    pub fn from_raw(raw: u32) -> (res: Self)
        ensures
            res.wf(),
            res.raw() == raw,
            res == Self::of_raw(raw as nat),
    {
        let whole: u32 = raw / DECIMAL_MODIFIER;
        DecimalNumberWrapper { whole, fractional: raw - whole * DECIMAL_MODIFIER }
    }

    /// Hands the number back if it is valid.
    pub fn validate(self) -> (res: Result<Self, VotingSystemError>)
        ensures
            self.wf() ==> res == Ok::<Self, VotingSystemError>(self),
            !self.wf() ==> res == Err::<Self, VotingSystemError>(
                VotingSystemError::InvalidFractional,
            ),
    {
        if self.fractional >= DECIMAL_MODIFIER {
            Err(VotingSystemError::InvalidFractional)
        } else {
            Ok(self)
        }
    }

    /// The encoding of a number, widened so that it always fits.
    pub fn prepare_number(number: DecimalNumberWrapper) -> (res: u64)
        ensures
            res == number.raw(),
    {
        prepare(number.as_tuple())
    }

    /// Exact sum.
    pub fn add(a: DecimalNumberWrapper, b: DecimalNumberWrapper) -> (res: DecimalNumberWrapper)
        requires
            a.wf(),
            b.wf(),
            representable(a.raw() + b.raw()),
        ensures
            res.wf(),
            res == Self::sum(a, b),
            res.raw() == a.raw() + b.raw(),
            Ok::<DecimalNumber, VotingSystemError>(res.pair()) == sum_of(a.pair(), b.pair()),
    {
        let raw: u64 = prepare(a.as_tuple()) + prepare(b.as_tuple());
        DecimalNumberWrapper { whole: (raw / 1000) as u32, fractional: (raw % 1000) as u32 }
    }

    /// Product of the two encodings divided by 1000: the truncated product.
    pub fn mul(a: DecimalNumberWrapper, b: DecimalNumberWrapper) -> (res: DecimalNumberWrapper)
        requires
            a.wf(),
            b.wf(),
            representable(a.raw() * b.raw() / 1000),
        ensures
            res.wf(),
            res == Self::product(a, b),
            res.raw() == a.raw() * b.raw() / 1000,
            Ok::<DecimalNumber, VotingSystemError>(res.pair()) == product_of(a.pair(), b.pair()),
    {
        match checked_mul(a.as_tuple(), b.as_tuple()) {
            Ok(value) => DecimalNumberWrapper { whole: value.0, fractional: value.1 },
            Err(_) => a,
        }
    }

    /// Quotient `a * 1000 / b` of the encodings; fails exactly when `b` is zero.
    pub fn div(a: DecimalNumberWrapper, b: DecimalNumberWrapper) -> (res: Result<
        DecimalNumberWrapper,
        VotingSystemError,
    >)
        requires
            a.wf(),
            b.wf(),
            b.raw() != 0 ==> representable(a.raw() * 1000 / b.raw()),
        ensures
            b.raw() == 0 ==> res == Err::<DecimalNumberWrapper, VotingSystemError>(
                VotingSystemError::DivisionByZero,
            ),
            b.raw() != 0 ==> res == Ok::<DecimalNumberWrapper, VotingSystemError>(
                Self::of_raw(a.raw() * 1000 / b.raw()),
            ),
            res matches Ok(q) ==> q.wf() && q.raw() == a.raw() * 1000 / b.raw(),
    {
        match checked_div(a.as_tuple(), b.as_tuple()) {
            Ok(value) => Ok(DecimalNumberWrapper { whole: value.0, fractional: value.1 }),
            Err(e) => Err(e),
        }
    }

    /// Difference `a - b`, or zero where `a` is not larger than `b`.
    pub fn sub(a: DecimalNumberWrapper, b: DecimalNumberWrapper) -> (res: DecimalNumberWrapper)
        requires
            a.wf(),
            b.wf(),
        ensures
            res.wf(),
            a.raw() <= b.raw() ==> res.raw() == 0,
            a.raw() > b.raw() ==> res.raw() == a.raw() - b.raw(),
            res.pair() == difference_of(a.pair(), b.pair()),
    {
        let value = saturating_sub(a.as_tuple(), b.as_tuple());
        DecimalNumberWrapper { whole: value.0, fractional: value.1 }
    }

    /// Three-way comparison: 0 when equal, 1 when `a` is larger, 2 when `b` is larger.
    pub fn cmp(a: DecimalNumberWrapper, b: DecimalNumberWrapper) -> (res: u32)
        requires
            a.wf(),
            b.wf(),
        ensures
            res == 0 <==> a.raw() == b.raw(),
            res == 1 <==> a.raw() > b.raw(),
            res == 2 <==> a.raw() < b.raw(),
            res == 0 <==> a == b,
    {
        let num_a: u64 = prepare(a.as_tuple());
        let num_b: u64 = prepare(b.as_tuple());
        if num_a == num_b {
            return 0;
        }
        if num_a > num_b {
            return 1;
        }
        2
    }

    /// The number as a pair.
    pub fn as_tuple(&self) -> (res: DecimalNumber)
        ensures
            res == self.pair(),
    {
        (self.whole, self.fractional)
    }

    /// The encoding as a 32-bit integer.
    pub fn as_raw(&self) -> (res: u32)
        requires
            self.raw() <= u32::MAX,
        ensures
            res == self.raw(),
    {
        self.whole * DECIMAL_MODIFIER + self.fractional
    }

    /// The encoding as a 32-bit integer, where it has one.
    pub fn checked_as_raw(&self) -> (res: Option<u32>)
        ensures
            self.raw() <= u32::MAX ==> res == Some(self.raw() as u32),
            self.raw() > u32::MAX ==> res.is_none(),
    {
        let raw: u64 = prepare(self.as_tuple());
        if raw > u32::MAX as u64 {
            None
        } else {
            Some(raw as u32)
        }
    }
}

impl From<u32> for DecimalNumberWrapper {
    /// The number with the given encoding.
    fn from(raw: u32) -> (res: Self) {
        DecimalNumberWrapper::from_raw(raw)
    }
}

impl vstd::std_specs::convert::FromSpecImpl<u32> for DecimalNumberWrapper {
    open spec fn obeys_from_spec() -> bool {
        true
    }

    open spec fn from_spec(raw: u32) -> Self {
        Self::of_raw(raw as nat)
    }
}

impl Default for DecimalNumberWrapper {
    fn default() -> (res: Self)
        ensures
            res.whole == 0,
            res.fractional == 0,
    {
        DecimalNumberWrapper { whole: 0, fractional: 0 }
    }
}

} // verus!
