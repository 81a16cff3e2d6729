//! Decimal numbers written as text: a whole part, a point and a fractional
//! part, as in `12.34`.
//!
//! Either part may have white space around it and a plus sign before its
//! digits. The fractional part is read as a number and then brought to three
//! digits: as long as it is below 100 (below 10 or 1, if the part begins with
//! one or two zeros) it is multiplied by ten. So `4.8` is `(4, 800)` and
//! `0.03` is `(0, 30)`.

use vstd::prelude::*;
use vstd::string::StringSliceAdditionalSpecFns;
use crate::types::{DecimalNumber, VotingSystemError};

verus! {

/// Whether a byte is white space.
pub open spec fn is_space(byte: u8) -> bool {
    byte == 0x20 || (0x09 <= byte <= 0x0d)
}

/// Whether a byte is a digit.
pub open spec fn is_digit(byte: u8) -> bool {
    0x30 <= byte <= 0x39
}

/// Whether `text` holds exactly one point, at `at`.
pub open spec fn only_point(text: Seq<u8>, at: int) -> bool {
    &&& 0 <= at < text.len()
    &&& forall|i: int| 0 <= i < text.len() ==> (#[trigger] text[i] == 0x2e) == (i == at)
}

/// Start of `text[from..to]` once the white space before it is taken off.
pub open spec fn skip_spaces(text: Seq<u8>, from: int, to: int) -> int
    decreases to - from,
{
    if 0 <= from < to <= text.len() && is_space(text[from]) {
        skip_spaces(text, from + 1, to)
    } else {
        from
    }
}

/// End of `text[from..to]` once the white space behind it is taken off.
pub open spec fn drop_spaces(text: Seq<u8>, from: int, to: int) -> int
    decreases to - from,
{
    if 0 <= from < to <= text.len() && is_space(text[to - 1]) {
        drop_spaces(text, from, to - 1)
    } else {
        to
    }
}

/// The number that the digits `text[from..to]` write.
pub open spec fn number(text: Seq<u8>, from: int, to: int) -> nat
    decreases to - from,
{
    if 0 <= from < to <= text.len() {
        number(text, from, to - 1) * 10 + (text[to - 1] - 0x30) as nat
    } else {
        0
    }
}

/// Number of zeros with which `text[from..to]` begins.
pub open spec fn leading_zeros(text: Seq<u8>, from: int, to: int) -> nat
    decreases to - from,
{
    if 0 <= from < to <= text.len() && text[from] == 0x30 {
        1 + leading_zeros(text, from + 1, to)
    } else {
        0
    }
}

/// Whether all of `text[from..to]` are digits.
pub open spec fn all_digits(text: Seq<u8>, from: int, to: int) -> bool {
    forall|i: int| from <= i < to ==> is_digit(#[trigger] text[i])
}

/// The number that `text[from..to]` writes: white space, an optional plus
/// sign, at least one digit, white space. It must fit in 32 bits.
pub open spec fn unsigned(text: Seq<u8>, from: int, to: int) -> Option<u32> {
    let start = skip_spaces(text, from, to);
    let end = drop_spaces(text, start, to);
    let first = if start < end && text[start] == 0x2b {
        start + 1
    } else {
        start
    };
    if first >= end || !all_digits(text, first, end) || number(text, first, end) > u32::MAX {
        None
    } else {
        Some(number(text, first, end) as u32)
    }
}

/// A fractional part brought to three digits, given the number it writes and
/// the number of zeros it begins with.
pub open spec fn scaled(fractional: nat, zeros: nat) -> nat {
    if zeros == 0 && fractional < 10 {
        fractional * 100
    } else if zeros == 0 && fractional < 100 {
        fractional * 10
    } else if zeros == 1 && fractional < 10 {
        fractional * 10
    } else {
        fractional
    }
}

/// The number that a text with its one point at `point` writes.
pub open spec fn decimal_at(text: Seq<u8>, point: int) -> Result<DecimalNumber, VotingSystemError> {
    match (unsigned(text, 0, point), unsigned(text, point + 1, text.len() as int)) {
        (Some(whole), Some(fractional)) => {
            let zeros = leading_zeros(text, point + 1, text.len() as int);
            if fractional != 0 && zeros > 2 {
                Err(VotingSystemError::InvalidFractional)
            } else if fractional != 0 && scaled(fractional as nat, zeros) >= 1000 {
                Err(VotingSystemError::InvalidFractional)
            } else if fractional == 0 {
                Ok((whole, 0))
            } else {
                Ok((whole, scaled(fractional as nat, zeros) as u32))
            }
        },
        _ => Err(VotingSystemError::MalformedDecimal),
    }
}

/// The number that a text writes. A text without a point or with several is
/// malformed, and so is one whose parts are no numbers of 32 bits. A
/// fractional part of more than three digits is invalid, unless it is zero.
pub open spec fn decimal(text: Seq<u8>) -> Result<DecimalNumber, VotingSystemError> {
    if exists|at: int| only_point(text, at) {
        decimal_at(text, choose|at: int| only_point(text, at))
    } else {
        Err(VotingSystemError::MalformedDecimal)
    }
}

/// The digits of a longer stretch write a number that is no smaller.
proof fn lemma_number_grows(text: Seq<u8>, from: int, mid: int, to: int)
    requires
        0 <= from <= mid <= to <= text.len(),
        all_digits(text, from, to),
    ensures
        number(text, from, mid) <= number(text, from, to),
    decreases to - mid,
{
    if mid < to {
        lemma_number_grows(text, from, mid, to - 1);
        assert(is_digit(text[to - 1]));
    }
}

/// Position of the one point of `text`, if it has exactly one.
fn find_point(text: &[u8]) -> (res: Option<usize>)
    ensures
        res matches Some(at) ==> only_point(text@, at as int),
        res is None ==> !exists|at: int| only_point(text@, at),
{
    let mut found: Option<usize> = None;
    let mut i: usize = 0;
    while i < text.len()
        invariant
            i <= text.len(),
            found matches Some(at) ==> at < i && forall|j: int|
                0 <= j < i ==> (#[trigger] text@[j] == 0x2e) == (j == at),
            found is None ==> forall|j: int| 0 <= j < i ==> #[trigger] text@[j] != 0x2e,
        decreases text.len() - i,
    {
        if text[i] == 0x2e {
            match found {
                Some(first) => {
                    assert forall|at: int| !only_point(text@, at) by {
                        if only_point(text@, at) {
                            assert((text@[first as int] == 0x2e) == (first == at));
                            assert((text@[i as int] == 0x2e) == (i == at));
                        }
                    }
                    return None;
                },
                None => {
                    found = Some(i);
                },
            }
        }
        i += 1;
    }
    proof {
        if found is None {
            assert forall|at: int| !only_point(text@, at) by {
                if only_point(text@, at) {
                    assert((text@[at] == 0x2e) == (at == at));
                }
            }
        }
    }
    found
}

fn space(byte: u8) -> (res: bool)
    ensures
        res == is_space(byte),
{
    byte == 0x20 || (0x09 <= byte && byte <= 0x0d)
}

/// Reads the number that `text[from..to]` writes.
fn read_unsigned(text: &[u8], from: usize, to: usize) -> (res: Option<u32>)
    requires
        from <= to <= text@.len(),
    ensures
        res == unsigned(text@, from as int, to as int),
{
    let mut start = from;
    while start < to && space(text[start])
        invariant
            from <= start <= to <= text@.len(),
            skip_spaces(text@, start as int, to as int) == skip_spaces(
                text@,
                from as int,
                to as int,
            ),
        decreases to - start,
    {
        start += 1;
    }
    let mut end = to;
    while start < end && space(text[end - 1])
        invariant
            start <= end <= to <= text@.len(),
            drop_spaces(text@, start as int, end as int) == drop_spaces(
                text@,
                start as int,
                to as int,
            ),
        decreases end - start,
    {
        end -= 1;
    }
    let first = if start < end && text[start] == 0x2b {
        start + 1
    } else {
        start
    };
    if first >= end {
        return None;
    }
    let ghost goal = unsigned(text@, from as int, to as int);
    let mut value: u64 = 0;
    let mut i: usize = first;
    while i < end
        invariant
            first <= i <= end <= text@.len(),
            all_digits(text@, first as int, i as int),
            value == number(text@, first as int, i as int),
            value <= u32::MAX,
            goal == if !all_digits(text@, first as int, end as int) || number(
                text@,
                first as int,
                end as int,
            ) > u32::MAX {
                None
            } else {
                Some(number(text@, first as int, end as int) as u32)
            },
            goal == unsigned(text@, from as int, to as int),
        decreases end - i,
    {
        let byte = text[i];
        if byte < 0x30 || byte > 0x39 {
            assert(!is_digit(text@[i as int]));
            return None;
        }
        value = value * 10 + (byte - 0x30) as u64;
        if value > 0xffff_ffff {
            proof {
                if all_digits(text@, first as int, end as int) {
                    lemma_number_grows(text@, first as int, i + 1, end as int);
                }
            }
            return None;
        }
        i += 1;
    }
    Some(value as u32)
}

/// Number of zeros with which `text[from..to]` begins, counted up to three.
fn count_zeros(text: &[u8], from: usize, to: usize) -> (res: u32)
    requires
        from <= to <= text@.len(),
    ensures
        res <= 3,
        res < 3 ==> res == leading_zeros(text@, from as int, to as int),
        res == 3 ==> leading_zeros(text@, from as int, to as int) >= 3,
{
    let mut zeros: u32 = 0;
    let mut i: usize = from;
    while i < to && zeros < 3 && text[i] == 0x30
        invariant
            from <= i <= to <= text@.len(),
            zeros <= 3,
            leading_zeros(text@, from as int, to as int) == zeros + leading_zeros(
                text@,
                i as int,
                to as int,
            ),
        decreases to - i,
    {
        zeros += 1;
        i += 1;
    }
    zeros
}

/// Reads a decimal number from its text.
pub fn parse_decimal(value: &str) -> (res: Result<DecimalNumber, VotingSystemError>)
    ensures
        res == decimal(value.spec_bytes()),
        res matches Ok(number) ==> number.1 < 1000,
{
    let text = value.as_bytes();
    let point = match find_point(text) {
        Some(point) => point,
        None => {
            return Err(VotingSystemError::MalformedDecimal);
        },
    };
    proof {
        let chosen = choose|at: int| only_point(text@, at);
        assert((text@[point as int] == 0x2e) == (point == chosen));
    }
    let whole = match read_unsigned(text, 0, point) {
        Some(whole) => whole,
        None => {
            return Err(VotingSystemError::MalformedDecimal);
        },
    };
    assert(point < text.len());
    let mut fractional = match read_unsigned(text, point + 1, text.len()) {
        Some(fractional) => fractional,
        None => {
            return Err(VotingSystemError::MalformedDecimal);
        },
    };
    if fractional != 0 {
        let prefixing_zeros = count_zeros(text, point + 1, text.len());
        if prefixing_zeros > 2 {
            return Err(VotingSystemError::InvalidFractional);
        }
        if prefixing_zeros == 0 && fractional < 10 {
            fractional = fractional * 100;
        } else if prefixing_zeros == 0 && fractional < 100 {
            fractional = fractional * 10;
        } else if prefixing_zeros == 1 && fractional < 10 {
            fractional = fractional * 10;
        }
        if fractional >= 1000 {
            return Err(VotingSystemError::InvalidFractional);
        }
    }
    Ok((whole, fractional))
}

} // verus!
