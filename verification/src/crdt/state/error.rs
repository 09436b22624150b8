use vstd::prelude::*;

use crate::crdt::types::word::{Word256, describe_word};
use vstd::string::StringExecFns;

verus! {

/// What went wrong with a numeric operation; each variant carries a message
/// that names the values involved.
#[derive(Debug, PartialEq, Eq)]
pub enum NumericError {
    InvalidLimits(String),
    BelowLowerLimit(String),
    AboveUpperLimit(String),
    Overflow(String),
    Underflow(String),
}

/// The kind of a numeric failure, without its message.
#[derive(Debug, PartialEq, Eq, Clone, Copy)]
pub enum NumericFault {
    InvalidLimits,
    BelowLowerLimit,
    AboveUpperLimit,
    Overflow,
    Underflow,
}

/// The character of the decimal digit `d` (`d < 10`).
pub open spec fn digit_char(d: nat) -> char {
    (48 + d) as char
}

/// `n` written in decimal, most significant digit first, with no leading zero.
pub open spec fn decimal(n: nat) -> Seq<char>
    decreases n,
{
    if n < 10 {
        seq![digit_char(n)]
    } else {
        decimal(n / 10).push(digit_char(n % 10))
    }
}

/// `i` written in decimal, with a leading minus sign when it is negative.
pub open spec fn signed_decimal(i: int) -> Seq<char> {
    if i < 0 {
        seq!['-'] + decimal((-i) as nat)
    } else {
        decimal(i as nat)
    }
}

/// The message of an `InvalidLimits` error.
pub open spec fn invalid_limits_text(lower: Seq<char>, upper: Seq<char>) -> Seq<char> {
    "lower limit "@ + lower + " exceeds upper limit "@ + upper
}

/// The message of a `BelowLowerLimit` error.
pub open spec fn below_text(value: Seq<char>, lower: Seq<char>, upper: Seq<char>) -> Seq<char> {
    "value "@ + value + " is below limits ["@ + lower + ", "@ + upper + "]"@
}

/// The message of an `AboveUpperLimit` error.
pub open spec fn above_text(value: Seq<char>, lower: Seq<char>, upper: Seq<char>) -> Seq<char> {
    "value "@ + value + " is above limits ["@ + lower + ", "@ + upper + "]"@
}

/// The message of an `Overflow` error.
pub open spec fn overflow_text(value: Seq<char>, pending: Seq<char>, delta: Seq<char>) -> Seq<char> {
    "operation overflowed: value "@ + value + ", pending delta "@ + pending + ", incoming delta "@
        + delta
}

/// The message of an `Underflow` error.
pub open spec fn underflow_text(value: Seq<char>, pending: Seq<char>, delta: Seq<char>) -> Seq<char> {
    "operation underflowed: value "@ + value + ", pending delta "@ + pending + ", incoming delta "@
        + delta
}

/// The message of a failed limit check of type `f` for `value` against
/// `[lower, upper]`, each given in its written form.
pub open spec fn limits_text(
    f: NumericFault,
    value: Seq<char>,
    lower: Seq<char>,
    upper: Seq<char>,
) -> Seq<char> {
    match f {
        NumericFault::InvalidLimits => invalid_limits_text(lower, upper),
        NumericFault::BelowLowerLimit => below_text(value, lower, upper),
        NumericFault::AboveUpperLimit => above_text(value, lower, upper),
        _ => Seq::empty(),
    }
}

impl NumericError {
    /// The message that the error carries.
    pub open spec fn message(self) -> Seq<char> {
        match self {
            NumericError::InvalidLimits(m) => m@,
            NumericError::BelowLowerLimit(m) => m@,
            NumericError::AboveUpperLimit(m) => m@,
            NumericError::Overflow(m) => m@,
            NumericError::Underflow(m) => m@,
        }
    }

    pub open spec fn fault(self) -> NumericFault {
        match self {
            NumericError::InvalidLimits(_) => NumericFault::InvalidLimits,
            NumericError::BelowLowerLimit(_) => NumericFault::BelowLowerLimit,
            NumericError::AboveUpperLimit(_) => NumericFault::AboveUpperLimit,
            NumericError::Overflow(_) => NumericFault::Overflow,
            NumericError::Underflow(_) => NumericFault::Underflow,
        }
    }

    pub fn invalid_limits_u64(lower: u64, upper: u64) -> (e: NumericError)
        ensures
            e.fault() == NumericFault::InvalidLimits,
            e.message() == invalid_limits_text(decimal(lower as nat), decimal(upper as nat)),
    {
        NumericError::InvalidLimits(limits_message(describe_u64(lower), describe_u64(upper)))
    }

    pub fn invalid_limits_i64(lower: i64, upper: i64) -> (e: NumericError)
        ensures
            e.fault() == NumericFault::InvalidLimits,
            e.message() == invalid_limits_text(signed_decimal(lower as int), signed_decimal(upper as int)),
    {
        NumericError::InvalidLimits(limits_message(describe_i64(lower), describe_i64(upper)))
    }

    pub fn invalid_limits_word(lower: Word256, upper: Word256) -> (e: NumericError)
        ensures
            e.fault() == NumericFault::InvalidLimits,
            e.message() == invalid_limits_text(decimal(lower.value()), decimal(upper.value())),
    {
        NumericError::InvalidLimits(limits_message(describe_word(lower), describe_word(upper)))
    }

    /// A value below `[lower, upper]`.
    pub fn below_lower_limit(value: String, lower: String, upper: String) -> (e: NumericError)
        ensures
            e.fault() == NumericFault::BelowLowerLimit,
            e.message() == below_text(value@, lower@, upper@),
    {
        NumericError::BelowLowerLimit(format_below(value, lower, upper))
    }

    /// A value above `[lower, upper]`.
    pub fn above_upper_limit(value: String, lower: String, upper: String) -> (e: NumericError)
        ensures
            e.fault() == NumericFault::AboveUpperLimit,
            e.message() == above_text(value@, lower@, upper@),
    {
        NumericError::AboveUpperLimit(format_above(value, lower, upper))
    }

    /// An addition that does not fit the number type.
    pub fn overflow(value: String, pending: String, delta: String) -> (e: NumericError)
        ensures
            e.fault() == NumericFault::Overflow,
            e.message() == overflow_text(value@, pending@, delta@),
    {
        NumericError::Overflow(format_overflow(value, pending, delta))
    }

    /// A subtraction below zero (or below the type's minimum).
    pub fn underflow(value: String, pending: String, delta: String) -> (e: NumericError)
        ensures
            e.fault() == NumericFault::Underflow,
            e.message() == underflow_text(value@, pending@, delta@),
    {
        NumericError::Underflow(format_underflow(value, pending, delta))
    }
}

/// Which check, if any, a limit check fails for `value` against `[lower, upper]`:
/// the limits themselves first, then the value.
pub open spec fn limits_fault(lower: int, upper: int, value: int) -> Option<NumericFault> {
    if lower > upper {
        Some(NumericFault::InvalidLimits)
    } else if value < lower {
        Some(NumericFault::BelowLowerLimit)
    } else if value > upper {
        Some(NumericFault::AboveUpperLimit)
    } else {
        None
    }
}

/// Errors of the state layer.
#[derive(Debug, PartialEq, Eq)]
pub enum StateError {
    I64(NumericError),
    U64(NumericError),
    U256(NumericError),
    CannotAddDeltaToMissingValue,
    TypeMismatch,
    NoValue,
}

/// Renders an unsigned number in decimal (std's `format!` with `Display`),
/// which writes its digits with no leading zero.
#[verifier::external_body]
pub(crate) fn describe_u64(value: u64) -> (r: String)
    ensures
        r@ == decimal(value as nat),
{
    format!("{value}")
}

/// Renders a signed number in decimal (std's `format!` with `Display`), with a
/// minus sign before a negative number.
#[verifier::external_body]
pub(crate) fn describe_i64(value: i64) -> (r: String)
    ensures
        r@ == signed_decimal(value as int),
{
    format!("{value}")
}

/// Joins `parts` into one string.
fn joined(parts: &[&str]) -> (r: String)
    ensures
        r@ == joined_view(parts@),
{
    let mut r = String::new();
    let mut i: usize = 0;
    while i < parts.len()
        invariant
            i <= parts@.len(),
            r@ == joined_view(parts@.take(i as int)),
        decreases parts@.len() - i,
    {
        r.append(parts[i]);
        proof {
            assert(parts@.take(i + 1).drop_last() =~= parts@.take(i as int));
        }
        i = i + 1;
    }
    proof {
        assert(parts@.take(parts@.len() as int) =~= parts@);
    }
    r
}

/// The views of `parts`, one after another.
pub open spec fn joined_view(parts: Seq<&str>) -> Seq<char>
    decreases parts.len(),
{
    if parts.len() == 0 {
        Seq::empty()
    } else {
        joined_view(parts.drop_last()) + parts.last()@
    }
}

/// "lower limit L exceeds upper limit U".
fn limits_message(lower: String, upper: String) -> (r: String)
    ensures
        r@ == invalid_limits_text(lower@, upper@),
{
    let parts = [
        "lower limit ",
        lower.as_str(),
        " exceeds upper limit ",
        upper.as_str(),
    ];
    let r = joined(&parts);
    proof {
        reveal_with_fuel(joined_view, 5);
    }
    r
}

/// "value V is below limits [L, U]".
fn format_below(value: String, lower: String, upper: String) -> (r: String)
    ensures
        r@ == below_text(value@, lower@, upper@),
{
    let parts = [
        "value ",
        value.as_str(),
        " is below limits [",
        lower.as_str(),
        ", ",
        upper.as_str(),
        "]",
    ];
    let r = joined(&parts);
    proof {
        reveal_with_fuel(joined_view, 8);
    }
    r
}

/// "value V is above limits [L, U]".
fn format_above(value: String, lower: String, upper: String) -> (r: String)
    ensures
        r@ == above_text(value@, lower@, upper@),
{
    let parts = [
        "value ",
        value.as_str(),
        " is above limits [",
        lower.as_str(),
        ", ",
        upper.as_str(),
        "]",
    ];
    let r = joined(&parts);
    proof {
        reveal_with_fuel(joined_view, 8);
    }
    r
}

/// "operation overflowed: value V, pending delta P, incoming delta D".
fn format_overflow(value: String, pending: String, delta: String) -> (r: String)
    ensures
        r@ == overflow_text(value@, pending@, delta@),
{
    let parts = [
        "operation overflowed: value ",
        value.as_str(),
        ", pending delta ",
        pending.as_str(),
        ", incoming delta ",
        delta.as_str(),
    ];
    let r = joined(&parts);
    proof {
        reveal_with_fuel(joined_view, 7);
    }
    r
}

/// "operation underflowed: value V, pending delta P, incoming delta D".
fn format_underflow(value: String, pending: String, delta: String) -> (r: String)
    ensures
        r@ == underflow_text(value@, pending@, delta@),
{
    let parts = [
        "operation underflowed: value ",
        value.as_str(),
        ", pending delta ",
        pending.as_str(),
        ", incoming delta ",
        delta.as_str(),
    ];
    let r = joined(&parts);
    proof {
        reveal_with_fuel(joined_view, 7);
    }
    r
}

} // verus!
