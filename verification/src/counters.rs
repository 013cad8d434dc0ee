//! Counters on the wire: a JSON number holds an integer exactly only up to 2^53 - 1.

use vstd::prelude::*;

verus! {

/// The greatest integer that every reader of JSON keeps exactly.
pub const MAX_SAFE_JSON_INTEGER: u64 = 9_007_199_254_740_991;

/// Why a JSON number is no counter.
#[derive(Debug, Clone, Copy, PartialEq, Eq, Structural)]
pub enum CounterError {
    Negative,
    TooLarge,
    NotAnInteger,
}

/// A number as a JSON reader gives it: an integer of either sign, or a binary fraction split into
/// its sign, its whole part and whether anything is left behind the point. A whole part beyond 64
/// bits, or a fraction that is not finite, has none.
#[derive(Debug, Clone, Copy, PartialEq, Eq, Structural)]
pub enum JsonNumber {
    Unsigned(u64),
    Signed(i64),
    Fraction { negative: bool, whole: Option<u64>, exact: bool },
}

/// The counter that a number stands for.
pub open spec fn counter_value(number: JsonNumber) -> Result<u64, CounterError> {
    match number {
        JsonNumber::Unsigned(value) => if value <= MAX_SAFE_JSON_INTEGER {
            Ok(value)
        } else {
            Err(CounterError::TooLarge)
        },
        JsonNumber::Signed(value) => if value < 0 {
            Err(CounterError::Negative)
        } else if value <= MAX_SAFE_JSON_INTEGER {
            Ok(value as u64)
        } else {
            Err(CounterError::TooLarge)
        },
        JsonNumber::Fraction { negative, whole, exact } => match whole {
            Some(value) => if exact && (!negative || value == 0) && value
                <= MAX_SAFE_JSON_INTEGER {
                Ok(value)
            } else {
                Err(CounterError::NotAnInteger)
            },
            None => Err(CounterError::NotAnInteger),
        },
    }
}

/// Reads a counter: a non-negative integer, written with or without a point.
pub fn read_counter(number: JsonNumber) -> (result: Result<u64, CounterError>)
    ensures
        result == counter_value(number),
{
    match number {
        JsonNumber::Unsigned(value) => if value <= MAX_SAFE_JSON_INTEGER {
            Ok(value)
        } else {
            Err(CounterError::TooLarge)
        },
        JsonNumber::Signed(value) => if value < 0 {
            Err(CounterError::Negative)
        } else if value as u64 <= MAX_SAFE_JSON_INTEGER {
            Ok(value as u64)
        } else {
            Err(CounterError::TooLarge)
        },
        JsonNumber::Fraction { negative, whole, exact } => match whole {
            Some(value) => if exact && (!negative || value == 0) && value
                <= MAX_SAFE_JSON_INTEGER {
                Ok(value)
            } else {
                Err(CounterError::NotAnInteger)
            },
            None => Err(CounterError::NotAnInteger),
        },
    }
}

/// An accepted counter survives any reader of JSON.
pub proof fn lemma_counter_is_safe(number: JsonNumber)
    ensures
        counter_value(number) matches Ok(value) ==> value < 0x20_0000_0000_0000,
{
}

} // verus!
