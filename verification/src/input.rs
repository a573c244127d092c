//! The number to solve, read from its decimal text.
use crate::bignum::{parse_integer, parsed_numeral, BigNat};
use vstd::prelude::*;

verus! {

/// Why a text gives no number to solve.
#[derive(Debug, Clone, Copy, PartialEq, Eq, Structural)]
pub enum InputError {
    /// The text is not a decimal integer.
    NotAnInteger,
    /// The integer is below 6 (negative ones included).
    BelowSix,
    /// The integer is odd.
    Odd,
}

/// Reads the even number `N >= 6` to solve from its decimal text: an
/// optional sign, digits, and whitespace anywhere or `_` after the first
/// digit. The checks come in this order: an integer, at least 6, even.
pub fn parse_target(text: &Vec<u8>) -> (res: Result<BigNat, InputError>)
    ensures
        (match parsed_numeral(text@) {
            None => res == Err::<BigNat, InputError>(InputError::NotAnInteger),
            Some((neg, v)) => if neg || v < 6 {
                res == Err::<BigNat, InputError>(InputError::BelowSix)
            } else if v % 2 != 0 {
                res == Err::<BigNat, InputError>(InputError::Odd)
            } else {
                res matches Ok(n) && n@ == v
            },
        }),
{
    match parse_integer(text) {
        None => Err(InputError::NotAnInteger),
        Some((negative, magnitude)) => {
            let small = match magnitude.to_u64() {
                Some(v) => v < 6,
                None => false,
            };
            if negative || small {
                Err(InputError::BelowSix)
            } else if !magnitude.is_even() {
                Err(InputError::Odd)
            } else {
                Ok(magnitude)
            }
        },
    }
}

} // verus!
