//! Decimal digits among bytes, and positions in a byte string.

use vstd::prelude::*;

verus! {

/// The byte is one of the ASCII characters `0` to `9`.
pub open spec fn is_digit(b: u8) -> bool {
    48 <= b && b <= 57
}

/// The byte is the ASCII character `0`.
pub open spec fn is_zero(b: u8) -> bool {
    b == 48
}

/// A position of executable code as a mathematical integer.
pub open spec fn pos(i: usize) -> int {
    i as int
}

/// Tells whether the byte is a decimal digit.
pub fn is_digit_byte(b: u8) -> (d: bool)
    ensures
        d == is_digit(b),
{
    48 <= b && b <= 57
}

/// Tells whether the byte is the digit `0`.
pub fn is_zero_byte(b: u8) -> (z: bool)
    ensures
        z == is_zero(b),
{
    b == 48
}

} // verus!
