//! A small HTTP API library: three stateless endpoints (a welcome message, a
//! health check, and an echo of query parameters), each rendered as a JSON
//! response body. Query-string parsing and JSON rendering are verified; the
//! network listener lives outside the library.

use vstd::prelude::*;

pub mod json;
pub mod query;
pub mod responses;

verus! {

/// ASCII `0`.
pub const DIGIT_0: u8 = 48;

/// ASCII `9`.
pub const DIGIT_9: u8 = 57;

/// ASCII `a`.
pub const LOWER_A: u8 = 97;

/// ASCII `f`.
pub const LOWER_F: u8 = 102;

/// ASCII `A`.
pub const UPPER_A: u8 = 65;

/// ASCII `F`.
pub const UPPER_F: u8 = 70;

/// The value of a hexadecimal digit, or 16 for a byte that is none.
pub open spec fn spec_hex_val(b: u8) -> u8 {
    if DIGIT_0 <= b && b <= DIGIT_9 {
        (b - DIGIT_0) as u8
    } else if LOWER_A <= b && b <= LOWER_F {
        (b - LOWER_A + 10) as u8
    } else if UPPER_A <= b && b <= UPPER_F {
        (b - UPPER_A + 10) as u8
    } else {
        16u8
    }
}

/// Whether a byte is an ASCII hexadecimal digit.
pub open spec fn spec_is_hex_digit(b: u8) -> bool {
    spec_hex_val(b) < 16
}

/// The value of a hexadecimal digit byte; 16 signals "not a digit".
pub fn hex_val(b: u8) -> (r: u8)
    ensures
        r == spec_hex_val(b),
{
    if DIGIT_0 <= b && b <= DIGIT_9 {
        b - DIGIT_0
    } else if LOWER_A <= b && b <= LOWER_F {
        b - LOWER_A + 10
    } else if UPPER_A <= b && b <= UPPER_F {
        b - UPPER_A + 10
    } else {
        16
    }
}

} // verus!
