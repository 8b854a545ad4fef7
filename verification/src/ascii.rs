//! The bytes that the puzzle texts are made of.

use vstd::prelude::*;

verus! {

pub const LF: u8 = 10;

pub const CR: u8 = 13;

pub const SPACE: u8 = 32;

pub const HASH: u8 = 35;

pub const STAR: u8 = 42;

pub const PLUS: u8 = 43;

pub const COMMA: u8 = 44;

pub const MINUS: u8 = 45;

pub const DOT: u8 = 46;

pub const ZERO: u8 = 48;

pub const NINE: u8 = 57;

pub const COLON: u8 = 58;

pub const AT: u8 = 64;

pub const CARET: u8 = 94;

/// Line feed and carriage return end a line.
pub open spec fn is_eol(b: u8) -> bool {
    b == LF || b == CR
}

pub open spec fn is_digit(b: u8) -> bool {
    ZERO <= b <= NINE
}

/// Whether the byte ends a line.
pub fn ends_line(b: u8) -> (r: bool)
    ensures
        r == is_eol(b),
{
    b == LF || b == CR
}

/// Whether the byte is a decimal digit.
pub fn digit(b: u8) -> (r: bool)
    ensures
        r == is_digit(b),
{
    ZERO <= b && b <= NINE
}

} // verus!
