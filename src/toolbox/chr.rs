use vstd::prelude::*;

verus! {

pub const CNTRL: u8 = 0x01;

pub const SPACE: u8 = 0x02;

pub const PUNCT: u8 = 0x04;

pub const DIGIT: u8 = 0x08;

pub const XDIGIT: u8 = 0x10;

pub const UPPER: u8 = 0x20;

pub const LOWER: u8 = 0x40;

pub const IDENT: u8 = 0x80;

pub const ALPHA: u8 = LOWER | UPPER;

pub const ALNUM: u8 = ALPHA | DIGIT;

pub const GRAPH: u8 = ALNUM | PUNCT;

/// The class bits of a character code from 0 to 255; characters beyond have no class.
pub open spec fn char_bits(c: char) -> u8 {
    let n = c as u32;
    if n <= 8 {
        1
    } else if n <= 13 {
        3
    } else if n <= 31 {
        1
    } else if n == 32 {
        2
    } else if n <= 47 {
        4
    } else if n <= 57 {
        152
    } else if n <= 64 {
        4
    } else if n <= 70 {
        176
    } else if n <= 90 {
        160
    } else if n <= 94 {
        4
    } else if n == 95 {
        132
    } else if n == 96 {
        4
    } else if n <= 102 {
        208
    } else if n <= 122 {
        192
    } else if n <= 126 {
        4
    } else if n == 127 {
        1
    } else if n <= 255 {
        128
    } else {
        0
    }
}

/// Letters, digits, `_`, and the character codes from 0x80 to 0xFF.
pub open spec fn is_ident_char(c: char) -> bool {
    ('0' <= c <= '9') || ('A' <= c <= 'Z') || ('a' <= c <= 'z') || c == '_' || (128 <= c as u32
        <= 255)
}

pub open spec fn is_digit_char(c: char) -> bool {
    '0' <= c <= '9'
}

pub fn class_bits(c: char) -> (r: u8)
    ensures
        r == char_bits(c),
{
    let n = c as u32;
    if n <= 8 {
        1
    } else if n <= 13 {
        3
    } else if n <= 31 {
        1
    } else if n == 32 {
        2
    } else if n <= 47 {
        4
    } else if n <= 57 {
        152
    } else if n <= 64 {
        4
    } else if n <= 70 {
        176
    } else if n <= 90 {
        160
    } else if n <= 94 {
        4
    } else if n == 95 {
        132
    } else if n == 96 {
        4
    } else if n <= 102 {
        208
    } else if n <= 122 {
        192
    } else if n <= 126 {
        4
    } else if n == 127 {
        1
    } else if n <= 255 {
        128
    } else {
        0
    }
}

/// True when `c` has any of the class bits in `mask`.
pub fn is_alpha(c: char, mask: u8) -> (r: bool)
    ensures
        r == (char_bits(c) & mask != 0),
{
    class_bits(c) & mask != 0
}

pub fn is_ident(c: char) -> (r: bool)
    ensures
        r == is_ident_char(c),
{
    ('0' <= c && c <= '9') || ('A' <= c && c <= 'Z') || ('a' <= c && c <= 'z') || c == '_' || (128
        <= c as u32 && c as u32 <= 255)
}

pub fn is_digit(c: char) -> (r: bool)
    ensures
        r == is_digit_char(c),
{
    '0' <= c && c <= '9'
}

} // verus!
