use vstd::prelude::*;

use crate::error::Error;

verus! {

// The six zero-width code points of the codec alphabet, in order.
// Indices 0..4 are value characters carrying two bits each; indices 4 and 5
// are the shortcut characters of the compression layer.
pub const CHAR0: char = '\u{200C}';
pub const CHAR1: char = '\u{200D}';
pub const CHAR2: char = '\u{2060}';
pub const CHAR3: char = '\u{2062}';
pub const CHAR4: char = '\u{2063}';
pub const CHAR5: char = '\u{2064}';

/// Whether `c` is one of the four value characters.
pub open spec fn is_value_char(c: char) -> bool {
    c == CHAR0 || c == CHAR1 || c == CHAR2 || c == CHAR3
}

/// The two-bit value a value character encodes.
/// Meaningful only when `is_value_char(c)` holds.
pub open spec fn char_value(c: char) -> int {
    if c == CHAR0 {
        0
    } else if c == CHAR1 {
        1
    } else if c == CHAR2 {
        2
    } else {
        3
    }
}

/// The value character encoding the two-bit value `v`.
/// Meaningful only for `0 <= v < 4`.
pub open spec fn value_char(v: int) -> char {
    if v == 0 {
        CHAR0
    } else if v == 1 {
        CHAR1
    } else if v == 2 {
        CHAR2
    } else {
        CHAR3
    }
}

/// Whether `c` is one of the two shortcut characters.
pub open spec fn is_shortcut_char(c: char) -> bool {
    c == CHAR4 || c == CHAR5
}

/// Whether `c` belongs to the codec alphabet at all.
pub open spec fn is_zwc(c: char) -> bool {
    is_value_char(c) || is_shortcut_char(c)
}

/// How far a character advances a compressed block: a shortcut carries a
/// whole nibble (two steps), a value character two bits (one step).
pub open spec fn char_weight(c: char) -> int {
    if is_shortcut_char(c) {
        2
    } else {
        1
    }
}

/// Returns the binary value of a zero-width value character.
pub fn val(c: char) -> (r: Result<u8, Error>)
    ensures
        is_value_char(c) ==> r == Ok::<u8, Error>(char_value(c) as u8),
        !is_value_char(c) ==> r == Err::<u8, Error>(Error::InvalidCharacter(c)),
{
    match c {
        CHAR0 => Ok(0b00),
        CHAR1 => Ok(0b01),
        CHAR2 => Ok(0b10),
        CHAR3 => Ok(0b11),
        _ => Err(Error::InvalidCharacter(c)),
    }
}

/// The value character encoding the two-bit value `v`.
pub fn value_char_of(v: u8) -> (c: char)
    requires
        v < 4,
    ensures
        c == value_char(v as int),
{
    if v == 0 {
        CHAR0
    } else if v == 1 {
        CHAR1
    } else if v == 2 {
        CHAR2
    } else {
        CHAR3
    }
}

/// Check if a character is zero-width.
pub fn is_zw(c: char) -> (r: bool)
    ensures
        r == is_zwc(c),
{
    match c {
        CHAR0 | CHAR1 | CHAR2 | CHAR3 | CHAR4 | CHAR5 => true,
        _ => false,
    }
}

} // verus!
