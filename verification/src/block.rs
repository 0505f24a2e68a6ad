use vstd::prelude::*;

use crate::alphabet::{char_value, is_value_char, value_char, value_char_of};
use crate::error::Error;

verus! {

/// The canonical four-character encoding of a byte: four value characters in
/// little-endian two-bit groups.
pub open spec fn block_chars(b: u8) -> Seq<char> {
    seq![
        value_char(b as int % 4),
        value_char((b as int / 4) % 4),
        value_char((b as int / 16) % 4),
        value_char(b as int / 64),
    ]
}

/// The byte assembled from four two-bit values, little-endian.
pub open spec fn byte_of_values(v0: int, v1: int, v2: int, v3: int) -> int {
    v0 + 4 * v1 + 16 * v2 + 64 * v3
}

/// What decoding four characters yields: the first non-value character (in
/// order) fails, otherwise the four two-bit values assemble the byte.
pub open spec fn block_from_chars_spec(s: Seq<char>) -> Result<u8, Error>
    recommends
        s.len() == 4,
{
    if !is_value_char(s[0]) {
        Err(Error::InvalidCharacter(s[0]))
    } else if !is_value_char(s[1]) {
        Err(Error::InvalidCharacter(s[1]))
    } else if !is_value_char(s[2]) {
        Err(Error::InvalidCharacter(s[2]))
    } else if !is_value_char(s[3]) {
        Err(Error::InvalidCharacter(s[3]))
    } else {
        Ok(
            byte_of_values(
                char_value(s[0]),
                char_value(s[1]),
                char_value(s[2]),
                char_value(s[3]),
            ) as u8,
        )
    }
}

/// One payload byte: the unit the codec turns into a run of two to four
/// zero-width characters.
#[derive(Debug, Copy, Clone, Eq, PartialEq, Ord, PartialOrd, Hash, Structural)]
pub struct Block(pub u8);

impl Block {
    /// Converts a block to chars without compression.
    pub fn to_chars(self) -> (r: [char; 4])
        ensures
            r@ == block_chars(self.0),
    {
        let b = self.0;
        proof {
            assert((b & 0b0000_0011) == b % 4 && ((b & 0b0000_1100) >> 2) == (b / 4) % 4 && ((b
                & 0b0011_0000) >> 4) == (b / 16) % 4 && ((b & 0b1100_0000) >> 6) == b / 64 && (b
                & 0b0000_0011) < 4 && ((b & 0b0000_1100) >> 2) < 4 && ((b & 0b0011_0000) >> 4) < 4
                && ((b & 0b1100_0000) >> 6) < 4) by (bit_vector);
        }
        let c0 = value_char_of(b & 0b0000_0011);
        let c1 = value_char_of((b & 0b0000_1100) >> 2);
        let c2 = value_char_of((b & 0b0011_0000) >> 4);
        let c3 = value_char_of((b & 0b1100_0000) >> 6);
        let r = [c0, c1, c2, c3];
        proof {
            assert(r@ =~= block_chars(b));
        }
        r
    }

    /// Creates a block from chars without compression.
    pub fn from_chars(chars: [char; 4]) -> (r: Result<Self, Error>)
        ensures
            match block_from_chars_spec(chars@) {
                Ok(v) => r == Ok::<Block, Error>(Block(v)),
                Err(e) => r == Err::<Block, Error>(e),
            },
    {
        let v0 = match crate::alphabet::val(chars[0]) {
            Ok(v) => v,
            Err(e) => return Err(e),
        };
        let v1 = match crate::alphabet::val(chars[1]) {
            Ok(v) => v,
            Err(e) => return Err(e),
        };
        let v2 = match crate::alphabet::val(chars[2]) {
            Ok(v) => v,
            Err(e) => return Err(e),
        };
        let v3 = match crate::alphabet::val(chars[3]) {
            Ok(v) => v,
            Err(e) => return Err(e),
        };
        let b = v0 | (v1 << 2) | (v2 << 4) | (v3 << 6);
        proof {
            assert((v0 | (v1 << 2u8) | (v2 << 4u8) | (v3 << 6u8)) == v0 + 4 * v1 + 16 * v2 + 64
                * v3) by (bit_vector)
                requires
                    v0 < 4,
                    v1 < 4,
                    v2 < 4,
                    v3 < 4,
            ;
        }
        Ok(Self(b))
    }
}

/// Law: decoding the canonical four-character encoding of any byte yields
/// that byte back.
pub proof fn lemma_block_round_trip(b: u8)
    ensures
        block_from_chars_spec(block_chars(b)) == Ok::<u8, Error>(b),
{
    assert(b % 4 + 4 * ((b / 4) % 4) + 16 * ((b / 16) % 4) + 64 * (b / 64) == b) by (bit_vector);
}

} // verus!
