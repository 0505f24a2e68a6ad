use vstd::prelude::*;

use crate::alphabet::{
    char_value, is_shortcut_char, is_value_char, val, value_char, value_char_of, CHAR4, CHAR5,
};
use crate::block::{block_from_chars_spec, Block};
use crate::error::Error;

verus! {

/// Two four-bit patterns that the codec shortens to a single shortcut
/// character each, packed as `p0 | (p1 << 4)`.
#[derive(Debug, Copy, Clone, Eq, PartialEq, Ord, PartialOrd, Hash, Structural)]
pub struct Compression(pub u8);

/// How one nibble is encoded under setting `c`: a configured pattern becomes
/// its shortcut character, anything else its two value characters,
/// low bits first.
pub open spec fn nibble_chars(c: Compression, n: int) -> Seq<char>
    recommends
        0 <= n < 16,
{
    if n == c.p0() {
        seq![CHAR4]
    } else if n == c.p1() {
        seq![CHAR5]
    } else {
        seq![value_char(n % 4), value_char(n / 4)]
    }
}

/// The compressed encoding of a byte: its low nibble, then its high nibble.
pub open spec fn compressed_chars(c: Compression, b: u8) -> Seq<char> {
    nibble_chars(c, b as int % 16) + nibble_chars(c, b as int / 16)
}

/// The shift accumulator that rebuilds a byte from a three-character block:
/// a shortcut character contributes its four-bit pattern at the current bit
/// position and advances it by four, a value character contributes its two
/// bits and advances by two.
pub open spec fn decomp3_spec(
    c: Compression,
    s: Seq<char>,
    i: int,
    shift: u8,
    acc: u8,
) -> Result<u8, Error>
    recommends
        s.len() == 3,
    decreases 3 - i,
{
    if i >= 3 {
        Ok(acc)
    } else if s[i] == CHAR4 {
        decomp3_spec(c, s, i + 1, ((shift + 4) as u8), acc | (((c.p0() as u8) << shift) as u8))
    } else if s[i] == CHAR5 {
        decomp3_spec(c, s, i + 1, ((shift + 4) as u8), acc | (((c.p1() as u8) << shift) as u8))
    } else if is_value_char(s[i]) {
        decomp3_spec(
            c,
            s,
            i + 1,
            ((shift + 2) as u8),
            acc | (((char_value(s[i]) as u8) << shift) as u8),
        )
    } else {
        Err(Error::InvalidCharacter(s[i]))
    }
}

/// What decoding a compressed block yields, by block length: four characters
/// fall back to the uncompressed codec, two characters are two shortcuts,
/// three characters run the shift accumulator.
pub open spec fn block_from_chars_compressed_spec(c: Compression, s: Seq<char>) -> Result<
    u8,
    Error,
>
    recommends
        2 <= s.len() <= 4,
{
    if s.len() == 4 {
        block_from_chars_spec(s)
    } else if s.len() == 2 {
        if !is_shortcut_char(s[0]) {
            Err(Error::InvalidCharacter(s[0]))
        } else if !is_shortcut_char(s[1]) {
            Err(Error::InvalidCharacter(s[1]))
        } else {
            let lo = if s[0] == CHAR4 {
                c.p0()
            } else {
                c.p1()
            };
            let hi = if s[1] == CHAR4 {
                c.p0()
            } else {
                c.p1()
            };
            Ok((lo + 16 * hi) as u8)
        }
    } else {
        decomp3_spec(c, s, 0, 0, 0)
    }
}

/// Occurrences of the nibble value `v` among the low and high nibbles of
/// `data`.
pub open spec fn nibble_count(data: Seq<u8>, v: int) -> nat
    decreases data.len(),
{
    if data.len() == 0 {
        0
    } else {
        nibble_count(data.drop_last(), v) + (if data.last() as int % 16 == v {
            1nat
        } else {
            0nat
        }) + (if data.last() as int / 16 == v {
            1nat
        } else {
            0nat
        })
    }
}

/// The fold that selects the two most frequent nibble patterns, scanning
/// candidates in increasing order: a strictly higher count replaces the
/// first choice, otherwise a strictly higher count than the second choice
/// replaces the second.
pub open spec fn optimal_fold(data: Seq<u8>, i: int, a0: int, a1: int) -> (int, int)
    decreases 16 - i,
{
    if i >= 16 {
        (a0, a1)
    } else if nibble_count(data, i) > nibble_count(data, a0) {
        optimal_fold(data, i + 1, i, a1)
    } else if nibble_count(data, i) > nibble_count(data, a1) {
        optimal_fold(data, i + 1, a0, i)
    } else {
        optimal_fold(data, i + 1, a0, a1)
    }
}

/// The pattern pair `Compression::optimal` selects for the given data.
pub open spec fn optimal_patterns(data: Seq<u8>) -> (int, int) {
    optimal_fold(data, 0, 0, 0)
}

/// A nibble occurs at most twice per byte.
proof fn lemma_nibble_count_bound(data: Seq<u8>, v: int)
    ensures
        nibble_count(data, v) <= 2 * data.len(),
    decreases data.len(),
{
    if data.len() > 0 {
        lemma_nibble_count_bound(data.drop_last(), v);
    }
}

/// The fold keeps its accumulators inside the nibble range.
proof fn lemma_optimal_fold_range(data: Seq<u8>, i: int, a0: int, a1: int)
    requires
        0 <= i <= 16,
        0 <= a0 < 16,
        0 <= a1 < 16,
    ensures
        0 <= optimal_fold(data, i, a0, a1).0 < 16,
        0 <= optimal_fold(data, i, a0, a1).1 < 16,
    decreases 16 - i,
{
    if i < 16 {
        if nibble_count(data, i) > nibble_count(data, a0) {
            lemma_optimal_fold_range(data, i + 1, i, a1);
        } else if nibble_count(data, i) > nibble_count(data, a1) {
            lemma_optimal_fold_range(data, i + 1, a0, i);
        } else {
            lemma_optimal_fold_range(data, i + 1, a0, a1);
        }
    }
}

/// The selected pattern pair always lies in the nibble range.
pub proof fn lemma_optimal_patterns_range(data: Seq<u8>)
    ensures
        0 <= optimal_patterns(data).0 < 16,
        0 <= optimal_patterns(data).1 < 16,
{
    lemma_optimal_fold_range(data, 0, 0, 0);
}

impl Compression {
    /// The first configured pattern.
    pub open spec fn p0(self) -> int {
        self.0 as int % 16
    }

    /// The second configured pattern.
    pub open spec fn p1(self) -> int {
        self.0 as int / 16
    }

    /// Creates a compression setting from two 4 bits patterns.
    pub fn new(p0: u8, p1: u8) -> (r: Result<Self, Error>)
        ensures
            p0 >= 16 ==> r == Err::<Compression, Error>(Error::InvalidCompressionPattern(p0)),
            p0 < 16 && p1 >= 16 ==> r == Err::<Compression, Error>(
                Error::InvalidCompressionPattern(p1),
            ),
            p0 < 16 && p1 < 16 ==> (r matches Ok(c) && c.p0() == p0 && c.p1() == p1),
    {
        if p0 >= 16 {
            return Err(Error::InvalidCompressionPattern(p0));
        }
        if p1 >= 16 {
            return Err(Error::InvalidCompressionPattern(p1));
        }
        proof {
            assert((p0 | (p1 << 4u8)) == p0 + 16 * p1) by (bit_vector)
                requires
                    p0 < 16,
                    p1 < 16,
            ;
        }
        Ok(Self(p0 | (p1 << 4)))
    }

    /// Creates a compression setting by finding the two most common patterns
    /// in the provided data.
    pub fn optimal(data: &[u8]) -> (r: (Self, u8, u8))
        ensures
            r.1 as int == optimal_patterns(data@).0,
            r.2 as int == optimal_patterns(data@).1,
            r.1 < 16,
            r.2 < 16,
            r.0.p0() == r.1 as int,
            r.0.p1() == r.2 as int,
    {
        let mut patterns: Vec<u128> = vec![0u128; 16];
        let mut idx: usize = 0;
        while idx < data.len()
            invariant
                patterns@.len() == 16,
                idx <= data@.len(),
                forall|v: int|
                    0 <= v < 16 ==> patterns@[v] == nibble_count(data@.take(idx as int), v),
            decreases data@.len() - idx,
        {
            let b = data[idx];
            let lo = (b & 0b0000_1111) as usize;
            let hi = ((b & 0b1111_0000) >> 4) as usize;
            proof {
                assert((b & 0b0000_1111) == b % 16 && ((b & 0b1111_0000) >> 4) == b / 16 && (b
                    & 0b0000_1111) < 16 && ((b & 0b1111_0000) >> 4) < 16) by (bit_vector);
                lemma_nibble_count_bound(data@.take(idx as int), lo as int);
                lemma_nibble_count_bound(data@.take(idx as int), hi as int);
            }
            patterns[lo] = patterns[lo] + 1;
            patterns[hi] = patterns[hi] + 1;
            proof {
                assert(data@.take(idx + 1).drop_last() =~= data@.take(idx as int));
                assert(data@.take(idx + 1).last() == b);
                assert(forall|v: int|
                    0 <= v < 16 ==> nibble_count(data@.take(idx + 1), v) == nibble_count(
                        data@.take(idx as int),
                        v,
                    ) + (if b as int % 16 == v {
                        1int
                    } else {
                        0int
                    }) + (if b as int / 16 == v {
                        1int
                    } else {
                        0int
                    }));
            }
            idx = idx + 1;
        }
        proof {
            assert(data@.take(data@.len() as int) =~= data@);
        }
        let mut a0: usize = 0;
        let mut a1: usize = 0;
        let mut i: usize = 0;
        while i < 16
            invariant
                patterns@.len() == 16,
                a0 < 16,
                a1 < 16,
                i <= 16,
                forall|v: int| 0 <= v < 16 ==> patterns@[v] == nibble_count(data@, v),
                optimal_fold(data@, i as int, a0 as int, a1 as int) == optimal_patterns(data@),
            decreases 16 - i,
        {
            if patterns[i] > patterns[a0] {
                a0 = i;
            } else if patterns[i] > patterns[a1] {
                a1 = i;
            }
            i = i + 1;
        }
        let rp0 = a0 as u8;
        let rp1 = a1 as u8;
        (Self::new(rp0, rp1).unwrap(), rp0, rp1)
    }

    /// Returns the first pattern as lower bytes.
    fn g0l(self) -> (r: u8)
        ensures
            r as int == self.p0(),
    {
        proof {
            let x = self.0;
            assert((x & 0b0000_1111) == x % 16) by (bit_vector);
        }
        self.0 & 0b0000_1111
    }

    /// Returns the second pattern as lower bytes.
    fn g1l(self) -> (r: u8)
        ensures
            r as int == self.p1(),
    {
        proof {
            let x = self.0;
            assert(((x & 0b1111_0000) >> 4) == x / 16) by (bit_vector);
        }
        (self.0 & 0b1111_0000) >> 4
    }

    /// Returns the first pattern as higher bytes.
    fn g0h(self) -> (r: u8)
        ensures
            r as int == 16 * self.p0(),
    {
        proof {
            let x = self.0;
            assert(((x & 0b0000_1111) << 4) == 16 * (x % 16)) by (bit_vector);
        }
        (self.0 & 0b0000_1111) << 4
    }

    /// Returns the second pattern as higher bytes.
    fn g1h(self) -> (r: u8)
        ensures
            r as int == 16 * self.p1(),
    {
        proof {
            let x = self.0;
            assert((x & 0b1111_0000) == 16 * (x / 16)) by (bit_vector);
        }
        self.0 & 0b1111_0000
    }

    /// Converts a block to chars: each nibble becomes a shortcut character
    /// or two value characters, giving a block of two to four characters.
    pub(crate) fn block_to_chars(self, b: Block) -> (r: ([char; 4], usize))
        ensures
            2 <= r.1 <= 4,
            r.1 as int == compressed_chars(self, b.0).len(),
            r.0@.take(r.1 as int) == compressed_chars(self, b.0),
    {
        let byte = b.0;
        let lo = byte & 0b0000_1111;
        let hi = (byte & 0b1111_0000) >> 4;
        proof {
            assert((byte & 0b0000_1111) == byte % 16 && ((byte & 0b1111_0000) >> 4) == byte / 16
                && (byte & 0b0000_1111) < 16 && ((byte & 0b1111_0000) >> 4) < 16 && (byte
                & 0b0000_1111) & 0b0000_0011 == (byte % 16) % 4 && ((byte & 0b0000_1111) >> 2) == (
            byte % 16) / 4 && ((byte & 0b0000_1111) >> 2) < 4 && ((byte & 0b1111_0000) >> 4)
                & 0b0000_0011 == (byte / 16) % 4 && (((byte & 0b1111_0000) >> 4) >> 2) == (byte
                / 16) / 4 && (((byte & 0b1111_0000) >> 4) >> 2) < 4) by (bit_vector);
        }
        let (l0, l1, llen): (char, char, usize) = if lo == self.g0l() {
            (CHAR4, '\0', 1)
        } else if lo == self.g1l() {
            (CHAR5, '\0', 1)
        } else {
            (value_char_of(lo & 0b0000_0011), value_char_of(lo >> 2), 2)
        };
        let (h0, h1, hlen): (char, char, usize) = if hi == self.g0l() {
            (CHAR4, '\0', 1)
        } else if hi == self.g1l() {
            (CHAR5, '\0', 1)
        } else {
            (value_char_of(hi & 0b0000_0011), value_char_of(hi >> 2), 2)
        };
        let r: ([char; 4], usize) = if llen == 1 {
            if hlen == 1 {
                ([l0, h0, '\0', '\0'], 2)
            } else {
                ([l0, h0, h1, '\0'], 3)
            }
        } else {
            if hlen == 1 {
                ([l0, l1, h0, '\0'], 3)
            } else {
                ([l0, l1, h0, h1], 4)
            }
        };
        proof {
            assert(r.0@.take(r.1 as int) =~= compressed_chars(self, byte));
        }
        r
    }

    /// Creates a block from a compressed run of `len` characters.
    ///
    /// A three-character block never starts with two shortcut characters:
    /// their combined weight already fills the byte after two characters.
    pub(crate) fn block_from_chars(self, chars: [char; 4], len: usize) -> (r: Result<Block, Error>)
        requires
            len == 2 || len == 3 || len == 4,
            len == 3 ==> !(is_shortcut_char(chars@[0]) && is_shortcut_char(chars@[1])),
        ensures
            match block_from_chars_compressed_spec(self, chars@.take(len as int)) {
                Ok(v) => r == Ok::<Block, Error>(Block(v)),
                Err(e) => r == Err::<Block, Error>(e),
            },
    {
        if len == 4 {
            proof {
                assert(chars@.take(4) =~= chars@);
            }
            Block::from_chars(chars)
        } else if len == 2 {
            let lo = match chars[0] {
                CHAR4 => self.g0l(),
                CHAR5 => self.g1l(),
                c => return Err(Error::InvalidCharacter(c)),
            };
            let hi = match chars[1] {
                CHAR4 => self.g0h(),
                CHAR5 => self.g1h(),
                c => return Err(Error::InvalidCharacter(c)),
            };
            proof {
                assert((lo | hi) == lo + hi) by (bit_vector)
                    requires
                        lo < 16,
                        hi % 16 == 0,
                ;
            }
            Ok(Block(lo | hi))
        } else {
            let ghost s = chars@.take(3);
            let mut b: u8 = 0;
            let mut shift: u8 = 0;
            let c0 = chars[0];
            if c0 == CHAR4 {
                shift = shift + 4;
                b = b | (self.g0l() << (shift - 4));
            } else if c0 == CHAR5 {
                shift = shift + 4;
                b = b | (self.g1l() << (shift - 4));
            } else {
                let v = match val(c0) {
                    Ok(v) => v,
                    Err(e) => return Err(e),
                };
                shift = shift + 2;
                b = b | (v << (shift - 2));
            }
            let ghost sh1 = shift;
            let ghost b1 = b;
            proof {
                assert(decomp3_spec(self, s, 1, sh1, b1) == decomp3_spec(self, s, 0, 0, 0));
            }
            let c1 = chars[1];
            if c1 == CHAR4 {
                shift = shift + 4;
                b = b | (self.g0l() << (shift - 4));
            } else if c1 == CHAR5 {
                shift = shift + 4;
                b = b | (self.g1l() << (shift - 4));
            } else {
                let v = match val(c1) {
                    Ok(v) => v,
                    Err(e) => return Err(e),
                };
                shift = shift + 2;
                b = b | (v << (shift - 2));
            }
            let ghost sh2 = shift;
            let ghost b2 = b;
            proof {
                assert(decomp3_spec(self, s, 2, sh2, b2) == decomp3_spec(self, s, 1, sh1, b1));
            }
            let c2 = chars[2];
            if c2 == CHAR4 {
                shift = shift + 4;
                b = b | (self.g0l() << (shift - 4));
            } else if c2 == CHAR5 {
                shift = shift + 4;
                b = b | (self.g1l() << (shift - 4));
            } else {
                let v = match val(c2) {
                    Ok(v) => v,
                    Err(e) => return Err(e),
                };
                shift = shift + 2;
                b = b | (v << (shift - 2));
            }
            proof {
                assert(decomp3_spec(self, s, 3, shift, b) == decomp3_spec(self, s, 2, sh2, b2));
            }
            Ok(Block(b))
        }
    }
}

impl Block {
    /// Converts a block to chars with compression.
    pub fn to_compressed_chars(self, compression: Compression) -> (r: ([char; 4], usize))
        ensures
            2 <= r.1 <= 4,
            r.1 as int == compressed_chars(compression, self.0).len(),
            r.0@.take(r.1 as int) == compressed_chars(compression, self.0),
    {
        compression.block_to_chars(self)
    }

    /// Creates a block from chars with compression.
    pub fn from_compressed_chars(chars: [char; 4], len: usize, compression: Compression) -> (r:
        Result<Block, Error>)
        requires
            len == 2 || len == 3 || len == 4,
            len == 3 ==> !(is_shortcut_char(chars@[0]) && is_shortcut_char(chars@[1])),
        ensures
            match block_from_chars_compressed_spec(compression, chars@.take(len as int)) {
                Ok(v) => r == Ok::<Block, Error>(Block(v)),
                Err(e) => r == Err::<Block, Error>(e),
            },
    {
        compression.block_from_chars(chars, len)
    }
}

/// Law: decoding the compressed encoding of any byte under any setting
/// yields that byte back.
pub proof fn lemma_compressed_block_round_trip(c: Compression, b: u8)
    ensures
        block_from_chars_compressed_spec(c, compressed_chars(c, b)) == Ok::<u8, Error>(b),
{
    reveal_with_fuel(decomp3_spec, 5);
    let lo = b as int % 16;
    let hi = b as int / 16;
    let s = compressed_chars(c, b);
    assert(b % 16 < 16 && b / 16 < 16) by (bit_vector);
    if lo == c.p0() || lo == c.p1() {
        if hi == c.p0() || hi == c.p1() {
            // two shortcuts: both nibbles are read back directly
            assert(s.len() == 2);
            assert(b as int % 16 + 16 * (b as int / 16) == b as int) by (bit_vector);
        } else {
            // shortcut then two value characters
            assert(s.len() == 3);
            assert(s[0] == nibble_chars(c, lo)[0]);
            assert(s[1] == value_char(hi % 4) && s[2] == value_char(hi / 4));
            let p = (lo as u8);
            let v1 = ((hi % 4) as u8);
            let v2 = ((hi / 4) as u8);
            assert(((0u8 | (p << 0u8)) | (v1 << 4u8)) | (v2 << 6u8) == b) by (bit_vector)
                requires
                    p == b % 16,
                    v1 == (b / 16) % 4,
                    v2 == (b / 16) / 4,
            ;
        }
    } else {
        if hi == c.p0() || hi == c.p1() {
            // two value characters then a shortcut
            assert(s.len() == 3);
            let v0 = ((lo % 4) as u8);
            let v1 = ((lo / 4) as u8);
            let p = (hi as u8);
            assert(((0u8 | (v0 << 0u8)) | (v1 << 2u8)) | (p << 4u8) == b) by (bit_vector)
                requires
                    v0 == (b % 16) % 4,
                    v1 == (b % 16) / 4,
                    p == b / 16,
            ;
        } else {
            // four value characters: the uncompressed block codec
            assert(s.len() == 4);
            assert((b % 16) % 4 + 4 * ((b % 16) / 4) + 16 * ((b / 16) % 4) + 64 * ((b / 16) / 4)
                == b) by (bit_vector);
        }
    }
}

} // verus!
