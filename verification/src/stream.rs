use vstd::prelude::*;

use crate::alphabet::{char_weight, is_shortcut_char, CHAR4, CHAR5};
use crate::block::{block_chars, block_from_chars_spec, Block};
use crate::compression::{
    block_from_chars_compressed_spec, compressed_chars, lemma_compressed_block_round_trip,
    Compression,
};
use crate::error::Error;

verus! {

/// The canonical stream encoding: four value characters per byte, in order.
pub open spec fn encode_spec(bytes: Seq<u8>) -> Seq<char>
    decreases bytes.len(),
{
    if bytes.len() == 0 {
        Seq::empty()
    } else {
        block_chars(bytes[0]) + encode_spec(bytes.skip(1))
    }
}

/// The canonical stream decoding: one byte per four characters, and a
/// partial trailing block becomes a single `IncompleteBlock` error.
pub open spec fn decode_spec(chars: Seq<char>) -> Seq<Result<u8, Error>>
    decreases chars.len(),
{
    if chars.len() == 0 {
        Seq::empty()
    } else if chars.len() < 4 {
        seq![Err::<u8, Error>(Error::IncompleteBlock(chars.len() as usize))]
    } else {
        seq![block_from_chars_spec(chars.take(4))] + decode_spec(chars.skip(4))
    }
}

/// The compressed stream encoding: each byte contributes its two to four
/// character block under the given setting.
pub open spec fn encode_compress_spec(c: Compression, bytes: Seq<u8>) -> Seq<char>
    decreases bytes.len(),
{
    if bytes.len() == 0 {
        Seq::empty()
    } else {
        compressed_chars(c, bytes[0]) + encode_compress_spec(c, bytes.skip(1))
    }
}

/// The greedy scan that delimits one compressed block: starting with `i`
/// characters taken and accumulated weight `ceil`, characters are taken
/// until their weight reaches four or the input ends.  Returns the
/// character count and the final weight.
pub open spec fn dd_scan(chars: Seq<char>, i: int, ceil: int) -> (int, int)
    recommends
        0 <= i <= chars.len(),
    decreases chars.len() - i,
{
    if ceil >= 4 || i >= chars.len() {
        (i, ceil)
    } else {
        dd_scan(chars, i + 1, ceil + char_weight(chars[i]))
    }
}

/// The scan takes at least one further character only while input remains,
/// and never more than three beyond a unit of weight.
pub proof fn lemma_dd_scan_bounds(chars: Seq<char>, i: int, ceil: int)
    requires
        0 <= i <= chars.len(),
        i <= ceil,
        1 <= ceil,
    ensures
        ({
            let (k, fc) = dd_scan(chars, i, ceil);
            &&& i <= k <= chars.len()
            &&& k <= fc
            &&& fc >= ceil
            &&& (fc < 4 ==> k == chars.len())
            &&& (ceil < 4 ==> k <= i + 4 - ceil)
            &&& (ceil >= 4 ==> k == i)
        }),
    decreases chars.len() - i,
{
    if !(ceil >= 4 || i >= chars.len()) {
        lemma_dd_scan_bounds(chars, i + 1, ceil + char_weight(chars[i]));
    }
}

/// The decompressing stream decoding: blocks are delimited by the greedy
/// scan; a block whose weight never reaches four is the end of the input
/// and becomes a single `IncompleteBlock` error.
pub open spec fn decode_decompress_spec(c: Compression, chars: Seq<char>) -> Seq<
    Result<u8, Error>,
>
    decreases chars.len(),
{
    if chars.len() == 0 {
        Seq::empty()
    } else {
        let (k, fc) = dd_scan(chars, 1, char_weight(chars[0]));
        if fc >= 4 {
            proof {
                lemma_dd_scan_bounds(chars, 1, char_weight(chars[0]));
            }
            seq![block_from_chars_compressed_spec(c, chars.take(k))] + decode_decompress_spec(
                c,
                chars.skip(k),
            )
        } else {
            seq![Err::<u8, Error>(Error::IncompleteBlock(k as usize))]
        }
    }
}

/// Appending a byte appends its block to the canonical encoding.
proof fn lemma_encode_spec_push(bytes: Seq<u8>, b: u8)
    ensures
        encode_spec(bytes.push(b)) == encode_spec(bytes) + block_chars(b),
    decreases bytes.len(),
{
    let p = bytes.push(b);
    if bytes.len() == 0 {
        assert(p.skip(1) =~= Seq::<u8>::empty());
        assert(p[0] == b);
        assert(encode_spec(p) == block_chars(b) + encode_spec(p.skip(1)));
        assert(encode_spec(p) =~= encode_spec(bytes) + block_chars(b));
    } else {
        assert(p.skip(1) =~= bytes.skip(1).push(b));
        lemma_encode_spec_push(bytes.skip(1), b);
        assert(p[0] == bytes[0]);
        assert(encode_spec(p) == block_chars(bytes[0]) + encode_spec(p.skip(1)));
        assert(encode_spec(bytes) == block_chars(bytes[0]) + encode_spec(bytes.skip(1)));
        assert(encode_spec(p) =~= encode_spec(bytes) + block_chars(b));
    }
}

/// Appending a byte appends its block to the compressed encoding.
proof fn lemma_encode_compress_spec_push(c: Compression, bytes: Seq<u8>, b: u8)
    ensures
        encode_compress_spec(c, bytes.push(b)) == encode_compress_spec(c, bytes)
            + compressed_chars(c, b),
    decreases bytes.len(),
{
    let p = bytes.push(b);
    if bytes.len() == 0 {
        assert(p.skip(1) =~= Seq::<u8>::empty());
        assert(p[0] == b);
        assert(encode_compress_spec(c, p) == compressed_chars(c, b) + encode_compress_spec(
            c,
            p.skip(1),
        ));
        assert(encode_compress_spec(c, p) =~= encode_compress_spec(c, bytes) + compressed_chars(
            c,
            b,
        ));
    } else {
        assert(p.skip(1) =~= bytes.skip(1).push(b));
        lemma_encode_compress_spec_push(c, bytes.skip(1), b);
        assert(p[0] == bytes[0]);
        assert(encode_compress_spec(c, p) == compressed_chars(c, bytes[0]) + encode_compress_spec(
            c,
            p.skip(1),
        ));
        assert(encode_compress_spec(c, bytes) == compressed_chars(c, bytes[0])
            + encode_compress_spec(c, bytes.skip(1)));
        assert(encode_compress_spec(c, p) =~= encode_compress_spec(c, bytes) + compressed_chars(
            c,
            b,
        ));
    }
}

/// Converts a byte slice into its zero-width character encoding.
pub fn encode(bytes: &[u8]) -> (r: Vec<char>)
    ensures
        r@ == encode_spec(bytes@),
{
    let mut out: Vec<char> = Vec::new();
    let mut i: usize = 0;
    while i < bytes.len()
        invariant
            i <= bytes@.len(),
            out@ == encode_spec(bytes@.take(i as int)),
        decreases bytes@.len() - i,
    {
        let cs = Block(bytes[i]).to_chars();
        out.push(cs[0]);
        out.push(cs[1]);
        out.push(cs[2]);
        out.push(cs[3]);
        proof {
            lemma_encode_spec_push(bytes@.take(i as int), bytes@[i as int]);
            assert(bytes@.take(i + 1) =~= bytes@.take(i as int).push(bytes@[i as int]));
            assert(out@ =~= encode_spec(bytes@.take(i + 1)));
        }
        i = i + 1;
    }
    proof {
        assert(bytes@.take(bytes@.len() as int) =~= bytes@);
    }
    out
}

/// Converts a zero-width character slice into the bytes it encodes; a
/// trailing partial block yields one `IncompleteBlock` error.
pub fn decode(chars: &[char]) -> (r: Vec<Result<u8, Error>>)
    ensures
        r@ == decode_spec(chars@),
{
    let mut out: Vec<Result<u8, Error>> = Vec::new();
    let mut i: usize = 0;
    proof {
        assert(chars@.skip(0) =~= chars@);
        assert(out@ + decode_spec(chars@) =~= decode_spec(chars@));
    }
    while chars.len() - i >= 4
        invariant
            i <= chars@.len(),
            decode_spec(chars@) == out@ + decode_spec(chars@.skip(i as int)),
        decreases chars@.len() - i,
    {
        let arr = [chars[i], chars[i + 1], chars[i + 2], chars[i + 3]];
        let res: Result<u8, Error> = match Block::from_chars(arr) {
            Ok(b) => Ok(b.0),
            Err(e) => Err(e),
        };
        out.push(res);
        proof {
            let rest = chars@.skip(i as int);
            assert(arr@ =~= rest.take(4));
            assert(rest.skip(4) =~= chars@.skip(i as int + 4));
            assert(decode_spec(chars@) =~= out@ + decode_spec(chars@.skip(i as int + 4)));
        }
        i = i + 4;
    }
    if i < chars.len() {
        let k = chars.len() - i;
        out.push(Err(Error::IncompleteBlock(k)));
        proof {
            assert(decode_spec(chars@.skip(i as int)) =~= seq![
                Err::<u8, Error>(Error::IncompleteBlock(k)),
            ]);
            assert(out@ =~= decode_spec(chars@));
        }
    } else {
        proof {
            assert(chars@.skip(i as int) =~= Seq::<char>::empty());
            assert(out@ =~= decode_spec(chars@));
        }
    }
    out
}

/// Converts a byte slice into its compressed zero-width character encoding
/// under the provided settings.
pub fn encode_compress(bytes: &[u8], compression: Compression) -> (r: Vec<char>)
    ensures
        r@ == encode_compress_spec(compression, bytes@),
{
    let mut out: Vec<char> = Vec::new();
    let mut i: usize = 0;
    while i < bytes.len()
        invariant
            i <= bytes@.len(),
            out@ == encode_compress_spec(compression, bytes@.take(i as int)),
        decreases bytes@.len() - i,
    {
        let (cs, len) = Block(bytes[i]).to_compressed_chars(compression);
        out.push(cs[0]);
        out.push(cs[1]);
        if len >= 3 {
            out.push(cs[2]);
        }
        if len >= 4 {
            out.push(cs[3]);
        }
        proof {
            lemma_encode_compress_spec_push(compression, bytes@.take(i as int), bytes@[i as int]);
            assert(bytes@.take(i + 1) =~= bytes@.take(i as int).push(bytes@[i as int]));
            assert(out@ =~= encode_compress_spec(compression, bytes@.take(i + 1)));
        }
        i = i + 1;
    }
    proof {
        assert(bytes@.take(bytes@.len() as int) =~= bytes@);
    }
    out
}

/// Converts a compressed zero-width character slice back into bytes under
/// the provided settings; an input ending mid-block yields one
/// `IncompleteBlock` error.
pub fn decode_decompress(chars: &[char], compression: Compression) -> (r: Vec<Result<u8, Error>>)
    ensures
        r@ == decode_decompress_spec(compression, chars@),
{
    let mut out: Vec<Result<u8, Error>> = Vec::new();
    let mut i: usize = 0;
    proof {
        assert(chars@.skip(0) =~= chars@);
        assert(out@ + decode_decompress_spec(compression, chars@) =~= decode_decompress_spec(
            compression,
            chars@,
        ));
    }
    while i < chars.len()
        invariant
            i <= chars@.len(),
            decode_decompress_spec(compression, chars@) == out@ + decode_decompress_spec(
                compression,
                chars@.skip(i as int),
            ),
        decreases chars@.len() - i,
    {
        let ghost rest = chars@.skip(i as int);
        let c0 = chars[i];
        let mut blockbuf: Vec<char> = Vec::new();
        blockbuf.push(c0);
        let mut ceil: usize = if c0 == CHAR4 || c0 == CHAR5 {
            2
        } else {
            1
        };
        let mut j: usize = i + 1;
        while ceil < 4 && j < chars.len()
            invariant
                i < chars@.len(),
                i + 1 <= j <= chars@.len(),
                rest == chars@.skip(i as int),
                blockbuf@ =~= chars@.subrange(i as int, j as int),
                j - i <= ceil,
                j - i <= 4,
                dd_scan(rest, j - i, ceil as int) == dd_scan(rest, 1, char_weight(rest[0])),
            decreases chars@.len() - j,
        {
            let cn = chars[j];
            blockbuf.push(cn);
            if cn == CHAR4 || cn == CHAR5 {
                ceil = ceil + 2;
            } else {
                ceil = ceil + 1;
            }
            j = j + 1;
            proof {
                assert(blockbuf@ =~= chars@.subrange(i as int, j as int));
                assert(rest[j - 1 - i] == chars@[j - 1]);
            }
        }
        let len = j - i;
        proof {
            assert(rest.len() == chars@.len() - i);
            assert(dd_scan(rest, 1, char_weight(rest[0])) == (len as int, ceil as int));
        }
        if ceil >= 4 {
            // a complete block of two to four characters
            proof {
                if len == 1 {
                    assert(char_weight(rest[0]) <= 2);
                    if rest.len() > 1 {
                        lemma_dd_scan_bounds(
                            rest,
                            2,
                            char_weight(rest[0]) + char_weight(rest[1]),
                        );
                        assert(dd_scan(rest, 1, char_weight(rest[0])) == dd_scan(
                            rest,
                            2,
                            char_weight(rest[0]) + char_weight(rest[1]),
                        ));
                    } else {
                        assert(dd_scan(rest, 1, char_weight(rest[0])) == (
                            1int,
                            char_weight(rest[0]),
                        ));
                    }
                    assert(false);
                }
                if len == 3 && is_shortcut_char(rest[0]) && is_shortcut_char(rest[1]) {
                    assert(rest.len() >= 3);
                    assert(char_weight(rest[0]) == 2 && char_weight(rest[1]) == 2);
                    assert(dd_scan(rest, 2, 4) == (2int, 4int));
                    assert(dd_scan(rest, 1, 2) == dd_scan(rest, 2, 2 + char_weight(rest[1])));
                    assert(dd_scan(rest, 1, char_weight(rest[0])) == (2int, 4int));
                    assert(false);
                }
            }
            let a0 = blockbuf[0];
            let a1 = blockbuf[1];
            let a2 = if len >= 3 {
                blockbuf[2]
            } else {
                '\0'
            };
            let a3 = if len >= 4 {
                blockbuf[3]
            } else {
                '\0'
            };
            let arr = [a0, a1, a2, a3];
            proof {
                assert(arr@.take(len as int) =~= rest.take(len as int));
            }
            let res: Result<u8, Error> = match compression.block_from_chars(arr, len) {
                Ok(b) => Ok(b.0),
                Err(e) => Err(e),
            };
            out.push(res);
            proof {
                assert(rest.skip(len as int) =~= chars@.skip(j as int));
                assert(decode_decompress_spec(compression, chars@) =~= out@
                    + decode_decompress_spec(compression, chars@.skip(j as int)));
            }
            i = j;
        } else {
            // the input ended mid-block
            out.push(Err(Error::IncompleteBlock(len)));
            proof {
                assert(j == chars@.len());
                assert(decode_decompress_spec(compression, rest) =~= seq![
                    Err::<u8, Error>(Error::IncompleteBlock(len)),
                ]);
                assert(chars@.skip(j as int) =~= Seq::<char>::empty());
                assert(decode_decompress_spec(compression, chars@) =~= out@
                    + decode_decompress_spec(compression, chars@.skip(j as int)));
            }
            i = j;
        }
    }
    proof {
        assert(chars@.skip(chars@.len() as int) =~= Seq::<char>::empty());
    }
    out
}

/// Law: decoding the canonical encoding of any byte sequence yields exactly
/// those bytes, each as `Ok`.
pub proof fn lemma_stream_round_trip(bytes: Seq<u8>)
    ensures
        decode_spec(encode_spec(bytes)) =~= bytes.map_values(|b: u8| Ok::<u8, Error>(b)),
    decreases bytes.len(),
{
    if bytes.len() > 0 {
        let s = encode_spec(bytes);
        assert(s.take(4) =~= block_chars(bytes[0]));
        assert(s.skip(4) =~= encode_spec(bytes.skip(1)));
        crate::block::lemma_block_round_trip(bytes[0]);
        lemma_stream_round_trip(bytes.skip(1));
        assert(bytes.skip(1).map_values(|b: u8| Ok::<u8, Error>(b)) =~= bytes.map_values(
            |b: u8| Ok::<u8, Error>(b),
        ).skip(1));
    }
}

/// Law: one to three characters left after the canonical encoding decode to
/// the encoded bytes followed by exactly one `IncompleteBlock` error whose
/// count is the number of trailing characters.
pub proof fn lemma_decode_trailing(bytes: Seq<u8>, extra: Seq<char>)
    requires
        1 <= extra.len() < 4,
    ensures
        decode_spec(encode_spec(bytes) + extra) =~= bytes.map_values(|b: u8| Ok::<u8, Error>(b))
            + seq![Err::<u8, Error>(Error::IncompleteBlock(extra.len() as usize))],
    decreases bytes.len(),
{
    let s = encode_spec(bytes) + extra;
    if bytes.len() == 0 {
        assert(s =~= extra);
    } else {
        assert(s.take(4) =~= block_chars(bytes[0]));
        assert(s.skip(4) =~= encode_spec(bytes.skip(1)) + extra);
        crate::block::lemma_block_round_trip(bytes[0]);
        lemma_decode_trailing(bytes.skip(1), extra);
        assert(bytes.skip(1).map_values(|b: u8| Ok::<u8, Error>(b)) =~= bytes.map_values(
            |b: u8| Ok::<u8, Error>(b),
        ).skip(1));
    }
}

/// The scan over a block emitted by the compressed encoder consumes exactly
/// that block: its weight is exactly four.
proof fn lemma_dd_scan_of_block(c: Compression, b: u8, rest: Seq<char>)
    ensures
        ({
            let blk = compressed_chars(c, b);
            let s = blk + rest;
            dd_scan(s, 1, char_weight(s[0])) == (blk.len() as int, 4int)
        }),
{
    reveal_with_fuel(dd_scan, 5);
    let blk = compressed_chars(c, b);
    let s = blk + rest;
    let lo = b as int % 16;
    let hi = b as int / 16;
    assert(b % 16 < 16 && b / 16 < 16) by (bit_vector);
    if lo == c.p0() || lo == c.p1() {
        if hi == c.p0() || hi == c.p1() {
            assert(s[0] == blk[0] && s[1] == blk[1]);
        } else {
            assert(s[0] == blk[0] && s[1] == blk[1] && s[2] == blk[2]);
        }
    } else {
        if hi == c.p0() || hi == c.p1() {
            assert(s[0] == blk[0] && s[1] == blk[1] && s[2] == blk[2]);
        } else {
            assert(s[0] == blk[0] && s[1] == blk[1] && s[2] == blk[2] && s[3] == blk[3]);
        }
    }
}

/// Law: decoding the compressed encoding of any byte sequence under the
/// same setting yields exactly those bytes, each as `Ok`.
pub proof fn lemma_compressed_stream_round_trip(c: Compression, bytes: Seq<u8>)
    ensures
        decode_decompress_spec(c, encode_compress_spec(c, bytes)) =~= bytes.map_values(
            |b: u8| Ok::<u8, Error>(b),
        ),
    decreases bytes.len(),
{
    if bytes.len() > 0 {
        let blk = compressed_chars(c, bytes[0]);
        let rest = encode_compress_spec(c, bytes.skip(1));
        let s = encode_compress_spec(c, bytes);
        assert(s =~= blk + rest);
        lemma_dd_scan_of_block(c, bytes[0], rest);
        assert(s.take(blk.len() as int) =~= blk);
        assert(s.skip(blk.len() as int) =~= rest);
        lemma_compressed_block_round_trip(c, bytes[0]);
        lemma_compressed_stream_round_trip(c, bytes.skip(1));
        assert(bytes.skip(1).map_values(|b: u8| Ok::<u8, Error>(b)) =~= bytes.map_values(
            |b: u8| Ok::<u8, Error>(b),
        ).skip(1));
    }
}

} // verus!
