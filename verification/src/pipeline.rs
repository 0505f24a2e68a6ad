use vstd::prelude::*;
use vstd::string::*;

use chacha20poly1305::aead::Error as AeadError;
use std::io::Error as IoError;

use crate::alphabet::{char_value, is_value_char, is_zwc, value_char, value_char_of};
use crate::compression::{lemma_optimal_patterns_range, optimal_patterns, Compression};
use crate::external::{
    aead_decrypt, aead_encrypt, aead_opened, aead_sealed, brotli_compress_raw,
    brotli_compressed, brotli_decompress_raw, brotli_plain, chars_to_string, fresh_nonce,
    poly1305_mac, poly1305_tag,
};
use crate::stream::{
    decode_decompress, decode_decompress_spec, encode_compress, encode_compress_spec,
    lemma_compressed_stream_round_trip,
};

verus! {

/// An error from the camouflage pipeline.
#[derive(Debug)]
pub enum Error {
    /// A zero-width codec failure in the payload or the trailer.
    Zwc(crate::error::Error),
    /// The AEAD rejected the sealed payload.
    Cipher(AeadError),
    /// Brotli failed while compressing or decompressing.
    Brotli(IoError),
    /// The cover string holds no ASCII space to hide the payload behind.
    NoSpaces,
    /// Fewer zero-width characters than a trailer, or a sealed payload
    /// shorter than its nonce.
    InvalidPayload,
}

/// The failure stages of the decode side, as contracts speak of them: the
/// sealed AEAD and Brotli failures carry opaque library errors, so the
/// model names only the stage.
#[derive(Debug, Copy, Clone, PartialEq, Eq, Structural)]
pub enum DecamFailure {
    /// A zero-width codec failure, with the exact codec error.
    Zwc(crate::error::Error),
    /// The AEAD rejected the sealed payload.
    Cipher,
    /// Brotli rejected the decoded stream.
    Brotli,
    /// Fewer zero-width characters than a trailer, or a sealed payload
    /// shorter than its nonce.
    InvalidPayload,
}

/// Whether a pipeline error reports the given failure stage.
pub open spec fn err_matches(e: Error, f: DecamFailure) -> bool {
    match f {
        DecamFailure::Zwc(z) => e matches Error::Zwc(z2) && z2 == z,
        DecamFailure::Cipher => e is Cipher,
        DecamFailure::Brotli => e is Brotli,
        DecamFailure::InvalidPayload => e is InvalidPayload,
    }
}

/// The key bytes the pipeline derives from, when a key is given: the
/// UTF-8 encoding of the passphrase.
pub open spec fn spec_key_bytes(key: Option<&str>) -> Option<Seq<u8>> {
    match key {
        Option::None => Option::None,
        Option::Some(k) => Option::Some(k.spec_bytes()),
    }
}

/// The Brotli quality used: the given level, or ten.
pub open spec fn quality_of(level: Option<i32>) -> int {
    match level {
        Option::Some(l) => l as int,
        Option::None => 10,
    }
}

/// The 32-byte Poly1305 key built by cycling the passphrase bytes.
pub open spec fn cycled_key(kb: Seq<u8>) -> Seq<u8>
    recommends
        kb.len() > 0,
{
    Seq::new(32, |i: int| kb[i % (kb.len() as int)])
}

/// The derived AEAD key: the 16-byte Poly1305 tag of the passphrase under
/// the cycled key, repeated twice.
///
/// This construction is kept for wire compatibility.  It is not a
/// password-based key derivation function: it gains nothing from key
/// stretching, and cycling biases the hash key.
pub open spec fn derived_key(kb: Seq<u8>) -> Seq<u8> {
    poly1305_tag(cycled_key(kb), kb) + poly1305_tag(cycled_key(kb), kb)
}

/// Whether the cover holds an ASCII space to insert the payload after.
pub open spec fn has_space(dummy: Seq<char>) -> bool {
    exists|i: int| 0 <= i < dummy.len() && dummy[i] == ' '
}

/// The index of the first ASCII space of the cover.
pub open spec fn first_space(dummy: Seq<char>) -> int
    decreases dummy.len(),
{
    if dummy.len() == 0 {
        0
    } else if dummy[0] == ' ' {
        0
    } else {
        1 + first_space(dummy.skip(1))
    }
}

/// When the cover holds a space, `first_space` points at the first one.
proof fn lemma_first_space(dummy: Seq<char>)
    requires
        has_space(dummy),
    ensures
        0 <= first_space(dummy) < dummy.len(),
        dummy[first_space(dummy)] == ' ',
        forall|j: int| 0 <= j < first_space(dummy) ==> dummy[j] != ' ',
    decreases dummy.len(),
{
    if dummy[0] != ' ' {
        let k = choose|k: int| 0 <= k < dummy.len() && dummy[k] == ' ';
        assert(dummy.skip(1)[k - 1] == ' ');
        lemma_first_space(dummy.skip(1));
        assert forall|j: int| 0 <= j < first_space(dummy) implies dummy[j] != ' ' by {
            if j > 0 {
                assert(dummy.skip(1)[j - 1] != ' ');
            }
        }
    }
}

/// The camouflaged character stream: the cover with the hidden characters
/// inserted once, right after its first ASCII space; a cover without a
/// space stays as it is.
pub open spec fn weave(dummy: Seq<char>, ins: Seq<char>) -> Seq<char> {
    if has_space(dummy) {
        let i = first_space(dummy);
        dummy.take(i + 1) + ins + dummy.skip(i + 1)
    } else {
        dummy
    }
}

/// The zero-width characters of a string, in order.
pub open spec fn zwc_of(s: Seq<char>) -> Seq<char> {
    s.filter(|c: char| is_zwc(c))
}

/// The visible characters of a string: those outside the codec alphabet.
pub open spec fn visible_of(s: Seq<char>) -> Seq<char> {
    s.filter(|c: char| !is_zwc(c))
}

/// A cover is clean when it holds no zero-width character of the alphabet.
pub open spec fn no_zwc(s: Seq<char>) -> bool {
    forall|i: int| 0 <= i < s.len() ==> !is_zwc(s[i])
}

/// The four value characters carrying the pattern pair, low bits first.
pub open spec fn trailer_chars(p0: int, p1: int) -> Seq<char>
    recommends
        0 <= p0 < 16,
        0 <= p1 < 16,
{
    seq![value_char(p0 % 4), value_char(p0 / 4), value_char(p1 % 4), value_char(p1 / 4)]
}

/// The compression setting packing the given pattern pair.
pub open spec fn setting_of(p0: int, p1: int) -> Compression
    recommends
        0 <= p0 < 16,
        0 <= p1 < 16,
{
    Compression((p0 + 16 * p1) as u8)
}

/// Everything hidden in the cover for a byte buffer: its compressed
/// encoding under the buffer's optimal setting, then the trailer naming
/// that setting.
pub open spec fn inserted_chars(buf: Seq<u8>) -> Seq<char> {
    let p = optimal_patterns(buf);
    encode_compress_spec(setting_of(p.0, p.1), buf) + trailer_chars(p.0, p.1)
}

/// Whether the compressed payload is small enough to seal: under a key,
/// ChaCha20-Poly1305 refuses a plaintext of 2^32 - 1 or more 64-byte
/// blocks, its one failure; without a key there is nothing to seal.
pub open spec fn seal_fits(payload: Seq<u8>, okey: Option<Seq<u8>>, quality: int) -> bool {
    okey is Some ==> brotli_compressed(payload, quality).len() < 64 * 0xFFFF_FFFF
}

/// The byte buffer hidden for a payload: Brotli-compressed, and under a
/// key also sealed, with the nonce appended.
pub open spec fn hidden_buf(
    payload: Seq<u8>,
    okey: Option<Seq<u8>>,
    quality: int,
    nonce: Seq<u8>,
) -> Seq<u8> {
    let z = brotli_compressed(payload, quality);
    match okey {
        Option::None => z,
        Option::Some(kb) => aead_sealed(derived_key(kb), nonce, z) + nonce,
    }
}

/// The camouflaged output for a payload, cover, key, quality and nonce.
pub open spec fn camouflage_out(
    payload: Seq<u8>,
    dummy: Seq<char>,
    okey: Option<Seq<u8>>,
    quality: int,
    nonce: Seq<u8>,
) -> Seq<char> {
    weave(dummy, inserted_chars(hidden_buf(payload, okey, quality, nonce)))
}

/// The bytes of a decoded block sequence, or its first error.
pub open spec fn collect_bytes(rs: Seq<Result<u8, crate::error::Error>>) -> Result<
    Seq<u8>,
    crate::error::Error,
>
    decreases rs.len(),
{
    if rs.len() == 0 {
        Ok(Seq::empty())
    } else {
        match rs[0] {
            Err(e) => Err(e),
            Ok(b) => match collect_bytes(rs.skip(1)) {
                Ok(t) => Ok(seq![b] + t),
                Err(e) => Err(e),
            },
        }
    }
}

/// The tail of the decode side once the byte buffer is recovered: split
/// off the nonce and open the sealed payload when a key is given, then
/// Brotli-decompress.
pub open spec fn decam_tail(buf: Seq<u8>, okey: Option<Seq<u8>>) -> Result<Seq<u8>, DecamFailure> {
    match okey {
        Option::None => unpack(buf),
        Option::Some(kb) => {
            if buf.len() < 12 {
                Err(DecamFailure::InvalidPayload)
            } else {
                let nonce = buf.skip(buf.len() - 12);
                let sealed = buf.take(buf.len() - 12);
                match aead_opened(derived_key(kb), nonce, sealed) {
                    Option::None => Err(DecamFailure::Cipher),
                    Option::Some(pt) => unpack(pt),
                }
            }
        },
    }
}

/// The Brotli stage of the decode side.
pub open spec fn unpack(buf: Seq<u8>) -> Result<Seq<u8>, DecamFailure> {
    match brotli_plain(buf) {
        Option::Some(p) => Ok(p),
        Option::None => Err(DecamFailure::Brotli),
    }
}

/// What decamouflage yields, as a function of the camouflaged characters
/// and the optional key bytes: filter to zero-width characters, read the
/// trailer, decode the body, then open and decompress.
pub open spec fn decam_spec(cam: Seq<char>, okey: Option<Seq<u8>>) -> Result<
    Seq<u8>,
    DecamFailure,
> {
    let z = zwc_of(cam);
    if z.len() < 4 {
        Err(DecamFailure::InvalidPayload)
    } else {
        let body = z.take(z.len() - 4);
        let t0 = z[z.len() - 4];
        let t1 = z[z.len() - 3];
        let t2 = z[z.len() - 2];
        let t3 = z[z.len() - 1];
        if !is_value_char(t0) {
            Err(DecamFailure::Zwc(crate::error::Error::InvalidCharacter(t0)))
        } else if !is_value_char(t1) {
            Err(DecamFailure::Zwc(crate::error::Error::InvalidCharacter(t1)))
        } else if !is_value_char(t2) {
            Err(DecamFailure::Zwc(crate::error::Error::InvalidCharacter(t2)))
        } else if !is_value_char(t3) {
            Err(DecamFailure::Zwc(crate::error::Error::InvalidCharacter(t3)))
        } else {
            let p0 = char_value(t0) + 4 * char_value(t1);
            let p1 = char_value(t2) + 4 * char_value(t3);
            match collect_bytes(decode_decompress_spec(setting_of(p0, p1), body)) {
                Err(e) => Err(DecamFailure::Zwc(e)),
                Ok(buf) => decam_tail(buf, okey),
            }
        }
    }
}

/// The characters of a string slice, collected in order: exactly its view.
pub(crate) fn str_chars(s: &str) -> (r: Vec<char>)
    ensures
        r@ == s@,
{
    broadcast use vstd::string::axiom_spec_iter;

    let mut out: Vec<char> = Vec::new();
    for c in it: s.chars()
        invariant
            out@ == it.seq().take(it.index() as int),
    {
        out.push(c);
    }
    proof {
        assert(out@ =~= s@);
    }
    out
}

/// A non-empty string encodes to at least one UTF-8 byte.
proof fn lemma_utf8_nonempty(s: Seq<char>)
    requires
        s.len() > 0,
    ensures
        vstd::utf8::encode_utf8(s).len() > 0,
{
    assert(vstd::utf8::encode_utf8(s) == vstd::utf8::encode_scalar(s[0] as u32)
        + vstd::utf8::encode_utf8(s.drop_first()));
}

/// Derives the 32-byte AEAD key from a passphrase.
fn derive_key(kb: &[u8]) -> (r: Vec<u8>)
    requires
        kb@.len() > 0,
    ensures
        r@ == derived_key(kb@),
        r@.len() == 32,
{
    let mut hkey: Vec<u8> = Vec::new();
    let mut i: usize = 0;
    while i < 32
        invariant
            kb@.len() > 0,
            i <= 32,
            hkey@.len() == i,
            forall|j: int| 0 <= j < i ==> hkey@[j] == kb@[j % (kb@.len() as int)],
        decreases 32 - i,
    {
        hkey.push(kb[i % kb.len()]);
        i = i + 1;
    }
    proof {
        assert(hkey@ =~= cycled_key(kb@));
    }
    let tag = poly1305_mac(hkey.as_slice(), kb);
    let mut out: Vec<u8> = Vec::new();
    let mut i: usize = 0;
    while i < 32
        invariant
            tag@.len() == 16,
            i <= 32,
            out@.len() == i,
            forall|j: int| 0 <= j < i ==> out@[j] == tag@[j % 16],
            tag@ == poly1305_tag(cycled_key(kb@), kb@),
        decreases 32 - i,
    {
        out.push(tag[i % 16]);
        i = i + 1;
    }
    proof {
        assert(out@ =~= derived_key(kb@));
    }
    out
}

/// Collecting a prefix of `i` successful entries leaves the rest to
/// decide the outcome.
proof fn lemma_collect_prefix(rs: Seq<Result<u8, crate::error::Error>>, i: int)
    requires
        0 <= i <= rs.len(),
        forall|j: int| 0 <= j < i ==> rs[j] is Ok,
    ensures
        collect_bytes(rs) == (match collect_bytes(rs.skip(i)) {
            Ok(t) => Ok::<Seq<u8>, crate::error::Error>(
                Seq::new(i as nat, |j: int| rs[j]->Ok_0) + t,
            ),
            Err(e) => Err::<Seq<u8>, crate::error::Error>(e),
        }),
    decreases i,
{
    if i == 0 {
        assert(rs.skip(0) =~= rs);
        match collect_bytes(rs) {
            Ok(t) => {
                assert(Seq::new(0, |j: int| rs[j]->Ok_0) + t =~= t);
            },
            Err(_) => {},
        }
    } else {
        assert(rs.len() > 0);
        assert(rs[0] is Ok);
        lemma_collect_prefix(rs.skip(1), i - 1);
        assert(rs.skip(1).skip(i - 1) =~= rs.skip(i));
        match collect_bytes(rs.skip(i)) {
            Ok(t) => {
                assert(seq![rs[0]->Ok_0] + (Seq::new((i - 1) as nat, |j: int| rs.skip(1)[j]->Ok_0)
                    + t) =~= Seq::new(i as nat, |j: int| rs[j]->Ok_0) + t);
            },
            Err(_) => {},
        }
    }
}

/// Collecting an all-successful block sequence yields all its bytes.
proof fn lemma_collect_all_ok(rs: Seq<Result<u8, crate::error::Error>>, bytes: Seq<u8>)
    requires
        rs == bytes.map_values(|b: u8| Ok::<u8, crate::error::Error>(b)),
    ensures
        collect_bytes(rs) == Ok::<Seq<u8>, crate::error::Error>(bytes),
{
    lemma_collect_prefix(rs, rs.len() as int);
    assert(rs.skip(rs.len() as int) =~= Seq::<Result<u8, crate::error::Error>>::empty());
    assert(Seq::new(rs.len(), |j: int| rs[j]->Ok_0) + Seq::<u8>::empty() =~= bytes);
}

/// Retrieves a compressed and optionally encrypted payload from a string.
///
/// The zero-width characters are filtered out of the input; the last four
/// carry the compression setting, the rest decode to the hidden buffer,
/// which is opened when a key is given and then Brotli-decompressed.
#[verifier::loop_isolation(false)]
pub fn decamouflage(camouflaged: &str, key: Option<&str>) -> (r: Result<Vec<u8>, Error>)
    requires
        key matches Some(k) ==> k@.len() > 0,
    ensures
        match decam_spec(camouflaged@, spec_key_bytes(key)) {
            Ok(p) => r matches Ok(v) && v@ == p,
            Err(f) => r matches Err(e) && err_matches(e, f),
        },
{
    let all = str_chars(camouflaged);
    let mut z: Vec<char> = Vec::new();
    let mut i: usize = 0;
    proof {
        reveal(Seq::filter);
        assert(all@.take(0) =~= Seq::<char>::empty());
        assert(zwc_of(all@.take(0)) =~= Seq::<char>::empty());
    }
    while i < all.len()
        invariant
            i <= all@.len(),
            z@ == zwc_of(all@.take(i as int)),
        decreases all@.len() - i,
    {
        let c = all[i];
        if crate::alphabet::is_zw(c) {
            z.push(c);
        }
        proof {
            reveal(Seq::filter);
            let t = all@.take(i as int);
            assert(all@.take(i + 1) =~= t.push(c));
            assert(t.push(c).drop_last() =~= t);
            assert(zwc_of(t.push(c)) == if is_zwc(c) {
                zwc_of(t).push(c)
            } else {
                zwc_of(t)
            });
        }
        i = i + 1;
    }
    proof {
        assert(all@.take(all@.len() as int) =~= all@);
    }
    let ghost z0 = z@;
    if z.len() < 4 {
        return Err(Error::InvalidPayload);
    }
    let c3 = z.pop().unwrap();
    let c2 = z.pop().unwrap();
    let c1 = z.pop().unwrap();
    let c0 = z.pop().unwrap();
    proof {
        assert(z@ =~= z0.take(z0.len() - 4));
        assert(c0 == z0[z0.len() - 4] && c1 == z0[z0.len() - 3] && c2 == z0[z0.len() - 2] && c3
            == z0[z0.len() - 1]);
    }
    let v0 = match crate::alphabet::val(c0) {
        Ok(v) => v,
        Err(e) => return Err(Error::Zwc(e)),
    };
    let v1 = match crate::alphabet::val(c1) {
        Ok(v) => v,
        Err(e) => return Err(Error::Zwc(e)),
    };
    let v2 = match crate::alphabet::val(c2) {
        Ok(v) => v,
        Err(e) => return Err(Error::Zwc(e)),
    };
    let v3 = match crate::alphabet::val(c3) {
        Ok(v) => v,
        Err(e) => return Err(Error::Zwc(e)),
    };
    let p0 = v0 | (v1 << 2);
    let p1 = v2 | (v3 << 2);
    proof {
        assert((v0 | (v1 << 2u8)) == v0 + 4 * v1 && (v0 | (v1 << 2u8)) < 16 && (v2 | (v3 << 2u8))
            == v2 + 4 * v3 && (v2 | (v3 << 2u8)) < 16) by (bit_vector)
            requires
                v0 < 4,
                v1 < 4,
                v2 < 4,
                v3 < 4,
        ;
    }
    let compression = match Compression::new(p0, p1) {
        Ok(c) => c,
        Err(e) => return Err(Error::Zwc(e)),
    };
    proof {
        assert(compression.0 == p0 + 16 * p1) by {
            assert(compression.p0() == p0 && compression.p1() == p1);
        };
        assert(compression == setting_of(p0 as int, p1 as int));
    }
    let results = decode_decompress(z.as_slice(), compression);
    let mut buf: Vec<u8> = Vec::new();
    let mut i: usize = 0;
    while i < results.len()
        invariant
            i <= results@.len(),
            forall|j: int| 0 <= j < i ==> results@[j] is Ok,
            buf@ == Seq::new(i as nat, |j: int| results@[j]->Ok_0),
        decreases results@.len() - i,
    {
        match results[i] {
            Ok(b) => {
                buf.push(b);
                proof {
                    assert(buf@ =~= Seq::new((i + 1) as nat, |j: int| results@[j]->Ok_0));
                }
            },
            Err(e) => {
                proof {
                    lemma_collect_prefix(results@, i as int);
                    assert(results@.skip(i as int)[0] == results@[i as int]);
                }
                return Err(Error::Zwc(e));
            },
        }
        i = i + 1;
    }
    proof {
        lemma_collect_prefix(results@, results@.len() as int);
        assert(results@.skip(results@.len() as int) =~= Seq::<
            Result<u8, crate::error::Error>,
        >::empty());
        assert(buf@ + Seq::<u8>::empty() =~= buf@);
        assert(collect_bytes(results@) == Ok::<Seq<u8>, crate::error::Error>(buf@));
    }
    if let Some(k) = key {
        proof {
            lemma_utf8_nonempty(k@);
        }
        let kb = k.as_bytes();
        let dk = derive_key(kb);
        if buf.len() < 12 {
            return Err(Error::InvalidPayload);
        }
        let boundary = buf.len() - 12;
        let nonce = buf.split_off(boundary);
        match aead_decrypt(dk.as_slice(), nonce.as_slice(), &mut buf) {
            Ok(_) => {},
            Err(e) => return Err(Error::Cipher(e)),
        }
    }
    match brotli_decompress_raw(buf.as_slice()) {
        Ok(v) => Ok(v),
        Err(e) => Err(Error::Brotli(e)),
    }
}

/// Law: a string with fewer than four zero-width characters fails with
/// `InvalidPayload` — there is not even a trailer to read.  Conversely,
/// with at least four and no key that failure cannot arise.  (Under a key
/// it still can: a decoded buffer shorter than its twelve-byte nonce is
/// also reported as `InvalidPayload`.)
pub proof fn lemma_invalid_payload(cam: Seq<char>, okey: Option<Seq<u8>>)
    ensures
        zwc_of(cam).len() < 4 ==> decam_spec(cam, okey) == Err::<Seq<u8>, DecamFailure>(
            DecamFailure::InvalidPayload,
        ),
        zwc_of(cam).len() >= 4 && okey is None ==> decam_spec(cam, okey) != Err::<
            Seq<u8>,
            DecamFailure,
        >(DecamFailure::InvalidPayload),
{
}

/// Filtering a string without zero-width characters drops nothing visible
/// and keeps nothing zero-width.
proof fn lemma_zwc_of_none(s: Seq<char>)
    requires
        no_zwc(s),
    ensures
        zwc_of(s) == Seq::<char>::empty(),
        visible_of(s) == s,
    decreases s.len(),
{
    reveal(Seq::filter);
    if s.len() == 0 {
        assert(zwc_of(s) =~= Seq::<char>::empty());
        assert(visible_of(s) =~= s);
    } else {
        lemma_zwc_of_none(s.drop_last());
        assert(zwc_of(s) =~= Seq::<char>::empty());
        assert(visible_of(s) =~= s);
    }
}

/// Filtering a string of zero-width characters only keeps all of it and
/// leaves nothing visible.
proof fn lemma_zwc_of_all(s: Seq<char>)
    requires
        forall|i: int| 0 <= i < s.len() ==> is_zwc(s[i]),
    ensures
        zwc_of(s) == s,
        visible_of(s) == Seq::<char>::empty(),
    decreases s.len(),
{
    reveal(Seq::filter);
    if s.len() == 0 {
        assert(zwc_of(s) =~= s);
        assert(visible_of(s) =~= Seq::<char>::empty());
    } else {
        lemma_zwc_of_all(s.drop_last());
        assert(zwc_of(s) =~= s);
        assert(visible_of(s) =~= Seq::<char>::empty());
    }
}

/// Both filters distribute over concatenation.
proof fn lemma_zwc_of_add(a: Seq<char>, b: Seq<char>)
    ensures
        zwc_of(a + b) == zwc_of(a) + zwc_of(b),
        visible_of(a + b) == visible_of(a) + visible_of(b),
    decreases b.len(),
{
    reveal(Seq::filter);
    if b.len() == 0 {
        assert(a + b =~= a);
        assert(zwc_of(a) + zwc_of(b) =~= zwc_of(a));
        assert(visible_of(a) + visible_of(b) =~= visible_of(a));
    } else {
        assert((a + b).drop_last() =~= a + b.drop_last());
        lemma_zwc_of_add(a, b.drop_last());
        assert((a + b).last() == b.last());
        if is_zwc(b.last()) {
            assert(zwc_of(a + b) =~= zwc_of(a) + zwc_of(b));
            assert(visible_of(a + b) =~= visible_of(a) + visible_of(b));
        } else {
            assert(zwc_of(a + b) =~= zwc_of(a) + zwc_of(b));
            assert(visible_of(a + b) =~= visible_of(a) + visible_of(b));
        }
    }
}

/// For a clean cover, the woven string splits back apart: its zero-width
/// characters are exactly the insertion, its visible characters exactly
/// the cover.
proof fn lemma_weave_parts(dummy: Seq<char>, ins: Seq<char>)
    requires
        no_zwc(dummy),
        forall|i: int| 0 <= i < ins.len() ==> is_zwc(ins[i]),
    ensures
        has_space(dummy) ==> zwc_of(weave(dummy, ins)) == ins,
        visible_of(weave(dummy, ins)) == dummy,
{
    if has_space(dummy) {
        lemma_first_space(dummy);
        let i = first_space(dummy);
        let a = dummy.take(i + 1);
        let b = dummy.skip(i + 1);
        lemma_zwc_of_add(a + ins, b);
        lemma_zwc_of_add(a, ins);
        lemma_zwc_of_none(a);
        lemma_zwc_of_none(b);
        lemma_zwc_of_all(ins);
        assert(zwc_of(weave(dummy, ins)) =~= ins);
        assert(visible_of(weave(dummy, ins)) =~= dummy);
    } else {
        lemma_zwc_of_none(dummy);
    }
}

/// Every character the compressed encoder emits belongs to the alphabet.
proof fn lemma_encode_compress_all_zwc(c: Compression, bytes: Seq<u8>)
    ensures
        forall|i: int|
            0 <= i < encode_compress_spec(c, bytes).len() ==> is_zwc(
                encode_compress_spec(c, bytes)[i],
            ),
    decreases bytes.len(),
{
    if bytes.len() > 0 {
        lemma_encode_compress_all_zwc(c, bytes.skip(1));
        let blk = crate::compression::compressed_chars(c, bytes[0]);
        let rest = encode_compress_spec(c, bytes.skip(1));
        let s = encode_compress_spec(c, bytes);
        assert forall|i: int| 0 <= i < s.len() implies is_zwc(s[i]) by {
            if i < blk.len() {
                assert(s[i] == blk[i]);
                let lo = bytes[0] as int % 16;
                let hi = bytes[0] as int / 16;
                let nl = crate::compression::nibble_chars(c, lo);
                let nh = crate::compression::nibble_chars(c, hi);
                if i < nl.len() {
                    assert(blk[i] == nl[i]);
                } else {
                    assert(blk[i] == nh[i - nl.len()]);
                }
            } else {
                assert(s[i] == rest[i - blk.len()]);
            }
        }
    }
}

/// Every character of the insertion for a buffer belongs to the alphabet.
proof fn lemma_inserted_all_zwc(buf: Seq<u8>)
    ensures
        forall|i: int|
            0 <= i < inserted_chars(buf).len() ==> is_zwc(inserted_chars(buf)[i]),
{
    let p = optimal_patterns(buf);
    let c = setting_of(p.0, p.1);
    lemma_encode_compress_all_zwc(c, buf);
    let enc = encode_compress_spec(c, buf);
    let tr = trailer_chars(p.0, p.1);
    let ins = inserted_chars(buf);
    assert forall|i: int| 0 <= i < ins.len() implies is_zwc(ins[i]) by {
        if i < enc.len() {
            assert(ins[i] == enc[i]);
        } else {
            assert(ins[i] == tr[i - enc.len()]);
        }
    }
}

/// Reading back a string whose zero-width characters are exactly the
/// insertion for a buffer recovers the buffer's compression setting from
/// the trailer, decodes the buffer, and hands it to the pipeline tail.
#[verifier::spinoff_prover]
proof fn lemma_decam_of_inserted(cam: Seq<char>, buf: Seq<u8>, okey: Option<Seq<u8>>)
    requires
        zwc_of(cam) == inserted_chars(buf),
    ensures
        decam_spec(cam, okey) == decam_tail(buf, okey),
{
    let p = optimal_patterns(buf);
    lemma_optimal_patterns_range(buf);
    let c = setting_of(p.0, p.1);
    let enc = encode_compress_spec(c, buf);
    let tr = trailer_chars(p.0, p.1);
    let z = zwc_of(cam);
    assert(z == enc + tr);
    assert(z.len() == enc.len() + 4);
    assert(z[z.len() - 4] == tr[0] && z[z.len() - 3] == tr[1] && z[z.len() - 2] == tr[2] && z[z.len()
        - 1] == tr[3]);
    assert(char_value(tr[0]) + 4 * char_value(tr[1]) == p.0);
    assert(char_value(tr[2]) + 4 * char_value(tr[3]) == p.1);
    assert(z.take(z.len() - 4) =~= enc);
    lemma_compressed_stream_round_trip(c, buf);
    lemma_collect_all_ok(decode_decompress_spec(c, enc), buf);
}

/// The pipeline tail undoes the hidden-buffer construction: the nonce
/// splits back off, the seal opens, and decompression restores the
/// payload, given what the trusted layer states of the primitives.
#[verifier::spinoff_prover]
proof fn lemma_tail_of_hidden(
    payload: Seq<u8>,
    okey: Option<Seq<u8>>,
    quality: int,
    nonce: Seq<u8>,
)
    requires
        nonce.len() == 12,
        brotli_plain(brotli_compressed(payload, quality)) == Some(payload),
        okey matches Some(kb) ==> aead_opened(
            derived_key(kb),
            nonce,
            aead_sealed(derived_key(kb), nonce, brotli_compressed(payload, quality)),
        ) == Some(brotli_compressed(payload, quality)),
        okey matches Some(kb) ==> aead_sealed(
            derived_key(kb),
            nonce,
            brotli_compressed(payload, quality),
        ).len() == brotli_compressed(payload, quality).len() + 16,
    ensures
        decam_tail(hidden_buf(payload, okey, quality, nonce), okey) == Ok::<
            Seq<u8>,
            DecamFailure,
        >(payload),
{
    let buf = hidden_buf(payload, okey, quality, nonce);
    match okey {
        Option::None => {},
        Option::Some(kb) => {
            let zc = brotli_compressed(payload, quality);
            let sealed = aead_sealed(derived_key(kb), nonce, zc);
            assert(buf == sealed + nonce);
            assert(buf.len() == zc.len() + 16 + 12);
            assert(buf.skip(buf.len() - 12) =~= nonce);
            assert(buf.take(buf.len() - 12) =~= sealed);
        },
    }
}

/// The decode side inverts the encode side: decamouflaging the woven
/// output of a clean cover with a space recovers the payload, given what
/// the trusted layer states of compression and sealing.
#[verifier::spinoff_prover]
proof fn lemma_decam_of_cam(
    payload: Seq<u8>,
    dummy: Seq<char>,
    okey: Option<Seq<u8>>,
    quality: int,
    nonce: Seq<u8>,
)
    requires
        has_space(dummy),
        no_zwc(dummy),
        nonce.len() == 12,
        brotli_plain(brotli_compressed(payload, quality)) == Some(payload),
        okey matches Some(kb) ==> aead_opened(
            derived_key(kb),
            nonce,
            aead_sealed(derived_key(kb), nonce, brotli_compressed(payload, quality)),
        ) == Some(brotli_compressed(payload, quality)),
        okey matches Some(kb) ==> aead_sealed(
            derived_key(kb),
            nonce,
            brotli_compressed(payload, quality),
        ).len() == brotli_compressed(payload, quality).len() + 16,
    ensures
        decam_spec(camouflage_out(payload, dummy, okey, quality, nonce), okey) == Ok::<
            Seq<u8>,
            DecamFailure,
        >(payload),
{
    let buf = hidden_buf(payload, okey, quality, nonce);
    let ins = inserted_chars(buf);
    let cam = camouflage_out(payload, dummy, okey, quality, nonce);
    lemma_inserted_all_zwc(buf);
    lemma_weave_parts(dummy, ins);
    assert(zwc_of(cam) == ins);
    lemma_decam_of_inserted(cam, buf, okey);
    lemma_tail_of_hidden(payload, okey, quality, nonce);
}

/// Hides a compressed and optionally encrypted payload inside a string.
///
/// The payload is Brotli-compressed; under a key the buffer is sealed
/// with a fresh nonce, which is appended.  The buffer's two most frequent
/// nibble patterns drive the compressed zero-width encoding, which is
/// inserted into the cover right after its first ASCII space, followed by
/// the four-character trailer naming the pattern pair.
///
/// Compression itself cannot fail, so the call succeeds exactly when the
/// cover holds a space and, under a key, the compressed payload is small
/// enough to seal; a spaceless cover fails with `NoSpaces`, an oversized
/// sealed payload with `Cipher`.
#[verifier::loop_isolation(false)]
#[verifier::rlimit(60)]
pub fn camouflage(
    payload: Vec<u8>,
    dummy: &str,
    key: Option<&str>,
    compression_level: Option<i32>,
) -> (r: Result<String, Error>)
    requires
        key matches Some(k) ==> k@.len() > 0,
    ensures
        r matches Ok(_) <==> has_space(dummy@) && seal_fits(
            payload@,
            spec_key_bytes(key),
            quality_of(compression_level),
        ),
        r matches Ok(s) ==> exists|nonce: Seq<u8>|
            nonce.len() == 12 && s@ == camouflage_out(
                payload@,
                dummy@,
                spec_key_bytes(key),
                quality_of(compression_level),
                nonce,
            ),
        r matches Ok(s) ==> (no_zwc(dummy@) ==> visible_of(s@) == dummy@),
        r matches Ok(s) ==> (no_zwc(dummy@) ==> decam_spec(s@, spec_key_bytes(key)) == Ok::<
            Seq<u8>,
            DecamFailure,
        >(payload@)),
        r matches Err(e) ==> e is NoSpaces || e is Cipher,
        r matches Err(e) ==> (e is NoSpaces <==> seal_fits(
            payload@,
            spec_key_bytes(key),
            quality_of(compression_level),
        ) && !has_space(dummy@)),
        r matches Err(e) ==> (e is Cipher <==> !seal_fits(
            payload@,
            spec_key_bytes(key),
            quality_of(compression_level),
        )),
{
    let quality: i32 = match compression_level {
        Some(l) => l,
        None => 10,
    };
    let mut buf = match brotli_compress_raw(payload.as_slice(), quality) {
        Ok(v) => v,
        Err(e) => return Err(Error::Brotli(e)),
    };
    let ghost okey = spec_key_bytes(key);
    let ghost mut gnonce: Seq<u8> = Seq::new(12, |i: int| 0u8);
    if let Some(k) = key {
        proof {
            lemma_utf8_nonempty(k@);
        }
        let kb = k.as_bytes();
        let dk = derive_key(kb);
        let mut nonce = fresh_nonce();
        match aead_encrypt(dk.as_slice(), nonce.as_slice(), &mut buf) {
            Ok(_) => {},
            Err(e) => return Err(Error::Cipher(e)),
        }
        proof {
            gnonce = nonce@;
        }
        buf.append(&mut nonce);
    }
    proof {
        assert(buf@ == hidden_buf(payload@, okey, quality as int, gnonce));
    }
    let (compression, rp0, rp1) = Compression::optimal(buf.as_slice());
    proof {
        assert(compression == setting_of(rp0 as int, rp1 as int));
    }
    let encoded = encode_compress(buf.as_slice(), compression);
    proof {
        assert((rp0 & 0b0000_0011) == rp0 % 4 && ((rp0 & 0b0000_1100) >> 2) == rp0 / 4 && (rp0
            & 0b0000_0011) < 4 && ((rp0 & 0b0000_1100) >> 2) < 4) by (bit_vector)
            requires
                rp0 < 16,
        ;
        assert((rp1 & 0b0000_0011) == rp1 % 4 && ((rp1 & 0b0000_1100) >> 2) == rp1 / 4 && (rp1
            & 0b0000_0011) < 4 && ((rp1 & 0b0000_1100) >> 2) < 4) by (bit_vector)
            requires
                rp1 < 16,
        ;
    }
    let t0 = value_char_of(rp0 & 0b0000_0011);
    let t1 = value_char_of((rp0 & 0b0000_1100) >> 2);
    let t2 = value_char_of(rp1 & 0b0000_0011);
    let t3 = value_char_of((rp1 & 0b0000_1100) >> 2);
    let ghost ins = encoded@ + trailer_chars(rp0 as int, rp1 as int);
    proof {
        assert(ins == inserted_chars(buf@));
    }
    let dummy_chars = str_chars(dummy);
    let mut out: Vec<char> = Vec::new();
    let mut inserted = false;
    let mut i: usize = 0;
    while i < dummy_chars.len()
        invariant
            i <= dummy_chars@.len(),
            !inserted ==> out@ == dummy@.take(i as int),
            !inserted ==> !has_space(dummy@.take(i as int)),
            inserted ==> has_space(dummy@),
            inserted ==> first_space(dummy@) < i,
            inserted ==> out@ == dummy@.take(first_space(dummy@) + 1) + ins + dummy@.subrange(
                first_space(dummy@) + 1,
                i as int,
            ),
        decreases dummy_chars@.len() - i,
    {
        let ch = dummy_chars[i];
        let ghost out_before = out@;
        out.push(ch);
        if ch == ' ' && !inserted {
            proof {
                assert(dummy@[i as int] == ' ');
                assert(has_space(dummy@));
                lemma_first_space(dummy@);
                if first_space(dummy@) < i as int {
                    assert(dummy@.take(i as int)[first_space(dummy@)] == ' ');
                    assert(false);
                }
                assert(first_space(dummy@) == i as int);
            }
            let mut jj: usize = 0;
            while jj < encoded.len()
                invariant
                    jj <= encoded@.len(),
                    out@ == dummy@.take(i as int + 1) + encoded@.take(jj as int),
                decreases encoded@.len() - jj,
            {
                out.push(encoded[jj]);
                proof {
                    assert(out@ =~= dummy@.take(i as int + 1) + encoded@.take(jj + 1));
                }
                jj = jj + 1;
            }
            proof {
                assert(encoded@.take(encoded@.len() as int) =~= encoded@);
            }
            out.push(t0);
            out.push(t1);
            out.push(t2);
            out.push(t3);
            inserted = true;
            proof {
                assert(out@ =~= dummy@.take(i as int + 1) + ins + dummy@.subrange(
                    i as int + 1,
                    i as int + 1,
                ));
            }
        } else {
            proof {
                if !inserted {
                    assert(out@ =~= dummy@.take(i as int + 1));
                    if has_space(dummy@.take(i + 1)) {
                        let w = choose|w: int|
                            0 <= w < i + 1 && #[trigger] dummy@.take(i + 1)[w] == ' ';
                        if w < i {
                            assert(dummy@.take(i as int)[w] == ' ');
                        }
                        assert(false);
                    }
                } else {
                    lemma_first_space(dummy@);
                    assert(out@ == out_before.push(ch));
                    assert(dummy@.subrange(first_space(dummy@) + 1, i as int + 1)
                        =~= dummy@.subrange(first_space(dummy@) + 1, i as int).push(
                        dummy@[i as int],
                    ));
                    assert(out@ =~= dummy@.take(first_space(dummy@) + 1) + ins + dummy@.subrange(
                        first_space(dummy@) + 1,
                        i as int + 1,
                    ));
                }
            }
        }
        i = i + 1;
    }
    if !inserted {
        proof {
            assert(dummy@.take(dummy@.len() as int) =~= dummy@);
        }
        return Err(Error::NoSpaces);
    }
    let s = chars_to_string(&out);
    proof {
        let fs = first_space(dummy@);
        assert(dummy@.subrange(fs + 1, dummy@.len() as int) =~= dummy@.skip(fs + 1));
        assert(s@ == weave(dummy@, ins));
        assert(s@ == camouflage_out(
            payload@,
            dummy@,
            okey,
            quality_of(compression_level),
            gnonce,
        ));
        assert(gnonce.len() == 12);
        if no_zwc(dummy@) {
            lemma_inserted_all_zwc(buf@);
            lemma_weave_parts(dummy@, ins);
            lemma_decam_of_cam(payload@, dummy@, okey, quality as int, gnonce);
        }
    }
    Ok(s)
}

} // verus!
