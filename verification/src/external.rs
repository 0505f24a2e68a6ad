use vstd::prelude::*;

use chacha20::rand_core::{Rng, SeedableRng};
use chacha20poly1305::aead::Error as AeadError;
use chacha20poly1305::{AeadInOut, KeyInit};
use poly1305::universal_hash::UniversalHash;
use std::io::Error as IoError;

verus! {

/// The error chacha20poly1305's AEAD operations return.
#[verifier::external_type_specification]
#[verifier::external_body]
pub struct ExAeadError(AeadError);

/// The error brotli's streaming entry points return.
#[verifier::external_type_specification]
#[verifier::external_body]
pub struct ExIoError(IoError);

/// The stream Brotli emits for `data` at the given quality, with the size
/// hint fixed to the input length.
pub uninterp spec fn brotli_compressed(data: Seq<u8>, quality: int) -> Seq<u8>;

/// What Brotli decompression yields for a stream, if it accepts it.
pub uninterp spec fn brotli_plain(data: Seq<u8>) -> Option<Seq<u8>>;

/// The Poly1305 tag of a message under a 32-byte key, with the message
/// zero-padded to a whole number of blocks.
pub uninterp spec fn poly1305_tag(key: Seq<u8>, msg: Seq<u8>) -> Seq<u8>;

/// The ChaCha20-Poly1305 sealing of a plaintext under a key and nonce with
/// empty associated data: the ciphertext with its 16-byte tag appended.
pub uninterp spec fn aead_sealed(key: Seq<u8>, nonce: Seq<u8>, msg: Seq<u8>) -> Seq<u8>;

/// What ChaCha20-Poly1305 opening yields for a sealed buffer, if the tag
/// verifies.
pub uninterp spec fn aead_opened(key: Seq<u8>, nonce: Seq<u8>, sealed: Seq<u8>) -> Option<Seq<u8>>;

/// Relies on brotli::BrotliCompress: the stream is a function of the input
/// and the parameters (the size hint is fixed to the input length, and the
/// quality is sanitized into the encoder's range), decompressing it
/// restores the input, and even the empty input compresses to a non-empty
/// stream (a final block marker is always written).  The call always
/// succeeds: with a slice reader and a `Vec` writer no I/O error can
/// occur, and the encoder's failure paths (metadata operations, a
/// mis-driven stream state) are unreachable from this driver.
#[verifier::external_body]
pub(crate) fn brotli_compress_raw(data: &[u8], quality: i32) -> (r: Result<
    Vec<u8>,
    IoError,
>)
    ensures
        r is Ok,
        r matches Ok(v) ==> v@ == brotli_compressed(data@, quality as int),
        r matches Ok(v) ==> brotli_plain(v@) == Some(data@),
        r matches Ok(v) ==> v@.len() > 0,
{
    let mut out = Vec::with_capacity(data.len());
    let params = brotli::enc::BrotliEncoderParams {
        quality,
        size_hint: data.len(),
        ..Default::default()
    };
    match brotli::BrotliCompress(&mut &data[..], &mut out, &params) {
        Ok(_) => Ok(out),
        Err(e) => Err(e),
    }
}

/// Relies on brotli::BrotliDecompress: a pure function of the input bytes
/// that either yields the decompressed stream or rejects the input.
#[verifier::external_body]
pub(crate) fn brotli_decompress_raw(data: &[u8]) -> (r: Result<Vec<u8>, IoError>)
    ensures
        r matches Ok(v) ==> brotli_plain(data@) == Some(v@),
        r is Err ==> brotli_plain(data@) is None,
{
    let mut out = Vec::with_capacity(data.len().saturating_mul(4));
    match brotli::BrotliDecompress(&mut &data[..], &mut out) {
        Ok(()) => Ok(out),
        Err(e) => Err(e),
    }
}

/// Relies on poly1305::Poly1305 via universal_hash: the zero-padded MAC of
/// the message, 16 bytes, a function of key and message alone.
#[verifier::external_body]
pub(crate) fn poly1305_mac(key: &[u8], msg: &[u8]) -> (r: Vec<u8>)
    requires
        key@.len() == 32,
    ensures
        r@ == poly1305_tag(key@, msg@),
        r@.len() == 16,
{
    let k = poly1305::Key::try_from(key).expect("a Poly1305 key is 32 bytes");
    let mut hasher = poly1305::Poly1305::new(&k);
    hasher.update_padded(msg);
    hasher.finalize().to_vec()
}

/// Relies on ChaCha20Poly1305::encrypt_in_place with empty associated
/// data: sealing appends the 16-byte tag, is a function of key, nonce and
/// plaintext, and opening the sealed buffer with the same key and nonce
/// restores the plaintext.  Sealing fails exactly when the plaintext
/// spans 2^32 - 1 or more 64-byte ChaCha20 blocks, the one error in the
/// cipher's source (a `Vec` buffer cannot fail to grow).
#[verifier::external_body]
pub(crate) fn aead_encrypt(key: &[u8], nonce: &[u8], buf: &mut Vec<u8>) -> (r: Result<
    (),
    AeadError,
>)
    requires
        key@.len() == 32,
        nonce@.len() == 12,
    ensures
        r is Ok <==> old(buf)@.len() < 64 * 0xFFFF_FFFF,
        r is Ok ==> final(buf)@ == aead_sealed(key@, nonce@, old(buf)@),
        r is Ok ==> final(buf)@.len() == old(buf)@.len() + 16,
        r is Ok ==> aead_opened(key@, nonce@, aead_sealed(key@, nonce@, old(buf)@)) == Some(
            old(buf)@,
        ),
{
    let k = chacha20poly1305::Key::try_from(key).expect("a key is 32 bytes");
    let n = chacha20poly1305::Nonce::try_from(nonce).expect("a nonce is 12 bytes");
    chacha20poly1305::ChaCha20Poly1305::new(&k).encrypt_in_place(&n, b"", buf)
}

/// Relies on ChaCha20Poly1305::decrypt_in_place with empty associated
/// data: opening succeeds exactly when the tag verifies, which is a
/// function of key, nonce and sealed buffer; on success the buffer holds
/// the recovered plaintext.
#[verifier::external_body]
pub(crate) fn aead_decrypt(key: &[u8], nonce: &[u8], buf: &mut Vec<u8>) -> (r: Result<
    (),
    AeadError,
>)
    requires
        key@.len() == 32,
        nonce@.len() == 12,
    ensures
        r is Ok <==> aead_opened(key@, nonce@, old(buf)@) is Some,
        r is Ok ==> Some(final(buf)@) == aead_opened(key@, nonce@, old(buf)@),
{
    let k = chacha20poly1305::Key::try_from(key).expect("a key is 32 bytes");
    let n = chacha20poly1305::Nonce::try_from(nonce).expect("a nonce is 12 bytes");
    chacha20poly1305::ChaCha20Poly1305::new(&k).decrypt_in_place(&n, b"", buf)
}

/// Relies on chacha20::ChaCha20Rng seeded from the operating system's
/// entropy (getrandom): twelve bytes for a fresh nonce.  Nothing is
/// promised of their values.
#[verifier::external_body]
pub(crate) fn fresh_nonce() -> (r: Vec<u8>)
    ensures
        r@.len() == 12,
{
    let mut seed = [0u8; 32];
    getrandom::fill(&mut seed).expect("entropy source unavailable");
    let mut rng = chacha20::ChaCha20Rng::from_seed(seed);
    let mut nonce = vec![0u8; 12];
    rng.fill_bytes(&mut nonce);
    nonce
}

/// Relies on String's FromIterator for char: collecting characters yields
/// the string whose view is that character sequence.
#[verifier::external_body]
pub(crate) fn chars_to_string(chars: &Vec<char>) -> (r: String)
    ensures
        r@ == chars@,
{
    chars.iter().collect()
}

} // verus!
