use zwc::{Block, Compression, Error};

/// A byte buffer with varied content: every byte value, then some text.
fn sample_bytes() -> Vec<u8> {
    let mut v = Vec::new();
    for round in 0..4u16 {
        for b in 0..=255u8 {
            v.push(b.wrapping_add(round as u8));
        }
    }
    v.extend_from_slice(b"pub fn encode(bytes: &[u8]) -> Vec<char> { /* zero-width */ }");
    v
}

#[test]
fn round_trip() {
    let src = sample_bytes();
    let encoded = zwc::encode(&src);
    let decoded = zwc::decode(&encoded);

    for (ob, db) in src.iter().copied().zip(decoded) {
        assert_eq!(ob, db.unwrap());
    }
}

#[test]
fn compression_round_trip() {
    let src = sample_bytes();
    let compression = Compression::new(0b0000, 0b1111).unwrap();
    let encoded = zwc::encode_compress(&src, compression);
    let decoded = zwc::decode_decompress(&encoded, compression);

    for (ob, db) in src.iter().copied().zip(decoded) {
        assert_eq!(ob, db.unwrap());
    }
}

#[test]
fn block_round_trip_every_byte() {
    for b in 0..=255u8 {
        let chars = Block(b).to_chars();
        assert_eq!(Block::from_chars(chars).unwrap(), Block(b));
    }
}

#[test]
fn compressed_block_round_trip_every_byte_and_setting() {
    for p0 in 0..16u8 {
        for p1 in 0..16u8 {
            let c = Compression::new(p0, p1).unwrap();
            for b in 0..=255u8 {
                let (chars, len) = Block(b).to_compressed_chars(c);
                assert!(len >= 2 && len <= 4);
                assert_eq!(Block::from_compressed_chars(chars, len, c).unwrap(), Block(b));
            }
        }
    }
}

#[test]
fn decode_empty_is_empty() {
    let decoded = zwc::decode(&[]);
    assert!(decoded.is_empty());
}

#[test]
fn decode_trailing_partial_blocks() {
    for k in 1..=3usize {
        let mut chars = zwc::encode(b"AB");
        for _ in 0..k {
            chars.push('\u{200C}');
        }
        let decoded = zwc::decode(&chars);
        assert_eq!(decoded.len(), 3);
        assert_eq!(decoded[0], Ok(b'A'));
        assert_eq!(decoded[1], Ok(b'B'));
        assert_eq!(decoded[2], Err(Error::IncompleteBlock(k)));
    }
}

#[test]
fn decode_three_joiners_is_one_incomplete_block() {
    let chars = ['\u{200C}', '\u{200C}', '\u{200C}'];
    let decoded = zwc::decode(&chars);
    assert_eq!(decoded, vec![Err(Error::IncompleteBlock(3))]);
}

#[test]
fn decode_decompress_trailing_partial_block() {
    let c = Compression::new(0b0000, 0b1111).unwrap();
    let mut chars = zwc::encode_compress(b"zw", c);
    chars.push('\u{200C}');
    let decoded = zwc::decode_decompress(&chars, c);
    assert_eq!(decoded.len(), 3);
    assert_eq!(decoded[0], Ok(b'z'));
    assert_eq!(decoded[1], Ok(b'w'));
    assert_eq!(decoded[2], Err(Error::IncompleteBlock(1)));
}

#[test]
fn decode_rejects_visible_characters() {
    let chars = ['a', 'b', 'c', 'd'];
    let decoded = zwc::decode(&chars);
    assert_eq!(decoded, vec![Err(Error::InvalidCharacter('a'))]);
}

#[test]
fn uncompressed_byte_round_trip_literals() {
    let src: [u8; 6] = [0, 1, 42, 127, 200, 255];
    let encoded = zwc::encode(&src);
    let decoded = zwc::decode(&encoded);
    let bytes: Vec<u8> = decoded.into_iter().map(|r| r.unwrap()).collect();
    assert_eq!(bytes, src.to_vec());
}

#[test]
fn optimal_of_zeros_is_zero_pair() {
    let (c, p0, p1) = Compression::optimal(&[0x00, 0x00, 0x00]);
    assert_eq!(p0, 0);
    assert_eq!(p1, 0);
    assert_eq!(c, Compression::new(0, 0).unwrap());
}

#[test]
fn optimal_is_deterministic() {
    let data = sample_bytes();
    let a = Compression::optimal(&data);
    let b = Compression::optimal(&data);
    assert_eq!(a, b);
}

#[test]
fn optimal_prefers_most_frequent_nibbles() {
    // 0xAB bytes: 0xB low nibbles and 0xA high nibbles count three each;
    // the scan in increasing order fills the first slot with 0xA, and 0xB
    // then only beats the second slot.
    let (_, p0, p1) = Compression::optimal(&[0xAB, 0xAB, 0xAB]);
    assert_eq!(p0, 0x0A);
    assert_eq!(p1, 0x0B);
}

#[test]
fn invalid_compression_pattern_sixteen() {
    assert_eq!(
        Compression::new(16, 0).unwrap_err(),
        Error::InvalidCompressionPattern(16)
    );
    assert_eq!(
        Compression::new(3, 200).unwrap_err(),
        Error::InvalidCompressionPattern(200)
    );
}

#[test]
fn is_zw_accepts_exactly_the_alphabet() {
    for c in ['\u{200C}', '\u{200D}', '\u{2060}', '\u{2062}', '\u{2063}', '\u{2064}'] {
        assert!(zwc::is_zw(c));
    }
    for c in ['a', ' ', '\u{200B}', '\u{2061}', '0'] {
        assert!(!zwc::is_zw(c));
    }
}

#[test]
fn compressed_block_uses_shortcut_characters() {
    // both nibbles of 0x53 match the configured patterns, so the block is
    // two shortcut characters
    let c = Compression::new(0x3, 0x5).unwrap();
    let (chars, len) = Block(0x53).to_compressed_chars(c);
    assert_eq!(len, 2);
    assert_eq!(chars[0], '\u{2063}');
    assert_eq!(chars[1], '\u{2064}');
}
