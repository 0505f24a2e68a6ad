use zwc::pipeline::Error as PipelineError;

/// A byte buffer with varied content: every byte value, then some text.
fn sample_bytes() -> Vec<u8> {
    let mut v = Vec::new();
    for round in 0..4u16 {
        for b in 0..=255u8 {
            v.push(b.wrapping_add(round as u8));
        }
    }
    v.extend_from_slice(b"fn camouflage(payload, dummy, key, level) /* hidden */");
    v
}

fn visible_part(s: &str) -> String {
    s.chars().filter(|c| !zwc::is_zw(*c)).collect()
}

#[test]
fn camouflage_round_trip() {
    let dummy = "Hello, World!";
    let src = sample_bytes();

    let camouflaged = zwc::camouflage(src.clone(), dummy, Some("secret"), None).unwrap();
    let decamouflaged = zwc::decamouflage(&camouflaged, Some("secret")).unwrap();

    assert_eq!(src, decamouflaged);
}

#[test]
fn single_byte_short_cover() {
    let s = zwc::camouflage(b"A".to_vec(), "x y", None, Some(0)).unwrap();
    assert_eq!(visible_part(&s).chars().count(), 3);
    assert_eq!(zwc::decamouflage(&s, None).unwrap(), b"A".to_vec());
}

#[test]
fn empty_payload_round_trip() {
    let s = zwc::camouflage(Vec::new(), "hello world", None, None).unwrap();
    assert_eq!(visible_part(&s), "hello world");
    assert!(zwc::decamouflage(&s, None).unwrap().is_empty());
}

#[test]
fn encrypted_round_trip_needs_the_key() {
    let s = zwc::camouflage(b"Hello".to_vec(), "Hello, World!", Some("secret"), Some(10)).unwrap();
    assert_eq!(zwc::decamouflage(&s, Some("secret")).unwrap(), b"Hello".to_vec());
    // without the key the sealed buffer reaches Brotli raw and cannot
    // yield the payload
    assert_ne!(
        zwc::decamouflage(&s, None).ok(),
        Some(b"Hello".to_vec())
    );
    // with a wrong key the seal does not open
    assert!(zwc::decamouflage(&s, Some("wrong")).is_err());
}

#[test]
fn visible_projection_is_the_cover() {
    let dummy = "a cover with several words and spaces";
    let s = zwc::camouflage(b"payload".to_vec(), dummy, None, None).unwrap();
    assert_eq!(visible_part(&s), dummy);
}

#[test]
fn round_trip_with_multiple_spaces_and_key() {
    let dummy = "one two three four";
    let src = b"some secret data".to_vec();
    let s = zwc::camouflage(src.clone(), dummy, Some("pass phrase"), Some(4)).unwrap();
    assert_eq!(visible_part(&s), dummy);
    assert_eq!(zwc::decamouflage(&s, Some("pass phrase")).unwrap(), src);
}

#[test]
fn no_spaces_in_cover_fails() {
    let r = zwc::camouflage(b"data".to_vec(), "nospace", None, None);
    assert!(matches!(r, Err(PipelineError::NoSpaces)));
}

#[test]
fn too_few_zero_width_characters_fails() {
    let r = zwc::decamouflage("plain text without anything hidden", None);
    assert!(matches!(r, Err(PipelineError::InvalidPayload)));

    let three = "ab\u{200C}\u{200D}\u{2060}cd";
    let r = zwc::decamouflage(three, None);
    assert!(matches!(r, Err(PipelineError::InvalidPayload)));
}

#[test]
fn shortcut_character_in_trailer_fails() {
    // exactly four zero-width characters, but the trailer may hold value
    // characters only
    let s = "a \u{200C}\u{200C}\u{200C}\u{2063}b";
    let r = zwc::decamouflage(s, None);
    assert!(matches!(
        r,
        Err(PipelineError::Zwc(zwc::Error::InvalidCharacter('\u{2063}')))
    ));
}

#[test]
fn truncated_body_reports_incomplete_block() {
    // five zero-width characters: a trailer naming the patterns (0, 0)
    // and a body of one value character, which ends mid-block
    let s = "a \u{200C}\u{200C}\u{200C}\u{200C}\u{200C}b";
    let r = zwc::decamouflage(s, None);
    assert!(matches!(
        r,
        Err(PipelineError::Zwc(zwc::Error::IncompleteBlock(1)))
    ));
}

#[test]
fn binary_payload_round_trip_unencrypted() {
    let src: Vec<u8> = vec![0, 1, 42, 127, 200, 255, 0, 0, 13, 10];
    let s = zwc::camouflage(src.clone(), "carrier text", None, None).unwrap();
    assert_eq!(zwc::decamouflage(&s, None).unwrap(), src);
}
