use docker_source_checksum::encode::encode_digest;

#[test]
fn hex_is_lowercase_two_digits_a_byte() {
    assert_eq!(encode_digest(&[1, 2, 3, 15, 16], true), "0102030f10");
    assert_eq!(encode_digest(&[0xf9, 0xb4, 0xca], true), "f9b4ca");
    assert_eq!(encode_digest(b"Hello world!", true), "48656c6c6f20776f726c6421");
    assert_eq!(encode_digest(&[], true), "");
}

#[test]
fn base64_is_url_safe_and_unpadded() {
    assert_eq!(encode_digest(b"", false), "");
    assert_eq!(encode_digest(b"f", false), "Zg");
    assert_eq!(encode_digest(b"fo", false), "Zm8");
    assert_eq!(encode_digest(b"foo", false), "Zm9v");
    assert_eq!(encode_digest(b"foob", false), "Zm9vYg");
    assert_eq!(encode_digest(b"fooba", false), "Zm9vYmE");
    assert_eq!(encode_digest(b"foobar", false), "Zm9vYmFy");
    assert_eq!(encode_digest(&[0xfb, 0xff], false), "-_8");
    assert_eq!(encode_digest(&[0xff, 0xff, 0xfe], false), "___-");
}

#[test]
fn base64_of_a_long_input() {
    let data: Vec<u8> = (0u8..=255).collect();
    let text = encode_digest(&data, false);
    assert_eq!(text.len(), (4 * 256 + 2) / 3);
    assert!(text.starts_with("AAECAwQFBgcICQoLDA0O"));
    assert!(text.ends_with("_P3-_w"));
    assert_eq!(base64::decode_config(&text, base64::URL_SAFE_NO_PAD).unwrap(), data);
}

#[test]
fn both_encodings_decode_to_the_digest() {
    let mut digest: Vec<u8> = Vec::new();
    for round in 0..70u32 {
        let as_hex = encode_digest(&digest, true);
        let as_base64 = encode_digest(&digest, false);
        assert_eq!(hex::decode(&as_hex).unwrap(), digest);
        assert_eq!(
            base64::decode_config(&as_base64, base64::URL_SAFE_NO_PAD).unwrap(),
            digest
        );
        assert_eq!(as_hex.len(), 2 * digest.len());
        assert_eq!(as_base64.len(), (4 * digest.len() + 2) / 3);
        digest.push((round * 37 + 11) as u8);
    }
}

#[test]
fn encodings_differ_from_the_input() {
    assert_ne!(encode_digest(b"ab", true).as_bytes(), b"ab");
    assert_ne!(encode_digest(b"ab", false).as_bytes(), b"ab");
    assert_ne!(encode_digest(b"ab", true), encode_digest(b"ab", false));
}
