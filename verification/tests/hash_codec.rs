use rnix::hash::Encoding;
use rnix::hash::HashType;

#[test]
fn sizes_match_the_algorithms() {
    assert_eq!(HashType::MD5.size(), 16);
    assert_eq!(HashType::SHA1.size(), 20);
    assert_eq!(HashType::SHA256.size(), 32);
    assert_eq!(HashType::SHA512.size(), 64);
}

#[test]
fn names_parse_back() {
    for (name, ty) in [
        ("md5", HashType::MD5),
        ("sha1", HashType::SHA1),
        ("sha256", HashType::SHA256),
        ("sha512", HashType::SHA512),
    ] {
        assert_eq!(HashType::from_str(name).unwrap(), ty);
    }
    assert!(HashType::from_str("sha384").is_err());
}

#[test]
fn sha256_of_empty_input_is_the_known_digest() {
    let h = rnix::hash::Hash::hash_str("", HashType::SHA256);
    assert_eq!(
        h.encode(Encoding::Base16),
        "e3b0c44298fc1c149afbf4c8996fb92427ae41e4649b934ca495991b7852b855"
    );
}

#[test]
fn encodings_have_the_documented_lengths() {
    let h = rnix::hash::Hash::hash_str("abc", HashType::SHA256);
    assert_eq!(h.encode(Encoding::Base16).len(), 64);
    assert_eq!(h.encode(Encoding::Base32).len(), 52);
    assert_eq!(h.encode(Encoding::Base64).len(), 44);
}

#[test]
fn every_encoding_round_trips() {
    let h = rnix::hash::Hash::hash_str("round trip", HashType::SHA256);
    for enc in [Encoding::Base16, Encoding::Base32, Encoding::Base64, Encoding::SRI] {
        let text = h.encode_with_type(enc);
        let back = rnix::hash::Hash::decode(&text).unwrap();
        assert_eq!(back.type_(), HashType::SHA256, "{:?}", enc);
        assert_eq!(back.as_bytes(), h.as_bytes(), "{:?}", enc);
    }
}

#[test]
fn bare_text_round_trips_with_a_declared_type() {
    let h = rnix::hash::Hash::hash_str("bare", HashType::SHA1);
    for enc in [Encoding::Base16, Encoding::Base32, Encoding::Base64] {
        let text = h.encode(enc);
        let back = rnix::hash::Hash::decode_with_type(&text, HashType::SHA1, false).unwrap();
        assert_eq!(back.as_bytes(), h.as_bytes(), "{:?}", enc);
    }
}

#[test]
fn sri_text_decodes() {
    let h = rnix::hash::Hash::hash_str("sri", HashType::SHA512);
    let text = h.encode(Encoding::SRI);
    assert!(text.starts_with("sha512-"));
    let back = rnix::hash::Hash::decode(&text).unwrap();
    assert_eq!(back.as_bytes(), h.as_bytes());
}

#[test]
fn wrong_lengths_are_refused() {
    assert!(rnix::hash::Hash::decode_with_type("abcd", HashType::SHA256, false).is_err());
    assert!(rnix::hash::Hash::decode("no-prefix").is_err());
    assert!(rnix::hash::Hash::decode("unknowntype:abcd").is_err());
}

#[test]
fn empty_hash_takes_the_declared_size() {
    let h = rnix::hash::Hash::new_allow_empty("", Some(HashType::SHA256)).unwrap();
    assert_eq!(h.size(), 32);
    assert!(h.as_bytes().iter().all(|b| *b == 0));
    assert!(rnix::hash::Hash::new_allow_empty("", None).is_err());
}

#[test]
fn typed_text_must_match_the_declared_type() {
    let h = rnix::hash::Hash::hash_str("x", HashType::SHA1);
    let text = h.encode_with_type(Encoding::Base16);
    assert!(rnix::hash::Hash::new_allow_empty(&text, Some(HashType::SHA256)).is_err());
    let ok = rnix::hash::Hash::new_allow_empty(&text, Some(HashType::SHA1)).unwrap();
    assert_eq!(ok.as_bytes(), h.as_bytes());
}

#[test]
fn truncation_folds_by_xor() {
    let mut data = Vec::new();
    for i in 0..20u8 {
        data.push(i + 1);
    }
    let h = rnix::hash::Hash::hash_bytes(&data, HashType::SHA1);
    let full = h.truncate(64);
    assert_eq!(full.as_bytes(), h.as_bytes());
    let short = h.truncate(4);
    assert_eq!(short.size(), 4);
    let mut expect = [0u8; 4];
    for (i, b) in h.as_bytes().iter().enumerate() {
        expect[i % 4] ^= b;
    }
    assert_eq!(short.as_bytes(), &expect);
}

#[test]
fn known_hex_text_decodes_to_the_digest() {
    let h = rnix::hash::Hash::hash_str("", HashType::SHA256);
    let decoded = rnix::hash::Hash::decode_with_type(
        "e3b0c44298fc1c149afbf4c8996fb92427ae41e4649b934ca495991b7852b855",
        HashType::SHA256,
        false,
    )
    .unwrap();
    assert_eq!(decoded.as_bytes(), h.as_bytes());
}

#[test]
fn three_byte_multiples_encode_without_padding_trouble() {
    // Truncated hashes can have lengths divisible by three, where base64
    // needs no padding at all.
    let h = rnix::hash::Hash::hash_str("fold", HashType::SHA1);
    for size in [3usize, 6, 12] {
        let short = h.truncate(size);
        let b64 = short.encode(Encoding::Base64);
        assert_eq!(b64.len(), 4 * ((size + 2) / 3));
        assert!(!b64.contains('='));
        let sri = short.encode(Encoding::SRI);
        assert!(sri.starts_with("sha1-"));
    }
}

#[test]
fn digests_differ_between_inputs() {
    let a = rnix::hash::Hash::hash_str("a", HashType::MD5);
    let b = rnix::hash::Hash::hash_str("b", HashType::MD5);
    assert_ne!(a.as_bytes(), b.as_bytes());
}

#[test]
fn hash_equality_compares_bytes_and_type() {
    let a = rnix::hash::Hash::hash_str("abc", rnix::hash::HashType::SHA256);
    let b = rnix::hash::Hash::hash_str("abc", rnix::hash::HashType::SHA256);
    let c = rnix::hash::Hash::hash_str("abd", rnix::hash::HashType::SHA256);
    let d = rnix::hash::Hash::hash_str("abc", rnix::hash::HashType::SHA1);
    assert!(a == b);
    assert!(a != c);
    assert!(a != d);
}

#[test]
fn decode_classifies_its_errors() {
    assert!(matches!(
        rnix::hash::Hash::decode("abcdef"),
        Err(rnix::hash::Error::UntypedHash(_))
    ));
    assert!(matches!(
        rnix::hash::Hash::decode("foo:abcd"),
        Err(rnix::hash::Error::UnknownHashType(_))
    ));
    assert!(matches!(
        rnix::hash::Hash::decode("foo-abcd"),
        Err(rnix::hash::Error::UnknownHashType(_))
    ));
}

#[test]
fn wrong_length_text_is_refused_for_every_type() {
    for ty in [HashType::MD5, HashType::SHA1, HashType::SHA256, HashType::SHA512] {
        assert!(rnix::hash::Hash::decode_with_type("abc", ty, false).is_err());
    }
}
