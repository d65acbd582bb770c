use argon2_rs::{
    b64_decode, b64_encode, parse_encoded_hash, Algorithm, Error, ParameterSet, PasswordHasher,
};

#[test]
fn base64_known_vectors() {
    assert_eq!(b64_encode(b"foo"), b"Zm9v".to_vec());
    assert_eq!(b64_encode(b"fo"), b"Zm8".to_vec());
    assert_eq!(b64_encode(b"f"), b"Zg".to_vec());
    assert_eq!(b64_encode(b""), Vec::<u8>::new());
    assert_eq!(b64_decode(b"Zm9v"), Some(b"foo".to_vec()));
    assert_eq!(b64_decode(b"Zm8"), Some(b"fo".to_vec()));
    assert_eq!(b64_decode(b"Zg"), Some(b"f".to_vec()));
}

#[test]
fn base64_rejects_non_canonical_text() {
    // a lone character can encode no byte
    assert_eq!(b64_decode(b"Z"), None);
    // non-zero trailing bits
    assert_eq!(b64_decode(b"Zh"), None);
    // bytes outside the alphabet
    assert_eq!(b64_decode(b"Z*9v"), None);
    assert_eq!(b64_decode(b"===="), None);
}

#[test]
fn parsing_a_fresh_hash_returns_its_parameters() {
    let h = PasswordHasher::new(Some(3), Some(9000), Some(1), Some(24), None).unwrap();
    let text = h.hash("pw").unwrap();
    let parsed = parse_encoded_hash(&text).unwrap();
    assert_eq!(parsed.algorithm, Algorithm::Argon2id);
    assert_eq!(parsed.version, 19);
    assert_eq!(parsed.memory_cost, 9000);
    assert_eq!(parsed.time_cost, 3);
    assert_eq!(parsed.parallelism, 1);
    assert_eq!(parsed.salt.len(), 16);
    assert_eq!(parsed.digest.len(), 24);
}

#[test]
fn encoding_a_parsed_hash_reproduces_the_text() {
    let h = PasswordHasher::new(Some(1), Some(8192), None, None, None).unwrap();
    let text = h.hash("round trip").unwrap();
    let parsed = parse_encoded_hash(&text).unwrap();
    assert_eq!(parsed.encode(), text);
}

#[test]
fn parsing_rejects_malformed_text() {
    // unknown algorithm token
    assert_eq!(
        parse_encoded_hash("$argon2x$v=19$m=8192,t=1,p=1$c29tZXNhbHRzb21l$aGFzaGhhc2hoYXNoaGFzaA"),
        Err(Error::MalformedHash)
    );
    // missing fields
    assert_eq!(parse_encoded_hash("$argon2id$v=19$m=8192,t=1,p=1$"), Err(Error::MalformedHash));
    assert_eq!(parse_encoded_hash(""), Err(Error::MalformedHash));
    assert_eq!(parse_encoded_hash("$argon2id$v=19$m=8192,t=1$x$y"), Err(Error::MalformedHash));
    // non-numeric cost field
    assert_eq!(
        parse_encoded_hash("$argon2id$v=19$m=abc,t=1,p=1$c29tZXNhbHRzb21l$aGFzaGhhc2hoYXNoaGFzaA"),
        Err(Error::MalformedHash)
    );
    // malformed base64 in the salt
    assert_eq!(
        parse_encoded_hash("$argon2id$v=19$m=8192,t=1,p=1$c29tZXNhbHRzb21!$aGFzaGhhc2hoYXNoaGFzaA"),
        Err(Error::MalformedHash)
    );
    // unknown version
    assert_eq!(
        parse_encoded_hash("$argon2id$v=18$m=8192,t=1,p=1$c29tZXNhbHRzb21l$aGFzaGhhc2hoYXNoaGFzaA"),
        Err(Error::MalformedHash)
    );
    // salt below the primitive's minimum
    assert_eq!(
        parse_encoded_hash("$argon2id$v=19$m=8192,t=1,p=1$c2FsdA$aGFzaGhhc2hoYXNoaGFzaA"),
        Err(Error::MalformedHash)
    );
    // leading zero in a cost field is not canonical
    assert_eq!(
        parse_encoded_hash("$argon2id$v=19$m=08192,t=1,p=1$c29tZXNhbHRzb21l$aGFzaGhhc2hoYXNoaGFzaA"),
        Err(Error::MalformedHash)
    );
}

#[test]
fn a_well_formed_foreign_text_parses_and_verifies() {
    // decoded salt "somesaltsomesalt" and a sixteen-byte digest
    let text = "$argon2id$v=19$m=8192,t=1,p=1$c29tZXNhbHRzb21lc2FsdA$AAAAAAAAAAAAAAAAAAAAAA";
    let parsed = parse_encoded_hash(text).unwrap();
    assert_eq!(parsed.salt, b"somesaltsomesalt".to_vec());
    assert_eq!(parsed.digest, vec![0u8; 16]);
    let h = PasswordHasher::new(None, None, None, None, None).unwrap();
    // an all-zero digest is not what any password derives
    assert_eq!(h.verify(text, "pw"), Ok(false));
}

#[test]
fn parameter_set_merges_defaults_and_validates() {
    let ps = ParameterSet::new(None, None, None, None).unwrap();
    assert_eq!(ps.time_cost, 2);
    assert_eq!(ps.memory_cost, 19456);
    assert_eq!(ps.parallelism, 1);
    assert_eq!(ps.output_length, None);
    assert_eq!(ps.effective_output_len(), 32);
    let ps2 = ParameterSet::new(Some(4), Some(65536), Some(2), Some(64)).unwrap();
    assert_eq!(ps2.effective_output_len(), 64);
    assert!(matches!(
        ParameterSet::new(Some(0), None, None, None),
        Err(Error::InvalidParameters)
    ));
}

#[test]
fn parsed_hash_exposes_its_parameter_set() {
    let h = PasswordHasher::new(Some(3), Some(9000), Some(1), Some(24), None).unwrap();
    let text = h.hash("pw").unwrap();
    let parsed = parse_encoded_hash(&text).unwrap();
    let ps = parsed.parameter_set();
    assert_eq!(ps.time_cost, 3);
    assert_eq!(ps.memory_cost, 9000);
    assert_eq!(ps.parallelism, 1);
    assert_eq!(ps.output_length, Some(24));
}
