use argon2_rs::{Algorithm, Error, PasswordHasher};

#[test]
fn default_hash_has_expected_prefix() {
    let h = PasswordHasher::new(None, None, None, None, None).unwrap();
    let text = h.hash("correct horse battery staple").unwrap();
    assert!(text.starts_with("$argon2id$v=19$m=19456,t=2,p=1$"));
    assert_eq!(h.verify(&text, "correct horse battery staple"), Ok(true));
    assert_eq!(h.verify(&text, "wrong"), Ok(false));
}

#[test]
fn two_hashes_of_one_password_differ_yet_both_verify() {
    let h = PasswordHasher::new(Some(1), Some(8192), None, None, None).unwrap();
    let a = h.hash("hunter2").unwrap();
    let b = h.hash("hunter2").unwrap();
    assert_ne!(a, b);
    assert_eq!(h.verify(&a, "hunter2"), Ok(true));
    assert_eq!(h.verify(&b, "hunter2"), Ok(true));
}

#[test]
fn wrong_password_is_refused() {
    let h = PasswordHasher::new(Some(1), Some(8192), None, None, None).unwrap();
    let text = h.hash("first secret").unwrap();
    assert_eq!(h.verify(&text, "second secret"), Ok(false));
    assert_eq!(h.verify(&text, ""), Ok(false));
}

#[test]
fn hash_with_salt_is_deterministic() {
    let h = PasswordHasher::new(Some(1), Some(8192), None, None, None).unwrap();
    let salt = b"0123456789abcdef";
    let a = h.hash_with_salt("pw", salt).unwrap();
    let b = h.hash_with_salt("pw", salt).unwrap();
    assert_eq!(a, b);
    let c = h.hash_with_salt("pw", b"fedcba9876543210").unwrap();
    assert_ne!(a, c);
    assert_eq!(h.verify(&a, "pw"), Ok(true));
}

#[test]
fn malformed_hash_is_an_error_not_false() {
    let h = PasswordHasher::new(None, None, None, None, None).unwrap();
    assert_eq!(h.verify("not-a-valid-hash", "x"), Err(Error::MalformedHash));
    assert_eq!(
        h.check_needs_rehash("not-a-valid-hash"),
        Err(Error::MalformedHash)
    );
}

#[test]
fn rehash_check_tracks_memory_cost() {
    let a = PasswordHasher::new(None, Some(19456), None, None, None).unwrap();
    let b = PasswordHasher::new(None, Some(65536), None, None, None).unwrap();
    let text = a.hash("pw").unwrap();
    assert_eq!(b.check_needs_rehash(&text), Ok(true));
    assert_eq!(a.check_needs_rehash(&text), Ok(false));
}

#[test]
fn rehash_check_tracks_every_field() {
    let base = PasswordHasher::new(Some(1), Some(8192), Some(1), None, None).unwrap();
    let text = base.hash("pw").unwrap();
    assert_eq!(base.check_needs_rehash(&text), Ok(false));
    let more_time = PasswordHasher::new(Some(2), Some(8192), Some(1), None, None).unwrap();
    assert_eq!(more_time.check_needs_rehash(&text), Ok(true));
    let more_mem = PasswordHasher::new(Some(1), Some(8193), Some(1), None, None).unwrap();
    assert_eq!(more_mem.check_needs_rehash(&text), Ok(true));
    let more_lanes = PasswordHasher::new(Some(1), Some(8192), Some(2), None, None).unwrap();
    assert_eq!(more_lanes.check_needs_rehash(&text), Ok(true));
    let longer_out = PasswordHasher::new(Some(1), Some(8192), Some(1), Some(48), None).unwrap();
    assert_eq!(longer_out.check_needs_rehash(&text), Ok(true));
    let other_alg =
        PasswordHasher::new(Some(1), Some(8192), Some(1), None, Some(Algorithm::Argon2i)).unwrap();
    assert_eq!(other_alg.check_needs_rehash(&text), Ok(true));
}

#[test]
fn variant_selection_is_honoured() {
    let h =
        PasswordHasher::new(Some(1), Some(8192), None, None, Some(Algorithm::Argon2d)).unwrap();
    let text = h.hash("pw").unwrap();
    assert!(text.starts_with("$argon2d$v=19$"));
    assert_eq!(h.verify(&text, "pw"), Ok(true));
    let i = PasswordHasher::new(Some(1), Some(8192), None, None, Some(Algorithm::Argon2i)).unwrap();
    let text_i = i.hash("pw").unwrap();
    assert!(text_i.starts_with("$argon2i$v=19$"));
    assert_eq!(i.verify(&text_i, "pw"), Ok(true));
}

#[test]
fn verify_accepts_hashes_from_other_configurations() {
    let maker = PasswordHasher::new(Some(1), Some(8192), None, Some(24), None).unwrap();
    let checker = PasswordHasher::new(None, None, None, None, None).unwrap();
    let text = maker.hash("pw").unwrap();
    assert_eq!(checker.verify(&text, "pw"), Ok(true));
    assert_eq!(checker.verify(&text, "no"), Ok(false));
    assert_eq!(checker.check_needs_rehash(&text), Ok(true));
}

#[test]
fn zero_time_cost_fails_construction() {
    assert!(matches!(
        PasswordHasher::new(Some(0), None, None, None, None),
        Err(Error::InvalidParameters)
    ));
}

#[test]
fn out_of_range_parameters_fail_construction() {
    assert!(matches!(
        PasswordHasher::new(None, None, Some(0), None, None),
        Err(Error::InvalidParameters)
    ));
    // less than eight KiB of memory per lane
    assert!(matches!(
        PasswordHasher::new(None, Some(64), Some(16), None, None),
        Err(Error::InvalidParameters)
    ));
    // output below the primitive's minimum
    assert!(matches!(
        PasswordHasher::new(None, None, None, Some(3), None),
        Err(Error::InvalidParameters)
    ));
}

#[test]
fn reference_vector_verifies() {
    // Known-answer vector of the Argon2 reference implementation:
    // argon2id, version 19, m=256, t=2, p=1, salt "somesalt".
    let vector = "$argon2id$v=19$m=256,t=2,p=1$c29tZXNhbHQ$nf65EOgLrQMR/uIPnA4rEsF5h7TKyQwu9U1bMCHGi/4";
    let h = PasswordHasher::new(None, None, None, None, None).unwrap();
    assert_eq!(h.verify(vector, "password"), Ok(true));
    assert_eq!(h.verify(vector, "Password"), Ok(false));
}

#[test]
fn reference_vector_is_reproduced() {
    let h = PasswordHasher::new(Some(2), Some(256), Some(1), None, Some(Algorithm::Argon2id))
        .unwrap();
    let text = h.hash_with_salt("password", b"somesalt").unwrap();
    assert_eq!(
        text,
        "$argon2id$v=19$m=256,t=2,p=1$c29tZXNhbHQ$nf65EOgLrQMR/uIPnA4rEsF5h7TKyQwu9U1bMCHGi/4"
    );
}
