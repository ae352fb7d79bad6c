use sha2::Digest;
use timely::{authenticate, check_credential, extract_provided, hash_password, Error};

#[test]
fn password_hash_matches_reference_digest() {
    // SHA-256("abc"), as published in the FIPS 180 test vectors.
    let expected: Vec<u8> = vec![
        0xba, 0x78, 0x16, 0xbf, 0x8f, 0x01, 0xcf, 0xea, 0x41, 0x41, 0x40, 0xde, 0x5d, 0xae, 0x22,
        0x23, 0xb0, 0x03, 0x61, 0xa3, 0x96, 0x17, 0x7a, 0x9c, 0xb4, 0x10, 0xff, 0x61, 0xf2, 0x00,
        0x15, 0xad,
    ];
    assert_eq!(hash_password(&"abc".to_string()), expected);
}

#[test]
fn correct_credential_succeeds() {
    let stored = hash_password(&"hunter2".to_string());
    assert!(authenticate(&stored, &"hunter2".to_string()));
    let independent: Vec<u8> = sha2::Sha256::digest("hunter2").to_vec();
    assert!(authenticate(&independent, &"hunter2".to_string()));
}

#[test]
fn wrong_credential_fails() {
    let stored = hash_password(&"hunter2".to_string());
    assert!(!authenticate(&stored, &"hunter3".to_string()));
    assert!(!authenticate(&stored, &"".to_string()));
}

#[test]
fn check_credential_accepts_only_matching_value() {
    let stored = hash_password(&"hunter2".to_string());
    assert!(check_credential(&stored, &Some("hunter2".to_string())).is_ok());
    assert_eq!(
        check_credential(&stored, &Some("wrong".to_string())).unwrap_err(),
        Error::AuthenticationFailed
    );
    assert_eq!(check_credential(&stored, &None).unwrap_err(), Error::AuthenticationFailed);
}

#[test]
fn query_parameter_wins_over_cookie() {
    let q = Some("from-query".to_string());
    let c = Some("from-cookie".to_string());
    assert_eq!(extract_provided(&q, &c), Some("from-query".to_string()));
    assert_eq!(extract_provided(&None, &c), Some("from-cookie".to_string()));
    assert_eq!(extract_provided(&q, &None), Some("from-query".to_string()));
    assert_eq!(extract_provided(&None, &None), None);
}
