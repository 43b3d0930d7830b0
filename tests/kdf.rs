use diary::kdf::hash_password;

#[test]
fn derivation_is_deterministic() {
    let salt = [9u8; 16];
    let first = hash_password(b"hunter2", &salt).unwrap();
    let second = hash_password(b"hunter2", &salt).unwrap();
    assert_eq!(first, second);
    assert_ne!(first, [0u8; 32]);
}

#[test]
fn derivation_depends_on_salt_and_password() {
    let salt = [9u8; 16];
    let base = hash_password(b"hunter2", &salt).unwrap();
    assert_ne!(base, hash_password(b"hunter2", &[10u8; 16]).unwrap());
    assert_ne!(base, hash_password(b"hunter3", &salt).unwrap());
}

#[test]
fn empty_password_still_derives_a_key() {
    assert!(hash_password(b"", &[1u8; 16]).is_ok());
}
