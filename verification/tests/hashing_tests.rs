use auth_storage::common_types::{PasswordHash, RefreshToken, RefreshTokenHash};

#[test]
fn password_hash_is_not_the_plaintext() {
    let salt = String::from("somesaltvalue");
    let pepper = String::from("pepper-secret");
    let h = PasswordHash::new(&salt, &pepper, "hunter2").expect("valid inputs must hash");
    assert_ne!(h.phc_string().as_str(), "hunter2");
    assert_ne!(h.phc_string().as_str(), "somesaltvalue");
    assert!(!h.phc_string().is_empty());
}

#[test]
fn password_hash_is_deterministic_in_its_inputs() {
    let salt = String::from("somesaltvalue");
    let pepper = String::from("pepper-secret");
    let h1 = PasswordHash::new(&salt, &pepper, "hunter2").unwrap();
    let h2 = PasswordHash::new(&salt, &pepper, "hunter2").unwrap();
    assert!(h1.equals(&h2));
    let other = PasswordHash::new(&salt, &pepper, "hunter3").unwrap();
    assert!(!h1.equals(&other));
}

#[test]
fn short_salt_is_refused_not_panicking() {
    // the hashing service requires a salt of at least 8 bytes
    let salt = String::from("abc");
    let pepper = String::from("pepper-secret");
    assert!(PasswordHash::new(&salt, &pepper, "hunter2").is_none());
}

#[test]
fn refresh_token_hash_is_not_the_token() {
    let salt = String::from("somesaltvalue");
    let pepper = String::from("pepper-secret");
    let token = RefreshToken::new(String::from("opaque-token-body"));
    let h = RefreshTokenHash::new(&salt, &pepper, &token).expect("valid inputs must hash");
    assert_ne!(h.phc_string().as_str(), "opaque-token-body");
}

#[test]
fn from_phc_round_trips_the_string() {
    let h = PasswordHash::from_phc(String::from("$argon2id$v=19$stub"));
    assert_eq!(h.phc_string().as_str(), "$argon2id$v=19$stub");
    let t = RefreshTokenHash::from_phc(String::from("stored-hash"));
    assert_eq!(t.phc_string().as_str(), "stored-hash");
}
