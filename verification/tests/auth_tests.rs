use typing_prac::auth::{hash_password, validate_credentials, verify_password};

#[test]
fn credentials_are_bounded() {
    assert!(validate_credentials("valid_user", "long-enough").is_ok());
    assert!(validate_credentials("../bad", "long-enough").is_err());
    assert!(validate_credentials("ok_user", "short").is_err());
    assert!(validate_credentials("ok_user", "éééé").is_err());
    assert!(validate_credentials("ok_user", "🔐🔐🔐🔐🔐🔐🔐🔐").is_ok());
}

#[test]
fn passwords_are_salted_and_verified() {
    let first = hash_password("correct horse").unwrap();
    let second = hash_password("correct horse").unwrap();
    assert_ne!(first, second);
    assert!(!first.contains("correct horse"));
    assert!(verify_password("correct horse", &first));
    assert!(!verify_password("wrong password", &first));
}

#[test]
fn stored_hashes_have_the_argon2id_shape() {
    let hash = hash_password("correct horse").unwrap();
    assert_eq!(hash.chars().count(), 97);
    assert!(hash.starts_with("$argon2id$v=19$m=19456,t=2,p=1$"));
    let salt: String = hash.chars().skip(31).take(22).collect();
    assert!(salt.chars().all(|c| c.is_ascii_alphanumeric() || c == '+' || c == '/'));
    assert!("AQgw".contains(salt.chars().last().unwrap()));
    assert_eq!(hash.chars().nth(53), Some('$'));
    assert!(hash.chars().all(|c| c.is_ascii_alphanumeric() || "+/$=,".contains(c)));
    let long = "p".repeat(128);
    let long_hash = hash_password(&long).unwrap();
    assert!(verify_password(&long, &long_hash));
    assert!(!verify_password("p", &long_hash));
}
