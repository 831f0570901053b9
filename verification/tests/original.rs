use std::str::FromStr;

use flexaccess_keys::{
    authorized_key_from_private_file, parse_authorized_keys, parse_private_key, rfc3339_utc,
    PrivateKey, PublicKey, KEY_LENGTH,
};

#[test]
fn private_and_public_tokens_round_trip() {
    let private_key = PrivateKey::from_seed([42; KEY_LENGTH]);
    let private_token = private_key.to_token();
    let public_token = private_key.public_key().to_token();

    assert_eq!(PrivateKey::from_str(&private_token).unwrap().to_token(), private_token);
    assert_eq!(PublicKey::from_str(&public_token).unwrap().to_token(), public_token);
}

#[test]
fn signatures_are_strict_and_app_defined() {
    let private_key = PrivateKey::from_seed([42; KEY_LENGTH]);
    let signature = private_key.sign(b"app-domain\0message");

    assert!(private_key.public_key().verify(b"app-domain\0message", &signature));
    assert!(!private_key.public_key().verify(b"other-domain\0message", &signature));
    assert!(!private_key.public_key().verify(b"app-domain\0message", &signature[..63]));
}

#[test]
fn key_file_and_authorized_keys_round_trip() {
    let private_key = PrivateKey::from_seed([42; KEY_LENGTH]);
    let file = private_key.to_key_file("alice laptop", 0).unwrap();
    let parsed = parse_private_key(&file, "fixture").unwrap();
    let entry = authorized_key_from_private_file(&file, "fixture", None).unwrap();
    let authorized = parse_authorized_keys(&entry.to_string(), "fixture").unwrap();

    assert_eq!(parsed.to_token(), private_key.to_token());
    assert_eq!(entry.comment(), "alice laptop");
    assert_eq!(authorized.comment(&private_key.public_key()), Some("alice laptop"));
}

#[test]
fn authorized_keys_accept_whitespace_and_comments() {
    let a = PrivateKey::from_seed([1; KEY_LENGTH]);
    let b = PrivateKey::from_seed([2; KEY_LENGTH]);
    let content = format!(
        "  # clients\n\n{}\n\t{}   bob workstation  \n",
        a.public_key().to_token(),
        b.public_key().to_token()
    );
    let authorized = parse_authorized_keys(&content, "fixture").unwrap();

    assert_eq!(authorized.len(), 2);
    assert_eq!(authorized.comment(&a.public_key()), Some(""));
    assert_eq!(authorized.comment(&b.public_key()), Some("bob workstation"));
}

#[test]
fn rejects_invalid_material_and_multiline_comments() {
    assert!(PrivateKey::from_str("ed25519-sec:!!!").is_err());
    assert!(PublicKey::from_str("ed25519-pub:AA").is_err());
    assert!(
        PrivateKey::generate()
            .unwrap()
            .authorized_key("alice\nbob")
            .is_err()
    );
    assert!(parse_private_key("ed25519-sec:AA\ned25519-sec:AA", "fixture").is_err());
}

#[test]
fn stale_public_header_does_not_supply_a_comment() {
    let private_key = PrivateKey::from_seed([42; KEY_LENGTH]);
    let other = PrivateKey::from_seed([43; KEY_LENGTH]);
    let content = format!(
        "# Public key: {} wrong comment\n{}\n",
        other.public_key().to_token(),
        private_key.to_token()
    );
    let entry = authorized_key_from_private_file(&content, "fixture", None).unwrap();

    assert_eq!(entry.public_key(), private_key.public_key());
    assert_eq!(entry.comment(), "");
}

#[test]
fn formats_the_unix_epoch() {
    assert_eq!(rfc3339_utc(0), "1970-01-01T00:00:00Z");
}
