use std::str::FromStr;

use flexaccess_keys::keys::key_from_decoding;
use flexaccess_keys::{
    authorized_key_from_private_file, parse_authorized_key_entries, parse_authorized_keys,
    parse_private_key, rfc3339_utc, AuthorizedKey, AuthorizedKeys, Error, PrivateKey, PublicKey,
    KEY_LENGTH,
};

// RFC 8032, section 7.1, test 1.
const RFC_SEED: [u8; 32] = [
    157, 97, 177, 157, 239, 253, 90, 96, 186, 132, 74, 244, 146, 236, 44, 196, 68, 73, 197, 105,
    123, 50, 105, 25, 112, 59, 172, 3, 28, 174, 127, 96,
];
const RFC_PUBLIC_TOKEN: &str = "ed25519-pub:11qYAYKxCrfVS_7TyWQHOg7hcvPapiMlrwIaaPcHURo";
const RFC_EMPTY_SIGNATURE: &str = "e5564300c360ac729086e2cc806e828a84877f1eb8e5d974d873e065224901555fb8821590a33bacc61e39701cf9b46bd25bf5f0595bbe24655141438e7a100b";

fn hex(bytes: &[u8]) -> String {
    bytes.iter().map(|b| format!("{b:02x}")).collect()
}

fn message_of(error: Error) -> String {
    error.to_string()
}

#[test]
fn derives_the_rfc_8032_public_key() {
    let key = PrivateKey::from_seed(RFC_SEED);
    assert_eq!(key.public_key().to_token(), RFC_PUBLIC_TOKEN);
    assert_eq!(key.seed(), RFC_SEED);
}

#[test]
fn signs_the_rfc_8032_empty_message() {
    let key = PrivateKey::from_seed(RFC_SEED);
    let signature = key.sign(b"");
    assert_eq!(hex(&signature), RFC_EMPTY_SIGNATURE);
    assert!(key.public_key().verify(b"", &signature));
    let mut tampered = signature;
    tampered[0] ^= 1;
    assert!(!key.public_key().verify(b"", &tampered));
}

#[test]
fn signing_is_deterministic() {
    let key = PrivateKey::from_seed([7; KEY_LENGTH]);
    assert_eq!(key.sign(b"same"), key.sign(b"same"));
    assert_ne!(key.sign(b"same"), key.sign(b"other"));
}

#[test]
fn verify_rejects_wrong_signature_lengths() {
    let key = PrivateKey::from_seed([7; KEY_LENGTH]);
    let signature = key.sign(b"m");
    let mut longer = signature.to_vec();
    longer.push(0);
    assert!(!key.public_key().verify(b"m", &longer));
    assert!(!key.public_key().verify(b"m", &[]));
}

#[test]
fn tokens_are_exact_base64url() {
    assert_eq!(
        PrivateKey::from_seed([0; KEY_LENGTH]).to_token(),
        "ed25519-sec:AAAAAAAAAAAAAAAAAAAAAAAAAAAAAAAAAAAAAAAAAAA"
    );
    assert_eq!(
        PrivateKey::from_seed([42; KEY_LENGTH]).to_token(),
        "ed25519-sec:KioqKioqKioqKioqKioqKioqKioqKioqKioqKioqKio"
    );
    let parsed = PublicKey::from_str(RFC_PUBLIC_TOKEN).unwrap();
    assert_eq!(parsed, PrivateKey::from_seed(RFC_SEED).public_key());
    assert_eq!(parsed.to_bytes(), *parsed.as_bytes());
}

#[test]
fn token_errors_name_the_problem() {
    assert_eq!(
        message_of(PrivateKey::from_str("ed25519-pub:AAAA").err().unwrap()),
        "Private key must start with 'ed25519-sec:'"
    );
    assert_eq!(
        message_of(PublicKey::from_str("ed25519-sec:AAAA").err().unwrap()),
        "Public key must start with 'ed25519-pub:'"
    );
    assert_eq!(
        message_of(PrivateKey::from_str("ed25519-sec:!!!").err().unwrap()),
        "Private key is not valid base64url: Invalid symbol 33, offset 0."
    );
    assert_eq!(
        message_of(PublicKey::from_str("ed25519-pub:AA").err().unwrap()),
        "Ed25519 public key must decode to 32 bytes, got 1"
    );
    assert_eq!(
        message_of(PrivateKey::from_str("ed25519-sec:AAAA").err().unwrap()),
        "Ed25519 private key must decode to 32 bytes, got 3"
    );
    let off_curve = PublicKey::from_str("ed25519-pub:AgAAAAAAAAAAAAAAAAAAAAAAAAAAAAAAAAAAAAAAAAA")
        .err()
        .unwrap();
    assert!(message_of(off_curve).starts_with("Invalid Ed25519 public key: "));
}

#[test]
fn non_canonical_tokens_are_rejected() {
    // Non-zero trailing bits in the last symbol.
    assert!(PrivateKey::from_str("ed25519-sec:AAAAAAAAAAAAAAAAAAAAAAAAAAAAAAAAAAAAAAAAAAB").is_err());
    // Padding is not accepted.
    assert!(PrivateKey::from_str("ed25519-sec:AAAAAAAAAAAAAAAAAAAAAAAAAAAAAAAAAAAAAAAAAAA=").is_err());
    // The standard alphabet is not URL-safe.
    assert!(PrivateKey::from_str("ed25519-sec:+AAAAAAAAAAAAAAAAAAAAAAAAAAAAAAAAAAAAAAAAAA").is_err());
}

#[test]
fn public_key_from_bytes_checks_the_point() {
    let mut bytes = [0u8; 32];
    bytes[0] = 2;
    let error = PublicKey::from_bytes(bytes).err().unwrap();
    assert!(message_of(error).starts_with("Invalid Ed25519 public key: "));
    let valid = PrivateKey::from_seed(RFC_SEED).public_key();
    assert_eq!(PublicKey::from_bytes(valid.to_bytes()).unwrap(), valid);
}

#[test]
fn generated_keys_round_trip() {
    let key = PrivateKey::generate().unwrap();
    let token = key.to_token();
    assert_eq!(PrivateKey::from_str(&token).unwrap().seed(), key.seed());
    let other = PrivateKey::generate().unwrap();
    assert_ne!(key.seed(), other.seed());
}

#[test]
fn formats_rfc3339_instants() {
    assert_eq!(rfc3339_utc(0), "1970-01-01T00:00:00Z");
    assert_eq!(rfc3339_utc(86_399), "1970-01-01T23:59:59Z");
    assert_eq!(rfc3339_utc(951_782_400), "2000-02-29T00:00:00Z");
    assert_eq!(rfc3339_utc(1_234_567_890), "2009-02-13T23:31:30Z");
    assert_eq!(rfc3339_utc(1_709_164_800), "2024-02-29T00:00:00Z");
    assert_eq!(rfc3339_utc(4_102_444_800), "2100-01-01T00:00:00Z");
    assert_eq!(rfc3339_utc(253_402_300_799), "9999-12-31T23:59:59Z");
    assert_eq!(rfc3339_utc(253_402_300_800), "10000-01-01T00:00:00Z");
}

#[test]
fn key_file_has_the_canonical_layout() {
    let key = PrivateKey::from_seed(RFC_SEED);
    let file = key.to_key_file("  alice laptop ", 1_234_567_890).unwrap();
    assert_eq!(
        file,
        format!(
            "# Ed25519 authentication key\n# Created: 2009-02-13T23:31:30Z\n# Public key: {RFC_PUBLIC_TOKEN} alice laptop\n{}\n",
            key.to_token()
        )
    );
    let bare = key.to_key_file("", 0).unwrap();
    assert!(bare.contains(&format!("# Public key: {RFC_PUBLIC_TOKEN}\n")));
    let entry = authorized_key_from_private_file(&bare, "fixture", None).unwrap();
    assert_eq!(entry.comment(), "");
    assert!(key.to_key_file("a\rb", 0).is_err());
}

#[test]
fn key_file_at_the_epoch() {
    let k = PrivateKey::from_seed([42u8; 32]);
    assert_eq!(
        k.to_key_file("alice laptop", 0).unwrap(),
        format!(
            "# Ed25519 authentication key\n# Created: 1970-01-01T00:00:00Z\n# Public key: {} alice laptop\n{}\n",
            k.public_key().to_token(),
            k.to_token()
        )
    );
}

#[test]
fn private_key_files_need_exactly_one_key_line() {
    let key = PrivateKey::from_seed([5; KEY_LENGTH]);
    let token = key.to_token();
    assert_eq!(parse_private_key(&token, "fixture").unwrap().seed(), key.seed());
    let crlf = format!("# comment\r\n  {token}  \r\n\r\n");
    assert_eq!(parse_private_key(&crlf, "fixture").unwrap().seed(), key.seed());
    assert_eq!(
        message_of(parse_private_key("# only a header\n\n", "fixture").err().unwrap()),
        "No authentication private key found in fixture"
    );
    assert_eq!(
        message_of(parse_private_key("", "empty").err().unwrap()),
        "No authentication private key found in empty"
    );
    assert_eq!(
        message_of(parse_private_key("ed25519-sec:AA\ned25519-sec:AA", "fixture").err().unwrap()),
        "Invalid authentication private key in fixture: multiple key lines"
    );
    assert_eq!(
        message_of(parse_private_key("# x\nnot-a-key\n", "fixture").err().unwrap()),
        "Invalid authentication private key in fixture: Private key must start with 'ed25519-sec:'"
    );
}

#[test]
fn supplied_comment_overrides_the_header() {
    let key = PrivateKey::from_seed([9; KEY_LENGTH]);
    let file = key.to_key_file("from header", 0).unwrap();
    let entry = authorized_key_from_private_file(&file, "fixture", Some("  supplied  ")).unwrap();
    assert_eq!(entry.comment(), "supplied");
    assert_eq!(entry.public_key(), key.public_key());
    assert!(authorized_key_from_private_file(&file, "fixture", Some("a\nb")).is_err());
    let from_header = authorized_key_from_private_file(&file, "fixture", None).unwrap();
    assert_eq!(from_header.comment(), "from header");
    assert_eq!(from_header, key.authorized_key("from header").unwrap());
}

#[test]
fn header_needs_whitespace_after_the_token() {
    let key = PrivateKey::from_seed([9; KEY_LENGTH]);
    let content = format!(
        "  # Public key:    {}\tteam laptop  \n{}\n",
        key.public_key().to_token(),
        key.to_token()
    );
    let entry = authorized_key_from_private_file(&content, "fixture", None).unwrap();
    assert_eq!(entry.comment(), "team laptop");
    let glued = format!(
        "# Public key: {}x\n{}\n",
        key.public_key().to_token(),
        key.to_token()
    );
    assert_eq!(authorized_key_from_private_file(&glued, "fixture", None).unwrap().comment(), "");
}

#[test]
fn authorized_entries_trim_and_render() {
    let key = PrivateKey::from_seed([3; KEY_LENGTH]).public_key();
    let entry = AuthorizedKey::new(key, "  build server \t").unwrap();
    assert_eq!(entry.comment(), "build server");
    assert_eq!(entry.to_string(), format!("{} build server", key.to_token()));
    let plain = AuthorizedKey::new(key, "   ").unwrap();
    assert_eq!(plain.to_string(), key.to_token());
    assert_eq!(
        message_of(AuthorizedKey::new(key, "a\rb").err().unwrap()),
        "Authorized-key comment must not contain line breaks"
    );
    assert_eq!(entry.clone(), entry);
}

#[test]
fn the_last_entry_of_a_key_wins() {
    let a = PrivateKey::from_seed([1; KEY_LENGTH]).public_key();
    let b = PrivateKey::from_seed([2; KEY_LENGTH]).public_key();
    let content = format!(
        "{} first\n{} bob\r\n{} second\n",
        a.to_token(),
        b.to_token(),
        a.to_token()
    );
    let keys = parse_authorized_keys(&content, "fixture").unwrap();
    assert_eq!(keys.len(), 2);
    assert!(!keys.is_empty());
    assert_eq!(keys.comment(&a), Some("second"));
    assert_eq!(keys.comment(&b), Some("bob"));
    assert!(keys.contains(&a));
    let c = PrivateKey::from_seed([3; KEY_LENGTH]).public_key();
    assert!(!keys.contains(&c));
    assert_eq!(keys.comment(&c), None);
    let mut listed: Vec<(String, String)> = keys
        .iter()
        .into_iter()
        .map(|entry| (entry.public_key().to_token(), entry.comment().to_string()))
        .collect();
    listed.sort();
    let mut expected = vec![
        (a.to_token(), "second".to_string()),
        (b.to_token(), "bob".to_string()),
    ];
    expected.sort();
    assert_eq!(listed, expected);
}

#[test]
fn authorized_key_errors_name_the_line() {
    let a = PrivateKey::from_seed([1; KEY_LENGTH]).public_key();
    let content = format!("# keys\n{}\nssh-ed25519 AAAA\n", a.to_token());
    assert_eq!(
        message_of(parse_authorized_keys(&content, "keys.txt").err().unwrap()),
        "Invalid authorized key at keys.txt:3: Public key must start with 'ed25519-pub:'"
    );
    let bad_comment = format!("{} a\rb\n", a.to_token());
    assert_eq!(
        message_of(parse_authorized_keys(&bad_comment, "f").err().unwrap()),
        "Invalid authorized key at f:1: Authorized-key comment must not contain line breaks"
    );
}

#[test]
fn empty_documents_authorize_nobody() {
    let keys = parse_authorized_keys("\n  \n# nothing\n", "fixture").unwrap();
    assert!(keys.is_empty());
    assert_eq!(keys.len(), 0);
    assert!(AuthorizedKeys::default().is_empty());
    assert!(AuthorizedKeys::new().iter().is_empty());
}

#[test]
fn entries_are_joined_into_a_document() {
    let a = PrivateKey::from_seed([1; KEY_LENGTH]).public_key();
    let b = PrivateKey::from_seed([2; KEY_LENGTH]).public_key();
    let entries = vec![format!("{} alice", a.to_token()), format!("{}", b.to_token())];
    let keys = parse_authorized_key_entries(&entries, "config").unwrap();
    assert_eq!(keys.len(), 2);
    assert_eq!(keys.comment(&a), Some("alice"));
    assert_eq!(keys.comment(&b), Some(""));
    let bad = vec![a.to_token(), "nope".to_string()];
    assert_eq!(
        message_of(parse_authorized_key_entries(&bad, "config").err().unwrap()),
        "Invalid authorized key at config:2: Public key must start with 'ed25519-pub:'"
    );
}

#[test]
fn error_messages_describe_each_variant() {
    assert_eq!(Error::Invalid("bad".to_string()).to_string(), "bad");
    assert_eq!(
        Error::ReadFile {
            kind: "private key".to_string(),
            path: "/tmp/k".to_string(),
            source: "denied".to_string(),
        }
        .to_string(),
        "Failed to read private key file /tmp/k: denied"
    );
    assert_eq!(
        Error::WriteFile { path: "/tmp/k".to_string(), source: "full".to_string() }.to_string(),
        "Failed to write private key file /tmp/k: full"
    );
    assert_eq!(
        Error::FileExists("/tmp/k".to_string()).to_string(),
        "File already exists: /tmp/k. Use --force to overwrite."
    );
}

#[test]
fn key_bytes_from_a_decoding() {
    let key = key_from_decoding(Ok(vec![7u8; 32]), "bad: ", "length ").unwrap();
    assert_eq!(key, [7u8; 32]);
    assert_eq!(
        key_from_decoding(Ok(vec![1, 2, 3]), "bad: ", "length ").err().unwrap(),
        "length 3"
    );
    assert_eq!(
        key_from_decoding(Err("oops".to_string()), "bad: ", "length ").err().unwrap(),
        "bad: oops"
    );
}

#[test]
fn debug_texts_withhold_secrets() {
    let key = PrivateKey::from_seed(RFC_SEED);
    assert_eq!(key.debug_text(), "PrivateKey([REDACTED])");
    assert_eq!(key.public_key().debug_text(), format!("PublicKey(\"{RFC_PUBLIC_TOKEN}\")"));
    let content = format!("{} a\n", key.public_key().to_token());
    let keys = parse_authorized_keys(&content, "f").unwrap();
    assert_eq!(keys.debug_text(), "AuthorizedKeys { key_count: 1 }");
    assert_eq!(AuthorizedKeys::new().debug_text(), "AuthorizedKeys { key_count: 0 }");
}

#[test]
fn blank_and_comment_lines_do_not_change_the_keys() {
    let a = PrivateKey::from_seed([1; KEY_LENGTH]).public_key();
    let b = PrivateKey::from_seed([2; KEY_LENGTH]).public_key();
    let plain = format!("{} alice\n{} bob\n", a.to_token(), b.to_token());
    let padded = format!(
        "# header\n{} alice\n   \n\t# note\r\n{} bob\n\n",
        a.to_token(),
        b.to_token()
    );
    let one = parse_authorized_keys(&plain, "f").unwrap();
    let two = parse_authorized_keys(&padded, "f").unwrap();
    assert_eq!(one.len(), two.len());
    assert_eq!(one.comment(&a), two.comment(&a));
    assert_eq!(one.comment(&b), two.comment(&b));
}

#[test]
fn consecutive_days_roll_over() {
    assert_eq!(rfc3339_utc(951_696_000), "2000-02-28T00:00:00Z");
    assert_eq!(rfc3339_utc(951_782_400), "2000-02-29T00:00:00Z");
    assert_eq!(rfc3339_utc(951_868_800), "2000-03-01T00:00:00Z");
    assert_eq!(rfc3339_utc(4_107_456_000), "2100-02-28T00:00:00Z");
    assert_eq!(rfc3339_utc(4_107_542_400), "2100-03-01T00:00:00Z");
    assert_eq!(rfc3339_utc(946_684_799), "1999-12-31T23:59:59Z");
    assert_eq!(rfc3339_utc(946_684_800), "2000-01-01T00:00:00Z");
}
