//! Shared Ed25519 authentication keys: the app-independent `ed25519-sec:` /
//! `ed25519-pub:` key format, key-file rendering, authorized-key parsing, and
//! raw signing and strict verification. Applications remain responsible for
//! their own domain-separated authentication transcripts and wire protocols.

pub mod authorized;
pub mod crypto;
pub mod encoding;
pub mod error;
pub mod key_file;
pub mod keys;
pub mod text;
pub mod time;

pub use authorized::{parse_authorized_key_entries, parse_authorized_keys, AuthorizedKey, AuthorizedKeys};
pub use error::{Error, Result};
pub use key_file::{authorized_key_from_private_file, parse_private_key};
pub use keys::{
    KeyBytes, PrivateKey, PublicKey, SignatureBytes, KEY_LENGTH, PRIVATE_KEY_PREFIX,
    PUBLIC_KEY_PREFIX, SIGNATURE_LENGTH,
};
pub use time::rfc3339_utc;
