//! Ed25519 key derivation, signing and strict verification through
//! `ed25519-dalek`, and seed generation through `getrandom`.

use ed25519_dalek::{Signature, Signer, SigningKey, VerifyingKey};
use vstd::prelude::*;

verus! {

/// The compressed public key `SigningKey::from_bytes(seed).verifying_key()`.
pub uninterp spec fn ed25519_public_key(seed: Seq<u8>) -> Seq<u8>;

/// The signature `SigningKey::from_bytes(seed).sign(message)`: Ed25519
/// signing is deterministic.
pub uninterp spec fn ed25519_signature(seed: Seq<u8>, message: Seq<u8>) -> Seq<u8>;

/// What `VerifyingKey::from_bytes(bytes)` gives: success when the bytes
/// decompress to a curve point, or the `Display` text of its error.
pub uninterp spec fn ed25519_point_check(bytes: Seq<u8>) -> Result<(), Seq<char>>;

/// A point check that failed with the error text `message`.
pub open spec fn point_failure(message: Seq<char>) -> Result<(), Seq<char>> {
    Err(message)
}

/// Whether `verify_strict` accepts `signature` over `message` under the key
/// decompressed from `public_key` (false when it does not decompress).
pub uninterp spec fn ed25519_verifies_strictly(
    public_key: Seq<u8>,
    message: Seq<u8>,
    signature: Seq<u8>,
) -> bool;

/// `SigningKey::from_bytes(seed).verifying_key().to_bytes()`. The key is the
/// compression of a curve point, so `VerifyingKey::from_bytes` accepts it.
#[verifier::external_body]
pub(crate) fn derive_public_key(seed: &[u8; 32]) -> (public_key: [u8; 32])
    ensures
        public_key@ == ed25519_public_key(seed@),
        ed25519_point_check(public_key@) is Ok,
{
    SigningKey::from_bytes(seed).verifying_key().to_bytes()
}

/// `SigningKey::from_bytes(seed).sign(message).to_bytes()`.
#[verifier::external_body]
pub(crate) fn sign_message(seed: &[u8; 32], message: &[u8]) -> (signature: [u8; 64])
    ensures
        signature@ == ed25519_signature(seed@, message@),
{
    SigningKey::from_bytes(seed).sign(message).to_bytes()
}

/// `VerifyingKey::from_bytes(bytes)`, with its `SignatureError` turned into
/// its `Display` text.
#[verifier::external_body]
pub(crate) fn check_point(bytes: &[u8; 32]) -> (r: Result<(), String>)
    ensures
        match r {
            Ok(()) => ed25519_point_check(bytes@) is Ok,
            Err(message) => ed25519_point_check(bytes@) == point_failure(message@),
        },
{
    match VerifyingKey::from_bytes(bytes) {
        Ok(_) => Ok(()),
        Err(error) => Err(format!("{error}")),
    }
}

/// `VerifyingKey::verify_strict` of `signature` over `message` under the
/// key decompressed from `public_key`; false when it does not decompress.
#[verifier::external_body]
pub(crate) fn verify_strict(public_key: &[u8; 32], message: &[u8], signature: &[u8; 64]) -> (ok:
    bool)
    ensures
        ok == ed25519_verifies_strictly(public_key@, message@, signature@),
{
    match VerifyingKey::from_bytes(public_key) {
        Ok(key) => key.verify_strict(message, &Signature::from_bytes(signature)).is_ok(),
        Err(_) => false,
    }
}

/// `getrandom::fill` of a 32-byte seed, with its error turned into its
/// `Display` text. The bytes come from the operating system: nothing is
/// claimed of them, nor of when it fails.
#[verifier::external_body]
pub(crate) fn random_seed() -> (r: Result<[u8; 32], String>) {
    let mut seed = [0u8; 32];
    match getrandom::fill(&mut seed) {
        Ok(()) => Ok(seed),
        Err(error) => Err(format!("{error}")),
    }
}

} // verus!
