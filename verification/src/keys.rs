//! Ed25519 public and private keys and their `ed25519-pub:` /
//! `ed25519-sec:` tokens.

use vstd::prelude::*;

use crate::crypto::{
    check_point, derive_public_key, ed25519_point_check, ed25519_public_key, ed25519_signature,
    ed25519_verifies_strictly, random_seed, sign_message, verify_strict,
};
use crate::encoding::{
    base64url_decoding, base64url_encoding, decode_base64url, encode_base64url, is_base64url_char,
    lemma_base64url_shape,
};
use crate::error::{is_invalid, Error};
use crate::text::{is_whitespace, chars_of, copy_range, decimal, has_prefix, push_decimal, push_str, starts_with, string_of};

verus! {

pub const PRIVATE_KEY_PREFIX: &'static str = "ed25519-sec:";

pub const PUBLIC_KEY_PREFIX: &'static str = "ed25519-pub:";

pub const KEY_LENGTH: usize = 32;

pub const SIGNATURE_LENGTH: usize = 64;

pub type KeyBytes = [u8; KEY_LENGTH];

pub type SignatureBytes = [u8; SIGNATURE_LENGTH];

/// Text of a token: not empty, not starting with `#`, and free of
/// whitespace (hence of line breaks).
pub open spec fn is_plain_token(token: Seq<char>) -> bool {
    &&& token.len() > 0
    &&& token[0] != '#'
    &&& forall|i: int| 0 <= i < token.len() ==> !is_whitespace(#[trigger] token[i])
}

/// The token of a public key: its prefix and the base64url of its bytes.
pub open spec fn public_token(key: Seq<u8>) -> Seq<char> {
    PUBLIC_KEY_PREFIX@ + base64url_encoding(key)
}

/// The token of a private key: its prefix and the base64url of its seed.
pub open spec fn private_token(seed: Seq<u8>) -> Seq<char> {
    PRIVATE_KEY_PREFIX@ + base64url_encoding(seed)
}

/// The 32 bytes that a token carries after `prefix`, or the message of the
/// error: `missing` without the prefix, `not_base64` and the decoder's text
/// when the rest is not base64url, `wrong_length` and the decoded length
/// when that is not 32.
pub open spec fn token_payload(
    token: Seq<char>,
    prefix: Seq<char>,
    missing: Seq<char>,
    not_base64: Seq<char>,
    wrong_length: Seq<char>,
) -> Result<Seq<u8>, Seq<char>> {
    if !has_prefix(token, prefix) {
        Err(missing)
    } else {
        payload_of_decoding(
            base64url_decoding(token.skip(prefix.len() as int)),
            not_base64,
            wrong_length,
        )
    }
}

/// The 32 bytes of a key from what decoding its token gave, or the message
/// of the error: `not_base64` and the decoder's text when decoding failed,
/// `wrong_length` and the decoded length when that is not 32.
pub open spec fn payload_of_decoding(
    decoding: Result<Seq<u8>, Seq<char>>,
    not_base64: Seq<char>,
    wrong_length: Seq<char>,
) -> Result<Seq<u8>, Seq<char>> {
    match decoding {
        Err(failure) => Err(not_base64 + failure),
        Ok(bytes) => if bytes.len() != 32 {
            Err(wrong_length + decimal(bytes.len()))
        } else {
            Ok(bytes)
        },
    }
}

/// A decoding result as sequences.
pub open spec fn decoding_view(decoded: Result<Vec<u8>, String>) -> Result<Seq<u8>, Seq<char>> {
    match decoded {
        Ok(bytes) => Ok(bytes@),
        Err(failure) => Err(failure@),
    }
}

/// The key bytes that a token's decoding gives (see `payload_of_decoding`).
pub fn key_from_decoding(decoded: Result<Vec<u8>, String>, not_base64: &str, wrong_length: &str)
    -> (r: Result<KeyBytes, String>)
    ensures
        match r {
            Ok(bytes) => payload_of_decoding(decoding_view(decoded), not_base64@, wrong_length@)
                == Ok::<Seq<u8>, Seq<char>>(bytes@),
            Err(message) => payload_of_decoding(
                decoding_view(decoded),
                not_base64@,
                wrong_length@,
            ) == Err::<Seq<u8>, Seq<char>>(message@),
        },
{
    match decoded {
        Err(failure) => {
            let mut message: Vec<char> = Vec::new();
            push_str(&mut message, not_base64);
            push_str(&mut message, failure.as_str());
            Err(string_of(&message))
        },
        Ok(bytes) => {
            if bytes.len() != 32 {
                let mut message: Vec<char> = Vec::new();
                push_str(&mut message, wrong_length);
                push_decimal(&mut message, bytes.len() as u64);
                Err(string_of(&message))
            } else {
                Ok(key_array(&bytes))
            }
        },
    }
}

/// What reading a public-key token gives: the key's bytes, or the message of
/// the error.
pub open spec fn parse_public_token(token: Seq<char>) -> Result<Seq<u8>, Seq<char>> {
    match token_payload(
        token,
        PUBLIC_KEY_PREFIX@,
        "Public key must start with 'ed25519-pub:'"@,
        "Public key is not valid base64url: "@,
        "Ed25519 public key must decode to 32 bytes, got "@,
    ) {
        Err(message) => Err(message),
        Ok(bytes) => match ed25519_point_check(bytes) {
            Err(failure) => Err("Invalid Ed25519 public key: "@ + failure),
            Ok(_) => Ok(bytes),
        },
    }
}

/// What reading a private-key token gives: the seed, or the message of the
/// error.
pub open spec fn parse_private_token(token: Seq<char>) -> Result<Seq<u8>, Seq<char>> {
    token_payload(
        token,
        PRIVATE_KEY_PREFIX@,
        "Private key must start with 'ed25519-sec:'"@,
        "Private key is not valid base64url: "@,
        "Ed25519 private key must decode to 32 bytes, got "@,
    )
}

/// A token made of a prefix and base64url text is plain, and its prefix
/// comes off to leave the text.
proof fn lemma_token_facts(prefix: Seq<char>, encoded: Seq<char>)
    requires
        prefix == PUBLIC_KEY_PREFIX@ || prefix == PRIVATE_KEY_PREFIX@,
        encoded.len() > 0,
        forall|i: int| 0 <= i < encoded.len() ==> is_base64url_char(encoded[i]),
    ensures
        prefix.len() == 12,
        is_plain_token(prefix + encoded),
        has_prefix(prefix + encoded, prefix),
        (prefix + encoded).skip(prefix.len() as int) == encoded,
{
    reveal_strlit("ed25519-pub:");
    reveal_strlit("ed25519-sec:");
    let t = prefix + encoded;
    assert(t.take(prefix.len() as int) =~= prefix);
    assert(t.skip(prefix.len() as int) =~= encoded);
    assert forall|i: int| 0 <= i < t.len() implies !is_whitespace(#[trigger] t[i]) by {
        if i >= prefix.len() {
            assert(t[i] == encoded[i - prefix.len()]);
            assert(is_base64url_char(encoded[i - prefix.len()]));
        }
    }
}

/// A copy of the 32 bytes of `bytes` as a key array.
fn key_array(bytes: &Vec<u8>) -> (key: KeyBytes)
    requires
        bytes@.len() == 32,
    ensures
        key@ == bytes@,
{
    let mut key: KeyBytes = [0u8; 32];
    let mut i: usize = 0;
    while i < 32
        invariant
            i <= 32,
            bytes@.len() == 32,
            key@.len() == 32,
            forall|k: int| 0 <= k < i ==> key@[k] == bytes@[k],
        decreases 32 - i,
    {
        key[i] = bytes[i];
        i = i + 1;
    }
    assert(key@ =~= bytes@);
    key
}

/// The 32 bytes that `token` carries after `prefix` (see `token_payload`).
fn decode_token(token: &str, prefix: &str, missing: &str, not_base64: &str, wrong_length: &str)
    -> (r: core::result::Result<KeyBytes, String>)
    ensures
        match r {
            Ok(bytes) => token_payload(token@, prefix@, missing@, not_base64@, wrong_length@)
                == Ok::<Seq<u8>, Seq<char>>(bytes@) && token@ == prefix@ + base64url_encoding(
                bytes@,
            ),
            Err(message) => token_payload(token@, prefix@, missing@, not_base64@, wrong_length@)
                == Err::<Seq<u8>, Seq<char>>(message@),
        },
{
    let chars = chars_of(token);
    let prefix_chars = chars_of(prefix);
    if !starts_with(&chars, &prefix_chars) {
        let mut message: Vec<char> = Vec::new();
        push_str(&mut message, missing);
        assert(message@ =~= missing@);
        return Err(string_of(&message));
    }
    let encoded = copy_range(&chars, prefix_chars.len(), chars.len());
    assert(encoded@ =~= token@.skip(prefix@.len() as int));
    let decoded = decode_base64url(&encoded);
    proof {
        assert(token@ =~= prefix@ + token@.skip(prefix@.len() as int));
    }
    key_from_decoding(decoded, not_base64, wrong_length)
}

/// A validated Ed25519 public key: 32 bytes that decompress to a curve point.
#[derive(Clone, Copy, PartialEq, Eq, Hash, Debug)]
pub struct PublicKey(KeyBytes);

impl View for PublicKey {
    type V = Seq<u8>;

    closed spec fn view(&self) -> Seq<u8> {
        self.0@
    }
}

impl PublicKey {
    #[verifier::type_invariant]
    spec fn decompresses(self) -> bool {
        ed25519_point_check(self.0@) is Ok
    }

    /// The key with these bytes, or `Error::Invalid` when they are not a
    /// curve point.
    pub fn from_bytes(bytes: KeyBytes) -> (r: core::result::Result<Self, Error>)
        ensures
            match r {
                Ok(key) => key@ == bytes@ && ed25519_point_check(bytes@) is Ok,
                Err(e) => ed25519_point_check(bytes@) matches Err(failure) && is_invalid(
                    &e,
                    "Invalid Ed25519 public key: "@ + failure,
                ),
            },
    {
        match check_point(&bytes) {
            Ok(()) => Ok(PublicKey(bytes)),
            Err(failure) => {
                let mut message: Vec<char> = Vec::new();
                push_str(&mut message, "Invalid Ed25519 public key: ");
                push_str(&mut message, failure.as_str());
                Err(Error::Invalid(string_of(&message)))
            },
        }
    }

    /// The key's bytes.
    pub fn as_bytes(&self) -> (bytes: &KeyBytes)
        ensures
            bytes@ == self@,
    {
        &self.0
    }

    /// The key's bytes.
    pub fn to_bytes(self) -> (bytes: KeyBytes)
        ensures
            bytes@ == self@,
    {
        self.0
    }

    /// The `ed25519-pub:` token of the key; reading it gives the key back.
    pub fn to_token(self) -> (token: String)
        ensures
            token@ == public_token(self@),
            token@.len() == 55,
            is_plain_token(token@),
            parse_public_token(token@) == Ok::<Seq<u8>, Seq<char>>(self@),
    {
        proof {
            use_type_invariant(self);
        }
        let mut v: Vec<char> = Vec::new();
        push_str(&mut v, PUBLIC_KEY_PREFIX);
        let encoded = encode_base64url(&self.0);
        push_str(&mut v, encoded.as_str());
        proof {
            lemma_base64url_shape(self.0@);
            lemma_token_facts(PUBLIC_KEY_PREFIX@, encoded@);
        }
        string_of(&v)
    }

    /// The key as debug output shows it: `PublicKey("<token>")`.
    pub fn debug_text(self) -> (text: String)
        ensures
            text@ == "PublicKey(\""@ + public_token(self@) + "\")"@,
    {
        let token = self.to_token();
        let mut v: Vec<char> = Vec::new();
        push_str(&mut v, "PublicKey(\"");
        push_str(&mut v, token.as_str());
        push_str(&mut v, "\")");
        string_of(&v)
    }

    /// Strictly verifies an Ed25519 signature over an application-defined,
    /// domain-separated message: false unless the signature has 64 bytes
    /// and `verify_strict` accepts it.
    pub fn verify(self, message: &[u8], signature: &[u8]) -> (ok: bool)
        ensures
            ok == (signature@.len() == 64 && ed25519_verifies_strictly(
                self@,
                message@,
                signature@,
            )),
    {
        if signature.len() != 64 {
            return false;
        }
        let mut bytes: SignatureBytes = [0u8; 64];
        let mut i: usize = 0;
        while i < 64
            invariant
                i <= 64,
                signature@.len() == 64,
                bytes@.len() == 64,
                forall|k: int| 0 <= k < i ==> bytes@[k] == signature@[k],
            decreases 64 - i,
        {
            bytes[i] = signature[i];
            i = i + 1;
        }
        assert(bytes@ =~= signature@);
        verify_strict(&self.0, message, &bytes)
    }

    /// Reads an `ed25519-pub:` token (see `parse_public_token`).
    pub fn parse_token(token: &str) -> (r: core::result::Result<Self, Error>)
        ensures
            match r {
                Ok(key) => parse_public_token(token@) == Ok::<Seq<u8>, Seq<char>>(key@)
                    && token@ == public_token(key@),
                Err(e) => parse_public_token(token@) matches Err(message) && is_invalid(
                    &e,
                    message,
                ),
            },
    {
        match decode_token(
            token,
            PUBLIC_KEY_PREFIX,
            "Public key must start with 'ed25519-pub:'",
            "Public key is not valid base64url: ",
            "Ed25519 public key must decode to 32 bytes, got ",
        ) {
            Ok(bytes) => Self::from_bytes(bytes),
            Err(message) => Err(Error::Invalid(message)),
        }
    }
}

impl core::str::FromStr for PublicKey {
    type Err = Error;

    /// Reads an `ed25519-pub:` token, as `parse_token` does.
    fn from_str(token: &str) -> (r: core::result::Result<Self, Error>)
        ensures
            match r {
                Ok(key) => parse_public_token(token@) == Ok::<Seq<u8>, Seq<char>>(key@)
                    && token@ == public_token(key@),
                Err(e) => parse_public_token(token@) matches Err(message) && is_invalid(
                    &e,
                    message,
                ),
            },
    {
        Self::parse_token(token)
    }
}

/// An Ed25519 private signing key, held as its 32-byte seed.
pub struct PrivateKey(KeyBytes);

impl Clone for PrivateKey {
    fn clone(&self) -> (copy: Self)
        ensures
            copy@ == self@,
    {
        PrivateKey(self.0)
    }
}

impl View for PrivateKey {
    type V = Seq<u8>;

    closed spec fn view(&self) -> Seq<u8> {
        self.0@
    }
}

impl PrivateKey {
    /// A key from 32 random bytes of the operating system, or
    /// `Error::Invalid` when it cannot supply them.
    pub fn generate() -> (r: core::result::Result<Self, Error>)
        ensures
            r matches Err(e) ==> (e matches Error::Invalid(m) && has_prefix(
                m@,
                "Failed to generate an Ed25519 private key: "@,
            )),
    {
        match random_seed() {
            Ok(seed) => Ok(Self::from_seed(seed)),
            Err(failure) => {
                let mut message: Vec<char> = Vec::new();
                push_str(&mut message, "Failed to generate an Ed25519 private key: ");
                let ghost head = message@;
                push_str(&mut message, failure.as_str());
                assert(message@.take(head.len() as int) =~= head);
                Err(Error::Invalid(string_of(&message)))
            },
        }
    }

    /// The key with this seed.
    pub fn from_seed(seed: KeyBytes) -> (key: Self)
        ensures
            key@ == seed@,
    {
        PrivateKey(seed)
    }

    /// The key's seed.
    pub fn seed(&self) -> (seed: KeyBytes)
        ensures
            seed@ == self@,
    {
        self.0
    }

    /// The public key derived from the seed.
    pub fn public_key(&self) -> (key: PublicKey)
        ensures
            key@ == ed25519_public_key(self@),
    {
        PublicKey(derive_public_key(&self.0))
    }

    /// The `ed25519-sec:` token of the key; reading it gives the key back.
    pub fn to_token(&self) -> (token: String)
        ensures
            token@ == private_token(self@),
            token@.len() == 55,
            is_plain_token(token@),
            parse_private_token(token@) == Ok::<Seq<u8>, Seq<char>>(self@),
    {
        let mut v: Vec<char> = Vec::new();
        push_str(&mut v, PRIVATE_KEY_PREFIX);
        let encoded = encode_base64url(&self.0);
        push_str(&mut v, encoded.as_str());
        proof {
            lemma_base64url_shape(self.0@);
            lemma_token_facts(PRIVATE_KEY_PREFIX@, encoded@);
        }
        string_of(&v)
    }

    /// The key as debug output shows it, with the seed withheld.
    pub fn debug_text(&self) -> (text: String)
        ensures
            text@ == "PrivateKey([REDACTED])"@,
    {
        let mut v: Vec<char> = Vec::new();
        push_str(&mut v, "PrivateKey([REDACTED])");
        string_of(&v)
    }

    /// The Ed25519 signature of an application-defined message.
    pub fn sign(&self, message: &[u8]) -> (signature: SignatureBytes)
        ensures
            signature@ == ed25519_signature(self@, message@),
    {
        sign_message(&self.0, message)
    }

    /// Reads an `ed25519-sec:` token (see `parse_private_token`).
    pub fn parse_token(token: &str) -> (r: core::result::Result<Self, Error>)
        ensures
            match r {
                Ok(key) => parse_private_token(token@) == Ok::<Seq<u8>, Seq<char>>(key@)
                    && token@ == private_token(key@),
                Err(e) => parse_private_token(token@) matches Err(message) && is_invalid(
                    &e,
                    message,
                ),
            },
    {
        match decode_token(
            token,
            PRIVATE_KEY_PREFIX,
            "Private key must start with 'ed25519-sec:'",
            "Private key is not valid base64url: ",
            "Ed25519 private key must decode to 32 bytes, got ",
        ) {
            Ok(seed) => Ok(Self::from_seed(seed)),
            Err(message) => Err(Error::Invalid(message)),
        }
    }
}

impl core::str::FromStr for PrivateKey {
    type Err = Error;

    /// Reads an `ed25519-sec:` token, as `parse_token` does.
    fn from_str(token: &str) -> (r: core::result::Result<Self, Error>)
        ensures
            match r {
                Ok(key) => parse_private_token(token@) == Ok::<Seq<u8>, Seq<char>>(key@)
                    && token@ == private_token(key@),
                Err(e) => parse_private_token(token@) matches Err(message) && is_invalid(
                    &e,
                    message,
                ),
            },
    {
        Self::parse_token(token)
    }
}

} // verus!
