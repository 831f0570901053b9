//! Unpadded URL-safe base64 (RFC 4648 §5), as the `base64` crate's
//! `URL_SAFE_NO_PAD` engine writes and reads it.

use base64::engine::general_purpose::URL_SAFE_NO_PAD;
use base64::Engine;
use vstd::prelude::*;

verus! {

/// The URL-safe base64 symbol of a 6-bit value (RFC 4648, table 2).
pub open spec fn base64url_symbol(v: int) -> char {
    if v < 26 {
        (65 + v) as char
    } else if v < 52 {
        (97 + (v - 26)) as char
    } else if v < 62 {
        (48 + (v - 52)) as char
    } else if v == 62 {
        '-'
    } else {
        '_'
    }
}

/// Unpadded URL-safe base64 (RFC 4648 §5), which `URL_SAFE_NO_PAD.encode`
/// writes: each group of three bytes becomes four symbols of six bits each,
/// and a final group of one or two bytes becomes two or three symbols, the
/// unused low bits zero.
pub open spec fn base64url_encoding(bytes: Seq<u8>) -> Seq<char>
    decreases bytes.len(),
{
    if bytes.len() == 0 {
        seq![]
    } else {
        let b0 = bytes[0] as int;
        let b1 = if bytes.len() > 1 {
            bytes[1] as int
        } else {
            0
        };
        let b2 = if bytes.len() > 2 {
            bytes[2] as int
        } else {
            0
        };
        let first = base64url_symbol(b0 / 4);
        let second = base64url_symbol((b0 % 4) * 16 + b1 / 16);
        let third = base64url_symbol((b1 % 16) * 4 + b2 / 64);
        let fourth = base64url_symbol(b2 % 64);
        if bytes.len() == 1 {
            seq![first, second]
        } else if bytes.len() == 2 {
            seq![first, second, third]
        } else {
            seq![first, second, third, fourth] + base64url_encoding(bytes.skip(3))
        }
    }
}

/// Base64url text is `ceil(4n / 3)` symbols of the URL-safe alphabet.
pub proof fn lemma_base64url_shape(bytes: Seq<u8>)
    ensures
        base64url_encoding(bytes).len() == (4 * bytes.len() + 2) / 3,
        forall|i: int|
            0 <= i < base64url_encoding(bytes).len() ==> is_base64url_char(
                #[trigger] base64url_encoding(bytes)[i],
            ),
    decreases bytes.len(),
{
    if bytes.len() > 0 {
        let b0 = bytes[0] as int;
        let b1 = if bytes.len() > 1 {
            bytes[1] as int
        } else {
            0
        };
        let b2 = if bytes.len() > 2 {
            bytes[2] as int
        } else {
            0
        };
        lemma_symbol_in_alphabet(b0 / 4);
        lemma_symbol_in_alphabet((b0 % 4) * 16 + b1 / 16);
        lemma_symbol_in_alphabet((b1 % 16) * 4 + b2 / 64);
        lemma_symbol_in_alphabet(b2 % 64);
        if bytes.len() > 2 {
            let rest = bytes.skip(3);
            lemma_base64url_shape(rest);
            let head = seq![
                base64url_symbol(b0 / 4),
                base64url_symbol((b0 % 4) * 16 + b1 / 16),
                base64url_symbol((b1 % 16) * 4 + b2 / 64),
                base64url_symbol(b2 % 64),
            ];
            let e = base64url_encoding(bytes);
            assert(e == head + base64url_encoding(rest));
            assert forall|i: int| 0 <= i < e.len() implies is_base64url_char(#[trigger] e[i]) by {
                if i >= 4 {
                    assert(e[i] == base64url_encoding(rest)[i - 4]);
                }
            }
        }
    }
}

proof fn lemma_symbol_in_alphabet(v: int)
    requires
        0 <= v < 64,
    ensures
        is_base64url_char(base64url_symbol(v)),
{
}

/// What `URL_SAFE_NO_PAD.decode` gives for `text`: the decoded bytes, or the
/// `Display` text of its `DecodeError`.
pub uninterp spec fn base64url_decoding(text: Seq<char>) -> Result<Seq<u8>, Seq<char>>;

/// A decoding that succeeded with `bytes`.
pub open spec fn decoded(bytes: Seq<u8>) -> Result<Seq<u8>, Seq<char>> {
    Ok(bytes)
}

/// A decoding that failed with the error text `message`.
pub open spec fn decode_failure(message: Seq<char>) -> Result<Seq<u8>, Seq<char>> {
    Err(message)
}

/// A character of the URL-safe base64 alphabet.
pub open spec fn is_base64url_char(c: char) -> bool {
    ||| 'A' <= c <= 'Z'
    ||| 'a' <= c <= 'z'
    ||| '0' <= c <= '9'
    ||| c == '-'
    ||| c == '_'
}

/// `URL_SAFE_NO_PAD.encode` of a 32-byte key: its unpadded base64url text,
/// which decoding gives back as the bytes.
#[verifier::external_body]
pub(crate) fn encode_base64url(bytes: &[u8; 32]) -> (text: String)
    ensures
        text@ == base64url_encoding(bytes@),
        base64url_decoding(text@) == decoded(bytes@),
{
    URL_SAFE_NO_PAD.encode(bytes)
}

/// `URL_SAFE_NO_PAD.decode` of the UTF-8 text of `text`, with a
/// `DecodeError` turned into its `Display` text. The engine requires no
/// padding and rejects non-zero trailing bits, so what it accepts is exactly
/// the encoding of what it returns.
#[verifier::external_body]
pub(crate) fn decode_base64url(text: &[char]) -> (r: Result<Vec<u8>, String>)
    ensures
        match r {
            Ok(bytes) => base64url_decoding(text@) == decoded(bytes@)
                && base64url_encoding(bytes@) == text@,
            Err(message) => base64url_decoding(text@) == decode_failure(message@),
        },
{
    let text: String = text.iter().collect();
    match URL_SAFE_NO_PAD.decode(text) {
        Ok(bytes) => Ok(bytes),
        Err(error) => Err(format!("{error}")),
    }
}

} // verus!
