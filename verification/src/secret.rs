//! Shared secrets: how they are held and decoded.

use vstd::prelude::*;
use zeroize::Zeroizing;

use crate::hexcode::{self, HexError};

verus! {

/// A byte buffer that is overwritten with zeros when it is dropped.
#[verifier::external_body]
pub struct SealedBytes(Zeroizing<Vec<u8>>);

/// The bytes that a sealed buffer holds.
pub uninterp spec fn sealed_bytes(buffer: SealedBytes) -> Seq<u8>;

impl View for SealedBytes {
    type V = Seq<u8>;

    open spec fn view(&self) -> Seq<u8> {
        sealed_bytes(*self)
    }
}

/// Calls `Zeroizing::new`, which moves the vector into the buffer as it is.
#[verifier::external_body]
pub(crate) fn seal(bytes: Vec<u8>) -> (buffer: SealedBytes)
    ensures
        sealed_bytes(buffer) == bytes@,
{
    SealedBytes(Zeroizing::new(bytes))
}

/// Calls the `Deref` of `Zeroizing`, which lends the bytes that the buffer holds.
#[verifier::external_body]
pub(crate) fn unsealed(buffer: &SealedBytes) -> (bytes: &[u8])
    ensures
        bytes@ == sealed_bytes(*buffer),
{
    &buffer.0
}

/// A decoded HMAC key, overwritten with zeros when it is dropped.
pub struct SecretKey(SealedBytes);

impl View for SecretKey {
    type V = Seq<u8>;

    closed spec fn view(&self) -> Seq<u8> {
        self.0@
    }
}

/// The key that a text stands for: the bytes that it writes in hexadecimal, if it is
/// an even number of hexadecimal digits, else its own bytes. Outer white space does
/// not count.
pub open spec fn decoded_secret(input: Seq<char>) -> Seq<u8> {
    let text = crate::text::trimmed(input);
    if text.len() % 2 == 0 && hexcode::all_hex_chars(text) {
        hexcode::hex_bytes(hexcode::ascii_bytes(text))
    } else {
        vstd::utf8::encode_utf8(text)
    }
}

/// Decodes a secret from a hexadecimal text or a plain passphrase. No text is
/// refused.
pub fn decode_secret(input: &str) -> (outcome: Result<Vec<u8>, HexError>)
    ensures
        outcome is Ok,
        outcome->Ok_0@ == decoded_secret(input@),
{
    let trimmed = input.trim();
    let hex = hexcode::is_hex(trimmed);
    let bytes = trimmed.as_bytes();
    proof {
        if hex {
            hexcode::lemma_hex_chars_are_digits(trimmed@);
        }
    }
    if hex && bytes.len() % 2 == 0 {
        hexcode::decode(bytes)
    } else {
        Ok(vstd::slice::slice_to_vec(bytes))
    }
}

impl SecretKey {
    /// Decodes a hexadecimal text or a plain passphrase.
    pub fn from_hex_or_passphrase(input: &str) -> (outcome: Result<SecretKey, HexError>)
        ensures
            outcome is Ok,
            outcome->Ok_0@ == decoded_secret(input@),
    {
        match decode_secret(input) {
            Ok(bytes) => Ok(SecretKey::from_bytes(bytes)),
            Err(e) => Err(e),
        }
    }

    /// Decodes a hexadecimal text and refuses any other.
    pub fn from_hex(input: &str) -> (outcome: Result<SecretKey, HexError>)
        ensures
            hexcode::is_hex_decoding(
                vstd::utf8::encode_utf8(crate::text::trimmed(input@)),
                key_view(outcome),
            ),
    {
        match hexcode::decode(input.trim().as_bytes()) {
            Ok(bytes) => Ok(SecretKey::from_bytes(bytes)),
            Err(e) => Err(e),
        }
    }

    /// Takes bytes as they are.
    pub fn from_bytes(bytes: Vec<u8>) -> (key: SecretKey)
        ensures
            key@ == bytes@,
    {
        SecretKey(seal(bytes))
    }

    /// Lends the key bytes.
    pub fn as_bytes(&self) -> (bytes: &[u8])
        ensures
            bytes@ == self@,
    {
        unsealed(&self.0)
    }

    /// What may be shown of a key: nothing of its bytes.
    pub fn debug_text(&self) -> (text: String)
        ensures
            text@ == "SecretKey([redacted])"@,
    {
        String::from_str("SecretKey([redacted])")
    }
}

/// A key result with the key as a sequence of bytes.
pub open spec fn key_view(outcome: Result<SecretKey, HexError>) -> Result<Seq<u8>, HexError> {
    match outcome {
        Ok(key) => Ok(key@),
        Err(e) => Err(e),
    }
}

/// Whether `text` is an even number of hexadecimal digits.
pub open spec fn is_hex_pairs(text: Seq<char>) -> bool {
    &&& text.len() % 2 == 0
    &&& forall|i: int|
        0 <= i < text.len() ==> "0123456789abcdefABCDEF"@.contains(#[trigger] text[i])
}

/// The value of a hexadecimal digit.
pub open spec fn digit_value(c: char) -> int {
    if c <= '9' {
        c as int - '0' as int
    } else if c <= 'F' {
        c as int - 'A' as int + 10
    } else {
        c as int - 'a' as int + 10
    }
}

proof fn lemma_is_hex_pairs(text: Seq<char>)
    ensures
        is_hex_pairs(text) <==> text.len() % 2 == 0 && hexcode::all_hex_chars(text),
{
    assert forall|i: int| 0 <= i < text.len() implies hexcode::is_hex_char(#[trigger] text[i])
        == "0123456789abcdefABCDEF"@.contains(text[i]) by {
        hexcode::law_hexadecimal_digits(text[i]);
    }
    if is_hex_pairs(text) {
        assert forall|i: int| 0 <= i < text.len() implies hexcode::is_hex_char(
            #[trigger] text[i],
        ) by {
            assert("0123456789abcdefABCDEF"@.contains(text[i]));
        }
    }
    if hexcode::all_hex_chars(text) {
        assert forall|i: int| 0 <= i < text.len() implies "0123456789abcdefABCDEF"@.contains(
            #[trigger] text[i],
        ) by {
            assert(hexcode::is_hex_char(text[i]));
        }
    }
}

/// A passphrase is its own key, whole: what is no even number of hexadecimal digits once
/// outer white space is taken off stands for its UTF-8 bytes, so the text can be read back
/// off the key.
pub proof fn law_passphrase_is_its_own_key(input: Seq<char>)
    requires
        !is_hex_pairs(crate::text::trimmed(input)),
    ensures
        decoded_secret(input) == vstd::utf8::encode_utf8(crate::text::trimmed(input)),
        vstd::utf8::decode_utf8(decoded_secret(input)) == crate::text::trimmed(input),
{
    lemma_is_hex_pairs(crate::text::trimmed(input));
    vstd::utf8::encode_utf8_decode_utf8(crate::text::trimmed(input));
}

/// Different passphrases are different keys.
pub proof fn law_passphrases_are_kept_apart(a: Seq<char>, b: Seq<char>)
    requires
        !is_hex_pairs(crate::text::trimmed(a)),
        !is_hex_pairs(crate::text::trimmed(b)),
        decoded_secret(a) == decoded_secret(b),
    ensures
        crate::text::trimmed(a) == crate::text::trimmed(b),
{
    law_passphrase_is_its_own_key(a);
    law_passphrase_is_its_own_key(b);
}

/// An even number of hexadecimal digits stands for the bytes that each two of them write, the
/// high half first.
pub proof fn law_hexadecimal_secret_is_read_in_pairs(input: Seq<char>)
    requires
        is_hex_pairs(crate::text::trimmed(input)),
    ensures
        2 * decoded_secret(input).len() == crate::text::trimmed(input).len(),
        forall|i: int|
            0 <= i < decoded_secret(input).len() ==> #[trigger] decoded_secret(input)[i] == 16
                * digit_value(crate::text::trimmed(input)[2 * i]) + digit_value(
                crate::text::trimmed(input)[2 * i + 1],
            ),
{
    let text = crate::text::trimmed(input);
    lemma_is_hex_pairs(text);
    assert forall|i: int| 0 <= i < text.len() implies hexcode::hex_value(
        hexcode::ascii_bytes(text)[i],
    ) == Some(digit_value(#[trigger] text[i])) && 0 <= digit_value(text[i]) < 16 by {
        assert(hexcode::is_hex_char(text[i]));
    }
    let bytes = decoded_secret(input);
    assert forall|i: int| 0 <= i < bytes.len() implies #[trigger] bytes[i] == 16 * digit_value(
        text[2 * i],
    ) + digit_value(text[2 * i + 1]) by {
        assert(0 <= digit_value(text[2 * i]) < 16);
        assert(0 <= digit_value(text[2 * i + 1]) < 16);
    }
}

impl Clone for SecretKey {
    fn clone(&self) -> (copy: SecretKey)
        ensures
            copy@ == self@,
    {
        SecretKey::from_bytes(vstd::slice::slice_to_vec(self.as_bytes()))
    }
}

} // verus!
