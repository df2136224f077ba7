//! Hexadecimal encoding, as the `hex` crate does it.

use vstd::prelude::*;

verus! {

/// Why a text is not hexadecimal.
#[derive(Debug, Clone, Copy, PartialEq, Eq, Structural)]
pub enum HexError {
    /// The byte at `index` is no hexadecimal digit.
    InvalidHexCharacter { c: char, index: usize },
    /// Two digits make one byte, so their number must be even.
    OddLength,
    /// The text has not the length that a fixed-size buffer asks for.
    InvalidStringLength,
}

/// The value of the ASCII character `b` as a hexadecimal digit of either case.
pub open spec fn hex_value(b: u8) -> Option<int> {
    if 0x30 <= b <= 0x39 {
        Some(b - 0x30)
    } else if 0x41 <= b <= 0x46 {
        Some(b - 0x41 + 10)
    } else if 0x61 <= b <= 0x66 {
        Some(b - 0x61 + 10)
    } else {
        None
    }
}

pub open spec fn is_hex_digit(b: u8) -> bool {
    hex_value(b) is Some
}

pub open spec fn all_hex_digits(data: Seq<u8>) -> bool {
    forall|i: int| 0 <= i < data.len() ==> is_hex_digit(#[trigger] data[i])
}

/// The bytes written by pairs of hexadecimal digits, the high half first.
pub open spec fn hex_bytes(data: Seq<u8>) -> Seq<u8> {
    Seq::new(
        data.len() / 2,
        |i: int| (16 * hex_value(data[2 * i])->0 + hex_value(data[2 * i + 1])->0) as u8,
    )
}

/// What decoding `data` gives: the bytes, if an even number of digits is all there
/// is; else the error, which names the first byte that is no digit.
pub open spec fn is_hex_decoding(data: Seq<u8>, outcome: Result<Seq<u8>, HexError>) -> bool {
    match outcome {
        Ok(bytes) => data.len() % 2 == 0 && all_hex_digits(data) && bytes == hex_bytes(data),
        Err(HexError::OddLength) => data.len() % 2 != 0,
        Err(HexError::InvalidHexCharacter { c, index }) => {
            &&& data.len() % 2 == 0
            &&& index < data.len()
            &&& !is_hex_digit(data[index as int])
            &&& c == data[index as int] as char
            &&& forall|i: int| 0 <= i < index ==> is_hex_digit(#[trigger] data[i])
        },
        Err(HexError::InvalidStringLength) => false,
    }
}

/// A decoding result with the bytes as a sequence.
pub open spec fn decoding_view(outcome: Result<Vec<u8>, HexError>) -> Result<Seq<u8>, HexError> {
    match outcome {
        Ok(bytes) => Ok(bytes@),
        Err(e) => Err(e),
    }
}

/// The lower-case digit for `d`.
pub open spec fn hex_digit_char(d: int) -> char {
    if d < 10 {
        (0x30 + d) as char
    } else {
        (0x61 + d - 10) as char
    }
}

/// `bytes` in lower-case hexadecimal, two digits to a byte, the high half first.
pub open spec fn hex_text(bytes: Seq<u8>) -> Seq<char> {
    Seq::new(
        2 * bytes.len(),
        |k: int|
            if k % 2 == 0 {
                hex_digit_char(bytes[k / 2] as int / 16)
            } else {
                hex_digit_char(bytes[k / 2] as int % 16)
            },
    )
}

/// Calls `hex::decode`: it refuses an odd length first, then the first byte that is
/// no digit, and else packs each two digits, of either case, into one byte.
/// It never reports `InvalidStringLength`, which is for buffers of a fixed size.
#[verifier::external_body]
pub(crate) fn decode(data: &[u8]) -> (outcome: Result<Vec<u8>, HexError>)
    ensures
        is_hex_decoding(data@, decoding_view(outcome)),
{
    match hex::decode(data) {
        Ok(bytes) => Ok(bytes),
        Err(hex::FromHexError::InvalidHexCharacter { c, index }) => {
            Err(HexError::InvalidHexCharacter { c, index })
        },
        Err(hex::FromHexError::OddLength) => Err(HexError::OddLength),
        Err(hex::FromHexError::InvalidStringLength) => Err(HexError::InvalidStringLength),
    }
}

/// Calls `hex::encode`: two lower-case digits for each byte, the high half first.
#[verifier::external_body]
pub(crate) fn encode(bytes: &[u8]) -> (text: String)
    ensures
        text@ == hex_text(bytes@),
{
    hex::encode(bytes)
}

/// The characters of an ASCII text as bytes.
pub open spec fn ascii_bytes(s: Seq<char>) -> Seq<u8> {
    Seq::new(s.len(), |i: int| s[i] as u8)
}

/// Whether `c` is a hexadecimal digit of either case.
pub open spec fn is_hex_char(c: char) -> bool {
    ||| '0' <= c <= '9'
    ||| 'a' <= c <= 'f'
    ||| 'A' <= c <= 'F'
}

pub open spec fn all_hex_chars(s: Seq<char>) -> bool {
    forall|i: int| 0 <= i < s.len() ==> is_hex_char(#[trigger] s[i])
}

/// Whether `b` is a hexadecimal digit of either case.
fn is_hex_digit_byte(b: u8) -> (yes: bool)
    ensures
        yes == is_hex_digit(b),
{
    (0x30 <= b && b <= 0x39) || (0x41 <= b && b <= 0x46) || (0x61 <= b && b <= 0x66)
}

/// Whether all characters of `text` are hexadecimal digits.
pub fn is_hex(text: &str) -> (yes: bool)
    ensures
        yes == all_hex_chars(text@),
{
    if !text.is_ascii() {
        proof {
            let i = choose|i: int|
                0 <= i < text@.len() && !(0 <= #[trigger] text@[i] as int <= 127);
            assert(!is_hex_char(text@[i]));
        }
        return false;
    }
    let bytes = text.as_bytes();
    proof {
        vstd::string::is_ascii_spec_bytes(text);
        assert(bytes@ =~= ascii_bytes(text@));
    }
    let mut i: usize = 0;
    while i < bytes.len()
        invariant
            i <= bytes@.len(),
            bytes@ == ascii_bytes(text@),
            text.is_ascii(),
            forall|j: int| 0 <= j < i ==> is_hex_char(#[trigger] text@[j]),
        decreases bytes@.len() - i,
    {
        proof {
            lemma_ascii_char(text@, i as int);
        }
        if !is_hex_digit_byte(bytes[i]) {
            return false;
        }
        i += 1;
    }
    true
}

proof fn lemma_ascii_char(s: Seq<char>, i: int)
    requires
        0 <= i < s.len(),
        0 <= s[i] as int <= 127,
    ensures
        is_hex_char(s[i]) == is_hex_digit(ascii_bytes(s)[i]),
{
}

/// A text of hexadecimal digits is ASCII, and its bytes are hexadecimal digits.
pub(crate) proof fn lemma_hex_chars_are_digits(s: Seq<char>)
    requires
        all_hex_chars(s),
    ensures
        vstd::utf8::is_ascii_chars(s),
        vstd::utf8::encode_utf8(s) == ascii_bytes(s),
        all_hex_digits(ascii_bytes(s)),
{
    assert forall|i: int| 0 <= i < s.len() implies 0 <= #[trigger] s[i] as int <= 127 by {
        assert(is_hex_char(s[i]));
    }
    vstd::utf8::is_ascii_chars_encode_utf8(s);
    assert(vstd::utf8::encode_utf8(s) =~= ascii_bytes(s));
    assert forall|i: int| 0 <= i < ascii_bytes(s).len() implies is_hex_digit(
        #[trigger] ascii_bytes(s)[i],
    ) by {
        assert(is_hex_char(s[i]));
        lemma_ascii_char(s, i);
    }
}

/// The hexadecimal digits are the ten decimal ones and the first six letters of either case.
pub proof fn law_hexadecimal_digits(c: char)
    ensures
        is_hex_char(c) <==> "0123456789abcdefABCDEF"@.contains(c),
{
    reveal_strlit("0123456789abcdefABCDEF");
    let digits = "0123456789abcdefABCDEF"@;
    if '0' <= c <= '9' {
        assert(digits[c as int - '0' as int] == c);
    }
    if 'a' <= c <= 'f' {
        assert(digits[c as int - 'a' as int + 10] == c);
    }
    if 'A' <= c <= 'F' {
        assert(digits[c as int - 'A' as int + 16] == c);
    }
}

/// Hexadecimal text decodes to the bytes that it was made from.
pub proof fn law_hex_round_trip(bytes: Seq<u8>)
    ensures
        all_hex_chars(hex_text(bytes)),
        hex_text(bytes).len() == 2 * bytes.len(),
        hex_bytes(ascii_bytes(hex_text(bytes))) == bytes,
        is_hex_decoding(ascii_bytes(hex_text(bytes)), Ok(bytes)),
{
    let text = hex_text(bytes);
    assert forall|k: int| 0 <= k < text.len() implies is_hex_char(#[trigger] text[k]) by {
        assert(0 <= bytes[k / 2] as int / 16 < 16);
        assert(0 <= bytes[k / 2] as int % 16 < 16);
    }
    lemma_hex_chars_are_digits(text);
    let back = hex_bytes(ascii_bytes(text));
    assert forall|i: int| 0 <= i < bytes.len() implies #[trigger] back[i] == bytes[i] by {
        let high = bytes[i] as int / 16;
        let low = bytes[i] as int % 16;
        assert((2 * i) / 2 == i && (2 * i) % 2 == 0);
        assert((2 * i + 1) / 2 == i && (2 * i + 1) % 2 == 1);
        assert(text[2 * i] == hex_digit_char(high));
        assert(text[2 * i + 1] == hex_digit_char(low));
        assert(hex_value(ascii_bytes(text)[2 * i]) == Some(high));
        assert(hex_value(ascii_bytes(text)[2 * i + 1]) == Some(low));
    }
    assert(back =~= bytes);
}

/// Bytes are written in the digits and the first six small letters, two characters to a byte,
/// the high half first.
pub proof fn law_bytes_are_written_in_small_letters(bytes: Seq<u8>, i: int)
    requires
        0 <= i < bytes.len(),
    ensures
        ({
            let text = hex_text(bytes);
            let digits = "0123456789abcdef"@;
            &&& text.len() == 2 * bytes.len()
            &&& text[2 * i] == digits[bytes[i] as int / 16]
            &&& text[2 * i + 1] == digits[bytes[i] as int % 16]
        }),
{
    reveal_strlit("0123456789abcdef");
    assert((2 * i) / 2 == i && (2 * i) % 2 == 0);
    assert((2 * i + 1) / 2 == i && (2 * i + 1) % 2 == 1);
    assert(0 <= bytes[i] as int / 16 < 16);
}

} // verus!
