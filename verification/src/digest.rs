//! SHA-256 digests and their hexadecimal text.

use crate::text::{append_decimal, decimal_text, quote_char, quoted_char};
use sha2::{Digest, Sha256};
use vstd::prelude::*;

verus! {

/// The SHA-256 digest of `data`.
pub uninterp spec fn sha256(data: Seq<u8>) -> Seq<u8>;

/// Calls `sha2::Sha256::digest`. The result is a function of the bytes alone;
/// nothing else is claimed of it than its length, which the type gives.
#[verifier::external_body]
pub(crate) fn sha256_digest(data: &[u8]) -> (digest: [u8; 32])
    ensures
        digest@ == sha256(data@),
{
    Sha256::digest(data).into()
}

/// The lower-case hexadecimal digit of a number below sixteen.
pub open spec fn hex_digit(value: int) -> char {
    if value < 10 {
        (48 + value) as char
    } else {
        (87 + value) as char
    }
}

/// The lower-case hexadecimal text of `data`, two digits for each byte, the
/// high half of the byte first.
pub open spec fn hex_text(data: Seq<u8>) -> Seq<char> {
    Seq::new(
        2 * data.len(),
        |i: int|
            if i % 2 == 0 {
                hex_digit(data[i / 2] as int / 16)
            } else {
                hex_digit(data[i / 2] as int % 16)
            },
    )
}

/// Calls `hex::encode`, which writes each byte as two lower-case digits.
#[verifier::external_body]
pub(crate) fn hex_encode(data: &[u8]) -> (text: String)
    ensures
        text@ == hex_text(data@),
{
    hex::encode(data)
}

/// Whether a byte is a lower-case hexadecimal digit.
pub open spec fn is_lower_hex(byte: u8) -> bool {
    48 <= byte <= 57 || 97 <= byte <= 102
}

/// Whether every byte is a lower-case hexadecimal digit.
pub open spec fn all_lower_hex(bytes: Seq<u8>) -> bool {
    forall|i: int| 0 <= i < bytes.len() ==> is_lower_hex(#[trigger] bytes[i])
}

/// Whether `bytes` is the text of a SHA-256 digest: sixty-four lower-case
/// hexadecimal digits.
pub open spec fn is_digest_text(bytes: Seq<u8>) -> bool {
    bytes.len() == 64 && all_lower_hex(bytes)
}

/// Tests whether every byte is a lower-case hexadecimal digit.
pub fn lower_hex(bytes: &[u8]) -> (result: bool)
    ensures
        result == all_lower_hex(bytes@),
{
    let mut i: usize = 0;
    while i < bytes.len()
        invariant
            i <= bytes.len(),
            forall|j: int| 0 <= j < i ==> is_lower_hex(#[trigger] bytes@[j]),
        decreases bytes.len() - i,
    {
        let byte: u8 = bytes[i];
        if !(48 <= byte && byte <= 57 || 97 <= byte && byte <= 102) {
            return false;
        }
        i += 1;
    }
    true
}

/// The value of a hexadecimal digit of either case.
pub open spec fn hex_value(byte: u8) -> Option<int> {
    if 48 <= byte <= 57 {
        Some(byte - 48)
    } else if 97 <= byte <= 102 {
        Some(byte - 87)
    } else if 65 <= byte <= 70 {
        Some(byte - 55)
    } else {
        None
    }
}

/// Why a text is not hexadecimal.
#[derive(Clone, Copy, Debug, PartialEq, Eq, Structural)]
pub enum HexFault {
    OddLength,
    Character { c: char, index: usize },
    Length,
}

impl HexFault {
    pub open spec fn message_text(self) -> Seq<char> {
        match self {
            HexFault::OddLength => "Odd number of digits"@,
            HexFault::Character { c, index } => "Invalid character "@ + quoted_char(c)
                + " at position "@ + decimal_text(index as nat),
            HexFault::Length => "Invalid string length"@,
        }
    }

    /// The fault in words.
    pub fn message(self) -> (text: String)
        ensures
            text@ == self.message_text(),
    {
        match self {
            HexFault::OddLength => "Odd number of digits".to_owned(),
            HexFault::Character { c, index } => {
                let mut text: String = "Invalid character ".to_owned();
                text.append(quote_char(c).as_str());
                text.append(" at position ");
                append_decimal(&mut text, index as u64);
                text
            },
            HexFault::Length => "Invalid string length".to_owned(),
        }
    }
}

/// Where the digits of a text end that begin at `from`.
pub open spec fn digits_end(text: Seq<u8>, from: int) -> int
    decreases text.len() - from,
{
    if from >= text.len() || hex_value(text[from]) is None {
        from
    } else {
        digits_end(text, from + 1)
    }
}

/// What is wrong with a hexadecimal text: an odd number of characters, or else the
/// first character that is no digit.
pub open spec fn hex_fault(text: Seq<u8>) -> Option<HexFault> {
    let end = digits_end(text, 0);
    if text.len() % 2 != 0 {
        Some(HexFault::OddLength)
    } else if end < text.len() {
        Some(HexFault::Character { c: text[end] as char, index: end as usize })
    } else {
        None
    }
}

/// The bytes of a hexadecimal text.
pub open spec fn hex_bytes(text: Seq<u8>) -> Seq<u8> {
    Seq::new(
        text.len() / 2,
        |i: int| (16 * hex_value(text[2 * i])->0 + hex_value(text[2 * i + 1])->0) as u8,
    )
}

/// Calls `hex::decode`, which takes digits of either case. It refuses an odd number
/// of bytes, and otherwise names the first byte that is no digit, as the character of
/// that number, and its place.
#[verifier::external_body]
pub(crate) fn hex_decode(text: &[u8]) -> (result: Result<Vec<u8>, HexFault>)
    ensures
        match result {
            Ok(bytes) => hex_fault(text@) is None && bytes@ == hex_bytes(text@),
            Err(fault) => hex_fault(text@) == Some(fault),
        },
{
    match hex::decode(text) {
        Ok(bytes) => Ok(bytes),
        Err(hex::FromHexError::OddLength) => Err(HexFault::OddLength),
        Err(hex::FromHexError::InvalidHexCharacter { c, index }) => {
            Err(HexFault::Character { c, index })
        },
        Err(hex::FromHexError::InvalidStringLength) => Err(HexFault::Length),
    }
}

} // verus!
