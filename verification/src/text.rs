//! Text on the wire: UTF-8, control characters, contract identifiers.

use crate::digest::{all_lower_hex, lower_hex};
use crate::protocol::same_bytes;
use vstd::prelude::*;
use vstd::string::{StrSliceExecFns, StringExecFns};
use vstd::utf8::{decode_utf8, encode_utf8, is_ascii_chars, valid_utf8};

verus! {

/// Whether a character is a control code: U+0000 to U+001F and U+007F to
/// U+009F.
pub open spec fn is_control(c: char) -> bool {
    c as u32 <= 0x1f || 0x7f <= c as u32 <= 0x9f
}

/// Whether a text holds a control code.
pub open spec fn has_control(text: Seq<char>) -> bool {
    exists|i: int| 0 <= i < text.len() && is_control(#[trigger] text[i])
}

/// The bytes that begin every quantization contract identifier: `qtc1-`.
pub open spec fn contract_prefix() -> Seq<u8> {
    seq![113u8, 116u8, 99u8, 49u8, 45u8]
}

/// Whether the bytes are a quantization contract identifier: `qtc1-`, then the
/// sixty-four lower-case hexadecimal digits of a SHA-256 digest.
pub open spec fn is_contract_id(bytes: Seq<u8>) -> bool {
    &&& bytes.len() == 69
    &&& bytes.subrange(0, 5) == contract_prefix()
    &&& all_lower_hex(bytes.subrange(5, 69))
}

/// ASCII bytes as characters.
pub open spec fn ascii_chars(bytes: Seq<u8>) -> Seq<char> {
    Seq::new(bytes.len(), |i: int| bytes[i] as char)
}

/// ASCII bytes are valid UTF-8, each byte one character.
pub proof fn lemma_ascii_is_utf8(bytes: Seq<u8>)
    requires
        forall|i: int| 0 <= i < bytes.len() ==> #[trigger] bytes[i] < 128,
    ensures
        valid_utf8(bytes),
        decode_utf8(bytes) == ascii_chars(bytes),
        encode_utf8(ascii_chars(bytes)) == bytes,
{
    let chars = ascii_chars(bytes);
    assert(is_ascii_chars(chars)) by {
        assert forall|i: int| 0 <= i < chars.len() implies 0 <= #[trigger] chars[i] as u32 <= 127 by {
            assert(bytes[i] < 128);
        }
    }
    vstd::utf8::is_ascii_chars_encode_utf8(chars);
    assert(encode_utf8(chars) =~= bytes);
    vstd::utf8::encode_utf8_valid_utf8(chars);
    vstd::utf8::encode_utf8_decode_utf8(chars);
}

/// Where bytes stop being text: after how many bytes, and how many the sequence takes
/// up that is none. It has no length where the bytes end within a character.
#[derive(Clone, Copy, Debug, PartialEq, Eq, Structural)]
pub struct Utf8Fault {
    pub at: usize,
    pub length: Option<usize>,
}

/// The most of the first `count` bytes that are text.
pub open spec fn text_length(bytes: Seq<u8>, count: int) -> int
    decreases count,
{
    if count <= 0 {
        0
    } else if valid_utf8(bytes.take(count)) {
        count
    } else {
        text_length(bytes, count - 1)
    }
}

/// What `Utf8Error::error_len` gives for bytes that are no text.
pub uninterp spec fn utf8_error_length(bytes: Seq<u8>) -> Option<usize>;

/// Where bytes that are no text stop being text.
pub open spec fn utf8_fault(bytes: Seq<u8>) -> Utf8Fault {
    Utf8Fault {
        at: text_length(bytes, bytes.len() as int) as usize,
        length: utf8_error_length(bytes),
    }
}

impl Utf8Fault {
    pub open spec fn message_text(self) -> Seq<char> {
        match self.length {
            Some(length) => "invalid utf-8 sequence of "@ + decimal_text(length as nat)
                + " bytes from index "@ + decimal_text(self.at as nat),
            None => "incomplete utf-8 byte sequence from index "@ + decimal_text(self.at as nat),
        }
    }

    /// The fault in words.
    pub fn message(self) -> (text: String)
        ensures
            text@ == self.message_text(),
    {
        match self.length {
            Some(length) => {
                let mut text: String = "invalid utf-8 sequence of ".to_owned();
                append_decimal(&mut text, length as u64);
                text.append(" bytes from index ");
                append_decimal(&mut text, self.at as u64);
                text
            },
            None => {
                let mut text: String = "incomplete utf-8 byte sequence from index ".to_owned();
                append_decimal(&mut text, self.at as u64);
                text
            },
        }
    }
}

/// What the `Debug` of a text writes: the text in quotes, with what cannot be printed
/// escaped.
pub uninterp spec fn quoted(text: Seq<char>) -> Seq<char>;

/// Calls the `Debug` of `str`, which depends on the text alone.
#[verifier::external_body]
pub(crate) fn quote(text: &str) -> (result: String)
    ensures
        result@ == quoted(text@),
{
    format!("{text:?}")
}

/// What the `Debug` of a character writes: the character in quotes, escaped where it
/// cannot be printed.
pub uninterp spec fn quoted_char(c: char) -> Seq<char>;

/// Calls the `Debug` of `char`, which depends on the character alone.
#[verifier::external_body]
pub(crate) fn quote_char(c: char) -> (result: String)
    ensures
        result@ == quoted_char(c),
{
    format!("{c:?}")
}

/// Calls `std::str::from_utf8`: the bytes as text where they are valid UTF-8, and
/// where they are not, what its error says: `valid_up_to`, the most bytes from the
/// start that are valid, and `error_len`, which depends on the bytes alone.
#[verifier::external_body]
pub(crate) fn utf8_text(bytes: &[u8]) -> (result: Result<&str, Utf8Fault>)
    ensures
        match result {
            Ok(text) => valid_utf8(bytes@) && text@ == decode_utf8(bytes@),
            Err(fault) => !valid_utf8(bytes@) && fault.at == text_length(
                bytes@,
                bytes@.len() as int,
            ) && fault.length == utf8_error_length(bytes@),
        },
{
    match std::str::from_utf8(bytes) {
        Ok(text) => Ok(text),
        Err(error) => Err(Utf8Fault { at: error.valid_up_to(), length: error.error_len() }),
    }
}

/// Tests whether a text holds a control code.
pub fn contains_control(text: &str) -> (result: bool)
    ensures
        result == has_control(text@),
{
    for c in it: text.chars()
        invariant
            it.seq() == text@,
            forall|i: int| 0 <= i < it.index() ==> !is_control(#[trigger] text@[i]),
    {
        let code: u32 = c as u32;
        if code <= 0x1f || 0x7f <= code && code <= 0x9f {
            assert(is_control(text@[it.index()]));
            return true;
        }
    }
    false
}

/// Tests whether the bytes are a quantization contract identifier.
pub fn contract_id(bytes: &[u8]) -> (result: bool)
    ensures
        result == is_contract_id(bytes@),
{
    if bytes.len() != 69 {
        return false;
    }
    let prefixed: bool = bytes[0] == 113 && bytes[1] == 116 && bytes[2] == 99 && bytes[3] == 49
        && bytes[4] == 45;
    assert(prefixed == (bytes@.subrange(0, 5) == contract_prefix())) by {
        let head = bytes@.subrange(0, 5);
        if prefixed {
            assert(head =~= contract_prefix());
        } else if head == contract_prefix() {
            assert(head[0] == 113 && head[1] == 116 && head[2] == 99 && head[3] == 49 && head[4] == 45);
        }
    }
    prefixed && lower_hex(vstd::slice::slice_subrange(bytes, 5, 69))
}

/// Whether two texts are equal.
pub fn same_text(left: &str, right: &str) -> (result: bool)
    ensures
        result == (left@ == right@),
{
    proof {
        vstd::utf8::encode_utf8_decode_utf8(left@);
        vstd::utf8::encode_utf8_decode_utf8(right@);
    }
    same_bytes(left.as_bytes(), right.as_bytes())
}

/// Whether bytes stand somewhere in a text.
pub open spec fn occurs(part: Seq<u8>, text: Seq<u8>) -> bool {
    exists|i: int|
        0 <= i <= text.len() - part.len() && #[trigger] text.subrange(i, i + part.len()) == part
}

/// Tests whether bytes stand somewhere in a text.
pub fn find_bytes(part: &[u8], text: &[u8]) -> (result: bool)
    ensures
        result == occurs(part@, text@),
{
    if part.len() > text.len() {
        return false;
    }
    let last: usize = text.len() - part.len();
    let mut i: usize = 0;
    while i <= last
        invariant
            part.len() == part@.len(),
            text.len() == text@.len(),
            last == text@.len() - part@.len(),
            i <= last + 1,
            forall|j: int| 0 <= j < i ==> #[trigger] text@.subrange(j, j + part@.len()) != part@,
        decreases last + 1 - i,
    {
        if same_bytes(
            vstd::slice::slice_subrange(text, i, i + part.len()),
            part,
        ) {
            assert(text@.subrange(i as int, i + part@.len()) == part@);
            return true;
        }
        if i == last {
            return false;
        }
        i += 1;
    }
    false
}

/// Whether a text holds another one.
pub open spec fn holds_text(text: Seq<char>, part: Seq<char>) -> bool {
    occurs(encode_utf8(part), encode_utf8(text))
}

/// Tests whether a text holds another one.
pub fn contains_text(text: &str, part: &str) -> (result: bool)
    ensures
        result == holds_text(text@, part@),
{
    find_bytes(part.as_bytes(), text.as_bytes())
}

/// The decimal digit of a number below ten.
pub open spec fn decimal_digit(value: nat) -> char {
    (48 + value) as char
}

/// A number in decimal.
pub open spec fn decimal_text(value: nat) -> Seq<char>
    decreases value,
{
    if value < 10 {
        seq![decimal_digit(value)]
    } else {
        decimal_text(value / 10).push(decimal_digit(value % 10))
    }
}

fn digit_text(value: u64) -> (text: &'static str)
    requires
        value < 10,
    ensures
        text@ == seq![decimal_digit(value as nat)],
{
    proof {
        reveal_strlit("0");
        reveal_strlit("1");
        reveal_strlit("2");
        reveal_strlit("3");
        reveal_strlit("4");
        reveal_strlit("5");
        reveal_strlit("6");
        reveal_strlit("7");
        reveal_strlit("8");
        reveal_strlit("9");
    }
    let text: &'static str = match value {
        0 => "0",
        1 => "1",
        2 => "2",
        3 => "3",
        4 => "4",
        5 => "5",
        6 => "6",
        7 => "7",
        8 => "8",
        _ => "9",
    };
    assert(text@ =~= seq![decimal_digit(value as nat)]);
    text
}

/// Appends a number in decimal.
pub fn append_decimal(text: &mut String, value: u64)
    ensures
        final(text)@ == old(text)@ + decimal_text(value as nat),
    decreases value,
{
    if value >= 10 {
        append_decimal(text, value / 10);
    }
    text.append(digit_text(value % 10));
    assert(text@ =~= old(text)@ + decimal_text(value as nat));
}

/// The digits of a number are all decimal digits, and there is at least one.
pub proof fn lemma_decimal_digits(value: nat)
    ensures
        decimal_text(value).len() > 0,
        forall|i: int|
            0 <= i < decimal_text(value).len() ==> 48 <= (#[trigger] decimal_text(value)[i]) as u32
                <= 57,
    decreases value,
{
    if value >= 10 {
        lemma_decimal_digits(value / 10);
    }
}

/// Different numbers have different texts.
pub proof fn lemma_decimal_injective(left: nat, right: nat)
    requires
        decimal_text(left) == decimal_text(right),
    ensures
        left == right,
    decreases left,
{
    let text = decimal_text(left);
    lemma_decimal_digits(left / 10);
    lemma_decimal_digits(right / 10);
    if left >= 10 && right >= 10 {
        assert(decimal_text(left).drop_last() =~= decimal_text(left / 10));
        assert(decimal_text(right).drop_last() =~= decimal_text(right / 10));
        lemma_decimal_injective(left / 10, right / 10);
        assert(text.last() == decimal_digit(left % 10));
        assert(text.last() == decimal_digit(right % 10));
    } else if left < 10 && right < 10 {
        assert(text[0] == decimal_digit(left));
        assert(text[0] == decimal_digit(right));
    } else if left < 10 {
        assert(decimal_text(right).len() == decimal_text(right / 10).len() + 1);
    } else {
        assert(decimal_text(left).len() == decimal_text(left / 10).len() + 1);
    }
}

/// A file below a directory: a slash goes between the two unless the directory
/// ends with one.
pub open spec fn path_text(directory: Seq<char>, name: Seq<char>) -> Seq<char> {
    if directory.len() == 0 || directory.last() == '/' {
        directory + name
    } else {
        directory + "/"@ + name
    }
}

/// A file below a directory.
pub fn join_path(directory: &str, name: &str) -> (path: String)
    ensures
        path@ == path_text(directory@, name@),
{
    let mut path: String = directory.to_owned();
    let count: usize = directory.unicode_len();
    if count > 0 && directory.get_char(count - 1) != '/' {
        path.append("/");
    }
    path.append(name);
    path
}

} // verus!
