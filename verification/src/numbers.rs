//! Numbers in text, as they are written on a command line or in a file.

use crate::text::{decimal_digit, decimal_text};
use vstd::prelude::*;

verus! {

/// Whether a character is white space.
pub open spec fn is_white(c: char) -> bool {
    let code = c as u32;
    ||| 9 <= code <= 13
    ||| code == 0x20
    ||| code == 0x85
    ||| code == 0xa0
    ||| code == 0x1680
    ||| 0x2000 <= code <= 0x200a
    ||| code == 0x2028
    ||| code == 0x2029
    ||| code == 0x202f
    ||| code == 0x205f
    ||| code == 0x3000
}

/// A text without the white space it starts with.
pub open spec fn trim_start(text: Seq<char>) -> Seq<char>
    decreases text.len(),
{
    if text.len() > 0 && is_white(text[0]) {
        trim_start(text.skip(1))
    } else {
        text
    }
}

/// A text without the white space it ends with.
pub open spec fn trim_end(text: Seq<char>) -> Seq<char>
    decreases text.len(),
{
    if text.len() > 0 && is_white(text.last()) {
        trim_end(text.drop_last())
    } else {
        text
    }
}

/// A text without the white space around it.
pub open spec fn trimmed(text: Seq<char>) -> Seq<char> {
    trim_end(trim_start(text))
}

/// Whether a text is one or more decimal digits.
pub open spec fn is_decimal(text: Seq<char>) -> bool {
    &&& text.len() > 0
    &&& forall|i: int| 0 <= i < text.len() ==> '0' <= #[trigger] text[i] <= '9'
}

/// The number that decimal digits are.
pub open spec fn decimal_value(digits: Seq<char>) -> nat
    decreases digits.len(),
{
    if digits.len() == 0 {
        0
    } else {
        decimal_value(digits.drop_last()) * 10 + (digits.last() as nat - 48) as nat
    }
}

/// The number that a text is: decimal digits, with a sign before them or none.
pub open spec fn signed_value(text: Seq<char>) -> Option<int> {
    if text.len() > 0 && (text[0] == '+' || text[0] == '-') {
        if !is_decimal(text.skip(1)) {
            None
        } else if text[0] == '-' {
            Some(-decimal_value(text.skip(1)))
        } else {
            Some(decimal_value(text.skip(1)) as int)
        }
    } else if is_decimal(text) {
        Some(decimal_value(text) as int)
    } else {
        None
    }
}

/// The number that a text is: decimal digits, with a plus before them or not.
pub open spec fn unsigned_value(text: Seq<char>) -> Option<nat> {
    let digits = if text.len() > 0 && text[0] == '+' {
        text.skip(1)
    } else {
        text
    };
    if is_decimal(digits) {
        Some(decimal_value(digits))
    } else {
        None
    }
}

fn characters(text: &str) -> (list: Vec<char>)
    ensures
        list@ == text@,
{
    let mut list: Vec<char> = Vec::new();
    for c in it: text.chars()
        invariant
            it.seq() == text@,
            list@ =~= text@.take(it.index()),
    {
        list.push(c);
    }
    assert(list@ =~= text@);
    list
}

fn white(c: char) -> (result: bool)
    ensures
        result == is_white(c),
{
    let code: u32 = c as u32;
    9 <= code && code <= 13 || code == 0x20 || code == 0x85 || code == 0xa0 || code == 0x1680
        || 0x2000 <= code && code <= 0x200a || code == 0x2028 || code == 0x2029 || code == 0x202f
        || code == 0x205f || code == 0x3000
}

/// Where a text starts and ends once the white space around it is gone.
fn trim_bounds(list: &Vec<char>) -> (bounds: (usize, usize))
    ensures
        bounds.0 <= bounds.1 <= list@.len(),
        list@.subrange(bounds.0 as int, bounds.1 as int) == trimmed(list@),
{
    let mut from: usize = 0;
    assert(list@.skip(0) =~= list@);
    while from < list.len() && white(list[from])
        invariant
            from <= list@.len(),
            trim_start(list@.skip(from as int)) == trim_start(list@),
        decreases list@.len() - from,
    {
        assert(list@.skip(from as int).skip(1) =~= list@.skip(from + 1));
        from += 1;
    }
    let ghost rest = list@.skip(from as int);
    assert(rest.len() > 0 ==> rest[0] == list@[from as int]);
    assert(trim_start(list@) == rest);
    let mut to: usize = list.len();
    assert(list@.subrange(from as int, to as int) =~= rest);
    while to > from && white(list[to - 1])
        invariant
            from <= to <= list@.len(),
            trim_end(list@.subrange(from as int, to as int)) == trim_end(rest),
        decreases to,
    {
        let ghost part = list@.subrange(from as int, to as int);
        assert(part.last() == list@[to - 1]);
        assert(part.drop_last() =~= list@.subrange(from as int, to - 1));
        to -= 1;
    }
    let ghost part = list@.subrange(from as int, to as int);
    assert(part.len() > 0 ==> part.last() == list@[to - 1]);
    (from, to)
}

/// The number that the characters from `from` to `to` are, or a number that is
/// too large where it is too large.
fn digits_value(list: &Vec<char>, from: usize, to: usize) -> (value: Option<u64>)
    requires
        from <= to <= list@.len(),
    ensures
        ({
            let digits = list@.subrange(from as int, to as int);
            match value {
                Some(value) => is_decimal(digits) && (value == decimal_value(digits) || value
                    > u32::MAX && decimal_value(digits) > u32::MAX),
                None => !is_decimal(digits),
            }
        }),
{
    if from == to {
        return None;
    }
    let ghost digits = list@.subrange(from as int, to as int);
    let mut value: u64 = 0;
    let mut i: usize = from;
    assert(digits.take(0) =~= seq![]);
    while i < to
        invariant
            from <= i <= to <= list@.len(),
            digits == list@.subrange(from as int, to as int),
            value <= 0xffff_ffff_ff,
            forall|j: int| 0 <= j < i - from ==> '0' <= #[trigger] digits[j] <= '9',
            value == decimal_value(digits.take(i - from)) || value > u32::MAX && decimal_value(
                digits.take(i - from),
            ) > u32::MAX,
        decreases to - i,
    {
        let c: char = list[i];
        assert(c == digits[i - from]);
        if c < '0' || c > '9' {
            return None;
        }
        let ghost longer = digits.take(i - from + 1);
        assert(longer.drop_last() =~= digits.take(i - from));
        assert(longer.last() == c);
        if value <= 0xffff_ffff {
            value = value * 10 + (c as u32 - 48) as u64;
        }
        i += 1;
    }
    assert(digits.take(to - from) =~= digits);
    Some(value)
}

/// The unsigned number that a text is, where it is one that fits.
pub fn parse_u32(text: &str) -> (value: Option<u32>)
    ensures
        match value {
            Some(value) => unsigned_value(text@) == Some(value as nat),
            None => unsigned_value(text@) is None || unsigned_value(text@)->0 > u32::MAX,
        },
{
    let list: Vec<char> = characters(text);
    let from: usize = if list.len() > 0 && list[0] == '+' {
        1
    } else {
        0
    };
    proof {
        if from == 1 {
            assert(list@.subrange(1, list@.len() as int) =~= text@.skip(1));
        } else {
            assert(list@.subrange(0, list@.len() as int) =~= text@);
        }
    }
    match digits_value(&list, from, list.len()) {
        Some(value) => {
            if value <= 0xffff_ffff {
                Some(value as u32)
            } else {
                None
            }
        },
        None => None,
    }
}

/// The process number that a text is, with white space around it or not: a
/// positive number of 31 bits.
pub fn parse_process_id(text: &str) -> (id: Option<i32>)
    ensures
        match id {
            Some(id) => id > 0 && signed_value(trimmed(text@)) == Some(id as int),
            None => match signed_value(trimmed(text@)) {
                Some(value) => value <= 0 || value > i32::MAX,
                None => true,
            },
        },
{
    let list: Vec<char> = characters(text);
    let (from, to): (usize, usize) = trim_bounds(&list);
    let ghost whole = trimmed(text@);
    if from == to {
        assert(whole.len() == 0);
        return None;
    }
    let first: char = list[from];
    assert(whole[0] == first);
    let signed: bool = first == '+' || first == '-';
    let start: usize = if signed {
        from + 1
    } else {
        from
    };
    proof {
        if signed {
            assert(list@.subrange(start as int, to as int) =~= whole.skip(1));
        }
    }
    match digits_value(&list, start, to) {
        Some(value) => {
            if first == '-' || value == 0 || value > 0x7fff_ffff {
                None
            } else {
                Some(value as i32)
            }
        },
        None => None,
    }
}

proof fn lemma_decimal_value(value: nat)
    ensures
        is_decimal(decimal_text(value)),
        decimal_value(decimal_text(value)) == value,
    decreases value,
{
    let text = decimal_text(value);
    if value >= 10 {
        let shorter = decimal_text(value / 10);
        lemma_decimal_value(value / 10);
        assert(text.drop_last() =~= shorter);
        assert(text.last() == decimal_digit(value % 10));
        assert forall|i: int| 0 <= i < text.len() implies '0' <= #[trigger] text[i] <= '9' by {
            if i < shorter.len() {
                assert(text[i] == shorter[i]);
            }
        }
    } else {
        assert(text.drop_last() =~= seq![]);
        assert(text.last() == decimal_digit(value));
        assert(decimal_value(text.drop_last()) == 0);
    }
}

/// A number that was written on a line of its own is read back.
pub proof fn written_number_is_read_back(value: nat)
    ensures
        signed_value(trimmed(decimal_text(value) + "\n"@)) == Some(value as int),
{
    lemma_decimal_value(value);
    reveal_strlit("\n");
    let digits = decimal_text(value);
    let line = digits + "\n"@;
    assert('0' <= digits[0] <= '9');
    assert(line[0] == digits[0]);
    assert(trim_start(line) == line);
    assert(line.last() == '\n');
    assert(line.drop_last() =~= digits);
    assert('0' <= digits.last() <= '9') by {
        assert('0' <= digits[digits.len() - 1] <= '9');
    }
    assert(trim_end(digits) == digits);
    assert(trim_end(line) == trim_end(line.drop_last()));
}

/// A number that was written is read back as an unsigned number.
pub proof fn written_count_is_read_back(value: nat)
    ensures
        unsigned_value(decimal_text(value)) == Some(value),
{
    lemma_decimal_value(value);
    assert('0' <= decimal_text(value)[0] <= '9');
}

} // verus!
