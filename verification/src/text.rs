//! Characters, decimal numbers and fields of text.

use vstd::prelude::*;

verus! {

/// The character is an ASCII digit.
pub open spec fn is_digit(c: char) -> bool {
    '0' <= c <= '9'
}

/// The number that an ASCII digit stands for.
pub open spec fn digit_value(c: char) -> nat {
    (c as int - '0' as int) as nat
}

/// Every character of the text is an ASCII digit.
pub open spec fn all_digits(text: Seq<char>) -> bool {
    forall|i: int| 0 <= i < text.len() ==> is_digit(#[trigger] text[i])
}

/// The number that a row of digits stands for in base ten.
pub open spec fn digits_value(digits: Seq<char>) -> nat
    decreases digits.len(),
{
    if digits.len() == 0 {
        0
    } else {
        10 * digits_value(digits.drop_last()) + digit_value(digits.last())
    }
}

/// The number that a text stands for, where it is one ASCII digit or more
/// and nothing else.
pub open spec fn unsigned_value(text: Seq<char>) -> Option<nat> {
    if text.len() > 0 && all_digits(text) {
        Some(digits_value(text))
    } else {
        None
    }
}

/// The number that a text stands for, where it is a decimal number: a
/// `+` or none, and after it one ASCII digit or more and nothing else.
pub open spec fn decimal_value(text: Seq<char>) -> Option<nat> {
    if text.len() > 0 && text[0] == '+' {
        unsigned_value(text.skip(1))
    } else {
        unsigned_value(text)
    }
}

/// The number that a text stands for, where it is a decimal number of at
/// most `limit`.
pub open spec fn decimal_up_to(text: Seq<char>, limit: nat) -> Option<nat> {
    match decimal_value(text) {
        Some(value) => if value <= limit {
            Some(value)
        } else {
            None
        },
        None => None,
    }
}

/// The ASCII digit that stands for a number below ten.
pub open spec fn digit_char(digit: nat) -> char {
    ('0' as nat + digit) as char
}

/// A number in base ten, without leading zeros.
pub open spec fn decimal_text(number: nat) -> Seq<char>
    decreases number,
{
    if number < 10 {
        seq![digit_char(number)]
    } else {
        decimal_text(number / 10).push(digit_char(number % 10))
    }
}

/// The character is white space: one of the code points with the Unicode
/// property `White_Space`.
pub open spec fn is_whitespace(c: char) -> bool {
    let code = c as int;
    ||| 0x09 <= code <= 0x0d
    ||| code == 0x20
    ||| code == 0x85
    ||| code == 0xa0
    ||| code == 0x1680
    ||| 0x2000 <= code <= 0x200a
    ||| code == 0x2028
    ||| code == 0x2029
    ||| code == 0x202f
    ||| code == 0x205f
    ||| code == 0x3000
}

/// The text without the white space that it starts with.
pub open spec fn trim_start(text: Seq<char>) -> Seq<char>
    decreases text.len(),
{
    if text.len() > 0 && is_whitespace(text.first()) {
        trim_start(text.drop_first())
    } else {
        text
    }
}

/// The text without the white space that it ends with.
pub open spec fn trim_end(text: Seq<char>) -> Seq<char>
    decreases text.len(),
{
    if text.len() > 0 && is_whitespace(text.last()) {
        trim_end(text.drop_last())
    } else {
        text
    }
}

/// The text without the white space around it.
pub open spec fn trimmed(text: Seq<char>) -> Seq<char> {
    trim_end(trim_start(text))
}

/// The fields of a text: what stands before, between and after the
/// separators, in order. A text with n separators has n + 1 fields, some of
/// them empty where a separator stands first, last or beside another.
pub open spec fn split(text: Seq<char>, separator: char) -> Seq<Seq<char>>
    decreases text.len(),
{
    if text.len() == 0 {
        seq![Seq::empty()]
    } else {
        let fields = split(text.drop_last(), separator);
        if text.last() == separator {
            fields.push(Seq::empty())
        } else {
            fields.update(fields.len() - 1, fields.last().push(text.last()))
        }
    }
}

/// The texts that a vector of fields holds.
pub open spec fn field_texts(fields: Seq<Vec<char>>) -> Seq<Seq<char>> {
    fields.map_values(|field: Vec<char>| field@)
}

/// Reads the characters of a string into a vector.
pub fn chars_of(text: &str) -> (chars: Vec<char>)
    ensures
        chars@ == text@,
{
    let mut chars: Vec<char> = Vec::new();
    for c in it: text.chars()
        invariant
            chars@ == it.seq().take(it.index() as int),
            it.seq() == text@,
    {
        chars.push(c);
    }
    chars
}

/// Tells whether a character is white space.
pub fn char_is_whitespace(c: char) -> (white: bool)
    ensures
        white == is_whitespace(c),
{
    let code: u32 = c as u32;
    (0x09 <= code && code <= 0x0d) || code == 0x20 || code == 0x85 || code == 0xa0 || code
        == 0x1680 || (0x2000 <= code && code <= 0x200a) || code == 0x2028 || code == 0x2029
        || code == 0x202f || code == 0x205f || code == 0x3000
}

/// Cuts the white space off both ends of a text.
pub fn trim(text: &[char]) -> (inner: &[char])
    ensures
        inner@ == trimmed(text@),
{
    let mut start: usize = 0;
    assert(text@.skip(0) =~= text@);
    while start < text.len() && char_is_whitespace(text[start])
        invariant
            start <= text@.len(),
            trim_start(text@) == trim_start(text@.skip(start as int)),
        decreases text@.len() - start,
    {
        assert(text@.skip(start as int).drop_first() =~= text@.skip(start + 1));
        start = start + 1;
    }
    let ghost rest: Seq<char> = text@.skip(start as int);
    let mut end: usize = text.len();
    while end > start && char_is_whitespace(text[end - 1])
        invariant
            start <= end <= text@.len(),
            rest == text@.skip(start as int),
            trim_end(rest) == trim_end(text@.subrange(start as int, end as int)),
        decreases end - start,
    {
        assert(text@.subrange(start as int, end as int).drop_last() =~= text@.subrange(
            start as int,
            end - 1,
        ));
        end = end - 1;
    }
    vstd::slice::slice_subrange(text, start, end)
}

/// Cuts a text into its fields at every separator.
pub fn split_fields(text: &[char], separator: char) -> (fields: Vec<Vec<char>>)
    ensures
        field_texts(fields@) == split(text@, separator),
{
    let mut fields: Vec<Vec<char>> = Vec::new();
    let mut field: Vec<char> = Vec::new();
    let mut at: usize = 0;
    while at < text.len()
        invariant
            at <= text@.len(),
            field_texts(fields@).push(field@) == split(text@.take(at as int), separator),
        decreases text@.len() - at,
    {
        assert(text@.take(at + 1).drop_last() =~= text@.take(at as int));
        let c: char = text[at];
        if c == separator {
            fields.push(field);
            field = Vec::new();
        } else {
            field.push(c);
        }
        at = at + 1;
    }
    assert(text@.take(at as int) =~= text@);
    fields.push(field);
    fields
}

/// Reads a decimal number of at most `limit`.
pub fn parse_decimal(text: &[char], limit: u32) -> (value: Option<u32>)
    ensures
        match decimal_up_to(text@, limit as nat) {
            Some(number) => value == Some(number as u32),
            None => value is None,
        },
{
    let start: usize = if text.len() > 0 && text[0] == '+' {
        1
    } else {
        0
    };
    let ghost digits: Seq<char> = text@.skip(start as int);
    assert(start == 0 ==> digits =~= text@);
    if start == text.len() {
        return None;
    }
    let mut number: u64 = 0;
    let mut at: usize = start;
    while at < text.len()
        invariant
            start <= at <= text@.len(),
            digits == text@.skip(start as int),
            decimal_value(text@) == unsigned_value(digits),
            all_digits(digits.take(at - start)),
            number == digits_value(digits.take(at - start)),
            number <= limit,
        decreases text@.len() - at,
    {
        let c: char = text[at];
        assert(digits[at - start] == c);
        if !(c >= '0' && c <= '9') {
            return None;
        }
        assert(digits.take(at - start + 1).drop_last() =~= digits.take(at - start));
        number = number * 10 + (c as u64 - '0' as u64);
        at = at + 1;
        if number > limit as u64 {
            proof {
                if all_digits(digits) {
                    lemma_digits_value_grows(digits, at - start);
                }
            }
            return None;
        }
    }
    assert(digits.take(at - start) =~= digits);
    Some(number as u32)
}

/// A number written in base ten reads back as itself.
pub proof fn lemma_decimal_text_reads_back(number: nat)
    ensures
        decimal_text(number).len() >= 1,
        all_digits(decimal_text(number)),
        digits_value(decimal_text(number)) == number,
        decimal_value(decimal_text(number)) == Some(number),
    decreases number,
{
    let text: Seq<char> = decimal_text(number);
    if number < 10 {
        assert(digits_value(text.drop_last()) == 0);
    } else {
        lemma_decimal_text_reads_back(number / 10);
        assert(text.drop_last() =~= decimal_text(number / 10));
    }
}

/// A text without a separator is one field.
pub proof fn lemma_split_without_separator(text: Seq<char>, separator: char)
    requires
        !text.contains(separator),
    ensures
        split(text, separator) == seq![text],
    decreases text.len(),
{
    if text.len() > 0 {
        lemma_split_without_separator(text.drop_last(), separator);
        assert(text.drop_last().push(text.last()) =~= text);
    } else {
        assert(text =~= Seq::<char>::empty());
    }
}

/// A separator parts the fields before it from the fields after it.
pub proof fn lemma_split_at_separator(left: Seq<char>, right: Seq<char>, separator: char)
    ensures
        split(right, separator).len() >= 1,
        split(left.push(separator) + right, separator) == split(left, separator) + split(
            right,
            separator,
        ),
    decreases right.len(),
{
    let whole: Seq<char> = left.push(separator) + right;
    if right.len() == 0 {
        assert(whole.drop_last() =~= left);
    } else {
        lemma_split_at_separator(left, right.drop_last(), separator);
        assert(whole.drop_last() =~= left.push(separator) + right.drop_last());
    }
}

/// A row of digits counts for no less than any row it starts with.
proof fn lemma_digits_value_grows(digits: Seq<char>, shorter: int)
    requires
        0 <= shorter <= digits.len(),
    ensures
        digits_value(digits.take(shorter)) <= digits_value(digits),
    decreases digits.len(),
{
    if shorter < digits.len() {
        lemma_digits_value_grows(digits.drop_last(), shorter);
        assert(digits.drop_last().take(shorter) =~= digits.take(shorter));
    } else {
        assert(digits.take(shorter) =~= digits);
    }
}

} // verus!
