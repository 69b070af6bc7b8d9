//! Word lists as text: one entry per line.
//!
//! A plain list holds one word per line. A weighted list holds a word and a
//! usage count per line, separated by white space. White space around an
//! entry does not matter, and neither does case: every line is trimmed and
//! then lowered before it is read. A word is what then takes five bytes.
//!
//! The text is UTF-8. White space is what Unicode calls so: the blank, the
//! control characters from tab to carriage return, and the characters
//! U+0085, U+00A0, U+1680, U+2000 to U+200A, U+2028, U+2029, U+202F, U+205F
//! and U+3000, each in its UTF-8 form.
use crate::pattern::is_word;
use std::collections::HashMap;
use vstd::prelude::*;
use vstd::slice::slice_subrange;
use vstd::string::*;
use vstd::utf8::*;

verus! {

/// The byte that ends a line.
pub const NEWLINE: u8 = 10;

/// What is wrong with a line of a word list.
#[derive(Clone, Copy, Debug, PartialEq, Eq, Structural)]
pub enum LineError {
    /// The line is not UTF-8 text.
    NotText,
    /// The line of a weighted list holds nothing.
    MissingWord,
    /// The line of a weighted list holds a word and nothing after it.
    MissingCount,
    /// The count is not a non-negative decimal number that fits 64 bits.
    BadCount,
    /// The word does not take five bytes.
    WrongLength,
}

/// The first malformed line of a list: its position, counted from zero, and
/// what is wrong with it.
#[derive(Clone, Copy, Debug, PartialEq, Eq, Structural)]
pub struct LoadError {
    pub line: usize,
    pub kind: LineError,
}

/// White space of one byte: the blank, and the control characters from tab
/// to carriage return.
pub open spec fn is_blank(byte: u8) -> bool {
    byte == 0x20 || 0x09 <= byte <= 0x0d
}

/// White space of two bytes: U+0085 and U+00A0.
pub open spec fn is_blank_pair(first: u8, second: u8) -> bool {
    first == 0xc2 && (second == 0x85 || second == 0xa0)
}

/// White space of three bytes: U+1680, U+2000 to U+200A, U+2028, U+2029,
/// U+202F, U+205F and U+3000.
pub open spec fn is_blank_triple(first: u8, second: u8, third: u8) -> bool {
    ||| first == 0xe1 && second == 0x9a && third == 0x80
    ||| first == 0xe2 && second == 0x80 && (0x80 <= third <= 0x8a || third == 0xa8 || third
        == 0xa9 || third == 0xaf)
    ||| first == 0xe2 && second == 0x81 && third == 0x9f
    ||| first == 0xe3 && second == 0x80 && third == 0x80
}

/// The number of bytes that the white space at position `at` takes, or zero
/// if no white space starts there.
pub open spec fn space_at(text: Seq<u8>, at: int) -> int {
    if at < 0 || at >= text.len() {
        0
    } else if is_blank(text[at]) {
        1
    } else if at + 1 < text.len() && is_blank_pair(text[at], text[at + 1]) {
        2
    } else if at + 2 < text.len() && is_blank_triple(text[at], text[at + 1], text[at + 2]) {
        3
    } else {
        0
    }
}

/// The number of bytes that the white space before position `upto` takes,
/// or zero if no white space ends there.
pub open spec fn space_before(text: Seq<u8>, upto: int) -> int {
    if upto <= 0 || upto > text.len() {
        0
    } else if is_blank(text[upto - 1]) {
        1
    } else if upto >= 2 && is_blank_pair(text[upto - 2], text[upto - 1]) {
        2
    } else if upto >= 3 && is_blank_triple(text[upto - 3], text[upto - 2], text[upto - 1]) {
        3
    } else {
        0
    }
}

/// The first position at or after `from` at which white space starts, or the
/// length of the text if none does.
pub open spec fn next_space(text: Seq<u8>, from: int) -> int
    decreases text.len() - from,
{
    if from < 0 || from >= text.len() {
        text.len() as int
    } else if space_at(text, from) > 0 {
        from
    } else {
        next_space(text, from + 1)
    }
}

/// The first position at or after `from` that the white space starting at
/// `from` does not cover, or the length of the text if it covers the rest.
pub open spec fn next_mark(text: Seq<u8>, from: int) -> int
    decreases text.len() - from,
{
    if from < 0 || from >= text.len() {
        text.len() as int
    } else if space_at(text, from) > 0 {
        next_mark(text, from + space_at(text, from))
    } else {
        from
    }
}

/// The first position at or after `from` that holds a line end, or the
/// length of the text if none does.
pub open spec fn line_end(text: Seq<u8>, from: int) -> int
    decreases text.len() - from,
{
    if from < 0 || from >= text.len() {
        text.len() as int
    } else if text[from] == NEWLINE {
        from
    } else {
        line_end(text, from + 1)
    }
}

/// The position at or before `upto` at which the white space ending at
/// `upto` starts, or zero if it covers all that comes before.
pub open spec fn last_mark(text: Seq<u8>, upto: int) -> int
    decreases upto,
{
    if upto <= 0 {
        0
    } else if space_before(text, upto) > 0 {
        last_mark(text, upto - space_before(text, upto))
    } else {
        upto
    }
}

/// The text without the white space at its two ends.
pub open spec fn trimmed(text: Seq<u8>) -> Seq<u8> {
    let start = next_mark(text, 0);
    let end = last_mark(text, text.len() as int);
    if start < end {
        text.subrange(start, end)
    } else {
        Seq::empty()
    }
}

/// The lower-case form of a text, as `str::to_lowercase` gives it.
pub uninterp spec fn lowercase_of(text: Seq<char>) -> Seq<char>;

/// A line as it is read: trimmed, and then lowered. A line whose trimmed
/// bytes are not UTF-8 cannot be read.
pub open spec fn lowered_line(line: Seq<u8>) -> Option<Seq<u8>> {
    let piece = trimmed(line);
    if valid_utf8(piece) {
        Some(encode_utf8(lowercase_of(decode_utf8(piece))))
    } else {
        None
    }
}

/// The first entry of a line separated by white space, and what follows it.
pub open spec fn first_field(line: Seq<u8>) -> (Seq<u8>, Seq<u8>) {
    let start = next_mark(line, 0);
    let end = next_space(line, start);
    (line.subrange(start, end), line.subrange(end, line.len() as int))
}

/// Every byte is a decimal digit.
pub open spec fn all_digits(text: Seq<u8>) -> bool {
    forall|i: int| 0 <= i < text.len() ==> 48 <= #[trigger] text[i] <= 57
}

/// The number that a sequence of decimal digits denotes.
pub open spec fn digits_value(text: Seq<u8>) -> int
    decreases text.len(),
{
    if text.len() == 0 {
        0
    } else {
        digits_value(text.drop_last()) * 10 + (text.last() - 48)
    }
}

/// The count that digits denote: their value, if there is at least one digit,
/// nothing but digits, and the value fits 64 bits.
pub open spec fn count_of_digits(digits: Seq<u8>) -> Option<u64> {
    if digits.len() > 0 && all_digits(digits) && digits_value(digits) <= u64::MAX {
        Some(digits_value(digits) as u64)
    } else {
        None
    }
}

/// The count that a field denotes: that of its digits, which may follow a
/// plus sign.
pub open spec fn count_of(field: Seq<u8>) -> Option<u64> {
    if field.len() > 0 && field[0] == 43 {
        count_of_digits(field.drop_first())
    } else {
        count_of_digits(field)
    }
}

/// The word that a trimmed and lowered line of a plain list holds: the whole
/// line, if it takes five bytes.
pub open spec fn word_of_lowered(lowered: Seq<u8>) -> Result<Seq<u8>, LineError> {
    if lowered.len() == 5 {
        Ok(lowered)
    } else {
        Err(LineError::WrongLength)
    }
}

/// The entry that a trimmed and lowered line of a weighted list holds: its
/// first field is the word, its second the count, and anything after that is
/// ignored. A missing field is reported before a bad count, and a bad count
/// before a word of the wrong length.
pub open spec fn entry_of_lowered(lowered: Seq<u8>) -> Result<(Seq<u8>, u64), LineError> {
    let (word, rest) = first_field(lowered);
    let (count, _) = first_field(rest);
    if word.len() == 0 {
        Err(LineError::MissingWord)
    } else if count.len() == 0 {
        Err(LineError::MissingCount)
    } else if count_of(count) is None {
        Err(LineError::BadCount)
    } else if word.len() != 5 {
        Err(LineError::WrongLength)
    } else {
        Ok((word, count_of(count)->0))
    }
}

/// The word that a line of a plain list holds.
pub open spec fn word_of_line(line: Seq<u8>) -> Result<Seq<u8>, LineError> {
    match lowered_line(line) {
        Some(lowered) => word_of_lowered(lowered),
        None => Err(LineError::NotText),
    }
}

/// The entry that a line of a weighted list holds.
pub open spec fn entry_of_line(line: Seq<u8>) -> Result<(Seq<u8>, u64), LineError> {
    match lowered_line(line) {
        Some(lowered) => entry_of_lowered(lowered),
        None => Err(LineError::NotText),
    }
}

/// The scanning positions stay within the text and never move backwards.
pub proof fn lemma_scan_bounds(text: Seq<u8>, from: int)
    requires
        0 <= from <= text.len(),
    ensures
        from <= next_space(text, from) <= text.len(),
        from <= next_mark(text, from) <= text.len(),
        from <= line_end(text, from) <= text.len(),
        0 <= last_mark(text, from) <= from,
    decreases text.len() - from,
{
    if from < text.len() {
        lemma_scan_bounds(text, from + 1);
        if space_at(text, from) > 1 {
            lemma_scan_bounds(text, from + space_at(text, from));
        }
    }
    lemma_last_mark_bounds(text, from);
}

proof fn lemma_last_mark_bounds(text: Seq<u8>, upto: int)
    requires
        0 <= upto,
    ensures
        0 <= last_mark(text, upto) <= upto,
    decreases upto,
{
    if upto > 0 && space_before(text, upto) > 0 {
        lemma_last_mark_bounds(text, upto - space_before(text, upto));
    }
}

/// Tells how many bytes the white space at position `at` takes.
pub fn space_width_at(text: &[u8], at: usize) -> (width: usize)
    ensures
        width == space_at(text@, at as int),
        at + width <= text@.len() || width == 0,
{
    if at >= text.len() {
        return 0;
    }
    let first = text[at];
    if first == 0x20 || (0x09 <= first && first <= 0x0d) {
        return 1;
    }
    if text.len() - at < 2 {
        return 0;
    }
    let second = text[at + 1];
    if first == 0xc2 && (second == 0x85 || second == 0xa0) {
        return 2;
    }
    if text.len() - at < 3 {
        return 0;
    }
    let third = text[at + 2];
    if (first == 0xe1 && second == 0x9a && third == 0x80) || (first == 0xe2 && second == 0x80 && (
    (0x80 <= third && third <= 0x8a) || third == 0xa8 || third == 0xa9 || third == 0xaf)) || (
    first == 0xe2 && second == 0x81 && third == 0x9f) || (first == 0xe3 && second == 0x80
        && third == 0x80) {
        return 3;
    }
    0
}

/// Tells how many bytes the white space before position `upto` takes.
pub fn space_width_before(text: &[u8], upto: usize) -> (width: usize)
    ensures
        width == space_before(text@, upto as int),
        width <= upto,
{
    if upto == 0 || upto > text.len() {
        return 0;
    }
    let third = text[upto - 1];
    if third == 0x20 || (0x09 <= third && third <= 0x0d) {
        return 1;
    }
    if upto < 2 {
        return 0;
    }
    let second = text[upto - 2];
    if second == 0xc2 && (third == 0x85 || third == 0xa0) {
        return 2;
    }
    if upto < 3 {
        return 0;
    }
    let first = text[upto - 3];
    if (first == 0xe1 && second == 0x9a && third == 0x80) || (first == 0xe2 && second == 0x80 && (
    (0x80 <= third && third <= 0x8a) || third == 0xa8 || third == 0xa9 || third == 0xaf)) || (
    first == 0xe2 && second == 0x81 && third == 0x9f) || (first == 0xe3 && second == 0x80
        && third == 0x80) {
        return 3;
    }
    0
}

/// Finds the end of the field that starts at `from`.
pub fn find_space(text: &[u8], from: usize) -> (at: usize)
    requires
        from <= text@.len(),
    ensures
        at == next_space(text@, from as int),
        from <= at <= text@.len(),
{
    let mut at: usize = from;
    while at < text.len() && space_width_at(text, at) == 0
        invariant
            from <= at <= text@.len(),
            next_space(text@, from as int) == next_space(text@, at as int),
        decreases text@.len() - at,
    {
        at += 1;
    }
    at
}

/// Finds the start of the next field at or after `from`.
pub fn find_mark(text: &[u8], from: usize) -> (at: usize)
    requires
        from <= text@.len(),
    ensures
        at == next_mark(text@, from as int),
        from <= at <= text@.len(),
{
    let length = text.len();
    let mut at: usize = from;
    let mut width = space_width_at(text, at);
    while at < length && width > 0
        invariant
            length == text@.len(),
            from <= at <= text@.len(),
            width == space_at(text@, at as int),
            width == 0 || at + width <= text@.len(),
            next_mark(text@, from as int) == next_mark(text@, at as int),
        decreases text@.len() - at,
    {
        at += width;
        width = space_width_at(text, at);
    }
    at
}

/// Finds the end of the line that starts at `from`.
pub fn find_line_end(text: &[u8], from: usize) -> (at: usize)
    requires
        from <= text@.len(),
    ensures
        at == line_end(text@, from as int),
        from <= at <= text@.len(),
{
    let mut at: usize = from;
    while at < text.len() && text[at] != NEWLINE
        invariant
            from <= at <= text@.len(),
            line_end(text@, from as int) == line_end(text@, at as int),
        decreases text@.len() - at,
    {
        at += 1;
    }
    at
}

/// Finds where the white space at the end of the text starts.
pub fn find_last_mark(text: &[u8]) -> (at: usize)
    ensures
        at == last_mark(text@, text@.len() as int),
        at <= text@.len(),
{
    let mut at: usize = text.len();
    let mut width = space_width_before(text, at);
    while width > 0
        invariant
            at <= text@.len(),
            width == space_before(text@, at as int),
            last_mark(text@, text@.len() as int) == last_mark(text@, at as int),
        decreases at,
    {
        at -= width;
        width = space_width_before(text, at);
    }
    at
}

/// `std::str::from_utf8`: the bytes are taken as text exactly where they are
/// valid UTF-8, and the text then holds those very bytes.
#[verifier::external_body]
fn text_of(bytes: &[u8]) -> (text: Option<&str>)
    ensures
        text is Some <==> valid_utf8(bytes@),
        text matches Some(found) ==> found.spec_bytes() == bytes@,
{
    std::str::from_utf8(bytes).ok()
}

/// `str::to_lowercase`: the lower-case form of the text, which depends on
/// the text alone.
#[verifier::external_body]
fn lower_text(text: &str) -> (lower: String)
    ensures
        lower@ == lowercase_of(text@),
{
    text.to_lowercase()
}

/// Trims a line and lowers what is left, if that is UTF-8.
pub fn lower_line(line: &[u8]) -> (lowered: Option<String>)
    ensures
        match lowered {
            Some(text) => lowered_line(line@) == Some(encode_utf8(text@)),
            None => lowered_line(line@) is None,
        },
{
    let start = find_mark(line, 0);
    let end = find_last_mark(line);
    let piece = if start < end {
        slice_subrange(line, start, end)
    } else {
        slice_subrange(line, 0, 0)
    };
    assert(piece@ =~= trimmed(line@));
    match text_of(piece) {
        Some(text) => {
            proof {
                encode_utf8_decode_utf8(text@);
            }
            Some(lower_text(text))
        },
        None => None,
    }
}

/// Copies a text of five bytes.
fn five_bytes(text: &[u8]) -> (word: [u8; 5])
    requires
        text@.len() == 5,
    ensures
        word@ == text@,
{
    let word: [u8; 5] = [text[0], text[1], text[2], text[3], text[4]];
    assert(word@ =~= text@);
    word
}

/// Reads the word of a trimmed and lowered line of a plain list.
pub fn word_from_lowered(lowered: &[u8]) -> (word: Result<[u8; 5], LineError>)
    ensures
        match word {
            Ok(found) => word_of_lowered(lowered@) == Ok::<Seq<u8>, LineError>(found@),
            Err(error) => word_of_lowered(lowered@) == Err::<Seq<u8>, LineError>(error),
        },
{
    if lowered.len() == 5 {
        Ok(five_bytes(lowered))
    } else {
        Err(LineError::WrongLength)
    }
}

/// Reads the word of one line of a plain list.
pub fn parse_word(line: &[u8]) -> (word: Result<[u8; 5], LineError>)
    ensures
        match word {
            Ok(found) => word_of_line(line@) == Ok::<Seq<u8>, LineError>(found@),
            Err(error) => word_of_line(line@) == Err::<Seq<u8>, LineError>(error),
        },
{
    match lower_line(line) {
        Some(text) => word_from_lowered(text.as_str().as_bytes()),
        None => Err(LineError::NotText),
    }
}

/// The value of digits grows with every digit that is appended.
pub proof fn lemma_digits_value_grows(text: Seq<u8>, upto: int)
    requires
        all_digits(text),
        0 <= upto <= text.len(),
    ensures
        0 <= digits_value(text.take(upto)) <= digits_value(text),
    decreases text.len() - upto,
{
    lemma_digits_value_nonnegative(text.take(upto));
    if upto < text.len() {
        lemma_digits_value_grows(text, upto + 1);
        assert(text.take(upto + 1).drop_last() =~= text.take(upto));
    } else {
        assert(text.take(upto) =~= text);
    }
}

proof fn lemma_digits_value_nonnegative(text: Seq<u8>)
    requires
        all_digits(text),
    ensures
        0 <= digits_value(text),
    decreases text.len(),
{
    if text.len() > 0 {
        lemma_digits_value_nonnegative(text.drop_last());
    }
}

/// Reads a count: decimal digits, with or without a plus sign before them.
pub fn parse_count(field: &[u8]) -> (count: Option<u64>)
    ensures
        count == count_of(field@),
{
    let start: usize = if field.len() > 0 && field[0] == 43 {
        1
    } else {
        0
    };
    let ghost digits = field@.subrange(start as int, field@.len() as int);
    assert(digits =~= if field@.len() > 0 && field@[0] == 43 {
        field@.drop_first()
    } else {
        field@
    });
    assert(count_of(field@) == count_of_digits(digits));
    if start == field.len() {
        return None;
    }
    let mut value: u64 = 0;
    let mut i: usize = start;
    assert(digits.take(0) =~= Seq::empty());
    while i < field.len()
        invariant
            start <= i <= field@.len(),
            digits == field@.subrange(start as int, field@.len() as int),
            count_of(field@) == count_of_digits(digits),
            all_digits(digits.take(i - start)),
            value == digits_value(digits.take(i - start)),
        decreases field@.len() - i,
    {
        let byte = field[i];
        assert(digits[i - start] == byte);
        if byte < 48 || byte > 57 {
            return None;
        }
        proof {
            assert(digits.take(i - start + 1).drop_last() =~= digits.take(i - start));
            assert(all_digits(digits.take(i - start + 1))) by {
                assert forall|k: int| 0 <= k < i - start + 1 implies 48 <= #[trigger] digits.take(
                    i - start + 1,
                )[k] <= 57 by {
                    if k < i - start {
                        assert(digits.take(i - start)[k] == digits[k]);
                    }
                }
            }
        }
        let scaled = match value.checked_mul(10) {
            Some(scaled) => scaled,
            None => {
                proof {
                    lemma_overflow_is_final(digits, i - start + 1);
                }
                return None;
            },
        };
        value = match scaled.checked_add((byte - 48) as u64) {
            Some(sum) => sum,
            None => {
                proof {
                    lemma_overflow_is_final(digits, i - start + 1);
                }
                return None;
            },
        };
        i += 1;
    }
    assert(digits.take(i - start) =~= digits);
    Some(value)
}

/// Once a prefix of the digits is worth more than 64 bits hold, so is the
/// whole: no count comes of it.
proof fn lemma_overflow_is_final(digits: Seq<u8>, upto: int)
    requires
        0 <= upto <= digits.len(),
        all_digits(digits.take(upto)),
        digits_value(digits.take(upto)) > u64::MAX,
    ensures
        !(all_digits(digits) && digits_value(digits) <= u64::MAX),
{
    if all_digits(digits) {
        lemma_digits_value_grows(digits, upto);
    }
}

/// Reads the word and the count of a trimmed and lowered line of a weighted
/// list.
pub fn entry_from_lowered(lowered: &[u8]) -> (entry: Result<([u8; 5], u64), LineError>)
    ensures
        match entry {
            Ok((word, count)) => entry_of_lowered(lowered@) == Ok::<(Seq<u8>, u64), LineError>(
                (word@, count),
            ),
            Err(error) => entry_of_lowered(lowered@) == Err::<(Seq<u8>, u64), LineError>(error),
        },
{
    let word_start = find_mark(lowered, 0);
    let word_end = find_space(lowered, word_start);
    let ghost rest = lowered@.subrange(word_end as int, lowered@.len() as int);
    let count_start = find_mark(lowered, word_end);
    let count_end = find_space(lowered, count_start);
    proof {
        lemma_scan_shifted(lowered@, word_end as int, word_end as int);
        lemma_scan_shifted(lowered@, word_end as int, count_start as int);
        assert(lowered@.subrange(count_start as int, count_end as int) =~= rest.subrange(
            count_start - word_end,
            count_end - word_end,
        ));
    }
    if word_start == word_end {
        return Err(LineError::MissingWord);
    }
    if count_start == count_end {
        return Err(LineError::MissingCount);
    }
    let count = match parse_count(slice_subrange(lowered, count_start, count_end)) {
        Some(count) => count,
        None => {
            return Err(LineError::BadCount);
        },
    };
    if word_end - word_start != 5 {
        return Err(LineError::WrongLength);
    }
    Ok((five_bytes(slice_subrange(lowered, word_start, word_end)), count))
}

/// Reads the word and the count of one line of a weighted list.
pub fn parse_entry(line: &[u8]) -> (entry: Result<([u8; 5], u64), LineError>)
    ensures
        match entry {
            Ok((word, count)) => entry_of_line(line@) == Ok::<(Seq<u8>, u64), LineError>(
                (word@, count),
            ),
            Err(error) => entry_of_line(line@) == Err::<(Seq<u8>, u64), LineError>(error),
        },
{
    match lower_line(line) {
        Some(text) => entry_from_lowered(text.as_str().as_bytes()),
        None => Err(LineError::NotText),
    }
}

/// White space in the rest of a text is the white space of the text, shifted
/// by the position of the cut.
pub proof fn lemma_space_shifted(text: Seq<u8>, cut: int, at: int)
    requires
        0 <= cut <= at <= text.len(),
    ensures
        space_at(text.subrange(cut, text.len() as int), at - cut) == space_at(text, at),
{
    let rest = text.subrange(cut, text.len() as int);
    if at < text.len() {
        assert(rest[at - cut] == text[at]);
        if at + 1 < text.len() {
            assert(rest[at - cut + 1] == text[at + 1]);
        }
        if at + 2 < text.len() {
            assert(rest[at - cut + 2] == text[at + 2]);
        }
    }
}

/// Scanning the rest of a text finds what scanning the text from that
/// position finds, shifted by the position.
pub proof fn lemma_scan_shifted(text: Seq<u8>, cut: int, from: int)
    requires
        0 <= cut <= from <= text.len(),
    ensures
        next_mark(text.subrange(cut, text.len() as int), from - cut) == next_mark(text, from) - cut,
        next_space(text.subrange(cut, text.len() as int), from - cut) == next_space(text, from)
            - cut,
    decreases text.len() - from,
{
    lemma_space_shifted(text, cut, from);
    if from < text.len() {
        lemma_scan_shifted(text, cut, from + 1);
        if space_at(text, from) > 1 {
            lemma_scan_shifted(text, cut, from + space_at(text, from));
        }
    }
}

/// The lines of a text from position `from` on. A line ends at a line end
/// or at the end of the text; a line end at the very end of the text starts
/// no further line.
pub open spec fn lines_from(text: Seq<u8>, from: int) -> Seq<Seq<u8>>
    decreases text.len() - from,
{
    if from < 0 || from >= text.len() {
        Seq::empty()
    } else {
        let end = line_end(text, from);
        if from <= end < text.len() {
            seq![text.subrange(from, end)] + lines_from(text, end + 1)
        } else {
            seq![text.subrange(from, text.len() as int)]
        }
    }
}

/// The lines of a text.
pub open spec fn lines_of(text: Seq<u8>) -> Seq<Seq<u8>> {
    lines_from(text, 0)
}

/// The first `upto` lines are words, and `words` holds them.
pub open spec fn words_read(lines: Seq<Seq<u8>>, words: Seq<[u8; 5]>, upto: int) -> bool {
    &&& 0 <= upto <= lines.len()
    &&& words.len() == upto
    &&& forall|i: int|
        0 <= i < upto ==> word_of_line(#[trigger] lines[i]) == Ok::<Seq<u8>, LineError>(words[i]@)
}

/// The first `upto` lines are weighted entries, and `entries` holds them.
pub open spec fn entries_read(
    lines: Seq<Seq<u8>>,
    entries: Seq<([u8; 5], u64)>,
    upto: int,
) -> bool {
    &&& 0 <= upto <= lines.len()
    &&& entries.len() == upto
    &&& forall|i: int|
        0 <= i < upto ==> entry_of_line(#[trigger] lines[i]) == Ok::<(Seq<u8>, u64), LineError>(
            (entries[i].0@, entries[i].1),
        )
}

/// `error` names the first line that is no word, and says why it is none.
pub open spec fn word_list_fails(lines: Seq<Seq<u8>>, error: LoadError) -> bool {
    &&& error.line < lines.len()
    &&& word_of_line(lines[error.line as int]) == Err::<Seq<u8>, LineError>(error.kind)
    &&& forall|i: int| 0 <= i < error.line ==> word_of_line(#[trigger] lines[i]) is Ok
}

/// `error` names the first line that is no weighted entry, and says why it
/// is none.
pub open spec fn weighted_list_fails(lines: Seq<Seq<u8>>, error: LoadError) -> bool {
    &&& error.line < lines.len()
    &&& entry_of_line(lines[error.line as int]) == Err::<(Seq<u8>, u64), LineError>(error.kind)
    &&& forall|i: int| 0 <= i < error.line ==> entry_of_line(#[trigger] lines[i]) is Ok
}

/// The lines from a position on are the line that starts there, and then the
/// lines after its end.
pub proof fn lemma_lines_step(text: Seq<u8>, from: int)
    requires
        0 <= from < text.len(),
    ensures
        from <= line_end(text, from) <= text.len(),
        lines_from(text, from) == seq![text.subrange(from, line_end(text, from))] + lines_from(
            text,
            line_end(text, from) + 1,
        ),
{
    lemma_scan_bounds(text, from);
}

/// Where the next line starts, once a line that started in the text has
/// ended at `end`.
fn next_line_start(text: &[u8], end: usize) -> (start: usize)
    requires
        end <= text@.len(),
    ensures
        end <= start <= text@.len(),
        end < text@.len() ==> start == end + 1,
        lines_from(text@, start as int) == lines_from(text@, end + 1),
{
    if end < text.len() {
        end + 1
    } else {
        end
    }
}

/// Reads a plain word list: one word per line.
///
/// The result holds the words in the order of their lines. The first line
/// that is no word makes the whole list fail.
pub fn read_wordlist(text: &[u8]) -> (list: Result<Vec<[u8; 5]>, LoadError>)
    ensures
        match list {
            Ok(words) => words_read(lines_of(text@), words@, lines_of(text@).len() as int),
            Err(error) => word_list_fails(lines_of(text@), error),
        },
{
    let mut words: Vec<[u8; 5]> = Vec::new();
    let mut start: usize = 0;
    let ghost lines = lines_of(text@);
    while start < text.len()
        invariant
            start <= text@.len(),
            lines == lines_of(text@),
            words@.len() + lines_from(text@, start as int).len() == lines.len(),
            lines =~= lines.take(words@.len() as int) + lines_from(text@, start as int),
            words_read(lines, words@, words@.len() as int),
        decreases text@.len() - start,
    {
        let end = find_line_end(text, start);
        proof {
            lemma_lines_step(text@, start as int);
            assert(lines[words@.len() as int] == text@.subrange(start as int, end as int));
        }
        match parse_word(slice_subrange(text, start, end)) {
            Ok(word) => {
                words.push(word);
            },
            Err(kind) => {
                return Err(LoadError { line: words.len(), kind });
            },
        }
        start = next_line_start(text, end);
        proof {
            let done = words@.len() as int;
            assert(lines.take(done) =~= lines.take(done - 1).push(lines[done - 1]));
        }
    }
    Ok(words)
}

/// Reads a weighted word list: a word and its usage count per line.
///
/// The result holds the entries in the order of their lines. The first line
/// that is no entry makes the whole list fail.
pub fn read_wordlist_counts(text: &[u8]) -> (list: Result<Vec<([u8; 5], u64)>, LoadError>)
    ensures
        match list {
            Ok(entries) => entries_read(lines_of(text@), entries@, lines_of(text@).len() as int),
            Err(error) => weighted_list_fails(lines_of(text@), error),
        },
{
    let mut entries: Vec<([u8; 5], u64)> = Vec::new();
    let mut start: usize = 0;
    let ghost lines = lines_of(text@);
    while start < text.len()
        invariant
            start <= text@.len(),
            lines == lines_of(text@),
            entries@.len() + lines_from(text@, start as int).len() == lines.len(),
            lines =~= lines.take(entries@.len() as int) + lines_from(text@, start as int),
            entries_read(lines, entries@, entries@.len() as int),
        decreases text@.len() - start,
    {
        let end = find_line_end(text, start);
        proof {
            lemma_lines_step(text@, start as int);
            assert(lines[entries@.len() as int] == text@.subrange(start as int, end as int));
        }
        match parse_entry(slice_subrange(text, start, end)) {
            Ok(entry) => {
                entries.push(entry);
            },
            Err(kind) => {
                return Err(LoadError { line: entries.len(), kind });
            },
        }
        start = next_line_start(text, end);
        proof {
            let done = entries@.len() as int;
            assert(lines.take(done) =~= lines.take(done - 1).push(lines[done - 1]));
        }
    }
    Ok(entries)
}

/// The number that stands for a word as a key: its five bytes read as digits
/// to the base 256, the first byte being the least significant.
pub open spec fn word_key(word: Seq<u8>) -> u64 {
    (word[0] + 256 * (word[1] + 256 * (word[2] + 256 * (word[3] + 256 * word[4])))) as u64
}

/// The index of a vocabulary: every word's key leads to the position of the
/// word, and to its last position where the word occurs more than once.
pub open spec fn index_of_words(words: Seq<[u8; 5]>) -> Map<u64, usize>
    decreases words.len(),
{
    if words.len() == 0 {
        Map::empty()
    } else {
        index_of_words(words.drop_last()).insert(
            word_key(words.last()@),
            (words.len() - 1) as usize,
        )
    }
}

/// Two numbers with the same last digit to the base 256 and the same rest
/// are written with the same digit and the same rest.
proof fn lemma_same_digit(digit: int, rest: int, other_digit: int, other_rest: int)
    requires
        0 <= digit < 256,
        0 <= other_digit < 256,
        digit + 256 * rest == other_digit + 256 * other_rest,
    ensures
        digit == other_digit,
        rest == other_rest,
{
}

/// Different words have different keys.
pub proof fn lemma_word_key_injective(a: Seq<u8>, b: Seq<u8>)
    requires
        is_word(a),
        is_word(b),
        word_key(a) == word_key(b),
    ensures
        a == b,
{
    let a3 = a[3] + 256 * a[4];
    let a2 = a[2] + 256 * a3;
    let a1 = a[1] + 256 * a2;
    let b3 = b[3] + 256 * b[4];
    let b2 = b[2] + 256 * b3;
    let b1 = b[1] + 256 * b2;
    assert(0 <= a3 < 65536 && 0 <= b3 < 65536);
    assert(0 <= a2 < 16777216 && 0 <= b2 < 16777216);
    assert(0 <= a1 < 4294967296 && 0 <= b1 < 4294967296);
    assert(word_key(a) == a[0] + 256 * a1);
    assert(word_key(b) == b[0] + 256 * b1);
    lemma_same_digit(a[0] as int, a1, b[0] as int, b1);
    lemma_same_digit(a[1] as int, a2, b[1] as int, b2);
    lemma_same_digit(a[2] as int, a3, b[2] as int, b3);
    lemma_same_digit(a[3] as int, a[4] as int, b[3] as int, b[4] as int);
    assert(a =~= b);
}

/// The index knows exactly the words of the vocabulary, and leads each to a
/// position that holds it, after which it does not occur again.
pub proof fn lemma_index_finds_last(words: Seq<[u8; 5]>, word: [u8; 5])
    requires
        words.len() <= usize::MAX,
    ensures
        index_of_words(words).contains_key(word_key(word@)) <==> words.contains(word),
        index_of_words(words).contains_key(word_key(word@)) ==> {
            let at = index_of_words(words)[word_key(word@)] as int;
            &&& 0 <= at < words.len()
            &&& words[at] == word
            &&& forall|later: int| at < later < words.len() ==> words[later] != word
        },
    decreases words.len(),
{
    if words.len() > 0 {
        let rest = words.drop_last();
        let last = words.last();
        let key = word_key(word@);
        lemma_index_finds_last(rest, word);
        if word_key(last@) == key {
            lemma_word_key_injective(last@, word@);
            assert(last =~= word);
            assert(words[words.len() - 1] == word);
        } else {
            assert(last != word);
            if index_of_words(rest).contains_key(key) {
                let at = index_of_words(rest)[key] as int;
                assert(words[at] == rest[at]);
                assert forall|later: int| at < later < words.len() implies words[later]
                    != word by {
                    if later < rest.len() {
                        assert(rest[later] != word);
                    }
                }
            } else {
                assert forall|i: int| 0 <= i < words.len() implies words[i] != word by {
                    if i < rest.len() {
                        assert(rest[i] == words[i]);
                        assert(rest.contains(rest[i]));
                    }
                }
            }
        }
    }
}

/// Computes the key of a word.
pub fn key_of(word: &[u8; 5]) -> (key: u64)
    ensures
        key == word_key(word@),
{
    let high = word[3] as u64 + 256 * (word[4] as u64);
    let middle = word[2] as u64 + 256 * high;
    let low = word[1] as u64 + 256 * middle;
    word[0] as u64 + 256 * low
}

/// Builds the index of a vocabulary.
pub fn index_words(words: &[[u8; 5]]) -> (index: HashMap<u64, usize>)
    ensures
        index@ == index_of_words(words@),
{
    broadcast use vstd::std_specs::hash::group_hash_axioms;

    let mut index: HashMap<u64, usize> = HashMap::new();
    let mut i: usize = 0;
    assert(words@.take(0) =~= Seq::empty());
    while i < words.len()
        invariant
            i <= words@.len(),
            index@ == index_of_words(words@.take(i as int)),
        decreases words@.len() - i,
    {
        assert(words@.take(i + 1).drop_last() =~= words@.take(i as int));
        index.insert(key_of(&words[i]), i);
        i += 1;
    }
    assert(words@.take(i as int) =~= words@);
    index
}

/// Reads a vocabulary and indexes it: the result leads from the key of each
/// word to the number of the last line that holds the word.
pub fn read_words(text: &[u8]) -> (index: Result<HashMap<u64, usize>, LoadError>)
    ensures
        match index {
            Ok(found) => exists|words: Seq<[u8; 5]>|
                #[trigger] words_read(lines_of(text@), words, lines_of(text@).len() as int)
                    && found@ == index_of_words(words),
            Err(error) => word_list_fails(lines_of(text@), error),
        },
{
    match read_wordlist(text) {
        Ok(words) => Ok(index_words(words.as_slice())),
        Err(error) => Err(error),
    }
}

/// Looks a word up in the index of a vocabulary.
pub fn word_position(index: &HashMap<u64, usize>, word: &[u8; 5]) -> (position: Option<usize>)
    ensures
        match position {
            Some(at) => index@.contains_key(word_key(word@)) && index@[word_key(word@)] == at,
            None => !index@.contains_key(word_key(word@)),
        },
{
    broadcast use vstd::std_specs::hash::group_hash_axioms;

    let key = key_of(word);
    match index.get(&key) {
        Some(at) => Some(*at),
        None => None,
    }
}

} // verus!
