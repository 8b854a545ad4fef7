//! The lines of a text, and the numbers written in them.

use vstd::prelude::*;
use crate::ascii::{digit, is_digit, is_eol, COMMA, CR, LF, MINUS, SPACE, ZERO};

verus! {

/// The first position at or after `pos` that holds no line ending.
pub open spec fn skip_eols(s: Seq<u8>, pos: int) -> int
    decreases s.len() - pos,
{
    if 0 <= pos < s.len() && is_eol(s[pos]) {
        skip_eols(s, pos + 1)
    } else {
        pos
    }
}

pub proof fn lemma_skip_eols(s: Seq<u8>, pos: int)
    requires
        0 <= pos,
    ensures
        pos <= skip_eols(s, pos),
        skip_eols(s, pos) <= s.len() || skip_eols(s, pos) == pos,
        skip_eols(s, pos) < s.len() ==> !is_eol(s[skip_eols(s, pos)]),
    decreases s.len() - pos,
{
    if pos < s.len() && is_eol(s[pos]) {
        lemma_skip_eols(s, pos + 1);
    }
}

/// The position of the first line feed at or after `pos`, or the length
/// of the text if there is none.
pub open spec fn line_end(s: Seq<u8>, pos: int) -> int
    decreases s.len() - pos,
{
    if 0 <= pos < s.len() && s[pos] != LF {
        line_end(s, pos + 1)
    } else {
        pos
    }
}

pub proof fn lemma_line_end(s: Seq<u8>, pos: int)
    requires
        0 <= pos <= s.len(),
    ensures
        pos <= line_end(s, pos) <= s.len(),
        line_end(s, pos) < s.len() ==> s[line_end(s, pos)] == LF,
        forall|i: int| pos <= i < line_end(s, pos) ==> #[trigger] s[i] != LF,
    decreases s.len() - pos,
{
    if pos < s.len() && s[pos] != LF {
        lemma_line_end(s, pos + 1);
    }
}

/// The lines from `pos` to the end of the text, after those in `acc`. A
/// line ends at a line feed or at the end of the text; nothing follows
/// the last line feed.
pub open spec fn lines_from(s: Seq<u8>, pos: int, acc: Seq<Seq<u8>>) -> Seq<Seq<u8>>
    decreases s.len() - pos,
{
    if pos < 0 || pos >= s.len() {
        acc
    } else {
        let end = line_end(s, pos);
        proof {
            lemma_line_end(s, pos);
        }
        if end >= s.len() {
            acc.push(s.subrange(pos, end))
        } else {
            lines_from(s, end + 1, acc.push(s.subrange(pos, end)))
        }
    }
}

/// The lines of a text.
pub open spec fn spec_lines(s: Seq<u8>) -> Seq<Seq<u8>> {
    lines_from(s, 0, Seq::empty())
}

/// What each of the slices holds.
pub open spec fn line_views(lines: Seq<&[u8]>) -> Seq<Seq<u8>> {
    Seq::new(lines.len(), |i: int| lines[i]@)
}

/// Splits a text into its lines.
pub fn split_lines<'a>(bytes: &'a [u8]) -> (lines: Vec<&'a [u8]>)
    ensures
        line_views(lines@) == spec_lines(bytes@),
{
    let len = bytes.len();
    let mut lines: Vec<&'a [u8]> = Vec::new();
    let mut pos: usize = 0;
    proof {
        assert(line_views(lines@) =~= Seq::<Seq<u8>>::empty());
    }
    while pos < len
        invariant
            pos <= len,
            len == bytes.len(),
            spec_lines(bytes@) == lines_from(bytes@, pos as int, line_views(lines@)),
        decreases len - pos,
    {
        let mut end: usize = pos;
        while end < len && bytes[end] != LF
            invariant
                pos <= end <= len,
                len == bytes.len(),
                line_end(bytes@, pos as int) == line_end(bytes@, end as int),
            decreases len - end,
        {
            end += 1;
        }
        let ghost before = line_views(lines@);
        let line = &bytes[pos..end];
        lines.push(line);
        proof {
            assert(line_views(lines@) =~= before.push(bytes@.subrange(pos as int, end as int)));
        }
        if end >= len {
            pos = len;
        } else {
            pos = end + 1;
        }
    }
    lines
}

/// A line without the carriage return at its end, if it has one.
pub open spec fn strip_cr(line: Seq<u8>) -> Seq<u8> {
    if line.len() > 0 && line.last() == CR {
        line.drop_last()
    } else {
        line
    }
}

/// Takes the carriage return off the end of a line.
pub fn without_cr<'a>(line: &'a [u8]) -> (r: &'a [u8])
    ensures
        r@ == strip_cr(line@),
{
    let len = line.len();
    if len > 0 && line[len - 1] == CR {
        let r = &line[0..len - 1];
        proof {
            assert(r@ =~= line@.drop_last());
        }
        r
    } else {
        line
    }
}

/// Why some bytes are not a number.
#[derive(Copy, Clone, Debug, PartialEq, Eq, Structural)]
pub enum NumberError {
    /// There are no bytes.
    Missing,
    /// This byte is no digit.
    BadDigit(u8),
    /// The number does not fit in 64 bits.
    TooLarge,
}

/// The number that the digits from `i` on spell after those that gave
/// `acc`, or the first fault on the way.
pub open spec fn digits_from(line: Seq<u8>, i: int, acc: int) -> Result<int, NumberError>
    decreases line.len() - i,
{
    if i < 0 || i >= line.len() {
        Ok(acc)
    } else if !is_digit(line[i]) {
        Err(NumberError::BadDigit(line[i]))
    } else if acc * 10 + (line[i] - ZERO) > u64::MAX {
        Err(NumberError::TooLarge)
    } else {
        digits_from(line, i + 1, acc * 10 + (line[i] - ZERO))
    }
}

/// The number that a run of decimal digits spells.
pub open spec fn spec_number(line: Seq<u8>) -> Result<int, NumberError> {
    if line.len() == 0 {
        Err(NumberError::Missing)
    } else {
        digits_from(line, 0, 0)
    }
}

/// Reads a number.
pub fn parse_number(line: &[u8]) -> (r: Result<u64, NumberError>)
    ensures
        match (r, spec_number(line@)) {
            (Ok(value), Ok(v)) => value == v,
            (Err(e), Err(f)) => e == f,
            _ => false,
        },
{
    let len = line.len();
    if len == 0 {
        return Err(NumberError::Missing);
    }
    let mut value: u64 = 0;
    let mut i: usize = 0;
    while i < len
        invariant
            i <= len,
            len == line.len(),
            len > 0,
            digits_from(line@, 0, 0) == digits_from(line@, i as int, value as int),
        decreases len - i,
    {
        let b = line[i];
        if !digit(b) {
            return Err(NumberError::BadDigit(b));
        }
        let d: u64 = (b - ZERO) as u64;
        if value > (u64::MAX - d) / 10 {
            return Err(NumberError::TooLarge);
        }
        value = value * 10 + d;
        i += 1;
    }
    Ok(value)
}

/// The position of the first `wanted` byte, if there is one.
pub open spec fn first_index(line: Seq<u8>, wanted: u8) -> Option<int> {
    if exists|i: int| 0 <= i < line.len() && line[i] == wanted {
        Some(choose|i: int| 0 <= i < line.len() && line[i] == wanted && forall|j: int| 0 <= j < i ==> line[j] != wanted)
    } else {
        None
    }
}

/// Finds the first `wanted` byte.
pub fn find_byte(line: &[u8], wanted: u8) -> (r: Option<usize>)
    ensures
        match r {
            Some(at) => at < line.len() && line[at as int] == wanted && forall|j: int|
                0 <= j < at ==> line[j] != wanted,
            None => forall|j: int| 0 <= j < line.len() ==> line[j] != wanted,
        },
        r is Some <==> first_index(line@, wanted) is Some,
        r is Some ==> r.unwrap() == first_index(line@, wanted).unwrap(),
{
    let mut i: usize = 0;
    while i < line.len()
        invariant
            i <= line.len(),
            forall|j: int| 0 <= j < i ==> line[j] != wanted,
        decreases line.len() - i,
    {
        if line[i] == wanted {
            proof {
                let at = choose|at: int|
                    0 <= at < line@.len() && line@[at] == wanted && forall|j: int|
                        0 <= j < at ==> line@[j] != wanted;
                assert(at == i) by {
                    if at < i {
                        assert(line[at] != wanted);
                    }
                    if i < at {
                        assert(line@[i as int] != wanted);
                    }
                }
            }
            return Some(i);
        }
        i += 1;
    }
    None
}

/// Why a text is not a list of records of signed numbers.
#[derive(Copy, Clone, Debug, PartialEq, Eq, Structural)]
pub enum ParseError {
    /// The text holds no record at all.
    Empty,
    /// The text ends where a number should start.
    UnexpectedEnd,
    /// A number starts with this byte, which is no digit.
    ExpectedDigit(u8),
    /// No comma follows a number that is not the last of its record.
    MissingSeparator,
    /// A number does not fit in 32 bits.
    OutOfRange,
    /// Something other than a line ending follows the last number of a
    /// record.
    TrailingCharacters,
}

/// The first position at or after `pos` that holds no digit.
pub open spec fn digits_end(s: Seq<u8>, pos: int) -> int
    decreases s.len() - pos,
{
    if 0 <= pos < s.len() && is_digit(s[pos]) {
        digits_end(s, pos + 1)
    } else {
        pos
    }
}

/// The number that the decimal digits `s[start..end]` spell.
pub open spec fn digits_between(s: Seq<u8>, start: int, end: int) -> int
    decreases end - start,
{
    if start >= end {
        0
    } else {
        digits_between(s, start, end - 1) * 10 + (s[end - 1] - ZERO)
    }
}

/// A signed number at `pos`: an optional minus sign, then one or more
/// digits.
/// Gives the value and the position after the last digit.
pub open spec fn spec_int(s: Seq<u8>, pos: int) -> Result<(int, int), ParseError> {
    if pos >= s.len() {
        Err(ParseError::UnexpectedEnd)
    } else {
        let neg = s[pos] == MINUS;
        let start = if neg { pos + 1 } else { pos };
        if start >= s.len() {
            Err(ParseError::UnexpectedEnd)
        } else if !is_digit(s[start]) {
            Err(ParseError::ExpectedDigit(s[start]))
        } else {
            let end = digits_end(s, start);
            let magnitude = digits_between(s, start, end);
            let value = if neg { -magnitude } else { magnitude };
            if i32::MIN <= value <= i32::MAX {
                Ok((value, end))
            } else {
                Err(ParseError::OutOfRange)
            }
        }
    }
}

/// A comma at `pos`.
pub open spec fn spec_comma(s: Seq<u8>, pos: int) -> bool {
    0 <= pos < s.len() && s[pos] == COMMA
}

pub proof fn lemma_digits_end(s: Seq<u8>, pos: int)
    requires
        0 <= pos <= s.len(),
    ensures
        pos <= digits_end(s, pos) <= s.len(),
        forall|i: int| pos <= i < digits_end(s, pos) ==> is_digit(#[trigger] s[i]),
        digits_end(s, pos) < s.len() ==> !is_digit(s[digits_end(s, pos)]),
    decreases s.len() - pos,
{
    if pos < s.len() && is_digit(s[pos]) {
        lemma_digits_end(s, pos + 1);
    }
}

/// More digits never spell a smaller number.
pub proof fn lemma_digits_value_grows(s: Seq<u8>, start: int, mid: int, end: int)
    requires
        0 <= start <= mid <= end <= s.len(),
        forall|i: int| start <= i < end ==> is_digit(#[trigger] s[i]),
    ensures
        0 <= digits_between(s, start, mid) <= digits_between(s, start, end),
    decreases end - start,
{
    if mid < end {
        lemma_digits_value_grows(s, start, mid, end - 1);
    } else if start < end {
        lemma_digits_value_grows(s, start, mid - 1, end - 1);
    }
}

pub proof fn lemma_int_advances(s: Seq<u8>, pos: int)
    requires
        0 <= pos,
        spec_int(s, pos) is Ok,
    ensures
        pos < spec_int(s, pos).unwrap().1 <= s.len(),
{
    let start = if s[pos] == MINUS { pos + 1 } else { pos };
    lemma_digits_end(s, start + 1);
}

/// Passes the byte `expected` at `pos`, and gives the position after it.
pub fn expect_char(bytes: &[u8], pos: usize, expected: u8) -> (r: Result<usize, ParseError>)
    ensures
        match r {
            Ok(next) => pos < bytes.len() && bytes[pos as int] == expected && next == pos + 1,
            Err(e) => e == ParseError::MissingSeparator && !(pos < bytes.len() && bytes[pos as int]
                == expected),
        },
{
    if pos >= bytes.len() || bytes[pos] != expected {
        return Err(ParseError::MissingSeparator);
    }
    Ok(pos + 1)
}

/// Reads one signed number at `pos`.
pub fn parse_int(bytes: &[u8], pos: usize) -> (r: Result<(i32, usize), ParseError>)
    requires
        pos <= bytes.len(),
    ensures
        match (r, spec_int(bytes@, pos as int)) {
            (Ok((value, next)), Ok((v, n))) => value == v && next == n,
            (Err(e), Err(f)) => e == f,
            _ => false,
        },
{
    let len = bytes.len();
    if pos >= len {
        return Err(ParseError::UnexpectedEnd);
    }
    let neg = bytes[pos] == MINUS;
    let start: usize = if neg { pos + 1 } else { pos };
    if start >= len {
        return Err(ParseError::UnexpectedEnd);
    }
    let first = bytes[start];
    if !digit(first) {
        return Err(ParseError::ExpectedDigit(first));
    }
    let ghost end = digits_end(bytes@, start as int);
    proof {
        lemma_digits_end(bytes@, start as int);
    }
    let mut magnitude: i64 = 0;
    let mut idx: usize = start;
    while idx < len && digit(bytes[idx])
        invariant
            start <= idx <= end <= len,
            len == bytes.len(),
            pos < len,
            neg == (bytes@[pos as int] == MINUS),
            start == if neg { pos + 1 } else { pos as int },
            is_digit(bytes@[start as int]),
            end == digits_end(bytes@, start as int),
            forall|i: int| start <= i < end ==> is_digit(#[trigger] bytes@[i]),
            end < len ==> !is_digit(bytes@[end]),
            magnitude == digits_between(bytes@, start as int, idx as int),
            0 <= magnitude <= 2147483648,
        decreases len - idx,
    {
        let digit: i64 = (bytes[idx] - ZERO) as i64;
        magnitude = magnitude * 10 + digit;
        idx += 1;
        if magnitude > 2147483648 {
            proof {
                lemma_digits_value_grows(bytes@, start as int, idx as int, end);
            }
            return Err(ParseError::OutOfRange);
        }
    }
    if !neg && magnitude == 2147483648 {
        return Err(ParseError::OutOfRange);
    }
    let value: i64 = if neg { -magnitude } else { magnitude };
    Ok((value as i32, idx))
}


/// Blank, tab, line feed, vertical tab, form feed and carriage return.
pub open spec fn is_space(b: u8) -> bool {
    b == SPACE || (9 <= b <= 13)
}

/// Whether the byte is white space.
pub fn space(b: u8) -> (r: bool)
    ensures
        r == is_space(b),
{
    b == SPACE || (9 <= b && b <= 13)
}

/// The first position at or after `pos` that holds no white space.
pub open spec fn skip_spaces(line: Seq<u8>, pos: int) -> int
    decreases line.len() - pos,
{
    if 0 <= pos < line.len() && is_space(line[pos]) {
        skip_spaces(line, pos + 1)
    } else {
        pos
    }
}

/// The first position at or after `pos` that holds white space.
pub open spec fn skip_word(line: Seq<u8>, pos: int) -> int
    decreases line.len() - pos,
{
    if 0 <= pos < line.len() && !is_space(line[pos]) {
        skip_word(line, pos + 1)
    } else {
        pos
    }
}

/// The position after the last byte before `end` that is no white space,
/// or `from` if there is none from `from` on.
pub open spec fn trim_end(line: Seq<u8>, from: int, end: int) -> int
    decreases end - from,
{
    if end > from && 0 < end <= line.len() && is_space(line[end - 1]) {
        trim_end(line, from, end - 1)
    } else {
        end
    }
}

/// A line without the white space at both ends.
pub open spec fn trim(line: Seq<u8>) -> Seq<u8> {
    let start = skip_spaces(line, 0);
    if start >= line.len() {
        Seq::empty()
    } else {
        line.subrange(start, trim_end(line, start, line.len() as int))
    }
}

pub proof fn lemma_skip_spaces(line: Seq<u8>, pos: int)
    requires
        0 <= pos <= line.len(),
    ensures
        pos <= skip_spaces(line, pos) <= line.len(),
        skip_spaces(line, pos) < line.len() ==> !is_space(line[skip_spaces(line, pos)]),
    decreases line.len() - pos,
{
    if pos < line.len() && is_space(line[pos]) {
        lemma_skip_spaces(line, pos + 1);
    }
}

pub proof fn lemma_skip_word(line: Seq<u8>, pos: int)
    requires
        0 <= pos <= line.len(),
    ensures
        pos <= skip_word(line, pos) <= line.len(),
        pos < line.len() && !is_space(line[pos]) ==> pos < skip_word(line, pos),
    decreases line.len() - pos,
{
    if pos < line.len() && !is_space(line[pos]) {
        lemma_skip_word(line, pos + 1);
    }
}

pub proof fn lemma_trim_end(line: Seq<u8>, from: int, end: int)
    requires
        0 <= from <= end <= line.len(),
    ensures
        from <= trim_end(line, from, end) <= end,
    decreases end - from,
{
    if end > from && is_space(line[end - 1]) {
        lemma_trim_end(line, from, end - 1);
    }
}

/// The words of a line from `pos` on, after those in `acc`: the runs of
/// bytes that are no white space.
pub open spec fn words_from(line: Seq<u8>, pos: int, acc: Seq<Seq<u8>>) -> Seq<Seq<u8>>
    decreases line.len() - pos,
{
    if pos < 0 || pos > line.len() {
        acc
    } else {
        let start = skip_spaces(line, pos);
        if start >= line.len() {
            acc
        } else {
            let end = skip_word(line, start);
            proof {
                lemma_skip_spaces(line, pos);
                lemma_skip_word(line, start);
            }
            words_from(line, end, acc.push(line.subrange(start, end)))
        }
    }
}

/// Takes the white space off both ends of a line.
pub fn trim_slice<'a>(line: &'a [u8]) -> (r: &'a [u8])
    ensures
        r@ == trim(line@),
{
    let len: usize = line.len();
    let mut start: usize = 0;
    while start < len && space(line[start])
        invariant
            start <= len,
            len == line.len(),
            skip_spaces(line@, 0) == skip_spaces(line@, start as int),
        decreases len - start,
    {
        start += 1;
    }
    if start >= len {
        let r = &line[0..0];
        proof {
            assert(r@ =~= Seq::<u8>::empty());
        }
        return r;
    }
    let mut end: usize = len;
    while end > start && space(line[end - 1])
        invariant
            start <= end <= len,
            len == line.len(),
            trim_end(line@, start as int, len as int) == trim_end(line@, start as int, end as int),
        decreases end,
    {
        end -= 1;
    }
    &line[start..end]
}

/// What each of the slices holds.
pub open spec fn word_views(words: Seq<&[u8]>) -> Seq<Seq<u8>> {
    Seq::new(words.len(), |i: int| words[i]@)
}

/// The words of a line from `from` on.
pub fn split_words<'a>(line: &'a [u8], from: usize) -> (words: Vec<&'a [u8]>)
    requires
        from <= line.len(),
    ensures
        word_views(words@) == words_from(line@, from as int, Seq::empty()),
{
    let len: usize = line.len();
    let mut words: Vec<&'a [u8]> = Vec::new();
    let mut pos: usize = from;
    proof {
        assert(word_views(words@) =~= Seq::<Seq<u8>>::empty());
    }
    loop
        invariant
            from <= pos <= len,
            len == line.len(),
            words_from(line@, from as int, Seq::empty()) == words_from(
                line@,
                pos as int,
                word_views(words@),
            ),
        ensures
            word_views(words@) == words_from(line@, from as int, Seq::empty()),
        decreases len - pos,
    {
        let ghost at = pos;
        while pos < len && space(line[pos])
            invariant
                at <= pos <= len,
                len == line.len(),
                skip_spaces(line@, at as int) == skip_spaces(line@, pos as int),
            decreases len - pos,
        {
            pos += 1;
        }
        if pos >= len {
            break;
        }
        let start: usize = pos;
        while pos < len && !space(line[pos])
            invariant
                start <= pos <= len,
                len == line.len(),
                skip_word(line@, start as int) == skip_word(line@, pos as int),
            decreases len - pos,
        {
            pos += 1;
        }
        proof {
            lemma_skip_word(line@, start as int);
        }
        let ghost before = word_views(words@);
        words.push(&line[start..pos]);
        proof {
            assert(word_views(words@) =~= before.push(line@.subrange(start as int, pos as int)));
        }
    }
    words
}

/// Whether two slices hold the same bytes.
pub fn same_bytes(a: &[u8], b: &[u8]) -> (r: bool)
    ensures
        r == (a@ == b@),
{
    if a.len() != b.len() {
        return false;
    }
    let mut i: usize = 0;
    while i < a.len()
        invariant
            i <= a.len(),
            a.len() == b.len(),
            forall|j: int| 0 <= j < i ==> a[j] == b[j],
        decreases a.len() - i,
    {
        if a[i] != b[i] {
            return false;
        }
        i += 1;
    }
    proof {
        assert(a@ =~= b@);
    }
    true
}


} // verus!
