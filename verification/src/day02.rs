//! Numbers that are made of one block of digits written several times.
//!
//! The text lists ranges `a-b`, with commas between them. The first
//! answer adds up the numbers in the ranges that are a block of digits
//! written twice, such as 6464. The second adds up those that are a block
//! written two or more times, such as 121212. A block starts with no
//! zero, and a number in several ranges is counted once.

use vstd::prelude::*;
use vstd::string::StringSliceAdditionalSpecFns;
use crate::ascii::{digit, is_digit, COMMA, CR, LF, MINUS, SPACE, ZERO};
use vstd::arithmetic::div_mod::{lemma_fundamental_div_mod, lemma_fundamental_div_mod_converse};
use crate::ranges::{all_valid, covered, merge_ranges, separated};

verus! {

/// Why a text has no answer.
#[derive(Copy, Clone, Debug, PartialEq, Eq, Structural)]
pub enum Error {
    /// This byte stands in the start of a range and is no digit.
    InvalidStart(u8),
    /// This byte stands in the end of a range and is no digit.
    InvalidEnd(u8),
    /// A range has no digit before its `-`.
    MissingStart,
    /// A range has no digit after its `-`, or no `-`.
    MissingEnd,
    /// The start of a range does not fit in 64 bits.
    StartOverflow,
    /// The end of a range does not fit in 64 bits.
    EndOverflow,
    /// A range starts after its end.
    Reversed,
    /// A sum does not fit in 128 bits.
    SumOverflow,
}

/// Comma, line feed, carriage return and blank stand between ranges.
pub open spec fn is_separator(b: u8) -> bool {
    b == COMMA || b == LF || b == CR || b == SPACE
}

/// The first position at or after `pos` that holds no separator.
pub open spec fn skip_separators(s: Seq<u8>, pos: int) -> int
    decreases s.len() - pos,
{
    if 0 <= pos < s.len() && is_separator(s[pos]) {
        skip_separators(s, pos + 1)
    } else {
        pos
    }
}

/// The start of a range from `pos` on, after the digits that gave `acc`:
/// the number, and the position after the `-` or the end of the text.
pub open spec fn spec_start(s: Seq<u8>, pos: int, acc: int, found: bool) -> Result<(int, int), Error>
    decreases s.len() - pos,
{
    if pos < 0 || pos >= s.len() {
        if found {
            Ok((acc, pos))
        } else {
            Err(Error::MissingStart)
        }
    } else if s[pos] == MINUS {
        if found {
            Ok((acc, pos + 1))
        } else {
            Err(Error::MissingStart)
        }
    } else if !is_digit(s[pos]) {
        Err(Error::InvalidStart(s[pos]))
    } else if acc * 10 + (s[pos] - ZERO) > u64::MAX {
        Err(Error::StartOverflow)
    } else {
        spec_start(s, pos + 1, acc * 10 + (s[pos] - ZERO), true)
    }
}

/// The end of a range from `pos` on, after the digits that gave `acc`:
/// the number, and the position after the comma or line ending that
/// follows it. Blanks are passed over.
pub open spec fn spec_end(s: Seq<u8>, pos: int, acc: int, found: bool) -> Result<(int, int), Error>
    decreases s.len() - pos,
{
    if pos < 0 || pos >= s.len() {
        if found {
            Ok((acc, pos))
        } else {
            Err(Error::MissingEnd)
        }
    } else if s[pos] == COMMA || s[pos] == LF || s[pos] == CR {
        if found {
            Ok((acc, pos + 1))
        } else {
            Err(Error::MissingEnd)
        }
    } else if s[pos] == SPACE {
        spec_end(s, pos + 1, acc, found)
    } else if !is_digit(s[pos]) {
        Err(Error::InvalidEnd(s[pos]))
    } else if acc * 10 + (s[pos] - ZERO) > u64::MAX {
        Err(Error::EndOverflow)
    } else {
        spec_end(s, pos + 1, acc * 10 + (s[pos] - ZERO), true)
    }
}

pub proof fn lemma_skip_separators(s: Seq<u8>, pos: int)
    requires
        0 <= pos,
    ensures
        pos <= skip_separators(s, pos),
        skip_separators(s, pos) <= s.len() || skip_separators(s, pos) == pos,
    decreases s.len() - pos,
{
    if pos < s.len() && is_separator(s[pos]) {
        lemma_skip_separators(s, pos + 1);
    }
}

pub proof fn lemma_start_advances(s: Seq<u8>, pos: int, acc: int, found: bool)
    requires
        0 <= pos <= s.len(),
        0 <= acc <= u64::MAX,
        spec_start(s, pos, acc, found) is Ok,
    ensures
        pos <= spec_start(s, pos, acc, found).unwrap().1 <= s.len(),
        !found ==> pos < spec_start(s, pos, acc, found).unwrap().1,
        0 <= spec_start(s, pos, acc, found).unwrap().0 <= u64::MAX,
    decreases s.len() - pos,
{
    if pos < s.len() && s[pos] != MINUS {
        lemma_start_advances(s, pos + 1, acc * 10 + (s[pos] - ZERO), true);
    }
}

pub proof fn lemma_end_advances(s: Seq<u8>, pos: int, acc: int, found: bool)
    requires
        0 <= pos <= s.len(),
        0 <= acc <= u64::MAX,
        spec_end(s, pos, acc, found) is Ok,
    ensures
        pos <= spec_end(s, pos, acc, found).unwrap().1 <= s.len(),
        0 <= spec_end(s, pos, acc, found).unwrap().0 <= u64::MAX,
    decreases s.len() - pos,
{
    if pos < s.len() && !(s[pos] == COMMA || s[pos] == LF || s[pos] == CR) {
        if s[pos] == SPACE {
            lemma_end_advances(s, pos + 1, acc, found);
        } else {
            lemma_end_advances(s, pos + 1, acc * 10 + (s[pos] - ZERO), true);
        }
    }
}

/// The ranges from `pos` to the end of the text, after those in `acc`.
pub open spec fn spec_ranges(s: Seq<u8>, pos: int, acc: Seq<(u64, u64)>) -> Result<
    Seq<(u64, u64)>,
    Error,
>
    decreases s.len() - pos,
{
    let from = skip_separators(s, pos);
    if pos < 0 || from >= s.len() {
        Ok(acc)
    } else {
        match spec_start(s, from, 0, false) {
            Err(e) => Err(e),
            Ok((start, after_start)) => match spec_end(s, after_start, 0, false) {
                Err(e) => Err(e),
                Ok((end, next)) => if start > end {
                    Err(Error::Reversed)
                } else {
                    proof {
                        lemma_skip_separators(s, pos);
                        lemma_start_advances(s, from, 0, false);
                        lemma_end_advances(s, after_start, 0, false);
                    }
                    spec_ranges(s, next, acc.push((start as u64, end as u64)))
                },
            },
        }
    }
}

/// The ranges that a text lists.
pub open spec fn spec_parse_ranges(s: Seq<u8>) -> Result<Seq<(u64, u64)>, Error> {
    spec_ranges(s, 0, Seq::empty())
}

/// Reads the start of a range.
fn parse_start(bytes: &[u8], from: usize) -> (r: Result<(u64, usize), Error>)
    requires
        from <= bytes.len(),
    ensures
        match (r, spec_start(bytes@, from as int, 0, false)) {
            (Ok((value, next)), Ok((v, n))) => value == v && next == n && from < next
                <= bytes.len(),
            (Err(e), Err(f)) => e == f,
            _ => false,
        },
{
    let len = bytes.len();
    let mut value: u64 = 0;
    let mut found = false;
    let mut i: usize = from;
    while i < len
        invariant
            from <= i <= len,
            len == bytes.len(),
            found == (i > from),
            spec_start(bytes@, from as int, 0, false) == spec_start(
                bytes@,
                i as int,
                value as int,
                found,
            ),
        decreases len - i,
    {
        let b = bytes[i];
        if b == MINUS {
            if !found {
                return Err(Error::MissingStart);
            }
            return Ok((value, i + 1));
        }
        if !digit(b) {
            return Err(Error::InvalidStart(b));
        }
        let d: u64 = (b - ZERO) as u64;
        if value > (u64::MAX - d) / 10 {
            return Err(Error::StartOverflow);
        }
        value = value * 10 + d;
        found = true;
        i += 1;
    }
    if !found {
        return Err(Error::MissingStart);
    }
    Ok((value, i))
}

/// Reads the end of a range.
fn parse_end(bytes: &[u8], from: usize) -> (r: Result<(u64, usize), Error>)
    requires
        from <= bytes.len(),
    ensures
        match (r, spec_end(bytes@, from as int, 0, false)) {
            (Ok((value, next)), Ok((v, n))) => value == v && next == n && from <= next
                <= bytes.len(),
            (Err(e), Err(f)) => e == f,
            _ => false,
        },
{
    let len = bytes.len();
    let mut value: u64 = 0;
    let mut found = false;
    let mut i: usize = from;
    while i < len
        invariant
            from <= i <= len,
            len == bytes.len(),
            spec_end(bytes@, from as int, 0, false) == spec_end(
                bytes@,
                i as int,
                value as int,
                found,
            ),
        decreases len - i,
    {
        let b = bytes[i];
        if b == COMMA || b == LF || b == CR {
            if !found {
                return Err(Error::MissingEnd);
            }
            return Ok((value, i + 1));
        }
        if b != SPACE {
            if !digit(b) {
                return Err(Error::InvalidEnd(b));
            }
            let d: u64 = (b - ZERO) as u64;
            if value > (u64::MAX - d) / 10 {
                return Err(Error::EndOverflow);
            }
            value = value * 10 + d;
            found = true;
        }
        i += 1;
    }
    if !found {
        return Err(Error::MissingEnd);
    }
    Ok((value, i))
}

/// Reads the ranges of a text.
pub fn parse_ranges(bytes: &[u8]) -> (r: Result<Vec<(u64, u64)>, Error>)
    ensures
        match (r, spec_parse_ranges(bytes@)) {
            (Ok(ranges), Ok(s)) => ranges@ == s && all_valid(ranges@),
            (Err(e), Err(f)) => e == f,
            _ => false,
        },
{
    let len = bytes.len();
    let mut ranges: Vec<(u64, u64)> = Vec::new();
    let mut i: usize = 0;
    loop
        invariant
            i <= len,
            len == bytes.len(),
            all_valid(ranges@),
            spec_ranges(bytes@, 0, Seq::empty()) == spec_ranges(bytes@, i as int, ranges@),
        ensures
            all_valid(ranges@),
            spec_ranges(bytes@, 0, Seq::empty()) == Ok::<Seq<(u64, u64)>, Error>(ranges@),
        decreases len - i,
    {
        let ghost from = i;
        while i < len && (bytes[i] == COMMA || bytes[i] == LF || bytes[i] == CR || bytes[i]
            == SPACE)
            invariant
                from <= i <= len,
                len == bytes.len(),
                skip_separators(bytes@, from as int) == skip_separators(bytes@, i as int),
            decreases len - i,
        {
            i += 1;
        }
        if i >= len {
            break;
        }
        let (start, after_start) = match parse_start(bytes, i) {
            Ok(found) => found,
            Err(e) => {
                return Err(e);
            },
        };
        let (end, next) = match parse_end(bytes, after_start) {
            Ok(found) => found,
            Err(e) => {
                return Err(e);
            },
        };
        if start > end {
            return Err(Error::Reversed);
        }
        ranges.push((start, end));
        i = next;
    }
    Ok(ranges)
}

/// The longest number that fits in 64 bits has this many digits.
pub const MAX_DIGITS: usize = 20;

/// Ten to the power `e`.
pub open spec fn pow10(e: nat) -> nat
    decreases e,
{
    if e == 0 {
        1
    } else {
        10 * pow10((e - 1) as nat)
    }
}

/// The number that the digit one spells when it is written `reps` times
/// with `len - 1` zeros before each one: the block 1 of `len` digits,
/// written `reps` times.
pub open spec fn repunit(len: nat, reps: nat) -> nat
    decreases reps,
{
    if reps == 0 {
        0
    } else {
        repunit(len, (reps - 1) as nat) * pow10(len) + 1
    }
}

/// A number of `len` digits that starts with no zero.
pub open spec fn is_block(b: int, len: nat) -> bool {
    len >= 1 && pow10((len - 1) as nat) <= b < pow10(len)
}

/// The number that a block spells when it is written as often as the
/// repunit has ones.
pub open spec fn times(b: int, unit: int) -> int {
    b * unit
}

/// `n` is a block of `len` digits written `reps` times.
pub open spec fn is_repeat(n: int, len: nat, reps: nat) -> bool {
    len >= 1 && reps >= 2 && exists|b: int|
        is_block(b, len) && n == #[trigger] times(b, repunit(len, reps) as int)
}

/// A shape that a number of at most twenty digits can have: blocks of
/// `len` digits, `reps` times.
pub open spec fn is_shape(len: nat, reps: nat) -> bool {
    len >= 1 && reps >= 2 && len * reps <= MAX_DIGITS
}

/// The shape comes before the other: its blocks are shorter, or as long
/// and fewer.
pub open spec fn shape_before(len: nat, reps: nat, other_len: nat, other_reps: nat) -> bool {
    len < other_len || (len == other_len && reps < other_reps)
}

/// `n` has the shape, and none that comes before it.
pub open spec fn first_shape(n: int, len: nat, reps: nat) -> bool {
    &&& is_shape(len, reps)
    &&& is_repeat(n, len, reps)
    &&& forall|l: nat, r: nat|
        is_shape(l, r) && shape_before(l, r, len, reps) ==> !#[trigger] is_repeat(n, l, r)
}

/// `n` is a block written twice.
pub open spec fn is_doubled(n: int) -> bool {
    exists|len: nat| 1 <= len <= 10 && #[trigger] is_repeat(n, len, 2)
}

pub proof fn lemma_pow10_positive(e: nat)
    ensures
        pow10(e) >= 1,
        e >= 1 ==> pow10(e) >= 10,
    decreases e,
{
    if e > 0 {
        lemma_pow10_positive((e - 1) as nat);
    }
}

pub proof fn lemma_pow10_add(a: nat, b: nat)
    ensures
        pow10(a + b) == pow10(a) * pow10(b),
    decreases a,
{
    if a > 0 {
        lemma_pow10_add((a - 1) as nat, b);
        let less = pow10((a - 1) as nat) as int;
        let other = pow10(b) as int;
        assert(((a - 1) as nat + b) as nat == (a + b - 1) as nat);
        assert(pow10(a + b) == 10 * pow10((a + b - 1) as nat));
        assert(pow10(a) == 10 * less);
        assert(10 * (less * other) == (10 * less) * other) by (nonlinear_arith);
    } else {
        assert(1 * pow10(b) == pow10(b));
    }
}

pub proof fn lemma_pow10_monotone(a: nat, b: nat)
    requires
        a <= b,
    ensures
        pow10(a) <= pow10(b),
    decreases b,
{
    if a < b {
        lemma_pow10_monotone(a, (b - 1) as nat);
        lemma_pow10_positive((b - 1) as nat);
    }
}

/// A repunit is no larger than twice the power of ten of its first one.
pub proof fn lemma_repunit_bound(len: nat, reps: nat)
    requires
        len >= 1,
        reps >= 1,
    ensures
        pow10(len * (reps - 1) as nat) <= repunit(len, reps) <= 2 * pow10(len * (reps - 1) as nat)
            - 1,
    decreases reps,
{
    if reps == 1 {
        assert(len * 0 == 0);
        assert(repunit(len, 0) == 0);
        assert(repunit(len, 1) == 0 * pow10(len) + 1);
    } else {
        lemma_repunit_bound(len, (reps - 1) as nat);
        let before = (len * (reps - 2)) as nat;
        assert(len * (reps - 1) == len * (reps - 2) + len) by (nonlinear_arith);
        lemma_pow10_add(before, len);
        lemma_pow10_positive(len);
        lemma_pow10_positive(before);
        let unit = repunit(len, (reps - 1) as nat) as int;
        let p = pow10(len) as int;
        let q = pow10(before) as int;
        assert(q * p <= unit * p && unit * p <= (2 * q - 1) * p) by (nonlinear_arith)
            requires
                q <= unit <= 2 * q - 1,
                p >= 1,
        ;
        assert((2 * q - 1) * p == 2 * (q * p) - p) by (nonlinear_arith);
    }
}

/// Ten to the power twenty, and that it fits in 128 bits many times over.
pub proof fn lemma_pow10_twenty()
    ensures
        pow10(20) == 100_000_000_000_000_000_000,
{
    reveal_with_fuel(pow10, 21);
}

/// The powers of ten up to the twentieth.
pub fn pow10_table() -> (table: Vec<u128>)
    ensures
        table.len() == MAX_DIGITS + 1,
        forall|e: int| 0 <= e <= MAX_DIGITS ==> #[trigger] table[e] == pow10(e as nat),
{
    let mut table: Vec<u128> = Vec::new();
    table.push(1);
    let mut e: usize = 1;
    while e <= MAX_DIGITS
        invariant
            1 <= e <= MAX_DIGITS + 1,
            table.len() == e,
            forall|k: int| 0 <= k < e ==> #[trigger] table[k] == pow10(k as nat),
        decreases MAX_DIGITS + 1 - e,
    {
        proof {
            lemma_pow10_monotone((e - 1) as nat, 19);
            lemma_pow10_twenty();
            assert(pow10(20) == 10 * pow10(19));
        }
        let next: u128 = table[e - 1] * 10;
        table.push(next);
        e += 1;
    }
    table
}

/// The repunit of a shape.
pub fn repunit_of(table: &Vec<u128>, len: usize, reps: usize) -> (unit: u128)
    requires
        table.len() == MAX_DIGITS + 1,
        forall|e: int| 0 <= e <= MAX_DIGITS ==> #[trigger] table[e] == pow10(e as nat),
        len >= 1,
        reps >= 1,
        len * reps <= MAX_DIGITS,
    ensures
        unit == repunit(len as nat, reps as nat),
        1 <= unit < 200_000_000_000_000_000_000,
{
    let mut unit: u128 = 0;
    let mut k: usize = 0;
    while k < reps
        invariant
            k <= reps,
            len >= 1,
            len * reps <= MAX_DIGITS,
            table.len() == MAX_DIGITS + 1,
            forall|e: int| 0 <= e <= MAX_DIGITS ==> #[trigger] table[e] == pow10(e as nat),
            unit == repunit(len as nat, k as nat),
            unit < 200_000_000_000_000_000_000,
            k >= 1 ==> unit >= 1,
        decreases reps - k,
    {
        proof {
            lemma_repunit_bound(len as nat, (k + 1) as nat);
            assert(len * k <= len * reps - len) by (nonlinear_arith)
                requires
                    k + 1 <= reps,
                    len >= 1,
            ;
            lemma_pow10_monotone((len * k) as nat, 20);
            lemma_pow10_monotone(len as nat, 20);
            lemma_pow10_twenty();
            lemma_pow10_positive((len * k) as nat);
            assert(unit * pow10(len as nat) + 1 == repunit(len as nat, (k + 1) as nat));
        }
        unit = unit * table[len] + 1;
        k += 1;
    }
    unit
}

/// Whether `n` is a block of `len` digits written `reps` times.
pub fn has_shape(table: &Vec<u128>, n: u64, len: usize, reps: usize) -> (r: bool)
    requires
        table.len() == MAX_DIGITS + 1,
        forall|e: int| 0 <= e <= MAX_DIGITS ==> #[trigger] table[e] == pow10(e as nat),
        len >= 1,
        reps >= 2,
        len * reps <= MAX_DIGITS,
    ensures
        r == is_repeat(n as int, len as nat, reps as nat),
{
    proof {
        assert(len <= 10) by (nonlinear_arith)
            requires
                len * reps <= 20,
                reps >= 2,
        ;
    }
    let unit = repunit_of(table, len, reps);
    let block: u128 = (n as u128) / unit;
    let rest: u128 = (n as u128) % unit;
    let r = rest == 0 && table[len - 1] <= block && block < table[len];
    proof {
        lemma_fundamental_div_mod(n as int, unit as int);
        assert(unit * block == block * unit) by (nonlinear_arith);
        if r {
            assert(n == times(block as int, unit as int));
            assert(is_block(block as int, len as nat));
        }
        if is_repeat(n as int, len as nat, reps as nat) {
            let b = choose|b: int|
                is_block(b, len as nat) && n == #[trigger] times(
                    b,
                    repunit(len as nat, reps as nat) as int,
                );
            lemma_pow10_positive((len - 1) as nat);
            assert(b * unit == unit * b) by (nonlinear_arith);
            lemma_fundamental_div_mod_converse(n as int, unit as int, b, 0);
        }
    }
    r
}

/// A block length and a number of repeats make a shape exactly if the
/// repeats are no more than twenty divided by the length.
pub proof fn lemma_shape_bound(len: nat, reps: nat)
    requires
        1 <= len <= 20,
    ensures
        len * reps <= 20 <==> reps <= 20int / (len as int),
{
    lemma_fundamental_div_mod(20, len as int);
    let q = 20int / (len as int);
    let r = 20int % (len as int);
    if reps <= q {
        assert(len * reps <= len * q) by (nonlinear_arith)
            requires
                reps <= q,
                len >= 1,
        ;
    } else {
        assert(len * reps >= len * (q + 1)) by (nonlinear_arith)
            requires
                reps >= q + 1,
                len >= 1,
        ;
        assert(len * (q + 1) == len * q + len) by (nonlinear_arith);
    }
}

/// Whether `n` has no shape that comes before the given one.
pub fn no_earlier_shape(table: &Vec<u128>, n: u64, len: usize, reps: usize) -> (r: bool)
    requires
        table.len() == MAX_DIGITS + 1,
        forall|e: int| 0 <= e <= MAX_DIGITS ==> #[trigger] table[e] == pow10(e as nat),
        is_shape(len as nat, reps as nat),
    ensures
        r == forall|l: nat, k: nat|
            is_shape(l, k) && shape_before(l, k, len as nat, reps as nat) ==> !#[trigger] is_repeat(
                n as int,
                l,
                k,
            ),
{
    proof {
        assert(len <= 10) by (nonlinear_arith)
            requires
                len * reps <= 20,
                reps >= 2,
        ;
    }
    let mut l: usize = 1;
    while l <= len
        invariant
            1 <= l <= len + 1,
            len <= 10,
            is_shape(len as nat, reps as nat),
            table.len() == MAX_DIGITS + 1,
            forall|e: int| 0 <= e <= MAX_DIGITS ==> #[trigger] table[e] == pow10(e as nat),
            forall|a: nat, k: nat|
                is_shape(a, k) && a < l && shape_before(a, k, len as nat, reps as nat)
                    ==> !#[trigger] is_repeat(n as int, a, k),
        decreases len + 1 - l,
    {
        proof {
            lemma_shape_bound(l as nat, 2);
        }
        let last: usize = if l == len { reps - 1 } else { MAX_DIGITS / l };
        let mut k: usize = 2;
        while k <= last
            invariant
                2 <= k <= last + 1,
                1 <= l <= len,
                len <= 10,
                last == if l == len { reps - 1 } else { (MAX_DIGITS / l) as int },
                is_shape(len as nat, reps as nat),
                table.len() == MAX_DIGITS + 1,
                forall|e: int| 0 <= e <= MAX_DIGITS ==> #[trigger] table[e] == pow10(e as nat),
                forall|a: nat, b: nat|
                    is_shape(a, b) && a < l && shape_before(a, b, len as nat, reps as nat)
                        ==> !#[trigger] is_repeat(n as int, a, b),
                forall|b: nat|
                    is_shape(l as nat, b) && b < k ==> !#[trigger] is_repeat(n as int, l as nat, b),
            decreases last + 1 - k,
        {
            proof {
                lemma_shape_bound(l as nat, k as nat);
                lemma_shape_bound(l as nat, reps as nat);
            }
            if has_shape(table, n, l, k) {
                proof {
                    assert(is_shape(l as nat, k as nat));
                    assert(shape_before(l as nat, k as nat, len as nat, reps as nat));
                }
                return false;
            }
            k += 1;
        }
        proof {
            assert forall|a: nat, b: nat|
                is_shape(a, b) && a < l + 1 && shape_before(
                    a,
                    b,
                    len as nat,
                    reps as nat,
                ) implies !#[trigger] is_repeat(n as int, a, b) by {
                if a == l {
                    lemma_shape_bound(l as nat, b);
                    assert(b < k);
                }
            }
        }
        l += 1;
    }
    true
}

/// Whether `n` is a block written twice.
pub fn has_double_representation(table: &Vec<u128>, n: u64) -> (r: bool)
    requires
        table.len() == MAX_DIGITS + 1,
        forall|e: int| 0 <= e <= MAX_DIGITS ==> #[trigger] table[e] == pow10(e as nat),
    ensures
        r == is_doubled(n as int),
{
    let mut len: usize = 1;
    while len <= 10
        invariant
            1 <= len <= 11,
            table.len() == MAX_DIGITS + 1,
            forall|e: int| 0 <= e <= MAX_DIGITS ==> #[trigger] table[e] == pow10(e as nat),
            forall|l: nat| 1 <= l < len ==> !#[trigger] is_repeat(n as int, l, 2),
        decreases 11 - len,
    {
        if has_shape(table, n, len, 2) {
            return true;
        }
        len += 1;
    }
    false
}

/// A number that the sum of a shape counts: one that has this shape
/// first, and for the sum of doubled numbers one that is doubled.
pub open spec fn counts(n: int, len: nat, reps: nat, only_doubled: bool) -> bool {
    first_shape(n, len, reps) && (only_doubled ==> is_doubled(n))
}

/// What a number adds to the sum of a shape.
pub open spec fn share(n: int, len: nat, reps: nat, only_doubled: bool) -> int {
    if counts(n, len, reps, only_doubled) {
        n
    } else {
        0
    }
}

/// The numbers from `from` up to but not `upto` that the sum of a shape
/// counts, added up.
pub open spec fn sum_numbers(len: nat, reps: nat, only_doubled: bool, from: int, upto: int) -> int
    decreases upto - from,
{
    if upto <= from {
        0
    } else {
        sum_numbers(len, reps, only_doubled, from, upto - 1) + share(
            upto - 1,
            len,
            reps,
            only_doubled,
        )
    }
}

/// The numbers made of the blocks from `from` up to but not `upto` that
/// the sum of a shape counts, added up.
pub open spec fn sum_blocks(len: nat, reps: nat, only_doubled: bool, from: int, upto: int) -> int
    decreases upto - from,
{
    if upto <= from {
        0
    } else {
        sum_blocks(len, reps, only_doubled, from, upto - 1) + share(
            (upto - 1) * repunit(len, reps),
            len,
            reps,
            only_doubled,
        )
    }
}

/// The first block at or after `x` divided by the repunit, but no block
/// before the first of `len` digits, and at most the one after the last.
pub open spec fn block_from(len: nat, reps: nat, x: int) -> int {
    let unit = repunit(len, reps) as int;
    let up = if x % unit == 0 { x / unit } else { x / unit + 1 };
    let first = pow10((len - 1) as nat) as int;
    let end = pow10(len) as int;
    if up < first {
        first
    } else if up > end {
        end
    } else {
        up
    }
}

/// The numbers of a shape between two bounds are those made of the
/// blocks between the bounds divided by the repunit.
pub proof fn lemma_numbers_are_blocks(len: nat, reps: nat, only_doubled: bool, from: int, upto: int)
    requires
        is_shape(len, reps),
        0 <= from <= upto,
    ensures
        sum_numbers(len, reps, only_doubled, from, upto) == sum_blocks(
            len,
            reps,
            only_doubled,
            block_from(len, reps, from),
            block_from(len, reps, upto),
        ),
        block_from(len, reps, from) <= block_from(len, reps, upto),
    decreases upto - from,
{
    let unit = repunit(len, reps) as int;
    lemma_repunit_bound(len, reps);
    lemma_pow10_positive((len * (reps - 1)) as nat);
    lemma_pow10_positive((len - 1) as nat);
    assert(pow10(len) == 10 * pow10((len - 1) as nat));
    if from < upto {
        let m = upto - 1;
        lemma_numbers_are_blocks(len, reps, only_doubled, from, m);
        lemma_fundamental_div_mod(m, unit);
        lemma_fundamental_div_mod(m + 1, unit);
        let q = m / unit;
        let r = m % unit;
        assert(unit * q == q * unit) by (nonlinear_arith);
        if r + 1 < unit {
            lemma_fundamental_div_mod_converse(m + 1, unit, q, r + 1);
        } else {
            assert(unit * (q + 1) == unit * q + unit) by (nonlinear_arith);
            lemma_fundamental_div_mod_converse(m + 1, unit, q + 1, 0);
        }
        if counts(m, len, reps, only_doubled) {
            let b = choose|b: int| is_block(b, len) && m == #[trigger] times(b, unit);
            assert(b * unit == unit * b) by (nonlinear_arith);
            lemma_fundamental_div_mod_converse(m, unit, b, 0);
        }
        let low = block_from(len, reps, m);
        let high = block_from(len, reps, upto);
        if high == low + 1 {
            assert(r == 0 && low == q);
            assert(low * unit == m);
        } else {
            assert(high == low);
            if counts(m, len, reps, only_doubled) {
                assert(false);
            }
        }
    }
}

/// One more than the largest number of 64 bits.
pub open spec fn limit() -> int {
    0x1_0000_0000_0000_0000
}

/// The numbers below `upto` that some range holds and the sum of a shape
/// counts, added up.
pub open spec fn sum_covered(
    ranges: Seq<(u64, u64)>,
    len: nat,
    reps: nat,
    only_doubled: bool,
    upto: int,
) -> int
    decreases upto,
{
    if upto <= 0 {
        0
    } else {
        sum_covered(ranges, len, reps, only_doubled, upto - 1) + if covered(ranges, upto - 1) {
            share(upto - 1, len, reps, only_doubled)
        } else {
            0
        }
    }
}

/// The sums of a shape over the first `k` ranges, each range for itself,
/// added up.
pub open spec fn sum_ranges(
    ranges: Seq<(u64, u64)>,
    len: nat,
    reps: nat,
    only_doubled: bool,
    k: int,
) -> int
    decreases k,
{
    if k <= 0 {
        0
    } else {
        sum_ranges(ranges, len, reps, only_doubled, k - 1) + sum_numbers(
            len,
            reps,
            only_doubled,
            ranges[k - 1].0 as int,
            ranges[k - 1].1 + 1,
        )
    }
}

/// The sums of the shapes with blocks of `len` digits and fewer than
/// `upto` repeats, added up.
pub open spec fn sum_reps(ranges: Seq<(u64, u64)>, len: nat, only_doubled: bool, upto: int) -> int
    decreases upto,
{
    if upto <= 2 {
        0
    } else {
        sum_reps(ranges, len, only_doubled, upto - 1) + sum_covered(
            ranges,
            len,
            (upto - 1) as nat,
            only_doubled,
            limit(),
        )
    }
}

/// The sums of the shapes with blocks of fewer than `upto` digits, added
/// up.
pub open spec fn sum_lens(ranges: Seq<(u64, u64)>, only_doubled: bool, upto: int) -> int
    decreases upto,
{
    if upto <= 1 {
        0
    } else {
        sum_lens(ranges, only_doubled, upto - 1) + sum_reps(
            ranges,
            (upto - 1) as nat,
            only_doubled,
            20int / (upto - 1) + 1,
        )
    }
}

/// The answer for a list of ranges: over all shapes, the numbers in the
/// ranges that have the shape first, added up; for the first answer
/// those of them only that are a block written twice.
pub open spec fn spec_total(ranges: Seq<(u64, u64)>, only_doubled: bool) -> int {
    sum_lens(ranges, only_doubled, 11)
}

pub proof fn lemma_share_bounds(n: int, len: nat, reps: nat, only_doubled: bool)
    ensures
        0 <= share(n, len, reps, only_doubled),
{
    if counts(n, len, reps, only_doubled) {
        let b = choose|b: int|
            is_block(b, len) && n == #[trigger] times(b, repunit(len, reps) as int);
        lemma_pow10_positive((len - 1) as nat);
        assert(b * repunit(len, reps) >= 0) by (nonlinear_arith)
            requires
                b >= 0,
                repunit(len, reps) >= 0,
        ;
    }
}

pub proof fn lemma_sum_blocks_grows(len: nat, reps: nat, d: bool, from: int, mid: int, upto: int)
    requires
        from <= mid <= upto,
    ensures
        0 <= sum_blocks(len, reps, d, from, mid) <= sum_blocks(len, reps, d, from, upto),
    decreases upto - from,
{
    if mid < upto {
        lemma_sum_blocks_grows(len, reps, d, from, mid, upto - 1);
        lemma_share_bounds((upto - 1) * repunit(len, reps), len, reps, d);
    } else if from < mid {
        lemma_sum_blocks_grows(len, reps, d, from, mid - 1, upto - 1);
        lemma_share_bounds((upto - 1) * repunit(len, reps), len, reps, d);
    }
}

pub proof fn lemma_sum_numbers_nonnegative(len: nat, reps: nat, d: bool, from: int, upto: int)
    ensures
        0 <= sum_numbers(len, reps, d, from, upto),
    decreases upto - from,
{
    if from < upto {
        lemma_sum_numbers_nonnegative(len, reps, d, from, upto - 1);
        lemma_share_bounds(upto - 1, len, reps, d);
    }
}

pub proof fn lemma_sum_ranges_grows(ranges: Seq<(u64, u64)>, len: nat, reps: nat, d: bool, k: int, upto: int)
    requires
        0 <= k <= upto,
    ensures
        0 <= sum_ranges(ranges, len, reps, d, k) <= sum_ranges(ranges, len, reps, d, upto),
    decreases upto,
{
    if k < upto {
        lemma_sum_ranges_grows(ranges, len, reps, d, k, upto - 1);
        lemma_sum_numbers_nonnegative(
            len,
            reps,
            d,
            ranges[upto - 1].0 as int,
            ranges[upto - 1].1 + 1,
        );
    } else if 0 < k {
        lemma_sum_ranges_grows(ranges, len, reps, d, k - 1, upto - 1);
        lemma_sum_numbers_nonnegative(
            len,
            reps,
            d,
            ranges[upto - 1].0 as int,
            ranges[upto - 1].1 + 1,
        );
    }
}

pub proof fn lemma_sum_covered_nonnegative(ranges: Seq<(u64, u64)>, len: nat, reps: nat, d: bool, upto: int)
    ensures
        0 <= sum_covered(ranges, len, reps, d, upto),
    decreases upto,
{
    if upto > 0 {
        lemma_sum_covered_nonnegative(ranges, len, reps, d, upto - 1);
        lemma_share_bounds(upto - 1, len, reps, d);
    }
}

pub proof fn lemma_sum_reps_grows(ranges: Seq<(u64, u64)>, len: nat, d: bool, k: int, upto: int)
    requires
        k <= upto,
    ensures
        0 <= sum_reps(ranges, len, d, k) <= sum_reps(ranges, len, d, upto),
    decreases upto,
{
    if upto > 2 {
        if k < upto {
            lemma_sum_reps_grows(ranges, len, d, k, upto - 1);
        } else {
            lemma_sum_reps_grows(ranges, len, d, k - 1, upto - 1);
        }
        lemma_sum_covered_nonnegative(ranges, len, (upto - 1) as nat, d, limit());
    }
}

pub proof fn lemma_sum_lens_grows(ranges: Seq<(u64, u64)>, d: bool, k: int, upto: int)
    requires
        k <= upto,
    ensures
        0 <= sum_lens(ranges, d, k) <= sum_lens(ranges, d, upto),
    decreases upto,
{
    if upto > 1 {
        if k < upto {
            lemma_sum_lens_grows(ranges, d, k, upto - 1);
        } else {
            lemma_sum_lens_grows(ranges, d, k - 1, upto - 1);
        }
        lemma_sum_reps_grows(
            ranges,
            (upto - 1) as nat,
            d,
            20int / (upto - 1) + 1,
            20int / (upto - 1) + 1,
        );
    }
}

/// Lists of ranges that hold the same numbers have the same sums.
pub proof fn lemma_sum_covered_same(
    a: Seq<(u64, u64)>,
    b: Seq<(u64, u64)>,
    len: nat,
    reps: nat,
    d: bool,
    upto: int,
)
    requires
        forall|x: int| covered(a, x) <==> covered(b, x),
    ensures
        sum_covered(a, len, reps, d, upto) == sum_covered(b, len, reps, d, upto),
    decreases upto,
{
    if upto > 0 {
        lemma_sum_covered_same(a, b, len, reps, d, upto - 1);
    }
}

/// Over separated ranges the sum of the numbers that some range holds
/// is the sum of the sums of the ranges.
pub proof fn lemma_cover_sum(
    merged: Seq<(u64, u64)>,
    len: nat,
    reps: nat,
    d: bool,
    k: int,
    upto: int,
)
    requires
        separated(merged),
        0 <= k <= merged.len(),
    ensures
        sum_covered(merged.take(k), len, reps, d, upto) == if k == 0 {
            0
        } else if upto <= merged[k - 1].0 {
            sum_covered(merged.take(k - 1), len, reps, d, upto)
        } else {
            sum_ranges(merged, len, reps, d, k - 1) + sum_numbers(
                len,
                reps,
                d,
                merged[k - 1].0 as int,
                if upto <= merged[k - 1].1 { upto } else { merged[k - 1].1 + 1 },
            )
        },
    decreases k, if upto > 0 { upto } else { 0 },
{
    let here = merged.take(k);
    if upto > 0 {
        let n = upto - 1;
        lemma_cover_sum(merged, len, reps, d, k, upto - 1);
        if k == 0 {
            assert(!covered(here, n));
        } else {
            let before = merged.take(k - 1);
            let lo = merged[k - 1].0 as int;
            let hi = merged[k - 1].1 as int;
            assert(here[k - 1] == merged[k - 1]);
            assert(lo <= hi);
            let in_here = covered(here, n);
            let in_before = covered(before, n);
            if in_before {
                let i = choose|i: int| 0 <= i < before.len() && (#[trigger] before[i]).0 <= n
                    <= before[i].1;
                assert(before[i] == merged[i]);
                assert(here[i] == merged[i]);
                assert(merged[i].1 + 1 < merged[k - 1].0);
                assert(here[i].0 <= n <= here[i].1);
                assert(in_here);
                assert(n < lo);
            }
            if in_here && !(lo <= n <= hi) {
                let i = choose|i: int| 0 <= i < here.len() && (#[trigger] here[i]).0 <= n
                    <= here[i].1;
                assert(i < k - 1);
                assert(before[i] == merged[i]);
                assert(before[i].0 <= n <= before[i].1);
                assert(in_before);
            }
            if lo <= n <= hi {
                assert(here[k - 1].0 <= n <= here[k - 1].1);
                assert(in_here);
            }
            if upto <= lo {
                assert(in_here == in_before);
            } else if n == lo {
                lemma_cover_sum(merged, len, reps, d, k - 1, lo);
                if k - 1 > 0 {
                    assert(merged[k - 2].1 + 1 < merged[k - 1].0);
                    assert(sum_ranges(merged, len, reps, d, k - 1) == sum_ranges(
                        merged,
                        len,
                        reps,
                        d,
                        k - 2,
                    ) + sum_numbers(len, reps, d, merged[k - 2].0 as int, merged[k - 2].1 + 1));
                }
                assert(sum_covered(before, len, reps, d, lo) == sum_ranges(
                    merged,
                    len,
                    reps,
                    d,
                    k - 1,
                ));
                assert(sum_numbers(len, reps, d, lo, lo) == 0);
                assert(sum_numbers(len, reps, d, lo, lo + 1) == share(lo, len, reps, d));
            } else if n <= hi {
                assert(sum_numbers(len, reps, d, lo, upto) == sum_numbers(len, reps, d, lo, n)
                    + share(n, len, reps, d));
            } else {
                assert(!in_here);
            }
        }
    }
}

/// The first block at or after `x` divided by the repunit, within the
/// blocks of `len` digits.
fn first_block(table: &Vec<u128>, len: usize, unit: u128, reps: Ghost<nat>, x: u128) -> (b: u128)
    requires
        table.len() == MAX_DIGITS + 1,
        forall|e: int| 0 <= e <= MAX_DIGITS ==> #[trigger] table[e] == pow10(e as nat),
        1 <= len <= 10,
        unit == repunit(len as nat, reps@),
        unit >= 1,
        x <= limit(),
    ensures
        b == block_from(len as nat, reps@, x as int),
        table[len - 1] <= b <= table[len as int],
{
    proof {
        lemma_pow10_monotone((len - 1) as nat, len as nat);
    }
    let up: u128 = if x % unit == 0 { x / unit } else { x / unit + 1 };
    if up < table[len - 1] {
        table[len - 1]
    } else if up > table[len] {
        table[len]
    } else {
        up
    }
}

/// Adds to `acc` the numbers from `lo` to `hi` that the sum of a shape
/// counts, if the sum fits in 128 bits.
fn add_blocks(
    table: &Vec<u128>,
    len: usize,
    reps: usize,
    lo: u64,
    hi: u64,
    only_doubled: bool,
    acc: u128,
) -> (r: Option<u128>)
    requires
        table.len() == MAX_DIGITS + 1,
        forall|e: int| 0 <= e <= MAX_DIGITS ==> #[trigger] table[e] == pow10(e as nat),
        is_shape(len as nat, reps as nat),
        lo <= hi,
    ensures
        match r {
            Some(sum) => sum == acc + sum_numbers(
                len as nat,
                reps as nat,
                only_doubled,
                lo as int,
                hi + 1,
            ),
            None => acc + sum_numbers(len as nat, reps as nat, only_doubled, lo as int, hi + 1)
                > u128::MAX,
        },
{
    proof {
        assert(len <= 10) by (nonlinear_arith)
            requires
                len * reps <= 20,
                reps >= 2,
        ;
        lemma_numbers_are_blocks(len as nat, reps as nat, only_doubled, lo as int, hi + 1);
    }
    let unit = repunit_of(table, len, reps);
    let from = first_block(table, len, unit, Ghost(reps as nat), lo as u128);
    let upto = first_block(table, len, unit, Ghost(reps as nat), hi as u128 + 1);
    let mut sum: u128 = acc;
    let mut b: u128 = from;
    while b < upto
        invariant
            from <= b <= upto,
            table.len() == MAX_DIGITS + 1,
            forall|e: int| 0 <= e <= MAX_DIGITS ==> #[trigger] table[e] == pow10(e as nat),
            is_shape(len as nat, reps as nat),
            1 <= len <= 10,
            unit == repunit(len as nat, reps as nat),
            unit >= 1,
            table[len - 1] <= from,
            upto <= table[len as int],
            upto == block_from(len as nat, reps as nat, hi + 1),
            sum == acc + sum_blocks(len as nat, reps as nat, only_doubled, from as int, b as int),
            sum_numbers(len as nat, reps as nat, only_doubled, lo as int, hi + 1) == sum_blocks(
                len as nat,
                reps as nat,
                only_doubled,
                from as int,
                upto as int,
            ),
        decreases upto - b,
    {
        proof {
            // the block is below the bound that the end of the range sets
            let top = hi + 1;
            lemma_fundamental_div_mod(top, unit as int);
            assert(b + 1 <= top / (unit as int) + 1);
            assert(b * unit <= hi) by (nonlinear_arith)
                requires
                    b + 1 <= upto,
                    upto <= if top % (unit as int) == 0 {
                        top / (unit as int)
                    } else {
                        top / (unit as int) + 1
                    },
                    top == (unit as int) * (top / (unit as int)) + top % (unit as int),
                    0 <= top % (unit as int) < unit,
                    top == hi + 1,
                    b >= 0,
                    unit >= 1,
            ;
            assert(is_block(b as int, len as nat));
            assert(b * unit == times(b as int, unit as int));
            lemma_sum_blocks_grows(
                len as nat,
                reps as nat,
                only_doubled,
                from as int,
                b + 1,
                upto as int,
            );
        }
        let n: u64 = (b * unit) as u64;
        if no_earlier_shape(table, n, len, reps) && (!only_doubled || has_double_representation(
            table,
            n,
        )) {
            sum = match sum.checked_add(n as u128) {
                Some(more) => more,
                None => {
                    return None;
                },
            };
        }
        b += 1;
    }
    Some(sum)
}

/// Adds to `acc` the numbers in the separated ranges that the sum of a
/// shape counts, if the sum fits in 128 bits.
fn add_ranges(
    table: &Vec<u128>,
    merged: &Vec<(u64, u64)>,
    len: usize,
    reps: usize,
    only_doubled: bool,
    acc: u128,
) -> (r: Option<u128>)
    requires
        table.len() == MAX_DIGITS + 1,
        forall|e: int| 0 <= e <= MAX_DIGITS ==> #[trigger] table[e] == pow10(e as nat),
        is_shape(len as nat, reps as nat),
        separated(merged@),
    ensures
        match r {
            Some(sum) => sum == acc + sum_covered(
                merged@,
                len as nat,
                reps as nat,
                only_doubled,
                limit(),
            ),
            None => acc + sum_covered(merged@, len as nat, reps as nat, only_doubled, limit())
                > u128::MAX,
        },
{
    proof {
        lemma_cover_sum(
            merged@,
            len as nat,
            reps as nat,
            only_doubled,
            merged.len() as int,
            limit(),
        );
        assert(merged@.take(merged.len() as int) =~= merged@);
        if merged.len() > 0 {
            let last = merged.len() - 1;
            assert(sum_ranges(merged@, len as nat, reps as nat, only_doubled, last + 1)
                == sum_ranges(merged@, len as nat, reps as nat, only_doubled, last) + sum_numbers(
                len as nat,
                reps as nat,
                only_doubled,
                merged@[last].0 as int,
                merged@[last].1 + 1,
            ));
        }
    }
    let mut sum: u128 = acc;
    let mut i: usize = 0;
    while i < merged.len()
        invariant
            i <= merged.len(),
            table.len() == MAX_DIGITS + 1,
            forall|e: int| 0 <= e <= MAX_DIGITS ==> #[trigger] table[e] == pow10(e as nat),
            is_shape(len as nat, reps as nat),
            separated(merged@),
            sum == acc + sum_ranges(merged@, len as nat, reps as nat, only_doubled, i as int),
            sum_covered(merged@, len as nat, reps as nat, only_doubled, limit()) == sum_ranges(
                merged@,
                len as nat,
                reps as nat,
                only_doubled,
                merged.len() as int,
            ),
        decreases merged.len() - i,
    {
        let range = merged[i];
        proof {
            lemma_sum_ranges_grows(
                merged@,
                len as nat,
                reps as nat,
                only_doubled,
                i + 1,
                merged.len() as int,
            );
        }
        sum = match add_blocks(table, len, reps, range.0, range.1, only_doubled, sum) {
            Some(more) => more,
            None => {
                return None;
            },
        };
        i += 1;
    }
    Some(sum)
}

/// The numbers in the separated ranges that have some shape, added up;
/// those only that are a block written twice if `only_doubled` is set.
pub fn sums_for_ranges(merged: &Vec<(u64, u64)>, only_doubled: bool) -> (r: Option<u128>)
    requires
        separated(merged@),
    ensures
        match r {
            Some(sum) => sum == spec_total(merged@, only_doubled),
            None => spec_total(merged@, only_doubled) > u128::MAX,
        },
{
    let table = pow10_table();
    let mut sum: u128 = 0;
    let mut len: usize = 1;
    while len <= 10
        invariant
            1 <= len <= 11,
            table.len() == MAX_DIGITS + 1,
            forall|e: int| 0 <= e <= MAX_DIGITS ==> #[trigger] table[e] == pow10(e as nat),
            separated(merged@),
            sum == sum_lens(merged@, only_doubled, len as int),
        decreases 11 - len,
    {
        let last: usize = MAX_DIGITS / len;
        let mut reps: usize = 2;
        let ghost before = sum;
        proof {
            lemma_shape_bound(len as nat, 2);
            lemma_sum_lens_grows(merged@, only_doubled, len + 1, 11);
        }
        while reps <= last
            invariant
                2 <= reps <= last + 1,
                1 <= len <= 10,
                last == MAX_DIGITS / len,
                table.len() == MAX_DIGITS + 1,
                forall|e: int| 0 <= e <= MAX_DIGITS ==> #[trigger] table[e] == pow10(e as nat),
                separated(merged@),
                before == sum_lens(merged@, only_doubled, len as int),
                sum == before + sum_reps(merged@, len as nat, only_doubled, reps as int),
                sum_lens(merged@, only_doubled, len + 1) <= spec_total(merged@, only_doubled),
            decreases last + 1 - reps,
        {
            proof {
                lemma_shape_bound(len as nat, reps as nat);
                lemma_sum_reps_grows(merged@, len as nat, only_doubled, reps + 1, last + 1);
            }
            sum = match add_ranges(&table, merged, len, reps, only_doubled, sum) {
                Some(more) => more,
                None => {
                    return None;
                },
            };
            reps += 1;
        }
        len += 1;
    }
    Some(sum)
}

/// A number that has a shape has one shape first, and only one.
pub proof fn lemma_first_shape(n: int, len: nat, reps: nat) -> (first: (nat, nat))
    requires
        is_shape(len, reps),
        is_repeat(n, len, reps),
    ensures
        first_shape(n, first.0, first.1),
        forall|l: nat, r: nat| first_shape(n, l, r) ==> l == first.0 && r == first.1,
    decreases len, reps,
{
    let found = if exists|l: nat, r: nat|
        is_shape(l, r) && shape_before(l, r, len, reps) && #[trigger] is_repeat(n, l, r) {
        let (l, r) = choose|l: nat, r: nat|
            is_shape(l, r) && shape_before(l, r, len, reps) && #[trigger] is_repeat(n, l, r);
        lemma_first_shape(n, l, r)
    } else {
        (len, reps)
    };
    assert forall|l: nat, r: nat| first_shape(n, l, r) implies l == found.0 && r == found.1 by {
        if shape_before(l, r, found.0, found.1) {
            assert(is_repeat(n, l, r));
        } else if shape_before(found.0, found.1, l, r) {
            assert(is_repeat(n, found.0, found.1));
        }
    }
    found
}

/// What holds of the first answer for a text.
pub open spec fn part1_holds(input: &str, r: Result<u128, Error>) -> bool {
    match spec_parse_ranges(input.spec_bytes()) {
        Err(e) => r == Err::<u128, Error>(e),
        Ok(ranges) => match r {
            Ok(sum) => sum == spec_total(ranges, true),
            Err(e) => e == Error::SumOverflow && spec_total(ranges, true) > u128::MAX,
        },
    }
}

/// Adds up the numbers in the ranges that are a block written twice.
pub fn part1(input: &str) -> (r: Result<u128, Error>)
    ensures
        part1_holds(input, r),
{
    solve(input, true)
}

/// What holds of the second answer for a text.
pub open spec fn part2_holds(input: &str, r: Result<u128, Error>) -> bool {
    match spec_parse_ranges(input.spec_bytes()) {
        Err(e) => r == Err::<u128, Error>(e),
        Ok(ranges) => match r {
            Ok(sum) => sum == spec_total(ranges, false),
            Err(e) => e == Error::SumOverflow && spec_total(ranges, false) > u128::MAX,
        },
    }
}

/// Adds up the numbers in the ranges that are a block written two or
/// more times.
pub fn part2(input: &str) -> (r: Result<u128, Error>)
    ensures
        part2_holds(input, r),
{
    solve(input, false)
}

/// One of the two answers.
fn solve(input: &str, only_doubled: bool) -> (r: Result<u128, Error>)
    ensures
        match spec_parse_ranges(input.spec_bytes()) {
            Err(e) => r == Err::<u128, Error>(e),
            Ok(ranges) => match r {
                Ok(sum) => sum == spec_total(ranges, only_doubled),
                Err(e) => e == Error::SumOverflow && spec_total(ranges, only_doubled) > u128::MAX,
            },
        },
{
    let ranges = match parse_ranges(input.as_bytes()) {
        Ok(ranges) => ranges,
        Err(e) => {
            return Err(e);
        },
    };
    let ghost given = ranges@;
    let merged = merge_ranges(ranges);
    proof {
        lemma_total_same(merged@, given, only_doubled, 11);
    }
    match sums_for_ranges(&merged, only_doubled) {
        Some(sum) => Ok(sum),
        None => Err(Error::SumOverflow),
    }
}

/// Lists of ranges that hold the same numbers have the same answer.
pub proof fn lemma_total_same(a: Seq<(u64, u64)>, b: Seq<(u64, u64)>, d: bool, upto: int)
    requires
        forall|x: int| covered(a, x) <==> covered(b, x),
    ensures
        sum_lens(a, d, upto) == sum_lens(b, d, upto),
    decreases upto,
{
    if upto > 1 {
        lemma_total_same(a, b, d, upto - 1);
        lemma_reps_same(a, b, (upto - 1) as nat, d, 20int / (upto - 1) + 1);
    }
}

proof fn lemma_reps_same(a: Seq<(u64, u64)>, b: Seq<(u64, u64)>, len: nat, d: bool, upto: int)
    requires
        forall|x: int| covered(a, x) <==> covered(b, x),
    ensures
        sum_reps(a, len, d, upto) == sum_reps(b, len, d, upto),
    decreases upto,
{
    if upto > 2 {
        lemma_reps_same(a, b, len, d, upto - 1);
        lemma_sum_covered_same(a, b, len, (upto - 1) as nat, d, limit());
    }
}

/// What holds of both answers for a text.
pub open spec fn both_holds(input: &str, r: Result<(u128, u128), Error>) -> bool {
    match spec_parse_ranges(input.spec_bytes()) {
        Err(e) => r == Err::<(u128, u128), Error>(e),
        Ok(ranges) => match r {
            Ok((first, second)) => first == spec_total(ranges, true) && second == spec_total(
                ranges,
                false,
            ),
            Err(e) => e == Error::SumOverflow && (spec_total(ranges, true) > u128::MAX
                || spec_total(ranges, false) > u128::MAX),
        },
    }
}

/// Both answers.
pub fn both(input: &str) -> (r: Result<(u128, u128), Error>)
    ensures
        both_holds(input, r),
{
    let first = match part1(input) {
        Ok(sum) => sum,
        Err(e) => {
            return Err(e);
        },
    };
    let second = match part2(input) {
        Ok(sum) => sum,
        Err(e) => {
            return Err(e);
        },
    };
    Ok((first, second))
}

} // verus!
