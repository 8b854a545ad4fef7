//! A dial with a hundred positions, turned left and right.
//!
//! Each line of the text is one turn: `L` or `R` and the number of clicks.
//! The dial starts at 50. The first answer counts the turns that end at
//! zero, the second every click that lands on zero.

use vstd::prelude::*;
use crate::lines::{lemma_skip_eols, skip_eols};
use vstd::string::StringSliceAdditionalSpecFns;
use vstd::arithmetic::div_mod::lemma_mod_multiples_vanish;
use crate::ascii::{digit, ends_line, is_digit, CR, LF, ZERO};

verus! {

/// The byte `L`.
pub const LEFT: u8 = 76;

/// The byte `R`.
pub const RIGHT: u8 = 82;

/// One turn of the dial.
#[derive(Copy, Clone, Debug, PartialEq, Eq, Structural)]
pub struct Turn {
    pub right: bool,
    pub clicks: u64,
}

/// Why a text has no answer.
#[derive(Copy, Clone, Debug, PartialEq, Eq, Structural)]
pub enum Error {
    /// A line starts with this byte, which is neither `L` nor `R`.
    BadDirection(u8),
    /// This byte stands where a digit should.
    BadDigit(u8),
    /// A number of clicks does not fit in 64 bits.
    TooManyClicks,
    /// The count does not fit in the answer.
    CountTooLarge,
}

/// The number of clicks from `pos` to the end of the line, after the
/// digits that gave `acc`. Gives the number and the position after the
/// line.
pub open spec fn spec_clicks(s: Seq<u8>, pos: int, acc: int) -> Result<(int, int), Error>
    decreases s.len() - pos,
{
    if pos < 0 || pos >= s.len() {
        Ok((acc, pos))
    } else if s[pos] == LF {
        Ok((acc, pos + 1))
    } else if s[pos] == CR {
        spec_clicks(s, pos + 1, acc)
    } else if !is_digit(s[pos]) {
        Err(Error::BadDigit(s[pos]))
    } else if acc * 10 + (s[pos] - ZERO) > u64::MAX {
        Err(Error::TooManyClicks)
    } else {
        spec_clicks(s, pos + 1, acc * 10 + (s[pos] - ZERO))
    }
}

/// The turns from `pos` to the end of the text, after those in `acc`.
pub open spec fn spec_turns(s: Seq<u8>, pos: int, acc: Seq<Turn>) -> Result<Seq<Turn>, Error>
    decreases s.len() - pos,
{
    let start = skip_eols(s, pos);
    if pos < 0 || start >= s.len() {
        Ok(acc)
    } else if s[start] != LEFT && s[start] != RIGHT {
        Err(Error::BadDirection(s[start]))
    } else {
        match spec_clicks(s, start + 1, 0) {
            Err(e) => Err(e),
            Ok((clicks, next)) => {
                proof {
                    lemma_skip_eols(s, pos);
                    lemma_clicks_advance(s, start + 1, 0);
                }
                spec_turns(s, next, acc.push(Turn { right: s[start] == RIGHT, clicks: clicks as u64 }))
            },
        }
    }
}

/// The turns that a text holds.
pub open spec fn spec_parse(s: Seq<u8>) -> Result<Seq<Turn>, Error> {
    spec_turns(s, 0, Seq::empty())
}

pub proof fn lemma_clicks_advance(s: Seq<u8>, pos: int, acc: int)
    requires
        0 <= pos <= s.len(),
        0 <= acc <= u64::MAX,
    ensures
        spec_clicks(s, pos, acc) is Ok ==> pos <= spec_clicks(s, pos, acc).unwrap().1 <= s.len()
            && 0 <= spec_clicks(s, pos, acc).unwrap().0 <= u64::MAX,
    decreases s.len() - pos,
{
    if pos < s.len() && s[pos] != LF {
        if s[pos] == CR {
            lemma_clicks_advance(s, pos + 1, acc);
        } else if is_digit(s[pos]) && acc * 10 + (s[pos] - ZERO) <= u64::MAX {
            lemma_clicks_advance(s, pos + 1, acc * 10 + (s[pos] - ZERO));
        }
    }
}

/// Where the dial points after a turn from `pos`.
pub open spec fn after_turn(pos: int, turn: Turn) -> int {
    if turn.right {
        (pos + turn.clicks) % 100
    } else {
        (pos - turn.clicks) % 100
    }
}

/// Whether the dial points at zero after `k` clicks of a turn from `pos`.
pub open spec fn click_lands(pos: int, right: bool, k: int) -> bool {
    if right {
        (pos + k) % 100 == 0
    } else {
        (pos - k) % 100 == 0
    }
}

/// How many of the first `clicks` clicks of a turn from `pos` land on
/// zero.
pub open spec fn landings(pos: int, right: bool, clicks: int) -> int
    decreases clicks,
{
    if clicks <= 0 {
        0
    } else {
        landings(pos, right, clicks - 1) + if click_lands(pos, right, clicks) { 1int } else { 0int }
    }
}

/// How many of the turns from the `i`-th on end at zero, when the dial is
/// at `pos` before them.
pub open spec fn stops(turns: Seq<Turn>, i: int, pos: int) -> int
    decreases turns.len() - i,
{
    if i < 0 || i >= turns.len() {
        0
    } else {
        let next = after_turn(pos, turns[i]);
        stops(turns, i + 1, next) + if next == 0 { 1int } else { 0int }
    }
}

/// How many clicks of the turns from the `i`-th on land on zero, when the
/// dial is at `pos` before them.
pub open spec fn passes(turns: Seq<Turn>, i: int, pos: int) -> int
    decreases turns.len() - i,
{
    if i < 0 || i >= turns.len() {
        0
    } else {
        passes(turns, i + 1, after_turn(pos, turns[i])) + landings(
            pos,
            turns[i].right,
            turns[i].clicks as int,
        )
    }
}

/// The number of landings in closed form: the first click that lands, and
/// every hundredth after it.
pub proof fn lemma_landings(pos: int, right: bool, clicks: int)
    requires
        0 <= pos < 100,
        0 <= clicks,
    ensures
        landings(pos, right, clicks) == {
            let first = if pos == 0 { 100 } else if right { 100 - pos } else { pos };
            if clicks >= first { 1 + (clicks - first) / 100 } else { 0 }
        },
    decreases clicks,
{
    if clicks > 0 {
        lemma_landings(pos, right, clicks - 1);
    }
}

/// Reads the clicks of one turn, up to the end of its line.
fn parse_clicks(bytes: &[u8], from: usize) -> (r: Result<(u64, usize), Error>)
    requires
        from <= bytes.len(),
    ensures
        match (r, spec_clicks(bytes@, from as int, 0)) {
            (Ok((clicks, next)), Ok((c, n))) => clicks == c && next == n && from <= next
                <= bytes.len(),
            (Err(e), Err(f)) => e == f,
            _ => false,
        },
{
    let len = bytes.len();
    let mut clicks: u64 = 0;
    let mut idx: usize = from;
    while idx < len
        invariant
            from <= idx <= len,
            len == bytes.len(),
            spec_clicks(bytes@, from as int, 0) == spec_clicks(bytes@, idx as int, clicks as int),
        decreases len - idx,
    {
        let b = bytes[idx];
        if b == LF {
            return Ok((clicks, idx + 1));
        }
        if b != CR {
            if !digit(b) {
                return Err(Error::BadDigit(b));
            }
            let d: u64 = (b - ZERO) as u64;
            if clicks > (u64::MAX - d) / 10 {
                return Err(Error::TooManyClicks);
            }
            clicks = clicks * 10 + d;
        }
        idx += 1;
    }
    Ok((clicks, idx))
}

/// Reads the turns of a text, one on each line that is not blank.
pub fn parse_turns(bytes: &[u8]) -> (r: Result<Vec<Turn>, Error>)
    ensures
        match (r, spec_parse(bytes@)) {
            (Ok(turns), Ok(s)) => turns@ == s,
            (Err(e), Err(f)) => e == f,
            _ => false,
        },
{
    let len = bytes.len();
    let mut turns: Vec<Turn> = Vec::new();
    let mut idx: usize = 0;
    loop
        invariant
            idx <= len,
            len == bytes.len(),
            spec_turns(bytes@, 0, Seq::empty()) == spec_turns(bytes@, idx as int, turns@),
        ensures
            spec_turns(bytes@, 0, Seq::empty()) == Ok::<Seq<Turn>, Error>(turns@),
        decreases len - idx,
    {
        let ghost from = idx;
        while idx < len && ends_line(bytes[idx])
            invariant
                from <= idx <= len,
                len == bytes.len(),
                skip_eols(bytes@, from as int) == skip_eols(bytes@, idx as int),
            decreases len - idx,
        {
            idx += 1;
        }
        if idx >= len {
            break;
        }
        let dir = bytes[idx];
        if dir != LEFT && dir != RIGHT {
            return Err(Error::BadDirection(dir));
        }
        match parse_clicks(bytes, idx + 1) {
            Ok((clicks, next)) => {
                turns.push(Turn { right: dir == RIGHT, clicks });
                idx = next;
            },
            Err(e) => {
                return Err(e);
            },
        }
    }
    Ok(turns)
}

/// Turns the dial once.
fn turn_dial(pos: u8, turn: &Turn) -> (r: u8)
    requires
        pos < 100,
    ensures
        r == after_turn(pos as int, *turn),
        r < 100,
{
    let rest: u8 = (turn.clicks % 100) as u8;
    proof {
        let whole = turn.clicks as int / 100;
        assert(turn.clicks as int == 100 * whole + rest);
        lemma_mod_multiples_vanish(whole, pos + rest, 100);
        lemma_mod_multiples_vanish(-whole - 1, pos + 100 - rest, 100);
        assert(100 * whole + (pos + rest) == pos + turn.clicks);
        assert(100 * (-whole - 1) + (pos + 100 - rest) == pos - turn.clicks);
    }
    if turn.right {
        (pos + rest) % 100
    } else {
        (pos + 100 - rest) % 100
    }
}

/// How many turns end at zero.
pub fn count_stops(turns: &Vec<Turn>) -> (r: usize)
    ensures
        r == stops(turns@, 0, 50),
{
    let mut pos: u8 = 50;
    let mut count: usize = 0;
    let mut i: usize = 0;
    while i < turns.len()
        invariant
            i <= turns.len(),
            pos < 100,
            count <= i,
            stops(turns@, 0, 50) == count + stops(turns@, i as int, pos as int),
        decreases turns.len() - i,
    {
        pos = turn_dial(pos, &turns[i]);
        if pos == 0 {
            count += 1;
        }
        i += 1;
    }
    count
}

/// How many clicks land on zero, if the count fits in 64 bits.
pub fn count_passes(turns: &Vec<Turn>) -> (r: Option<u64>)
    ensures
        match r {
            Some(count) => count == passes(turns@, 0, 50),
            None => passes(turns@, 0, 50) > u64::MAX,
        },
{
    let mut pos: u8 = 50;
    let mut count: u64 = 0;
    let mut i: usize = 0;
    while i < turns.len()
        invariant
            i <= turns.len(),
            pos < 100,
            passes(turns@, 0, 50) == count + passes(turns@, i as int, pos as int),
        decreases turns.len() - i,
    {
        let turn = turns[i];
        let first: u64 = if pos == 0 {
            100
        } else if turn.right {
            100 - pos as u64
        } else {
            pos as u64
        };
        proof {
            lemma_landings(pos as int, turn.right, turn.clicks as int);
            lemma_passes_nonnegative(turns@, i as int + 1, after_turn(pos as int, turn));
        }
        if turn.clicks >= first {
            let landed: u64 = 1 + (turn.clicks - first) / 100;
            if landed > u64::MAX - count {
                return None;
            }
            count += landed;
        }
        pos = turn_dial(pos, &turn);
        i += 1;
    }
    Some(count)
}

pub proof fn lemma_landings_nonnegative(pos: int, right: bool, clicks: int)
    ensures
        landings(pos, right, clicks) >= 0,
    decreases clicks,
{
    if clicks > 0 {
        lemma_landings_nonnegative(pos, right, clicks - 1);
    }
}

pub proof fn lemma_passes_nonnegative(turns: Seq<Turn>, i: int, pos: int)
    ensures
        passes(turns, i, pos) >= 0,
    decreases turns.len() - i,
{
    if 0 <= i < turns.len() {
        lemma_passes_nonnegative(turns, i + 1, after_turn(pos, turns[i]));
        lemma_landings_nonnegative(pos, turns[i].right, turns[i].clicks as int);
    }
}

/// What holds of the first answer for a text.
pub open spec fn part1_holds(input: &str, r: Result<usize, Error>) -> bool {
    match (r, spec_parse(input.spec_bytes())) {
        (Ok(count), Ok(turns)) => count == stops(turns, 0, 50),
        (Err(e), Err(f)) => e == f,
        _ => false,
    }
}

/// Counts the turns that end at zero.
pub fn part1(input: &str) -> (r: Result<usize, Error>)
    ensures
        part1_holds(input, r),
{
    match parse_turns(input.as_bytes()) {
        Ok(turns) => Ok(count_stops(&turns)),
        Err(e) => Err(e),
    }
}

/// What holds of the second answer for a text.
pub open spec fn part2_holds(input: &str, r: Result<usize, Error>) -> bool {
    match (r, spec_parse(input.spec_bytes())) {
        (Ok(count), Ok(turns)) => count == passes(turns, 0, 50),
        (Err(Error::CountTooLarge), Ok(turns)) => passes(turns, 0, 50) > usize::MAX,
        (Err(e), Err(f)) => e == f,
        _ => false,
    }
}

/// Counts the clicks that land on zero, during a turn or at its end.
pub fn part2(input: &str) -> (r: Result<usize, Error>)
    ensures
        part2_holds(input, r),
{
    match parse_turns(input.as_bytes()) {
        Ok(turns) => match count_passes(&turns) {
            Some(count) => if count <= usize::MAX as u64 {
                Ok(count as usize)
            } else {
                Err(Error::CountTooLarge)
            },
            None => Err(Error::CountTooLarge),
        },
        Err(e) => Err(e),
    }
}

} // verus!
