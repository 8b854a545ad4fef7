//! Machines with lights, buttons and counters.
//!
//! Each line describes one machine: in square brackets the lights that
//! are to be on (`#`) or off (`.`), in round brackets the lights or
//! counters that each button acts on, and in curly brackets the number
//! that each counter is to show. A button switches its lights over, or
//! adds one to its counters. The first answer is the smallest number of
//! presses that sets the lights of every machine, the second the number
//! of presses of a way that was found to set the counters.

use vstd::prelude::*;
use vstd::string::StringSliceAdditionalSpecFns;
use crate::ascii::{digit, is_digit, HASH, ZERO};
use crate::lines::{find_byte, first_index, line_views, spec_lines, split_lines};

verus! {

/// The byte `[`.
pub const OPEN_SQUARE: u8 = 91;

/// The byte `]`.
pub const CLOSE_SQUARE: u8 = 93;

/// The byte `(`.
pub const OPEN_ROUND: u8 = 40;

/// The byte `)`.
pub const CLOSE_ROUND: u8 = 41;

/// The byte `{`.
pub const OPEN_CURLY: u8 = 123;

/// The byte `}`.
pub const CLOSE_CURLY: u8 = 125;

/// The most lights, counters or buttons that a machine may have.
pub const MAX_WIDTH: usize = 16;

/// Why a text has no answer.
#[derive(Copy, Clone, Debug, PartialEq, Eq, Structural)]
pub enum Error {
    /// A bracket is not closed on its line.
    Unclosed,
    /// More than sixteen lights.
    TooManyLights,
    /// More than sixteen different buttons.
    TooManyButtons,
    /// A button acts on a light that the machine does not have.
    BadButton,
    /// A number does not fit in 16 bits.
    NumberTooLarge,
    /// A line has lights but no counters.
    MissingJoltages,
    /// The machine has not as many counters as lights.
    Mismatch,
    /// No presses set the lights or the counters of a machine.
    Unsolvable,
    /// A number on the way does not fit in 64 bits.
    Overflow,
}

/// What a line says of a machine.
pub struct MachineModel {
    pub target: u16,
    pub lights: int,
    pub buttons: Seq<u16>,
    pub joltages: Seq<u16>,
}

/// A machine.
pub struct Machine {
    pub target: u16,
    pub lights: usize,
    pub buttons: Vec<u16>,
    pub joltages: Vec<u16>,
}

impl Machine {
    pub open spec fn view(&self) -> MachineModel {
        MachineModel {
            target: self.target,
            lights: self.lights as int,
            buttons: self.buttons@,
            joltages: self.joltages@,
        }
    }
}

/// The bit of the light or counter `k`.
pub open spec fn bit(k: int) -> u16 {
    1u16 << (k as u16)
}

/// The bit of the light or counter `k`.
pub fn bit_of(k: usize) -> (r: u16)
    requires
        k < MAX_WIDTH,
    ensures
        r == bit(k as int),
{
    1u16 << (k as u16)
}

/// The lights from `pos` up to the closing bracket, after the `count`
/// lights that gave `target`: the lights that are to be on, how many
/// lights there are, and the position after the bracket.
pub open spec fn spec_lights(line: Seq<u8>, pos: int, target: u16, count: int) -> Result<
    (u16, int, int),
    Error,
>
    decreases line.len() - pos,
{
    if pos < 0 || pos >= line.len() {
        Err(Error::Unclosed)
    } else if line[pos] == CLOSE_SQUARE {
        Ok((target, count, pos + 1))
    } else if count >= MAX_WIDTH {
        Err(Error::TooManyLights)
    } else {
        spec_lights(
            line,
            pos + 1,
            if line[pos] == HASH { target | bit(count) } else { target },
            count + 1,
        )
    }
}

/// The number that the digits from `pos` on spell after those that gave
/// `acc`, and the position after its last digit.
pub open spec fn spec_number(line: Seq<u8>, pos: int, acc: int) -> Result<(int, int), Error>
    decreases line.len() - pos,
{
    if pos < 0 || pos >= line.len() || !is_digit(line[pos]) {
        Ok((acc, pos))
    } else if acc * 10 + (line[pos] - ZERO) > u16::MAX {
        Err(Error::NumberTooLarge)
    } else {
        spec_number(line, pos + 1, acc * 10 + (line[pos] - ZERO))
    }
}

pub proof fn lemma_number_advances(line: Seq<u8>, pos: int, acc: int)
    requires
        0 <= pos <= line.len(),
        0 <= acc <= u16::MAX,
        spec_number(line, pos, acc) is Ok,
    ensures
        pos <= spec_number(line, pos, acc).unwrap().1 <= line.len(),
        pos < line.len() && is_digit(line[pos]) ==> pos < spec_number(line, pos, acc).unwrap().1,
        0 <= spec_number(line, pos, acc).unwrap().0 <= u16::MAX,
    decreases line.len() - pos,
{
    if pos < line.len() && is_digit(line[pos]) {
        lemma_number_advances(line, pos + 1, acc * 10 + (line[pos] - ZERO));
    }
}

/// The lights of a button from `pos` up to the closing bracket, with
/// those in `mask`, and the position after the bracket. What is no digit
/// stands between the numbers.
pub open spec fn spec_button(line: Seq<u8>, pos: int, mask: u16, lights: int) -> Result<
    (u16, int),
    Error,
>
    decreases line.len() - pos,
{
    if pos < 0 || pos >= line.len() {
        Err(Error::Unclosed)
    } else if line[pos] == CLOSE_ROUND {
        Ok((mask, pos + 1))
    } else if is_digit(line[pos]) {
        match spec_number(line, pos, 0) {
            Err(e) => Err(e),
            Ok((value, next)) => if value >= lights || value >= MAX_WIDTH {
                Err(Error::BadButton)
            } else {
                proof {
                    lemma_number_advances(line, pos, 0);
                }
                spec_button(line, next, mask | bit(value), lights)
            },
        }
    } else {
        spec_button(line, pos + 1, mask, lights)
    }
}

/// The numbers of the counters from `pos` up to the closing bracket,
/// after those in `acc`.
pub open spec fn spec_joltages(line: Seq<u8>, pos: int, acc: Seq<u16>) -> Result<Seq<u16>, Error>
    decreases line.len() - pos,
{
    if pos < 0 || pos >= line.len() {
        Err(Error::Unclosed)
    } else if line[pos] == CLOSE_CURLY {
        Ok(acc)
    } else if is_digit(line[pos]) {
        match spec_number(line, pos, 0) {
            Err(e) => Err(e),
            Ok((value, next)) => {
                proof {
                    lemma_number_advances(line, pos, 0);
                }
                spec_joltages(line, next, acc.push(value as u16))
            },
        }
    } else {
        spec_joltages(line, pos + 1, acc)
    }
}

/// The buttons with one more, unless it acts on nothing or is among them
/// already.
pub open spec fn with_button(buttons: Seq<u16>, mask: u16) -> Seq<u16> {
    if mask == 0 || buttons.contains(mask) {
        buttons
    } else {
        buttons.push(mask)
    }
}

pub proof fn lemma_button_advances(line: Seq<u8>, pos: int, mask: u16, lights: int)
    requires
        0 <= pos <= line.len(),
        spec_button(line, pos, mask, lights) is Ok,
    ensures
        pos < spec_button(line, pos, mask, lights).unwrap().1 <= line.len(),
    decreases line.len() - pos,
{
    if pos < line.len() && line[pos] != CLOSE_ROUND {
        if is_digit(line[pos]) {
            lemma_number_advances(line, pos, 0);
            let (value, next) = spec_number(line, pos, 0).unwrap();
            lemma_button_advances(line, next, mask | bit(value), lights);
        } else {
            lemma_button_advances(line, pos + 1, mask, lights);
        }
    }
}

/// The buttons and the counters from `pos` on, after the buttons read
/// already. What stands outside brackets is passed over.
pub open spec fn spec_groups(line: Seq<u8>, pos: int, buttons: Seq<u16>, lights: int) -> Result<
    (Seq<u16>, Seq<u16>),
    Error,
>
    decreases line.len() - pos,
{
    if pos < 0 || pos >= line.len() {
        Err(Error::MissingJoltages)
    } else if line[pos] == OPEN_ROUND {
        match spec_button(line, pos + 1, 0, lights) {
            Err(e) => Err(e),
            Ok((mask, next)) => {
                proof {
                    lemma_button_advances(line, pos + 1, 0, lights);
                }
                spec_groups(line, next, with_button(buttons, mask), lights)
            },
        }
    } else if line[pos] == OPEN_CURLY {
        match spec_joltages(line, pos + 1, Seq::empty()) {
            Err(e) => Err(e),
            Ok(joltages) => Ok((buttons, joltages)),
        }
    } else {
        spec_groups(line, pos + 1, buttons, lights)
    }
}

/// The machine of a line, if the line has one: a line without `[` has
/// none.
pub open spec fn spec_machine(line: Seq<u8>) -> Result<Option<MachineModel>, Error> {
    match first_index(line, OPEN_SQUARE) {
        None => Ok(None),
        Some(open) => match spec_lights(line, open + 1, 0, 0) {
            Err(e) => Err(e),
            Ok((target, lights, after)) => match spec_groups(line, after, Seq::empty(), lights) {
                Err(e) => Err(e),
                Ok((buttons, joltages)) => if joltages.len() != lights {
                    Err(Error::Mismatch)
                } else if buttons.len() > MAX_WIDTH {
                    Err(Error::TooManyButtons)
                } else {
                    Ok(Some(MachineModel { target, lights, buttons, joltages }))
                },
            },
        },
    }
}

/// The machines of the lines from the `i`-th on, after those in `acc`.
pub open spec fn spec_machines(lines: Seq<Seq<u8>>, i: int, acc: Seq<MachineModel>) -> Result<
    Seq<MachineModel>,
    Error,
>
    decreases lines.len() - i,
{
    if i < 0 || i >= lines.len() {
        Ok(acc)
    } else {
        match spec_machine(lines[i]) {
            Err(e) => Err(e),
            Ok(None) => spec_machines(lines, i + 1, acc),
            Ok(Some(machine)) => spec_machines(lines, i + 1, acc.push(machine)),
        }
    }
}

/// The machines of a text.
pub open spec fn spec_parse(s: Seq<u8>) -> Result<Seq<MachineModel>, Error> {
    spec_machines(spec_lines(s), 0, Seq::empty())
}

/// What the machines are.
pub open spec fn machine_views(machines: Seq<Machine>) -> Seq<MachineModel> {
    Seq::new(machines.len(), |i: int| machines[i]@)
}

/// Reads the lights of a machine.
fn parse_lights(line: &[u8], from: usize) -> (r: Result<(u16, usize, usize), Error>)
    requires
        from <= line.len(),
    ensures
        match (r, spec_lights(line@, from as int, 0, 0)) {
            (Ok((target, count, next)), Ok((t, c, n))) => target == t && count == c && next == n
                && count <= MAX_WIDTH && from < next <= line.len(),
            (Err(e), Err(f)) => e == f,
            _ => false,
        },
{
    let mut target: u16 = 0;
    let mut count: usize = 0;
    let mut pos: usize = from;
    while pos < line.len()
        invariant
            from <= pos <= line.len(),
            count <= MAX_WIDTH,
            spec_lights(line@, from as int, 0, 0) == spec_lights(
                line@,
                pos as int,
                target,
                count as int,
            ),
        decreases line.len() - pos,
    {
        let b = line[pos];
        if b == CLOSE_SQUARE {
            return Ok((target, count, pos + 1));
        }
        if count >= MAX_WIDTH {
            return Err(Error::TooManyLights);
        }
        if b == HASH {
            target = target | bit_of(count);
        }
        count += 1;
        pos += 1;
    }
    Err(Error::Unclosed)
}

/// Reads a number.
fn parse_number(line: &[u8], from: usize) -> (r: Result<(u16, usize), Error>)
    requires
        from <= line.len(),
    ensures
        match (r, spec_number(line@, from as int, 0)) {
            (Ok((value, next)), Ok((v, n))) => value == v && next == n && from <= next
                <= line.len(),
            (Err(e), Err(f)) => e == f,
            _ => false,
        },
{
    let mut value: u16 = 0;
    let mut pos: usize = from;
    while pos < line.len() && digit(line[pos])
        invariant
            from <= pos <= line.len(),
            spec_number(line@, from as int, 0) == spec_number(line@, pos as int, value as int),
        decreases line.len() - pos,
    {
        let d: u16 = (line[pos] - ZERO) as u16;
        if value > (u16::MAX - d) / 10 {
            return Err(Error::NumberTooLarge);
        }
        value = value * 10 + d;
        pos += 1;
    }
    Ok((value, pos))
}

/// Reads the lights of a button.
fn parse_button(line: &[u8], from: usize, lights: usize) -> (r: Result<(u16, usize), Error>)
    requires
        from <= line.len(),
    ensures
        match (r, spec_button(line@, from as int, 0, lights as int)) {
            (Ok((mask, next)), Ok((m, n))) => mask == m && next == n && from < next <= line.len(),
            (Err(e), Err(f)) => e == f,
            _ => false,
        },
{
    let mut mask: u16 = 0;
    let mut pos: usize = from;
    while pos < line.len()
        invariant
            from <= pos <= line.len(),
            spec_button(line@, from as int, 0, lights as int) == spec_button(
                line@,
                pos as int,
                mask,
                lights as int,
            ),
        decreases line.len() - pos,
    {
        let b = line[pos];
        if b == CLOSE_ROUND {
            return Ok((mask, pos + 1));
        }
        if digit(b) {
            let (value, next) = match parse_number(line, pos) {
                Ok(found) => found,
                Err(e) => {
                    return Err(e);
                },
            };
            proof {
                lemma_number_advances(line@, pos as int, 0);
            }
            if value as usize >= lights || value as usize >= MAX_WIDTH {
                return Err(Error::BadButton);
            }
            mask = mask | bit_of(value as usize);
            pos = next;
        } else {
            pos += 1;
        }
    }
    Err(Error::Unclosed)
}

/// Reads the numbers of the counters.
fn parse_joltages(line: &[u8], from: usize) -> (r: Result<Vec<u16>, Error>)
    requires
        from <= line.len(),
    ensures
        match (r, spec_joltages(line@, from as int, Seq::empty())) {
            (Ok(joltages), Ok(j)) => joltages@ == j,
            (Err(e), Err(f)) => e == f,
            _ => false,
        },
{
    let mut joltages: Vec<u16> = Vec::new();
    let mut pos: usize = from;
    while pos < line.len()
        invariant
            from <= pos <= line.len(),
            spec_joltages(line@, from as int, Seq::empty()) == spec_joltages(
                line@,
                pos as int,
                joltages@,
            ),
        decreases line.len() - pos,
    {
        let b = line[pos];
        if b == CLOSE_CURLY {
            return Ok(joltages);
        }
        if digit(b) {
            let (value, next) = match parse_number(line, pos) {
                Ok(found) => found,
                Err(e) => {
                    return Err(e);
                },
            };
            proof {
                lemma_number_advances(line@, pos as int, 0);
            }
            joltages.push(value);
            pos = next;
        } else {
            pos += 1;
        }
    }
    Err(Error::Unclosed)
}

/// Whether the button is among the buttons.
fn has_button(buttons: &Vec<u16>, mask: u16) -> (r: bool)
    ensures
        r == buttons@.contains(mask),
{
    let mut i: usize = 0;
    while i < buttons.len()
        invariant
            i <= buttons.len(),
            forall|j: int| 0 <= j < i ==> buttons[j] != mask,
        decreases buttons.len() - i,
    {
        if buttons[i] == mask {
            return true;
        }
        i += 1;
    }
    false
}

/// Reads the buttons and the counters of a machine.
fn parse_groups(line: &[u8], from: usize, lights: usize) -> (r: Result<(Vec<u16>, Vec<u16>), Error>)
    requires
        from <= line.len(),
    ensures
        match (r, spec_groups(line@, from as int, Seq::empty(), lights as int)) {
            (Ok((buttons, joltages)), Ok((b, j))) => buttons@ == b && joltages@ == j,
            (Err(e), Err(f)) => e == f,
            _ => false,
        },
{
    let mut buttons: Vec<u16> = Vec::new();
    let mut pos: usize = from;
    while pos < line.len()
        invariant
            from <= pos <= line.len(),
            spec_groups(line@, from as int, Seq::empty(), lights as int) == spec_groups(
                line@,
                pos as int,
                buttons@,
                lights as int,
            ),
        decreases line.len() - pos,
    {
        let b = line[pos];
        if b == OPEN_ROUND {
            let (mask, next) = match parse_button(line, pos + 1, lights) {
                Ok(found) => found,
                Err(e) => {
                    return Err(e);
                },
            };
            if mask != 0 && !has_button(&buttons, mask) {
                buttons.push(mask);
            }
            pos = next;
        } else if b == OPEN_CURLY {
            return match parse_joltages(line, pos + 1) {
                Ok(joltages) => Ok((buttons, joltages)),
                Err(e) => Err(e),
            };
        } else {
            pos += 1;
        }
    }
    Err(Error::MissingJoltages)
}

/// Reads the machine of a line.
fn parse_machine(line: &[u8]) -> (r: Result<Option<Machine>, Error>)
    ensures
        match (r, spec_machine(line@)) {
            (Ok(Some(machine)), Ok(Some(m))) => machine@ == m && machine.wf(),
            (Ok(None), Ok(None)) => true,
            (Err(e), Err(f)) => e == f,
            _ => false,
        },
{
    let open = match find_byte(line, OPEN_SQUARE) {
        Some(open) => open,
        None => {
            return Ok(None);
        },
    };
    let (target, lights, after) = match parse_lights(line, open + 1) {
        Ok(found) => found,
        Err(e) => {
            return Err(e);
        },
    };
    let (buttons, joltages) = match parse_groups(line, after, lights) {
        Ok(found) => found,
        Err(e) => {
            return Err(e);
        },
    };
    if joltages.len() != lights {
        return Err(Error::Mismatch);
    }
    if buttons.len() > MAX_WIDTH {
        return Err(Error::TooManyButtons);
    }
    Ok(Some(Machine { target, lights, buttons, joltages }))
}

impl Machine {
    /// The machine has at most sixteen lights and buttons, and a counter
    /// for each light.
    pub open spec fn wf(&self) -> bool {
        &&& self.lights <= MAX_WIDTH
        &&& self.buttons.len() <= MAX_WIDTH
        &&& self.joltages.len() == self.lights
    }
}

/// Reads the machines of a text.
pub fn parse(bytes: &[u8]) -> (r: Result<Vec<Machine>, Error>)
    ensures
        match (r, spec_parse(bytes@)) {
            (Ok(machines), Ok(m)) => machine_views(machines@) == m && forall|i: int|
                0 <= i < machines.len() ==> (#[trigger] machines[i]).wf(),
            (Err(e), Err(f)) => e == f,
            _ => false,
        },
{
    let lines = split_lines(bytes);
    let mut machines: Vec<Machine> = Vec::new();
    let mut i: usize = 0;
    proof {
        assert(machine_views(machines@) =~= Seq::<MachineModel>::empty());
    }
    while i < lines.len()
        invariant
            i <= lines.len(),
            line_views(lines@) == spec_lines(bytes@),
            forall|k: int| 0 <= k < machines.len() ==> (#[trigger] machines[k]).wf(),
            spec_parse(bytes@) == spec_machines(
                spec_lines(bytes@),
                i as int,
                machine_views(machines@),
            ),
        decreases lines.len() - i,
    {
        proof {
            assert(line_views(lines@)[i as int] == lines[i as int]@);
        }
        match parse_machine(lines[i]) {
            Err(e) => {
                return Err(e);
            },
            Ok(None) => {},
            Ok(Some(machine)) => {
                let ghost before = machine_views(machines@);
                let ghost added = machine@;
                machines.push(machine);
                proof {
                    assert(machine_views(machines@) =~= before.push(added));
                }
            },
        }
        i += 1;
    }
    Ok(machines)
}

/// The lights after the buttons from the `i`-th on are pressed as
/// `presses` says, when the lights before are `state`.
pub open spec fn lights_from(buttons: Seq<u16>, presses: Seq<bool>, i: int, state: u16) -> u16
    decreases buttons.len() - i,
{
    if i < 0 || i >= buttons.len() {
        state
    } else {
        lights_from(buttons, presses, i + 1, if presses[i] { state ^ buttons[i] } else { state })
    }
}

/// How many of the buttons from the `i`-th on are pressed.
pub open spec fn presses_from(presses: Seq<bool>, i: int) -> int
    decreases presses.len() - i,
{
    if i < 0 || i >= presses.len() {
        0
    } else {
        presses_from(presses, i + 1) + if presses[i] { 1int } else { 0int }
    }
}

/// The fewest presses of the buttons from the `i`-th on that turn the
/// lights from `state` to `target`, if there are such presses.
pub open spec fn fewest(buttons: Seq<u16>, i: int, state: u16, target: u16) -> Option<int>
    decreases buttons.len() - i,
{
    if i < 0 || i >= buttons.len() {
        if state == target {
            Some(0)
        } else {
            None
        }
    } else {
        let left = fewest(buttons, i + 1, state, target);
        let pressed = fewest(buttons, i + 1, state ^ buttons[i], target);
        match (left, pressed) {
            (None, None) => None,
            (Some(a), None) => Some(a),
            (None, Some(b)) => Some(b + 1),
            (Some(a), Some(b)) => if a <= b + 1 {
                Some(a)
            } else {
                Some(b + 1)
            },
        }
    }
}

/// Presses that agree from the `i`-th button on give the same lights and
/// the same count from there.
proof fn lemma_presses_agree(buttons: Seq<u16>, a: Seq<bool>, b: Seq<bool>, i: int, state: u16)
    requires
        a.len() == buttons.len(),
        b.len() == buttons.len(),
        0 <= i,
        forall|j: int| i <= j < buttons.len() ==> a[j] == b[j],
    ensures
        lights_from(buttons, a, i, state) == lights_from(buttons, b, i, state),
        presses_from(a, i) == presses_from(b, i),
    decreases buttons.len() - i,
{
    if i < buttons.len() {
        lemma_presses_agree(buttons, a, b, i + 1, if a[i] { state ^ buttons[i] } else { state });
    }
}

/// What `fewest` is: some presses reach the target with that many
/// presses, and none with fewer.
pub proof fn lemma_fewest(buttons: Seq<u16>, i: int, state: u16, target: u16)
    requires
        0 <= i <= buttons.len(),
    ensures
        fewest(buttons, i, state, target) is Some ==> exists|presses: Seq<bool>|
            presses.len() == buttons.len() && #[trigger] lights_from(buttons, presses, i, state)
                == target && presses_from(presses, i) == fewest(buttons, i, state, target).unwrap(),
        forall|presses: Seq<bool>|
            presses.len() == buttons.len() && #[trigger] lights_from(buttons, presses, i, state)
                == target ==> fewest(buttons, i, state, target) is Some && fewest(
                buttons,
                i,
                state,
                target,
            ).unwrap() <= presses_from(presses, i),
    decreases buttons.len() - i,
{
    let n = buttons.len() as int;
    if i >= n {
        if state == target {
            let presses = Seq::new(buttons.len(), |j: int| false);
            assert(lights_from(buttons, presses, i, state) == target);
        }
    } else {
        let other = state ^ buttons[i];
        lemma_fewest(buttons, i + 1, state, target);
        lemma_fewest(buttons, i + 1, other, target);
        let left = fewest(buttons, i + 1, state, target);
        let pressed = fewest(buttons, i + 1, other, target);
        let best = fewest(buttons, i, state, target);
        if best is Some {
            let take_left = left is Some && (pressed is None || left.unwrap() <= pressed.unwrap()
                + 1);
            if take_left {
                let w = choose|w: Seq<bool>|
                    w.len() == buttons.len() && #[trigger] lights_from(buttons, w, i + 1, state)
                        == target && presses_from(w, i + 1) == left.unwrap();
                let presses = w.update(i, false);
                lemma_presses_agree(buttons, w, presses, i + 1, state);
                assert(lights_from(buttons, presses, i, state) == target);
            } else {
                let w = choose|w: Seq<bool>|
                    w.len() == buttons.len() && #[trigger] lights_from(buttons, w, i + 1, other)
                        == target && presses_from(w, i + 1) == pressed.unwrap();
                let presses = w.update(i, true);
                lemma_presses_agree(buttons, w, presses, i + 1, other);
                assert(lights_from(buttons, presses, i, state) == target);
            }
        }
        assert forall|presses: Seq<bool>|
            presses.len() == buttons.len() && #[trigger] lights_from(buttons, presses, i, state)
                == target implies best is Some && best.unwrap() <= presses_from(presses, i) by {
            if presses[i] {
                assert(lights_from(buttons, presses, i + 1, other) == target);
            } else {
                assert(lights_from(buttons, presses, i + 1, state) == target);
            }
        }
    }
}

/// The fewest presses of the buttons from the `i`-th on that turn the
/// lights from `state` to `target`.
fn search_lights(buttons: &Vec<u16>, i: usize, state: u16, target: u16) -> (r: Option<u32>)
    requires
        i <= buttons.len() <= MAX_WIDTH,
    ensures
        match (r, fewest(buttons@, i as int, state, target)) {
            (Some(count), Some(c)) => count == c && count <= buttons.len() - i,
            (None, None) => true,
            _ => false,
        },
    decreases buttons.len() - i,
{
    if i >= buttons.len() {
        if state == target {
            Some(0)
        } else {
            None
        }
    } else {
        let left = search_lights(buttons, i + 1, state, target);
        let pressed = search_lights(buttons, i + 1, state ^ buttons[i], target);
        match (left, pressed) {
            (None, None) => None,
            (Some(a), None) => Some(a),
            (None, Some(b)) => Some(b + 1),
            (Some(a), Some(b)) => if a <= b + 1 {
                Some(a)
            } else {
                Some(b + 1)
            },
        }
    }
}

/// The fewest presses that set the lights of a machine.
pub fn solve_lights(machine: &Machine) -> (r: Option<u32>)
    requires
        machine.wf(),
    ensures
        match (r, fewest(machine@.buttons, 0, 0, machine@.target)) {
            (Some(count), Some(c)) => count == c && count <= MAX_WIDTH,
            (None, None) => true,
            _ => false,
        },
{
    search_lights(&machine.buttons, 0, 0, machine.target)
}

/// The fewest presses for the machines from the `k`-th on, added to
/// `acc`.
pub open spec fn spec_lights_total(machines: Seq<MachineModel>, k: int, acc: int) -> Result<
    int,
    Error,
>
    decreases machines.len() - k,
{
    if k < 0 || k >= machines.len() {
        Ok(acc)
    } else {
        match fewest(machines[k].buttons, 0, 0, machines[k].target) {
            None => Err(Error::Unsolvable),
            Some(count) => if acc + count > u64::MAX {
                Err(Error::Overflow)
            } else {
                spec_lights_total(machines, k + 1, acc + count)
            },
        }
    }
}

/// What holds of the first answer for a text.
pub open spec fn part1_holds(input: &str, r: Result<u64, Error>) -> bool {
    match spec_parse(input.spec_bytes()) {
        Err(e) => r == Err::<u64, Error>(e),
        Ok(machines) => match (r, spec_lights_total(machines, 0, 0)) {
            (Ok(total), Ok(t)) => total == t,
            (Err(e), Err(f)) => e == f,
            _ => false,
        },
    }
}

/// Adds up the fewest presses that set the lights of each machine.
pub fn part1(input: &str) -> (r: Result<u64, Error>)
    ensures
        part1_holds(input, r),
{
    let machines = match parse(input.as_bytes()) {
        Ok(machines) => machines,
        Err(e) => {
            return Err(e);
        },
    };
    lights_total(&machines)
}

/// Adds up the fewest presses that set the lights of each machine.
pub fn lights_total(machines: &Vec<Machine>) -> (r: Result<u64, Error>)
    requires
        forall|i: int| 0 <= i < machines.len() ==> (#[trigger] machines[i]).wf(),
    ensures
        match (r, spec_lights_total(machine_views(machines@), 0, 0)) {
            (Ok(total), Ok(t)) => total == t,
            (Err(e), Err(f)) => e == f,
            _ => false,
        },
{
    let mut total: u64 = 0;
    let mut k: usize = 0;
    let ghost models = machine_views(machines@);
    while k < machines.len()
        invariant
            k <= machines.len(),
            models == machine_views(machines@),
            forall|i: int| 0 <= i < machines.len() ==> (#[trigger] machines[i]).wf(),
            spec_lights_total(models, 0, 0) == spec_lights_total(models, k as int, total as int),
        decreases machines.len() - k,
    {
        proof {
            assert(models[k as int] == machines[k as int]@);
        }
        let count = match solve_lights(&machines[k]) {
            Some(count) => count,
            None => {
                return Err(Error::Unsolvable);
            },
        };
        total = match total.checked_add(count as u64) {
            Some(sum) => sum,
            None => {
                return Err(Error::Overflow);
            },
        };
        k += 1;
    }
    Ok(total)
}

/// Whether a button acts on the counter `r`.
pub open spec fn touches(button: u16, r: int) -> bool {
    (button >> (r as u16)) & 1 == 1
}

/// Whether a button acts on the counter `r`.
pub fn acts_on(button: u16, r: usize) -> (b: bool)
    requires
        r < MAX_WIDTH,
    ensures
        b == touches(button, r as int),
{
    (button >> (r as u16)) & 1 == 1
}

/// What the first `k` buttons add to the counter `r` when each is pressed
/// as often as `presses` says.
pub open spec fn counter(buttons: Seq<u16>, presses: Seq<int>, r: int, k: int) -> int
    decreases k,
{
    if k <= 0 {
        0
    } else {
        counter(buttons, presses, r, k - 1) + if touches(buttons[k - 1], r) {
            presses[k - 1]
        } else {
            0
        }
    }
}

/// How often the first `k` buttons are pressed together.
pub open spec fn total(presses: Seq<int>, k: int) -> int
    decreases k,
{
    if k <= 0 {
        0
    } else {
        total(presses, k - 1) + presses[k - 1]
    }
}

/// The presses set every counter to its number.
pub open spec fn solves(buttons: Seq<u16>, wanted: Seq<int>, presses: Seq<int>) -> bool {
    &&& presses.len() == buttons.len()
    &&& forall|i: int| 0 <= i < presses.len() ==> #[trigger] presses[i] >= 0
    &&& forall|r: int|
        0 <= r < wanted.len() ==> #[trigger] counter(buttons, presses, r, buttons.len() as int)
            == wanted[r]
}

/// `best` is the smallest number of presses that set the counters.
pub open spec fn is_fewest_total(buttons: Seq<u16>, wanted: Seq<int>, best: int) -> bool {
    &&& exists|presses: Seq<int>|
        #[trigger] solves(buttons, wanted, presses) && total(presses, buttons.len() as int) == best
    &&& forall|presses: Seq<int>|
        #[trigger] solves(buttons, wanted, presses) ==> best <= total(
            presses,
            buttons.len() as int,
        )
}

/// No presses set the counters.
pub open spec fn has_no_presses(buttons: Seq<u16>, wanted: Seq<int>) -> bool {
    forall|presses: Seq<int>| !#[trigger] solves(buttons, wanted, presses)
}

/// A choice of buttons as presses: one press for each chosen button.
pub open spec fn as_presses(choice: Seq<bool>) -> Seq<int> {
    Seq::new(choice.len(), |i: int| if choice[i] { 1int } else { 0int })
}

/// Every choice of the first `k` buttons: first the choices without the
/// last of them, then the same choices with it.
pub open spec fn all_choices(k: nat) -> Seq<Seq<bool>>
    decreases k,
{
    if k == 0 {
        seq![Seq::<bool>::empty()]
    } else {
        let before = all_choices((k - 1) as nat);
        Seq::new(before.len(), |j: int| before[j].push(false)) + Seq::new(
            before.len(),
            |j: int| before[j].push(true),
        )
    }
}

/// Every choice of `k` buttons is among all choices.
pub proof fn lemma_all_choices(choice: Seq<bool>) -> (at: int)
    ensures
        0 <= at < all_choices(choice.len()).len(),
        all_choices(choice.len())[at] == choice,
        forall|j: int|
            0 <= j < all_choices(choice.len()).len() ==> (#[trigger] all_choices(
                choice.len(),
            )[j]).len() == choice.len(),
    decreases choice.len(),
{
    let k = choice.len();
    if k == 0 {
        assert(choice =~= Seq::<bool>::empty());
        0
    } else {
        let before = all_choices((k - 1) as nat);
        let at = lemma_all_choices(choice.drop_last());
        assert(choice =~= choice.drop_last().push(choice.last()));
        let all = all_choices(k);
        assert forall|j: int| 0 <= j < all.len() implies (#[trigger] all[j]).len() == k by {
            if j < before.len() {
                assert(before[j].len() == k - 1);
            } else {
                assert(before[j - before.len()].len() == k - 1);
            }
        }
        if choice.last() {
            at + before.len()
        } else {
            at
        }
    }
}

/// The choice fits the counters: it does not add more to any counter
/// than its number, and leaves an even rest.
pub open spec fn fits(buttons: Seq<u16>, wanted: Seq<int>, choice: Seq<bool>) -> bool {
    forall|r: int|
        0 <= r < wanted.len() ==> {
            let added = #[trigger] counter(buttons, as_presses(choice), r, buttons.len() as int);
            added <= wanted[r] && (wanted[r] - added) % 2 == 0
        }
}

/// Half of what is left for each counter after the choice.
pub open spec fn half_rest(buttons: Seq<u16>, wanted: Seq<int>, choice: Seq<bool>) -> Seq<int> {
    Seq::new(
        wanted.len(),
        |r: int| (wanted[r] - counter(buttons, as_presses(choice), r, buttons.len() as int)) / 2,
    )
}

/// Every counter is to show zero.
pub open spec fn all_zero(wanted: Seq<int>) -> bool {
    forall|r: int| 0 <= r < wanted.len() ==> #[trigger] wanted[r] == 0
}

/// The smaller of two counts, where nothing stands for no count.
pub open spec fn smaller(a: Option<int>, b: Option<int>) -> Option<int> {
    match (a, b) {
        (None, _) => b,
        (_, None) => a,
        (Some(x), Some(y)) => if x <= y {
            a
        } else {
            b
        },
    }
}

/// The fewest presses that set the counters when the buttons of one
/// choice are pressed once and all others an even number of times.
pub open spec fn by_choice(buttons: Seq<u16>, wanted: Seq<int>, fuel: nat, choice: Seq<bool>) -> Option<
    int,
>
    decreases fuel, 0int, 0int,
{
    if fuel == 0 || !fits(buttons, wanted, choice) {
        None
    } else {
        match least(buttons, half_rest(buttons, wanted, choice), (fuel - 1) as nat) {
            None => None,
            Some(c) => Some(total(as_presses(choice), buttons.len() as int) + 2 * c),
        }
    }
}

/// The fewest presses over the first `j` choices.
pub open spec fn least_over(buttons: Seq<u16>, wanted: Seq<int>, fuel: nat, j: int) -> Option<int>
    decreases fuel, 1int, j,
{
    if j <= 0 || fuel == 0 {
        None
    } else {
        smaller(
            least_over(buttons, wanted, fuel, j - 1),
            by_choice(buttons, wanted, fuel, all_choices(buttons.len())[j - 1]),
        )
    }
}

/// The fewest presses that set counters whose numbers have at most
/// `fuel` binary digits: the presses are split into the buttons that are
/// pressed an odd number of times, and half of the other presses, which
/// set half of what is left.
pub open spec fn least(buttons: Seq<u16>, wanted: Seq<int>, fuel: nat) -> Option<int>
    decreases fuel, 2int, 0int,
{
    if fuel == 0 {
        if all_zero(wanted) {
            Some(0)
        } else {
            None
        }
    } else {
        least_over(buttons, wanted, fuel, all_choices(buttons.len()).len() as int)
    }
}

/// Two to the power `e`.
pub open spec fn pow2(e: nat) -> nat
    decreases e,
{
    if e == 0 {
        1
    } else {
        2 * pow2((e - 1) as nat)
    }
}

/// Presses made of twice some presses and a choice of buttons once.
pub open spec fn doubled_with(half: Seq<int>, choice: Seq<bool>) -> Seq<int> {
    Seq::new(half.len(), |i: int| 2 * half[i] + if choice[i] { 1int } else { 0int })
}

proof fn lemma_doubled_with(buttons: Seq<u16>, half: Seq<int>, choice: Seq<bool>, r: int, k: int)
    requires
        0 <= k <= buttons.len(),
        half.len() == buttons.len(),
        choice.len() == buttons.len(),
    ensures
        counter(buttons, doubled_with(half, choice), r, k) == 2 * counter(buttons, half, r, k)
            + counter(buttons, as_presses(choice), r, k),
        total(doubled_with(half, choice), k) == 2 * total(half, k) + total(as_presses(choice), k),
    decreases k,
{
    if k > 0 {
        lemma_doubled_with(buttons, half, choice, r, k - 1);
    }
}

proof fn lemma_counter_nonnegative(buttons: Seq<u16>, presses: Seq<int>, r: int, k: int)
    requires
        0 <= k <= presses.len(),
        forall|i: int| 0 <= i < presses.len() ==> #[trigger] presses[i] >= 0,
    ensures
        counter(buttons, presses, r, k) >= 0,
        total(presses, k) >= 0,
    decreases k,
{
    if k > 0 {
        lemma_counter_nonnegative(buttons, presses, r, k - 1);
    }
}

proof fn lemma_counter_zero(buttons: Seq<u16>, presses: Seq<int>, r: int, k: int)
    requires
        0 <= k <= presses.len(),
        forall|i: int| 0 <= i < presses.len() ==> #[trigger] presses[i] == 0,
    ensures
        counter(buttons, presses, r, k) == 0,
        total(presses, k) == 0,
    decreases k,
{
    if k > 0 {
        lemma_counter_zero(buttons, presses, r, k - 1);
    }
}

/// The fewest presses over the first `j` choices are those of one of the
/// choices, and no more than those of any of them.
proof fn lemma_least_over(buttons: Seq<u16>, wanted: Seq<int>, fuel: nat, j: int)
    requires
        fuel > 0,
        0 <= j,
    ensures
        least_over(buttons, wanted, fuel, j) is Some ==> exists|at: int|
            0 <= at < j && #[trigger] by_choice(
                buttons,
                wanted,
                fuel,
                all_choices(buttons.len())[at],
            ) == least_over(buttons, wanted, fuel, j),
        forall|at: int|
            0 <= at < j && (#[trigger] by_choice(
                buttons,
                wanted,
                fuel,
                all_choices(buttons.len())[at],
            )) is Some ==> least_over(buttons, wanted, fuel, j) is Some && least_over(
                buttons,
                wanted,
                fuel,
                j,
            ).unwrap() <= by_choice(
                buttons,
                wanted,
                fuel,
                all_choices(buttons.len())[at],
            ).unwrap(),
    decreases j,
{
    if j > 0 {
        lemma_least_over(buttons, wanted, fuel, j - 1);
        let here = by_choice(buttons, wanted, fuel, all_choices(buttons.len())[j - 1]);
        let before = least_over(buttons, wanted, fuel, j - 1);
        let now = least_over(buttons, wanted, fuel, j);
        if now is Some {
            if now == here {
                assert(by_choice(buttons, wanted, fuel, all_choices(buttons.len())[j - 1]) == now);
            } else {
                let at = choose|at: int|
                    0 <= at < j - 1 && #[trigger] by_choice(
                        buttons,
                        wanted,
                        fuel,
                        all_choices(buttons.len())[at],
                    ) == before;
                assert(by_choice(buttons, wanted, fuel, all_choices(buttons.len())[at]) == now);
            }
        }
    }
}

/// What `least` is: for counters whose numbers have at most `fuel`
/// binary digits it is the smallest number of presses that set them, and
/// nothing if no presses do.
pub proof fn lemma_least(buttons: Seq<u16>, wanted: Seq<int>, fuel: nat)
    requires
        forall|r: int| 0 <= r < wanted.len() ==> 0 <= #[trigger] wanted[r] < pow2(fuel),
    ensures
        least(buttons, wanted, fuel) is Some ==> is_fewest_total(
            buttons,
            wanted,
            least(buttons, wanted, fuel).unwrap(),
        ),
        least(buttons, wanted, fuel) is None ==> has_no_presses(buttons, wanted),
    decreases fuel,
{
    let n = buttons.len() as int;
    let best = least(buttons, wanted, fuel);
    if fuel == 0 {
        assert(all_zero(wanted));
        let zeros = Seq::new(buttons.len(), |i: int| 0int);
        assert(solves(buttons, wanted, zeros)) by {
            assert forall|r: int| 0 <= r < wanted.len() implies #[trigger] counter(
                buttons,
                zeros,
                r,
                n,
            ) == wanted[r] by {
                lemma_counter_zero(buttons, zeros, r, n);
            }
        }
        lemma_counter_zero(buttons, zeros, 0, n);
        assert forall|presses: Seq<int>| #[trigger] solves(buttons, wanted, presses) implies 0
            <= total(presses, n) by {
            lemma_counter_nonnegative(buttons, presses, 0, n);
        }
    } else {
        let choices = all_choices(buttons.len());
        lemma_least_over(buttons, wanted, fuel, choices.len() as int);
        if best is Some {
            let at = choose|at: int|
                0 <= at < choices.len() && #[trigger] by_choice(buttons, wanted, fuel, choices[at])
                    == best;
            let choice = choices[at];
            lemma_all_choices(choice);
            lemma_all_choices(Seq::new(buttons.len(), |i: int| false));
            assert(choice.len() == buttons.len());
            let rest = half_rest(buttons, wanted, choice);
            assert(fits(buttons, wanted, choice));
            assert forall|r: int| 0 <= r < rest.len() implies 0 <= #[trigger] rest[r] < pow2(
                (fuel - 1) as nat,
            ) by {
                let added = counter(buttons, as_presses(choice), r, n);
                lemma_counter_nonnegative(buttons, as_presses(choice), r, n);
                assert(added <= wanted[r] && (wanted[r] - added) % 2 == 0);
            }
            lemma_least(buttons, rest, (fuel - 1) as nat);
            let sub = least(buttons, rest, (fuel - 1) as nat).unwrap();
            let half = choose|half: Seq<int>|
                #[trigger] solves(buttons, rest, half) && total(half, n) == sub;
            let presses = doubled_with(half, choice);
            lemma_doubled_with(buttons, half, choice, 0, n);
            assert(solves(buttons, wanted, presses)) by {
                assert forall|r: int| 0 <= r < wanted.len() implies #[trigger] counter(
                    buttons,
                    presses,
                    r,
                    n,
                ) == wanted[r] by {
                    lemma_doubled_with(buttons, half, choice, r, n);
                    let added = counter(buttons, as_presses(choice), r, n);
                    assert(counter(buttons, half, r, n) == rest[r]);
                    assert(added <= wanted[r] && (wanted[r] - added) % 2 == 0);
                }
            }
            assert(total(presses, n) == best.unwrap());
        }
        assert forall|presses: Seq<int>| #[trigger] solves(buttons, wanted, presses) implies best
            is Some && best.unwrap() <= total(presses, n) by {
            let choice = Seq::new(buttons.len(), |i: int| presses[i] % 2 == 1);
            let half = Seq::new(buttons.len(), |i: int| presses[i] / 2);
            assert(presses =~= doubled_with(half, choice));
            let at = lemma_all_choices(choice);
            let rest = half_rest(buttons, wanted, choice);
            lemma_doubled_with(buttons, half, choice, 0, n);
            assert forall|r: int| 0 <= r < wanted.len() implies {
                let added = #[trigger] counter(buttons, as_presses(choice), r, n);
                added <= wanted[r] && (wanted[r] - added) % 2 == 0 && rest[r] == counter(
                    buttons,
                    half,
                    r,
                    n,
                )
            } by {
                lemma_doubled_with(buttons, half, choice, r, n);
                lemma_counter_nonnegative(buttons, half, r, n);
                assert(counter(buttons, presses, r, n) == wanted[r]);
            }
            assert(fits(buttons, wanted, choice));
            assert(solves(buttons, rest, half)) by {
                assert forall|r: int| 0 <= r < rest.len() implies #[trigger] counter(
                    buttons,
                    half,
                    r,
                    n,
                ) == rest[r] by {
                    let added = counter(buttons, as_presses(choice), r, n);
                    assert(rest[r] == counter(buttons, half, r, n));
                }
            }
            assert forall|r: int| 0 <= r < rest.len() implies 0 <= #[trigger] rest[r] < pow2(
                (fuel - 1) as nat,
            ) by {
                let added = counter(buttons, as_presses(choice), r, n);
                lemma_counter_nonnegative(buttons, as_presses(choice), r, n);
                assert(added <= wanted[r] && (wanted[r] - added) % 2 == 0);
            }
            lemma_least(buttons, rest, (fuel - 1) as nat);
            let sub = least(buttons, rest, (fuel - 1) as nat);
            assert(sub is Some && sub.unwrap() <= total(half, n));
            assert(by_choice(buttons, wanted, fuel, choices[at]) == Some(
                total(as_presses(choice), n) + 2 * sub.unwrap(),
            ));
        }
    }
}

/// The numbers as mathematical integers.
pub open spec fn as_ints(numbers: Seq<u16>) -> Seq<int> {
    Seq::new(numbers.len(), |r: int| numbers[r] as int)
}

/// What a choice of buttons adds to each counter, and how many buttons
/// it holds.
pub struct Choice {
    pub effect: Vec<u16>,
    pub count: u32,
}

/// The list holds every choice of the first `k` buttons with what it
/// adds to each of the counters.
pub open spec fn lists_choices(list: Seq<Choice>, buttons: Seq<u16>, lights: int, k: int) -> bool {
    &&& list.len() == all_choices(k as nat).len()
    &&& forall|j: int|
        0 <= j < list.len() ==> {
            &&& (#[trigger] list[j]).effect@.len() == lights
            &&& list[j].count == total(as_presses(all_choices(k as nat)[j]), k)
            &&& list[j].count <= k
            &&& forall|r: int|
                0 <= r < lights ==> (#[trigger] list[j].effect@[r]) == counter(
                    buttons,
                    as_presses(all_choices(k as nat)[j]),
                    r,
                    k,
                ) && list[j].effect@[r] <= k
        }
}

/// Presses that agree on the first `k` buttons add the same to a counter
/// there.
proof fn lemma_counter_prefix(buttons: Seq<u16>, a: Seq<int>, b: Seq<int>, r: int, k: int)
    requires
        0 <= k <= a.len(),
        k <= b.len(),
        forall|i: int| 0 <= i < k ==> a[i] == b[i],
    ensures
        counter(buttons, a, r, k) == counter(buttons, b, r, k),
        total(a, k) == total(b, k),
    decreases k,
{
    if k > 0 {
        lemma_counter_prefix(buttons, a, b, r, k - 1);
    }
}

/// Every choice of the first `k` buttons says of each of them whether it
/// is pressed.
pub proof fn lemma_choice_lengths(k: nat)
    ensures
        all_choices(k).len() >= 1,
        forall|j: int| 0 <= j < all_choices(k).len() ==> (#[trigger] all_choices(k)[j]).len() == k,
    decreases k,
{
    if k > 0 {
        lemma_choice_lengths((k - 1) as nat);
        let before = all_choices((k - 1) as nat);
        let all = all_choices(k);
        assert forall|j: int| 0 <= j < all.len() implies (#[trigger] all[j]).len() == k by {
            if j < before.len() {
                assert(before[j].len() == k - 1);
            } else {
                assert(before[j - before.len()].len() == k - 1);
            }
        }
    }
}

/// A choice with one more button, pressed or not.
fn extend_choice(choice: &Choice, button: u16, lights: usize, pressed: bool) -> (r: Choice)
    requires
        lights <= MAX_WIDTH,
        choice.effect@.len() == lights,
        choice.count < MAX_WIDTH,
        forall|c: int| 0 <= c < lights ==> (#[trigger] choice.effect@[c]) < MAX_WIDTH,
    ensures
        r.effect@.len() == lights,
        r.count == choice.count + if pressed { 1int } else { 0int },
        forall|c: int|
            0 <= c < lights ==> (#[trigger] r.effect@[c]) == choice.effect@[c] + if pressed
                && touches(button, c) { 1int } else { 0int },
{
    let mut effect: Vec<u16> = Vec::new();
    let mut c: usize = 0;
    while c < lights
        invariant
            c <= lights <= MAX_WIDTH,
            effect.len() == c,
            choice.effect@.len() == lights,
            forall|q: int| 0 <= q < lights ==> (#[trigger] choice.effect@[q]) < MAX_WIDTH,
            forall|q: int|
                0 <= q < c ==> (#[trigger] effect@[q]) == choice.effect@[q] + if pressed
                    && touches(button, q) { 1int } else { 0int },
        decreases lights - c,
    {
        let before: u16 = choice.effect[c];
        proof {
            assert(choice.effect@[c as int] < MAX_WIDTH);
        }
        if pressed && acts_on(button, c) {
            effect.push(before + 1);
        } else {
            effect.push(before);
        }
        c += 1;
    }
    Choice { effect, count: if pressed { choice.count + 1 } else { choice.count } }
}

/// Every choice of buttons with what it adds to each counter.
pub fn build_choices(buttons: &Vec<u16>, lights: usize) -> (list: Vec<Choice>)
    requires
        buttons.len() <= MAX_WIDTH,
        lights <= MAX_WIDTH,
    ensures
        lists_choices(list@, buttons@, lights as int, buttons.len() as int),
{
    let mut zeros: Vec<u16> = Vec::new();
    let mut c: usize = 0;
    while c < lights
        invariant
            c <= lights,
            zeros.len() == c,
            forall|q: int| 0 <= q < c ==> zeros[q] == 0,
        decreases lights - c,
    {
        zeros.push(0);
        c += 1;
    }
    let mut list: Vec<Choice> = Vec::new();
    list.push(Choice { effect: zeros, count: 0 });
    let mut k: usize = 0;
    proof {
        assert(all_choices(0).len() == 1);
        assert forall|j: int| 0 <= j < list.len() implies {
            &&& (#[trigger] list[j]).effect@.len() == lights
            &&& list[j].count == total(as_presses(all_choices(0)[j]), 0)
            &&& list[j].count <= 0
            &&& forall|r: int|
                0 <= r < lights ==> (#[trigger] list[j].effect@[r]) == counter(
                    buttons@,
                    as_presses(all_choices(0)[j]),
                    r,
                    0,
                ) && list[j].effect@[r] <= 0
        } by {}
    }
    while k < buttons.len()
        invariant
            k <= buttons.len() <= MAX_WIDTH,
            lights <= MAX_WIDTH,
            lists_choices(list@, buttons@, lights as int, k as int),
        decreases buttons.len() - k,
    {
        let button = buttons[k];
        let half: usize = list.len();
        let ghost before = list@;
        let ghost earlier = all_choices(k as nat);
        let ghost now = all_choices((k + 1) as nat);
        let mut next: Vec<Choice> = Vec::new();
        let mut pass: usize = 0;
        while pass < 2
            invariant
                pass <= 2,
                k < buttons.len() <= MAX_WIDTH,
                lights <= MAX_WIDTH,
                button == buttons[k as int],
                half == list.len(),
                before == list@,
                earlier == all_choices(k as nat),
                now == all_choices((k + 1) as nat),
                lists_choices(list@, buttons@, lights as int, k as int),
                next.len() == pass * half,
                forall|j: int|
                    0 <= j < next.len() ==> {
                        &&& (#[trigger] next[j]).effect@.len() == lights
                        &&& next[j].count == total(as_presses(now[j]), k + 1)
                        &&& next[j].count <= k + 1
                        &&& forall|r: int|
                            0 <= r < lights ==> (#[trigger] next[j].effect@[r]) == counter(
                                buttons@,
                                as_presses(now[j]),
                                r,
                                k + 1,
                            ) && next[j].effect@[r] <= k + 1
                    },
            decreases 2 - pass,
        {
            let pressed = pass == 1;
            let mut j: usize = 0;
            while j < half
                invariant
                    j <= half,
                    pass < 2,
                    pressed == (pass == 1),
                    k < buttons.len() <= MAX_WIDTH,
                    lights <= MAX_WIDTH,
                    button == buttons[k as int],
                    half == list.len(),
                    before == list@,
                    earlier == all_choices(k as nat),
                    now == all_choices((k + 1) as nat),
                    lists_choices(list@, buttons@, lights as int, k as int),
                    next.len() == pass * half + j,
                    forall|q: int|
                        0 <= q < next.len() ==> {
                            &&& (#[trigger] next[q]).effect@.len() == lights
                            &&& next[q].count == total(as_presses(now[q]), k + 1)
                            &&& next[q].count <= k + 1
                            &&& forall|r: int|
                                0 <= r < lights ==> (#[trigger] next[q].effect@[r]) == counter(
                                    buttons@,
                                    as_presses(now[q]),
                                    r,
                                    k + 1,
                                ) && next[q].effect@[r] <= k + 1
                        },
                decreases half - j,
            {
                let ghost old_next = next@;
                let ghost at = next.len() as int;
                proof {
                    assert(list[j as int].count <= k);
                    assert forall|c: int| 0 <= c < lights implies (#[trigger] list[j as int].effect@[c])
                        < MAX_WIDTH by {
                        assert(list[j as int].effect@[c] <= k);
                    }
                }
                let made = extend_choice(&list[j], button, lights, pressed);
                next.push(made);
                proof {
                    let was = earlier[j as int];
                    let is = now[at];
                    assert(is == was.push(pressed));
                    assert forall|q: int| 0 <= q < next.len() implies {
                        &&& (#[trigger] next[q]).effect@.len() == lights
                        &&& next[q].count == total(as_presses(now[q]), k + 1)
                        &&& next[q].count <= k + 1
                        &&& forall|r: int|
                            0 <= r < lights ==> (#[trigger] next[q].effect@[r]) == counter(
                                buttons@,
                                as_presses(now[q]),
                                r,
                                k + 1,
                            ) && next[q].effect@[r] <= k + 1
                    } by {
                        if q < at {
                            assert(next[q] == old_next[q]);
                        } else {
                            lemma_choice_lengths(k as nat);
                            assert(was.len() == k);
                            assert(as_presses(is)[k as int] == if pressed { 1int } else { 0int });
                            lemma_counter_prefix(
                                buttons@,
                                as_presses(is),
                                as_presses(was),
                                0,
                                k as int,
                            );
                            assert forall|r: int| 0 <= r < lights implies (#[trigger] next[q].effect@[r])
                                == counter(buttons@, as_presses(now[q]), r, k + 1)
                                && next[q].effect@[r] <= k + 1 by {
                                lemma_counter_prefix(
                                    buttons@,
                                    as_presses(is),
                                    as_presses(was),
                                    r,
                                    k as int,
                                );
                                assert(list[j as int].effect@[r] == counter(
                                    buttons@,
                                    as_presses(was),
                                    r,
                                    k as int,
                                ));
                            }
                        }
                    }
                }
                j += 1;
            }
            proof {
                assert(pass * half + half == (pass + 1) * half) by (nonlinear_arith);
            }
            pass += 1;
        }
        proof {
            assert(2 * half == next.len()) by (nonlinear_arith)
                requires
                    next.len() == 2 * half,
            ;
            assert(now.len() == 2 * earlier.len());
        }
        list = next;
        k += 1;
    }
    list
}

/// The numbers of the counters from the `r`-th on, each as odd or even,
/// read as one binary number with the `r`-th counter last.
pub open spec fn parity_key(numbers: Seq<int>, r: int) -> int
    decreases numbers.len() - r,
{
    if r < 0 || r >= numbers.len() {
        0
    } else {
        numbers[r] % 2 + 2 * parity_key(numbers, r + 1)
    }
}

/// Numbers that differ by even numbers have the same key.
pub proof fn lemma_key_same(a: Seq<int>, b: Seq<int>, r: int)
    requires
        a.len() == b.len(),
        0 <= r,
        forall|c: int| r <= c < a.len() ==> (#[trigger] a[c] - b[c]) % 2 == 0,
    ensures
        parity_key(a, r) == parity_key(b, r),
    decreases a.len() - r,
{
    if r < a.len() {
        lemma_key_same(a, b, r + 1);
        assert((a[r] - b[r]) % 2 == 0);
    }
}

/// The key of the numbers of the counters.
fn key_of(numbers: &Vec<u16>) -> (key: usize)
    requires
        numbers.len() <= MAX_WIDTH,
    ensures
        key == parity_key(as_ints(numbers@), 0),
        key < pow2(numbers.len() as nat),
{
    let ghost ints = as_ints(numbers@);
    let mut key: usize = 0;
    let mut r: usize = numbers.len();
    proof {
        lemma_pow2_bounds(0);
    }
    while r > 0
        invariant
            r <= numbers.len() <= MAX_WIDTH,
            ints == as_ints(numbers@),
            key == parity_key(ints, r as int),
            key < pow2((numbers.len() - r) as nat),
        decreases r,
    {
        proof {
            lemma_pow2_bounds((numbers.len() - r + 1) as nat);
            lemma_pow2_bounds((numbers.len() - r) as nat);
            assert(ints[r - 1] == numbers@[r - 1]);
        }
        r -= 1;
        key = key * 2 + (numbers[r] % 2) as usize;
    }
    key
}

/// The choices sorted by the key of what they add to the counters: for
/// each key the positions of its choices, in rising order.
pub open spec fn sorts_choices(classes: Seq<Vec<usize>>, list: Seq<Choice>, upto: int) -> bool {
    &&& forall|k: int, i: int|
        0 <= k < classes.len() && 0 <= i < classes[k]@.len() ==> (#[trigger] classes[k]@[i])
            < upto && parity_key(as_ints(list[classes[k]@[i] as int].effect@), 0) == k
    &&& forall|k: int, i: int, j: int|
        0 <= k < classes.len() && 0 <= i < j < classes[k]@.len() ==> (#[trigger] classes[k]@[i])
            < (#[trigger] classes[k]@[j])
    &&& forall|q: int|
        0 <= q < upto ==> {
            let k = #[trigger] parity_key(as_ints(list[q].effect@), 0);
            0 <= k < classes.len() && exists|i: int|
                0 <= i < classes[k]@.len() && classes[k]@[i] == q
        }
}

/// Sorts the choices by the key of what they add to the counters.
fn build_classes(list: &Vec<Choice>, lights: usize) -> (classes: Vec<Vec<usize>>)
    requires
        lights <= MAX_WIDTH,
        forall|j: int| 0 <= j < list.len() ==> (#[trigger] list[j]).effect@.len() == lights,
    ensures
        classes.len() == pow2(lights as nat),
        sorts_choices(classes@, list@, list.len() as int),
{
    let mut size: usize = 1;
    let mut e: usize = 0;
    while e < lights
        invariant
            e <= lights <= MAX_WIDTH,
            size == pow2(e as nat),
            size <= 65536,
        decreases lights - e,
    {
        proof {
            lemma_pow2_bounds((e + 1) as nat);
        }
        size = size * 2;
        e += 1;
    }
    let mut classes: Vec<Vec<usize>> = Vec::new();
    let mut k: usize = 0;
    while k < size
        invariant
            k <= size,
            classes.len() == k,
            forall|q: int| 0 <= q < k ==> (#[trigger] classes[q])@.len() == 0,
        decreases size - k,
    {
        classes.push(Vec::new());
        k += 1;
    }
    let mut j: usize = 0;
    while j < list.len()
        invariant
            j <= list.len(),
            lights <= MAX_WIDTH,
            classes.len() == size,
            size == pow2(lights as nat),
            forall|q: int| 0 <= q < list.len() ==> (#[trigger] list[q]).effect@.len() == lights,
            sorts_choices(classes@, list@, j as int),
        decreases list.len() - j,
    {
        let key = key_of(&list[j].effect);
        let ghost before = classes@;
        classes[key].push(j);
        proof {
            let after = classes@;
            assert forall|k: int, i: int|
                0 <= k < after.len() && 0 <= i < after[k]@.len() implies (#[trigger] after[k]@[i])
                < j + 1 && parity_key(as_ints(list@[after[k]@[i] as int].effect@), 0) == k by {
                if k == key {
                    if i < before[k]@.len() {
                        assert(after[k]@[i] == before[k]@[i]);
                    }
                } else {
                    assert(after[k] == before[k]);
                }
            }
            assert forall|k: int, a: int, b: int|
                0 <= k < after.len() && 0 <= a < b < after[k]@.len() implies (
            #[trigger] after[k]@[a]) < (#[trigger] after[k]@[b]) by {
                if k == key {
                    assert(after[k]@[a] == before[k]@[a]);
                    if b < before[k]@.len() {
                        assert(after[k]@[b] == before[k]@[b]);
                    }
                } else {
                    assert(after[k] == before[k]);
                }
            }
            assert forall|q: int| 0 <= q < j + 1 implies {
                let k = #[trigger] parity_key(as_ints(list@[q].effect@), 0);
                0 <= k < after.len() && exists|i: int|
                    0 <= i < after[k]@.len() && after[k]@[i] == q
            } by {
                let k = parity_key(as_ints(list@[q].effect@), 0);
                if q < j {
                    let i = choose|i: int| 0 <= i < before[k]@.len() && before[k]@[i] == q;
                    if k == key {
                        assert(after[k]@[i] == before[k]@[i]);
                    } else {
                        assert(after[k] == before[k]);
                    }
                    assert(after[k]@[i] == q);
                } else {
                    assert(after[k]@[after[k]@.len() - 1] == q);
                }
            }
        }
        j += 1;
    }
    classes
}

/// Whether a choice fits the counters, and if it does, half of what is
/// left for each counter.
fn half_after(choice: &Choice, wanted: &Vec<u16>) -> (r: Option<Vec<u16>>)
    requires
        choice.effect@.len() == wanted@.len(),
    ensures
        match r {
            Some(rest) => {
                &&& rest@.len() == wanted@.len()
                &&& forall|c: int|
                    0 <= c < wanted@.len() ==> (#[trigger] choice.effect@[c]) <= wanted@[c] && (
                    wanted@[c] - choice.effect@[c]) % 2 == 0
                &&& forall|c: int|
                    0 <= c < wanted@.len() ==> #[trigger] rest@[c] == (wanted@[c]
                        - choice.effect@[c]) / 2
            },
            None => exists|c: int|
                0 <= c < wanted@.len() && !(#[trigger] choice.effect@[c] <= wanted@[c] && (
                wanted@[c] - choice.effect@[c]) % 2 == 0),
        },
{
    let mut rest: Vec<u16> = Vec::new();
    let mut c: usize = 0;
    while c < wanted.len()
        invariant
            c <= wanted.len(),
            choice.effect@.len() == wanted@.len(),
            rest.len() == c,
            forall|q: int|
                0 <= q < c ==> (#[trigger] choice.effect@[q]) <= wanted@[q] && (wanted@[q]
                    - choice.effect@[q]) % 2 == 0,
            forall|q: int|
                0 <= q < c ==> #[trigger] rest@[q] == (wanted@[q] - choice.effect@[q]) / 2,
        decreases wanted.len() - c,
    {
        let added: u16 = choice.effect[c];
        let all: u16 = wanted[c];
        if added > all || (all - added) % 2 != 0 {
            proof {
                assert(!(choice.effect@[c as int] <= wanted@[c as int] && (wanted@[c as int]
                    - choice.effect@[c as int]) % 2 == 0));
            }
            return None;
        }
        rest.push((all - added) / 2);
        c += 1;
    }
    Some(rest)
}

/// Choices that do not fit leave the fewest presses what they were.
proof fn lemma_skip_choices(buttons: Seq<u16>, wanted: Seq<int>, fuel: nat, from: int, to: int)
    requires
        fuel > 0,
        0 <= from <= to,
        forall|j: int|
            from <= j < to ==> !fits(buttons, wanted, #[trigger] all_choices(buttons.len())[j]),
    ensures
        least_over(buttons, wanted, fuel, to) == least_over(buttons, wanted, fuel, from),
    decreases to - from,
{
    if from < to {
        lemma_skip_choices(buttons, wanted, fuel, from, to - 1);
        let last = all_choices(buttons.len())[to - 1];
        assert(!fits(buttons, wanted, last));
        assert(by_choice(buttons, wanted, fuel, last) is None);
        assert(least_over(buttons, wanted, fuel, to) == smaller(
            least_over(buttons, wanted, fuel, to - 1),
            by_choice(buttons, wanted, fuel, last),
        ));
    }
}

/// A choice of another key than the counters does not fit them.
proof fn lemma_other_key(
    buttons: Seq<u16>,
    wanted: Seq<int>,
    list: Seq<Choice>,
    j: int,
)
    requires
        lists_choices(list, buttons, wanted.len() as int, buttons.len() as int),
        0 <= j < list.len(),
        parity_key(as_ints(list[j].effect@), 0) != parity_key(wanted, 0),
    ensures
        !fits(buttons, wanted, all_choices(buttons.len())[j]),
{
    let choice = all_choices(buttons.len())[j];
    let added = as_ints(list[j].effect@);
    if fits(buttons, wanted, choice) {
        assert forall|c: int| 0 <= c < wanted.len() implies (#[trigger] wanted[c] - added[c]) % 2
            == 0 by {
            assert(list[j].effect@[c] == counter(
                buttons,
                as_presses(choice),
                c,
                buttons.len() as int,
            ));
        }
        lemma_key_same(wanted, added, 0);
    }
}

/// The choices from `from` up to but not `to` are of other keys than
/// `key` when they lie between two choices of that key that follow each
/// other, before the first or after the last.
proof fn lemma_between_members(
    classes: Seq<Vec<usize>>,
    list: Seq<Choice>,
    key: int,
    idx: int,
    q: int,
)
    requires
        sorts_choices(classes, list, list.len() as int),
        0 <= key < classes.len(),
        0 <= idx <= classes[key]@.len(),
        0 <= q < list.len(),
        idx > 0 ==> classes[key]@[idx - 1] < q,
        idx < classes[key]@.len() ==> q < classes[key]@[idx],
    ensures
        parity_key(as_ints(list[q].effect@), 0) != key,
{
    let k = parity_key(as_ints(list[q].effect@), 0);
    if k == key {
        let i = choose|i: int| 0 <= i < classes[k]@.len() && classes[k]@[i] == q;
        if i < idx {
            if i < idx - 1 {
                assert(classes[key]@[i] < classes[key]@[idx - 1]);
            }
        } else {
            if idx < i {
                assert(classes[key]@[idx] < classes[key]@[i]);
            }
        }
    }
}

/// The fewest presses that set counters whose numbers have at most
/// `fuel` binary digits.
fn search_counters(
    buttons: &Vec<u16>,
    choices: &Vec<Choice>,
    classes: &Vec<Vec<usize>>,
    wanted: &Vec<u16>,
    fuel: usize,
) -> (r: Option<u64>)
    requires
        buttons.len() <= MAX_WIDTH,
        wanted.len() <= MAX_WIDTH,
        fuel <= 16,
        lists_choices(choices@, buttons@, wanted.len() as int, buttons.len() as int),
        classes.len() == pow2(wanted.len() as nat),
        sorts_choices(classes@, choices@, choices.len() as int),
    ensures
        match (r, least(buttons@, as_ints(wanted@), fuel as nat)) {
            (Some(count), Some(c)) => count == c && count <= 16 * (pow2(fuel as nat) - 1),
            (None, None) => true,
            _ => false,
        },
    decreases fuel,
{
    let ghost ints = as_ints(wanted@);
    if fuel == 0 {
        let mut c: usize = 0;
        while c < wanted.len()
            invariant
                c <= wanted.len(),
                fuel == 0,
                ints == as_ints(wanted@),
                forall|q: int| 0 <= q < c ==> #[trigger] ints[q] == 0,
            decreases wanted.len() - c,
        {
            if wanted[c] != 0 {
                proof {
                    assert(ints[c as int] != 0);
                }
                return None;
            }
            c += 1;
        }
        return Some(0);
    }
    let ghost all = all_choices(buttons.len() as nat);
    let key = key_of(wanted);
    let members = &classes[key];
    let mut best: Option<u64> = None;
    let mut idx: usize = 0;
    proof {
        lemma_pow2_bounds(fuel as nat);
        lemma_choice_lengths(buttons.len() as nat);
        let first = if members@.len() > 0 { members@[0] as int } else { choices.len() as int };
        assert forall|q: int| 0 <= q < first implies !fits(buttons@, ints, #[trigger] all[q]) by {
            lemma_between_members(classes@, choices@, key as int, 0, q);
            lemma_other_key(buttons@, ints, choices@, q);
        }
        lemma_skip_choices(buttons@, ints, fuel as nat, 0, first);
    }
    while idx < members.len()
        invariant
            idx <= members.len(),
            0 < fuel <= 16,
            buttons.len() <= MAX_WIDTH,
            wanted.len() <= MAX_WIDTH,
            ints == as_ints(wanted@),
            all == all_choices(buttons.len() as nat),
            key == parity_key(ints, 0),
            key < classes.len(),
            members == classes[key as int],
            lists_choices(choices@, buttons@, wanted.len() as int, buttons.len() as int),
            classes.len() == pow2(wanted.len() as nat),
            sorts_choices(classes@, choices@, choices.len() as int),
            pow2(fuel as nat) == 2 * pow2((fuel - 1) as nat),
            match (
                best,
                least_over(
                    buttons@,
                    ints,
                    fuel as nat,
                    if idx < members@.len() {
                        members@[idx as int] as int
                    } else {
                        choices.len() as int
                    },
                ),
            ) {
                (Some(count), Some(c)) => count == c && count <= 16 * (pow2(fuel as nat) - 1),
                (None, None) => true,
                _ => false,
            },
        decreases members.len() - idx,
    {
        let j: usize = members[idx];
        proof {
            assert(classes@[key as int]@[idx as int] < choices.len());
        }
        let choice = &choices[j];
        let ghost model = all[j as int];
        proof {
            lemma_choice_lengths(buttons.len() as nat);
            assert(all_choices(buttons.len() as nat)[j as int].len() == buttons.len());
            assert(model.len() == buttons.len());
            assert forall|c: int| 0 <= c < wanted.len() implies (#[trigger] choice.effect@[c])
                == counter(buttons@, as_presses(model), c, buttons.len() as int) by {}
        }
        let found: Option<u64> = match half_after(choice, wanted) {
            None => {
                proof {
                    let c = choose|c: int|
                        0 <= c < wanted@.len() && !(#[trigger] choice.effect@[c] <= wanted@[c] && (
                        wanted@[c] - choice.effect@[c]) % 2 == 0);
                    assert(ints[c] == wanted@[c]);
                    assert(choice.effect@[c] == counter(
                        buttons@,
                        as_presses(model),
                        c,
                        buttons.len() as int,
                    ));
                    assert(!fits(buttons@, ints, model));
                }
                None
            },
            Some(rest) => {
                proof {
                    assert forall|c: int| 0 <= c < ints.len() implies {
                        let added = #[trigger] counter(
                            buttons@,
                            as_presses(model),
                            c,
                            buttons.len() as int,
                        );
                        added <= ints[c] && (ints[c] - added) % 2 == 0
                    } by {
                        assert(choice.effect@[c] == counter(
                            buttons@,
                            as_presses(model),
                            c,
                            buttons.len() as int,
                        ));
                        assert(choice.effect@[c] <= wanted@[c]);
                    }
                    assert(fits(buttons@, ints, model));
                    assert(as_ints(rest@) =~= half_rest(buttons@, ints, model)) by {
                        assert forall|c: int| 0 <= c < rest@.len() implies as_ints(rest@)[c]
                            == half_rest(buttons@, ints, model)[c] by {
                            assert(rest@[c] == (wanted@[c] - choice.effect@[c]) / 2);
                            assert(choice.effect@[c] == counter(
                                buttons@,
                                as_presses(model),
                                c,
                                buttons.len() as int,
                            ));
                        }
                    }
                    lemma_pow2_bounds((fuel - 1) as nat);
                    assert(choice.count <= buttons.len());
                }
                match search_counters(buttons, choices, classes, &rest, fuel - 1) {
                    None => None,
                    Some(sub) => Some(choice.count as u64 + 2 * sub),
                }
            },
        };
        proof {
            assert(by_choice(buttons@, ints, fuel as nat, model) == match found {
                Some(v) => Some(v as int),
                None => None::<int>,
            });
            let next = if idx + 1 < members@.len() {
                members@[idx + 1] as int
            } else {
                choices.len() as int
            };
            assert(j < next) by {
                if idx + 1 < members@.len() {
                    assert(classes@[key as int]@[idx as int] < classes@[key as int]@[idx + 1]);
                }
            }
            assert forall|q: int| j + 1 <= q < next implies !fits(
                buttons@,
                ints,
                #[trigger] all[q],
            ) by {
                lemma_between_members(classes@, choices@, key as int, idx + 1, q);
                lemma_other_key(buttons@, ints, choices@, q);
            }
            lemma_skip_choices(buttons@, ints, fuel as nat, j + 1, next);
        }
        best = match (best, found) {
            (None, other) => other,
            (Some(a), None) => Some(a),
            (Some(a), Some(b)) => if a <= b {
                Some(a)
            } else {
                Some(b)
            },
        };
        idx += 1;
    }
    best
}

proof fn lemma_pow2_bounds(e: nat)
    ensures
        pow2(e) >= 1,
        e > 0 ==> pow2(e) == 2 * pow2((e - 1) as nat),
        e <= 16 ==> pow2(e) <= 65536,
    decreases e,
{
    if e > 0 {
        lemma_pow2_bounds((e - 1) as nat);
    }
    if e <= 16 {
        reveal_with_fuel(pow2, 17);
    }
}

/// The fewest presses that set the counters of a machine, or nothing if
/// no presses do.
pub fn solve_joltage(machine: &Machine) -> (r: Option<u64>)
    requires
        machine.wf(),
    ensures
        match r {
            Some(count) => is_fewest_total(
                machine@.buttons,
                as_ints(machine@.joltages),
                count as int,
            ),
            None => has_no_presses(machine@.buttons, as_ints(machine@.joltages)),
        },
{
    let choices = build_choices(&machine.buttons, machine.lights);
    let classes = build_classes(&choices, machine.lights);
    proof {
        lemma_pow2_bounds(16);
        reveal_with_fuel(pow2, 17);
        lemma_least(machine@.buttons, as_ints(machine@.joltages), 16);
    }
    search_counters(&machine.buttons, &choices, &classes, &machine.joltages, 16)
}

/// The fewest presses that set the counters of each of the first `k`
/// machines, added up, if every one of them can be set.
pub open spec fn is_counters_total(machines: Seq<MachineModel>, k: int, sum: int) -> bool
    decreases k,
{
    if k <= 0 {
        sum == 0
    } else {
        exists|count: int|
            #[trigger] is_fewest_total(
                machines[k - 1].buttons,
                as_ints(machines[k - 1].joltages),
                count,
            ) && is_counters_total(machines, k - 1, sum - count)
    }
}

/// Why the counters of some machines have no sum: no presses set the
/// counters of one of them, or the sum of the first of them is too large.
pub open spec fn counters_fault(machines: Seq<MachineModel>, e: Error) -> bool {
    match e {
        Error::Unsolvable => exists|k: int|
            0 <= k < machines.len() && has_no_presses(
                (#[trigger] machines[k]).buttons,
                as_ints(machines[k].joltages),
            ),
        Error::Overflow => exists|k: int, sum: int|
            0 <= k <= machines.len() && #[trigger] is_counters_total(machines, k, sum) && sum
                > u64::MAX,
        _ => false,
    }
}

/// Adds up the fewest presses that set the counters of each machine.
pub fn counters_total(machines: &Vec<Machine>) -> (r: Result<u64, Error>)
    requires
        forall|i: int| 0 <= i < machines.len() ==> (#[trigger] machines[i]).wf(),
    ensures
        match r {
            Ok(sum) => is_counters_total(
                machine_views(machines@),
                machines.len() as int,
                sum as int,
            ),
            Err(e) => counters_fault(machine_views(machines@), e),
        },
{
    let mut total: u64 = 0;
    let mut k: usize = 0;
    let ghost models = machine_views(machines@);
    while k < machines.len()
        invariant
            k <= machines.len(),
            models == machine_views(machines@),
            forall|i: int| 0 <= i < machines.len() ==> (#[trigger] machines[i]).wf(),
            is_counters_total(models, k as int, total as int),
        decreases machines.len() - k,
    {
        proof {
            assert(models[k as int] == machines[k as int]@);
        }
        let count = match solve_joltage(&machines[k]) {
            Some(count) => count,
            None => {
                return Err(Error::Unsolvable);
            },
        };
        proof {
            assert(is_fewest_total(
                models[k as int].buttons,
                as_ints(models[k as int].joltages),
                count as int,
            ));
            assert(is_fewest_total(
                models[(k + 1) - 1].buttons,
                as_ints(models[(k + 1) - 1].joltages),
                count as int,
            ) && is_counters_total(models, (k + 1) - 1, (total + count) - count));
            assert(is_counters_total(models, k + 1, total + count));
        }
        total = match total.checked_add(count) {
            Some(sum) => sum,
            None => {
                return Err(Error::Overflow);
            },
        };
        k += 1;
    }
    Ok(total)
}

/// What holds of the second answer for a text.
pub open spec fn part2_holds(input: &str, r: Result<u64, Error>) -> bool {
    match spec_parse(input.spec_bytes()) {
        Err(e) => r == Err::<u64, Error>(e),
        Ok(machines) => match r {
            Ok(sum) => is_counters_total(machines, machines.len() as int, sum as int),
            Err(e) => counters_fault(machines, e),
        },
    }
}

/// Adds up the fewest presses that set the counters of each machine.
pub fn part2(input: &str) -> (r: Result<u64, Error>)
    ensures
        part2_holds(input, r),
{
    let machines = match parse(input.as_bytes()) {
        Ok(machines) => machines,
        Err(e) => {
            return Err(e);
        },
    };
    counters_total(&machines)
}

/// What holds of both answers for a text.
pub open spec fn both_holds(input: &str, r: Result<(u64, u64), Error>) -> bool {
    match spec_parse(input.spec_bytes()) {
        Err(e) => r == Err::<(u64, u64), Error>(e),
        Ok(machines) => match r {
            Ok((first, second)) => spec_lights_total(machines, 0, 0) == Ok::<int, Error>(
                first as int,
            ) && is_counters_total(machines, machines.len() as int, second as int),
            Err(e) => spec_lights_total(machines, 0, 0) == Err::<int, Error>(e) || (
            spec_lights_total(machines, 0, 0) is Ok && counters_fault(machines, e)),
        },
    }
}

/// Both answers.
pub fn both(input: &str) -> (r: Result<(u64, u64), Error>)
    ensures
        both_holds(input, r),
{
    let machines = match parse(input.as_bytes()) {
        Ok(machines) => machines,
        Err(e) => {
            return Err(e);
        },
    };
    let first = match lights_total(&machines) {
        Ok(total) => total,
        Err(e) => {
            return Err(e);
        },
    };
    let second = match counters_total(&machines) {
        Ok(total) => total,
        Err(e) => {
            return Err(e);
        },
    };
    Ok((first, second))
}

} // verus!
