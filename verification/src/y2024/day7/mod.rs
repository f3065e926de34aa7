//! Calibrations whose operators are missing.

use crate::table::rows;
use crate::text::{
    chars_of_lines, parse_error, parse_u64, parse_values, slice_of, split, split_spec,
    unsigned_value, values_of,
};
use crate::{lines_view, AdventError, AdventProblem};
use vstd::prelude::*;

verus! {

pub struct Day7;

/// A test value and the numbers that are to give it.
#[derive(Debug, PartialEq, Eq)]
pub struct Calibration {
    pub total: u64,
    pub parts: Vec<u64>,
}

/// `a` with as many zeros behind it as `b` has digits.
pub open spec fn shifted(a: nat, b: nat) -> nat
    decreases b,
{
    if b < 10 {
        a * 10
    } else {
        shifted(a, b / 10) * 10
    }
}

/// The number that the digits of `a` write with those of `b` behind them.
pub open spec fn concatenated(a: nat, b: nat) -> nat {
    shifted(a, b) + b
}

/// `a` with as many zeros behind it as `b` has digits; `None` where that
/// is no 64-bit number.
fn shift(a: u64, b: u64) -> (r: Option<u64>)
    ensures
        match r {
            Some(v) => v == shifted(a as nat, b as nat),
            None => shifted(a as nat, b as nat) > u64::MAX,
        },
    decreases b,
{
    if b < 10 {
        a.checked_mul(10)
    } else {
        match shift(a, b / 10) {
            Some(v) => v.checked_mul(10),
            None => None,
        }
    }
}

/// The number that the digits of `a` write with those of `b` behind them;
/// `None` where that is no 64-bit number.
pub fn checked_concatenate(a: u64, b: u64) -> (r: Option<u64>)
    ensures
        match r {
            Some(v) => v == concatenated(a as nat, b as nat),
            None => concatenated(a as nat, b as nat) > u64::MAX,
        },
{
    match shift(a, b) {
        Some(v) => v.checked_add(b),
        None => None,
    }
}

/// The number that the digits of `a` write with those of `b` behind them.
pub fn concatenate(a: u64, b: u64) -> (r: u64)
    requires
        concatenated(a as nat, b as nat) <= u64::MAX,
    ensures
        r == concatenated(a as nat, b as nat),
{
    match checked_concatenate(a, b) {
        Some(v) => v,
        None => 0,
    }
}

/// The numbers of `parts` from `idx` on can be joined to `running` by
/// operators, taken from left to right, so that the result is `total`:
/// by addition and multiplication, and by writing one number behind the
/// other if `joining` says so. No operator makes a number smaller, so a
/// running value above `total` cannot lead there.
pub open spec fn reaches(parts: Seq<u64>, idx: int, running: nat, total: nat, joining: bool) -> bool
    decreases parts.len() - idx,
{
    if running > total {
        false
    } else if idx >= parts.len() || idx < 0 {
        running == total
    } else {
        ||| reaches(parts, idx + 1, running + parts[idx] as nat, total, joining)
        ||| reaches(parts, idx + 1, running * (parts[idx] as nat), total, joining)
        ||| joining && reaches(parts, idx + 1, concatenated(running, parts[idx] as nat), total, joining)
    }
}

impl Calibration {
    /// The numbers from `idx` on can be joined to `running` so that the
    /// result is the test value.
    pub fn try_evaluate(&self, idx: usize, running: u64, joining: bool) -> (r: bool)
        requires
            idx <= self.parts.len(),
        ensures
            r == reaches(self.parts@, idx as int, running as nat, self.total as nat, joining),
        decreases self.parts.len() - idx,
    {
        if running > self.total {
            return false;
        }
        if idx == self.parts.len() {
            return running == self.total;
        }
        let part = self.parts[idx];
        let ghost t = self.total as nat;
        proof {
            lemma_above_total(self.parts@, idx + 1, t, joining);
        }
        match running.checked_add(part) {
            Some(sum) => {
                if self.try_evaluate(idx + 1, sum, joining) {
                    return true;
                }
            },
            None => {
                assert(!reaches(self.parts@, idx + 1, running as nat + part as nat, t, joining));
            },
        }
        match running.checked_mul(part) {
            Some(product) => {
                if self.try_evaluate(idx + 1, product, joining) {
                    return true;
                }
            },
            None => {
                assert(!reaches(
                    self.parts@,
                    idx + 1,
                    (running as nat) * (part as nat),
                    t,
                    joining,
                ));
            },
        }
        if joining {
            match checked_concatenate(running, part) {
                Some(joined) => {
                    if self.try_evaluate(idx + 1, joined, joining) {
                        return true;
                    }
                },
                None => {
                    assert(!reaches(
                        self.parts@,
                        idx + 1,
                        concatenated(running as nat, part as nat),
                        t,
                        joining,
                    ));
                },
            }
        }
        false
    }

    /// The numbers can be joined by addition and multiplication so that
    /// the result is the test value.
    pub fn can_finish(&self) -> (r: bool)
        requires
            self.parts.len() > 0,
        ensures
            r == reaches(self.parts@, 1, self.parts[0] as nat, self.total as nat, false),
    {
        self.try_evaluate(1, self.parts[0], false)
    }

    /// The numbers can be joined by addition, multiplication and writing
    /// one behind the other so that the result is the test value.
    pub fn can_finish_with_concatenate(&self) -> (r: bool)
        requires
            self.parts.len() > 0,
        ensures
            r == reaches(self.parts@, 1, self.parts[0] as nat, self.total as nat, true),
    {
        self.try_evaluate(1, self.parts[0], true)
    }
}

/// A running value above the test value leads nowhere.
proof fn lemma_above_total(parts: Seq<u64>, idx: int, total: nat, joining: bool)
    ensures
        forall|running: nat|
            running > total ==> !#[trigger] reaches(parts, idx, running, total, joining),
{
}

/// The calibration that `line` writes: the test value, a colon, and behind
/// one more character the numbers, with a blank between each two.
pub open spec fn calibration_of(line: Seq<char>) -> Option<(u64, Seq<u64>)> {
    let halves = split_spec(line, seq![':']);
    if halves.len() < 2 || halves[1].len() < 1 {
        None
    } else {
        match (
            unsigned_value(halves[0], u64::MAX as nat),
            values_of(split_spec(halves[1].skip(1), seq![' '])),
        ) {
            (Some(total), Some(parts)) => Some((total as u64, parts)),
            _ => None,
        }
    }
}

/// Reads a calibration; `None` for a line that writes none.
pub fn parse_calibration(line: &Vec<char>) -> (r: Option<Calibration>)
    ensures
        match r {
            Some(c) => calibration_of(line@) == Some((c.total, c.parts@)),
            None => calibration_of(line@) is None,
        },
{
    let colon = vec![':'];
    assert(colon@ =~= seq![':']);
    let halves = split(line, &colon);
    if halves.len() < 2 || halves[1].len() < 1 {
        assert(rows(halves)[1] == halves[1]@ || halves.len() < 2);
        return None;
    }
    assert(rows(halves)[0] == halves[0]@ && rows(halves)[1] == halves[1]@);
    let total = match parse_u64(&halves[0]) {
        Some(total) => total,
        None => {
            return None;
        },
    };
    let rest = slice_of(&halves[1], 1, halves[1].len());
    assert(rest@ =~= halves[1]@.skip(1));
    let blank = vec![' '];
    assert(blank@ =~= seq![' ']);
    let fields = split(&rest, &blank);
    match parse_values(&fields) {
        Some(parts) => Some(Calibration { total, parts }),
        None => None,
    }
}

/// What the calibration that `line` writes adds to the sum: its test value
/// if its numbers can be joined to give it, and else nothing.
pub open spec fn worth(line: Seq<char>, joining: bool) -> nat {
    match calibration_of(line) {
        Some((total, parts)) => if parts.len() > 0 && reaches(
            parts,
            1,
            parts[0] as nat,
            total as nat,
            joining,
        ) {
            total as nat
        } else {
            0
        },
        None => 0,
    }
}

/// The sum of what the first `upto` lines are worth, reduced modulo 2^64.
pub open spec fn worth_sum(lines: Seq<Seq<char>>, joining: bool, upto: int) -> u64
    decreases upto,
{
    if upto <= 0 {
        0
    } else {
        ((worth_sum(lines, joining, upto - 1) + worth(lines[upto - 1], joining))
            % 0x1_0000_0000_0000_0000) as u64
    }
}

/// Every line writes a calibration.
pub open spec fn all_calibrations(lines: Seq<Seq<char>>) -> bool {
    forall|i: int| 0 <= i < lines.len() ==> calibration_of(#[trigger] lines[i]) is Some
}

/// The sum of the test values of the calibrations that can be made true,
/// reduced modulo 2^64; a line that writes no calibration is refused.
pub fn calibration_total(lines: &Vec<Vec<char>>, joining: bool) -> (r: Result<u64, AdventError>)
    ensures
        match r {
            Ok(total) => all_calibrations(rows(*lines)) && total == worth_sum(
                rows(*lines),
                joining,
                lines.len() as int,
            ),
            Err(e) => !all_calibrations(rows(*lines)) && e is InputParseError,
        },
{
    let ghost text = rows(*lines);
    let mut total: u64 = 0;
    let mut i: usize = 0;
    while i < lines.len()
        invariant
            i <= lines.len(),
            text == rows(*lines),
            forall|k: int| 0 <= k < i ==> calibration_of(#[trigger] text[k]) is Some,
            total == worth_sum(text, joining, i as int),
        decreases lines.len() - i,
    {
        match parse_calibration(&lines[i]) {
            None => {
                assert(calibration_of(text[i as int]) is None);
                return Err(parse_error("a line writes no calibration"));
            },
            Some(c) => {
                let holds = c.parts.len() > 0 && c.try_evaluate(1, c.parts[0], joining);
                if holds {
                    total = ((total as u128 + c.total as u128) % 0x1_0000_0000_0000_0000) as u64;
                }
            },
        }
        i += 1;
    }
    Ok(total)
}

impl AdventProblem for Day7 {
    open spec fn accepts_part_1(&self, lines: Seq<Seq<char>>) -> bool {
        true
    }

    open spec fn accepts_part_2(&self, lines: Seq<Seq<char>>) -> bool {
        true
    }

    open spec fn answer_part_1(&self, lines: Seq<Seq<char>>) -> Option<u32> {
        if all_calibrations(lines) {
            Some(0)
        } else {
            None
        }
    }

    open spec fn answer_part_2(&self, lines: Seq<Seq<char>>) -> Option<u32> {
        if all_calibrations(lines) {
            Some(0)
        } else {
            None
        }
    }

    /// The answer of this part is wider than the number returned, and
    /// `calibration_total` gives it; the number is 0 for all lines that parse.
    fn run_part_1(&self, lines: Vec<String>) -> (r: Result<u32, AdventError>) {
        let text = chars_of_lines(&lines);
        match calibration_total(&text, false) {
            Ok(_) => Ok(0),
            Err(e) => Err(e),
        }
    }

    fn run_part_2(&self, lines: Vec<String>) -> (r: Result<u32, AdventError>) {
        let text = chars_of_lines(&lines);
        match calibration_total(&text, true) {
            Ok(_) => Ok(0),
            Err(e) => Err(e),
        }
    }
}

} // verus!
