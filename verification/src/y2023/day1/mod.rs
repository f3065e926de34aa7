//! Calibration values hidden in lines of text.

use crate::table::rows;
use crate::text::{chars_of_lines, digit_value, occurs_at, stands_at, to_digit};
use crate::{lines_view, AdventError, AdventProblem};
use vstd::prelude::*;

verus! {

pub struct Day1;

/// The last digit among the first `upto` characters of `s`, or 0.
pub open spec fn last_digit(s: Seq<char>, upto: int) -> u32
    decreases upto,
{
    if upto <= 0 {
        0
    } else {
        match digit_value(s[upto - 1]) {
            Some(d) => d,
            None => last_digit(s, upto - 1),
        }
    }
}

/// The first digit among the characters of `s` from `from` on, or 0.
pub open spec fn first_digit(s: Seq<char>, from: int) -> u32
    decreases s.len() - from,
{
    if from < 0 || from >= s.len() {
        0
    } else {
        match digit_value(s[from]) {
            Some(d) => d,
            None => first_digit(s, from + 1),
        }
    }
}

/// The last digit of `s` and its first, in this order, each 0 where `s`
/// has no digit.
pub fn first_last_digit(s: &Vec<char>) -> (r: (u32, u32))
    ensures
        r.0 == last_digit(s@, s.len() as int),
        r.1 == first_digit(s@, 0),
{
    let mut first: u32 = 0;
    let mut last: u32 = 0;
    let mut i: usize = 0;
    while i < s.len()
        invariant
            i <= s.len(),
            first == last_digit(s@, i as int),
        decreases s.len() - i,
    {
        if let Some(d) = to_digit(s[i]) {
            first = d;
        }
        i += 1;
    }
    let mut k: usize = s.len();
    while k > 0
        invariant
            k <= s.len(),
            last == first_digit(s@, k as int),
        decreases k,
    {
        k -= 1;
        if let Some(d) = to_digit(s[k]) {
            last = d;
        }
    }
    (first, last)
}

/// The sum of the digits among the first `upto` characters of `s`.
pub open spec fn digit_sum(s: Seq<char>, upto: int) -> nat
    decreases upto,
{
    if upto <= 0 {
        0
    } else {
        digit_sum(s, upto - 1) + match digit_value(s[upto - 1]) {
            Some(d) => d as nat,
            None => 0,
        }
    }
}

/// Eleven times the sum of the digits of `s`, reduced modulo 2^32: every
/// digit counts once as tens and once as units.
pub fn calibration_value(s: &Vec<char>) -> (r: u32)
    ensures
        r == (11 * digit_sum(s@, s.len() as int)) % 0x1_0000_0000,
{
    let mut sum: u64 = 0;
    let mut i: usize = 0;
    while i < s.len()
        invariant
            i <= s.len(),
            sum < 0x1_0000_0000,
            sum == (11 * digit_sum(s@, i as int)) % 0x1_0000_0000,
        decreases s.len() - i,
    {
        if let Some(d) = to_digit(s[i]) {
            proof {
                vstd::arithmetic::div_mod::lemma_add_mod_noop(
                    (11 * digit_sum(s@, i as int)) as int,
                    11 * d,
                    0x1_0000_0000,
                );
            }
            sum = (sum + 11 * d as u64) % 0x1_0000_0000;
        }
        i += 1;
    }
    sum as u32
}

/// The digit whose name stands at `i` in `s`: `one` to `nine`.
pub open spec fn named_digit(s: Seq<char>, i: int) -> Option<u32> {
    if occurs_at(s, seq!['o', 'n', 'e'], i) {
        Some(1)
    } else if occurs_at(s, seq!['t', 'w', 'o'], i) {
        Some(2)
    } else if occurs_at(s, seq!['t', 'h', 'r', 'e', 'e'], i) {
        Some(3)
    } else if occurs_at(s, seq!['f', 'o', 'u', 'r'], i) {
        Some(4)
    } else if occurs_at(s, seq!['f', 'i', 'v', 'e'], i) {
        Some(5)
    } else if occurs_at(s, seq!['s', 'i', 'x'], i) {
        Some(6)
    } else if occurs_at(s, seq!['s', 'e', 'v', 'e', 'n'], i) {
        Some(7)
    } else if occurs_at(s, seq!['e', 'i', 'g', 'h', 't'], i) {
        Some(8)
    } else if occurs_at(s, seq!['n', 'i', 'n', 'e'], i) {
        Some(9)
    } else {
        None
    }
}

/// The digit whose name stands at `i` in `s`.
pub fn match_digit(s: &Vec<char>, i: usize) -> (r: Option<u32>)
    requires
        i <= s.len(),
    ensures
        r == named_digit(s@, i as int),
{
    let names: [(u32, Vec<char>); 9] = [
        (1, vec!['o', 'n', 'e']),
        (2, vec!['t', 'w', 'o']),
        (3, vec!['t', 'h', 'r', 'e', 'e']),
        (4, vec!['f', 'o', 'u', 'r']),
        (5, vec!['f', 'i', 'v', 'e']),
        (6, vec!['s', 'i', 'x']),
        (7, vec!['s', 'e', 'v', 'e', 'n']),
        (8, vec!['e', 'i', 'g', 'h', 't']),
        (9, vec!['n', 'i', 'n', 'e']),
    ];
    proof {
        assert(names[0].1@ =~= seq!['o', 'n', 'e']);
        assert(names[1].1@ =~= seq!['t', 'w', 'o']);
        assert(names[2].1@ =~= seq!['t', 'h', 'r', 'e', 'e']);
        assert(names[3].1@ =~= seq!['f', 'o', 'u', 'r']);
        assert(names[4].1@ =~= seq!['f', 'i', 'v', 'e']);
        assert(names[5].1@ =~= seq!['s', 'i', 'x']);
        assert(names[6].1@ =~= seq!['s', 'e', 'v', 'e', 'n']);
        assert(names[7].1@ =~= seq!['e', 'i', 'g', 'h', 't']);
        assert(names[8].1@ =~= seq!['n', 'i', 'n', 'e']);
    }
    if stands_at(s, &names[0].1, i) {
        Some(1)
    } else if stands_at(s, &names[1].1, i) {
        Some(2)
    } else if stands_at(s, &names[2].1, i) {
        Some(3)
    } else if stands_at(s, &names[3].1, i) {
        Some(4)
    } else if stands_at(s, &names[4].1, i) {
        Some(5)
    } else if stands_at(s, &names[5].1, i) {
        Some(6)
    } else if stands_at(s, &names[6].1, i) {
        Some(7)
    } else if stands_at(s, &names[7].1, i) {
        Some(8)
    } else if stands_at(s, &names[8].1, i) {
        Some(9)
    } else {
        None
    }
}

/// The digit that stands at `i` in `s`, as a digit or by its name.
pub open spec fn value_at(s: Seq<char>, i: int) -> Option<u32> {
    match digit_value(s[i]) {
        Some(d) => Some(d),
        None => named_digit(s, i),
    }
}

/// The first digit, written or named, from `from` on, or 0.
pub open spec fn first_value(s: Seq<char>, from: int) -> u32
    decreases s.len() - from,
{
    if from < 0 || from >= s.len() {
        0
    } else {
        match value_at(s, from) {
            Some(d) => d,
            None => first_value(s, from + 1),
        }
    }
}

/// The last digit, written or named, that begins among the first `upto`
/// characters, or 0.
pub open spec fn last_value(s: Seq<char>, upto: int) -> u32
    decreases upto,
{
    if upto <= 0 || upto > s.len() {
        0
    } else {
        match value_at(s, upto - 1) {
            Some(d) => d,
            None => last_value(s, upto - 1),
        }
    }
}

/// The digit that stands at `i` in `s`, as a digit or by its name.
fn digit_or_name(s: &Vec<char>, i: usize) -> (r: Option<u32>)
    requires
        i < s.len(),
    ensures
        r == value_at(s@, i as int),
{
    match to_digit(s[i]) {
        Some(d) => Some(d),
        None => match_digit(s, i),
    }
}

/// The first digit of `s` and its last, written or named, each 0 where
/// `s` has none.
pub fn alphabetic_first_last_digit(s: &Vec<char>) -> (r: (u32, u32))
    ensures
        r.0 == first_value(s@, 0),
        r.1 == last_value(s@, s.len() as int),
{
    let mut first: u32 = 0;
    let mut i: usize = 0;
    let mut seen = false;
    while i < s.len() && !seen
        invariant
            i <= s.len(),
            !seen ==> first_value(s@, 0) == first_value(s@, i as int),
            seen ==> first == first_value(s@, 0),
        decreases s.len() - i, if seen { 0int } else { 1int },
    {
        if let Some(d) = digit_or_name(s, i) {
            first = d;
            seen = true;
        } else {
            i += 1;
        }
    }
    let first: u32 = if seen {
        first
    } else {
        0
    };
    let mut last: u32 = 0;
    let mut k: usize = s.len();
    let mut found = false;
    while k > 0 && !found
        invariant
            k <= s.len(),
            !found ==> last_value(s@, s.len() as int) == last_value(s@, k as int),
            found ==> last == last_value(s@, s.len() as int),
        decreases k, if found { 0int } else { 1int },
    {
        if let Some(d) = digit_or_name(s, k - 1) {
            last = d;
            found = true;
        } else {
            k -= 1;
        }
    }
    let last: u32 = if found {
        last
    } else {
        0
    };
    (first, last)
}

/// Ten times the first digit of `s` and its last, written or named.
pub fn alpha_calibration_value(s: &Vec<char>) -> (r: u32)
    ensures
        r == 10 * first_value(s@, 0) + last_value(s@, s.len() as int),
{
    let (first, last) = alphabetic_first_last_digit(s);
    proof {
        lemma_value_small(s@);
    }
    10 * first + last
}

/// A digit is at most 9.
proof fn lemma_value_small(s: Seq<char>)
    ensures
        forall|i: int| #[trigger] first_value(s, i) <= 9,
        forall|i: int| #[trigger] last_value(s, i) <= 9,
{
    assert forall|i: int| #[trigger] first_value(s, i) <= 9 by {
        lemma_first_small(s, i);
    }
    assert forall|i: int| #[trigger] last_value(s, i) <= 9 by {
        lemma_last_small(s, i);
    }
}

proof fn lemma_first_small(s: Seq<char>, i: int)
    ensures
        first_value(s, i) <= 9,
    decreases s.len() - i,
{
    if 0 <= i < s.len() && value_at(s, i) is None {
        lemma_first_small(s, i + 1);
    }
}

proof fn lemma_last_small(s: Seq<char>, i: int)
    ensures
        last_value(s, i) <= 9,
    decreases i,
{
    if 0 < i <= s.len() && value_at(s, i - 1) is None {
        lemma_last_small(s, i - 1);
    }
}

/// The sum of the calibration values of the first `upto` lines, reduced
/// modulo 2^32: eleven times the sum of the digits of a line, or, if
/// `named`, ten times its first digit and its last, written or named.
pub open spec fn calibration_sum(lines: Seq<Seq<char>>, named: bool, upto: int) -> u32
    decreases upto,
{
    if upto <= 0 {
        0
    } else {
        let line = lines[upto - 1];
        ((calibration_sum(lines, named, upto - 1) + if named {
            10 * first_value(line, 0) + last_value(line, line.len() as int)
        } else {
            ((11 * digit_sum(line, line.len() as int)) % 0x1_0000_0000) as int
        }) % 0x1_0000_0000) as u32
    }
}

/// The sum of the calibration values of the lines.
pub fn sum_calibrations(lines: &Vec<Vec<char>>, named: bool) -> (r: u32)
    ensures
        r == calibration_sum(rows(*lines), named, lines.len() as int),
{
    let mut total: u32 = 0;
    let mut i: usize = 0;
    while i < lines.len()
        invariant
            i <= lines.len(),
            total == calibration_sum(rows(*lines), named, i as int),
        decreases lines.len() - i,
    {
        assert(rows(*lines)[i as int] == lines[i as int]@);
        let here = if named {
            alpha_calibration_value(&lines[i])
        } else {
            calibration_value(&lines[i])
        };
        total = ((total as u64 + here as u64) % 0x1_0000_0000) as u32;
        i += 1;
    }
    total
}

impl AdventProblem for Day1 {
    open spec fn accepts_part_1(&self, lines: Seq<Seq<char>>) -> bool {
        true
    }

    open spec fn accepts_part_2(&self, lines: Seq<Seq<char>>) -> bool {
        true
    }

    open spec fn answer_part_1(&self, lines: Seq<Seq<char>>) -> Option<u32> {
        Some(calibration_sum(lines, false, lines.len() as int))
    }

    open spec fn answer_part_2(&self, lines: Seq<Seq<char>>) -> Option<u32> {
        Some(calibration_sum(lines, true, lines.len() as int))
    }

    fn run_part_1(&self, lines: Vec<String>) -> (r: Result<u32, AdventError>) {
        let text = chars_of_lines(&lines);
        Ok(sum_calibrations(&text, false))
    }

    fn run_part_2(&self, lines: Vec<String>) -> (r: Result<u32, AdventError>) {
        let text = chars_of_lines(&lines);
        Ok(sum_calibrations(&text, true))
    }
}

} // verus!
