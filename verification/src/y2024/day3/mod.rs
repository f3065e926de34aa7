//! Multiplications hidden in corrupted memory.

use crate::table::rows;
use crate::text::{
    all_digits, chars_of_lines, decimal_value, digit_value, stands_at, to_digit, occurs_at,
};
use crate::{lines_view, AdventError, AdventProblem};
use vstd::prelude::*;

verus! {

pub struct Day3;

/// Where the digits that begin at `i` end.
pub open spec fn digits_end(chars: Seq<char>, i: int) -> int
    decreases chars.len() - i,
{
    if 0 <= i < chars.len() && digit_value(chars[i]) is Some {
        digits_end(chars, i + 1)
    } else {
        i
    }
}

/// The number that the digits at `i` write, and where they end: no number
/// where no digit stands at `i`, or where the number is no 32-bit number.
pub open spec fn number_at(chars: Seq<char>, i: int) -> (Option<u32>, int) {
    let end = digits_end(chars, i);
    if i < 0 || end <= i || decimal_value(chars.subrange(i, end)) > u32::MAX {
        (None, end)
    } else {
        (Some(decimal_value(chars.subrange(i, end)) as u32), end)
    }
}

/// The two numbers of a multiplication whose opening bracket stands before
/// `i`: a number, a comma, a number and the closing bracket. With them, or
/// with `None`, the place at which the reading ended: that of the closing
/// bracket, or that of the first character that does not fit.
pub open spec fn factors_at(chars: Seq<char>, i: int) -> (Option<(u32, u32)>, int) {
    let (first, j) = number_at(chars, i);
    if first is None || j >= chars.len() || chars[j] != ',' {
        (None, j)
    } else {
        let (second, k) = number_at(chars, j + 1);
        if second is None || k >= chars.len() || chars[k] != ')' {
            (None, k)
        } else {
            (Some((first->0, second->0)), k)
        }
    }
}

/// The digits from `i` on end at or behind `i`, inside the text, and are
/// digits up to there.
pub proof fn lemma_digits_end(chars: Seq<char>, i: int)
    requires
        0 <= i <= chars.len(),
    ensures
        i <= digits_end(chars, i) <= chars.len(),
        all_digits(chars.subrange(i, digits_end(chars, i))),
        digits_end(chars, i) < chars.len() ==> digit_value(chars[digits_end(chars, i)]) is None,
    decreases chars.len() - i,
{
    if i < chars.len() && digit_value(chars[i]) is Some {
        lemma_digits_end(chars, i + 1);
        let end = digits_end(chars, i);
        assert forall|k: int| 0 <= k < end - i implies digit_value(
            #[trigger] chars.subrange(i, end)[k],
        ) is Some by {
            if k > 0 {
                assert(chars.subrange(i + 1, end)[k - 1] == chars[i + k]);
            }
        }
    }
}

/// The number that the digits at `i` write, and where they end.
pub fn parse_number(chars: &Vec<char>, i: usize) -> (r: (Option<u32>, usize))
    requires
        i <= chars.len(),
    ensures
        r.0 == number_at(chars@, i as int).0,
        r.1 == number_at(chars@, i as int).1,
        i <= r.1 <= chars.len(),
{
    let n = chars.len();
    let mut j = i;
    let mut num: u64 = 0;
    let mut fits = true;
    proof {
        lemma_digits_end(chars@, i as int);
    }
    while j < n && to_digit(chars[j]).is_some()
        invariant
            i <= j <= n,
            n == chars.len(),
            digits_end(chars@, j as int) == digits_end(chars@, i as int),
            all_digits(chars@.subrange(i as int, j as int)),
            fits ==> num == decimal_value(chars@.subrange(i as int, j as int)) && num <= u32::MAX,
            !fits ==> decimal_value(chars@.subrange(i as int, j as int)) > u32::MAX,
        decreases n - j,
    {
        let d = to_digit(chars[j]).unwrap();
        proof {
            let upto = chars@.subrange(i as int, j + 1);
            assert(upto.drop_last() =~= chars@.subrange(i as int, j as int));
            assert(upto.last() == chars[j as int]);
            assert forall|k: int| 0 <= k < upto.len() implies digit_value(#[trigger] upto[k]) is Some by {
                if k < j - i {
                    assert(upto[k] == chars@.subrange(i as int, j as int)[k]);
                }
            }
        }
        if fits {
            num = num * 10 + d as u64;
            if num > u32::MAX as u64 {
                fits = false;
            }
        }
        j += 1;
    }
    if j == i || !fits {
        (None, j)
    } else {
        (Some(num as u32), j)
    }
}

/// The two numbers of a multiplication whose opening bracket stands before
/// `i`, and where the reading ended.
pub fn parse_mul_sign(chars: &Vec<char>, i: usize) -> (r: (Option<(u32, u32)>, usize))
    requires
        i <= chars.len(),
    ensures
        r.0 == factors_at(chars@, i as int).0,
        r.1 == factors_at(chars@, i as int).1,
        i <= r.1 <= chars.len(),
{
    let n = chars.len();
    let (first, j) = parse_number(chars, i);
    if first.is_none() || j >= n || chars[j] != ',' {
        return (None, j);
    }
    let (second, k) = parse_number(chars, j + 1);
    if second.is_none() || k >= n || chars[k] != ')' {
        return (None, k);
    }
    (Some((first.unwrap(), second.unwrap())), k)
}

/// The characters that open a multiplication.
pub open spec fn mul_open() -> Seq<char> {
    seq!['m', 'u', 'l', '(']
}

/// The characters that switch multiplications on.
pub open spec fn do_word() -> Seq<char> {
    seq!['d', 'o', '(', ')']
}

/// The characters that switch multiplications off.
pub open spec fn dont_word() -> Seq<char> {
    seq!['d', 'o', 'n', '\'', 't', '(', ')']
}

/// `word` stands at `i`, with at least one character behind it.
pub open spec fn word_at(chars: Seq<char>, word: Seq<char>, i: int) -> bool {
    i + word.len() < chars.len() && occurs_at(chars, word, i)
}

/// Whether multiplications count behind the place `i`, where they counted
/// or not before it as `process` says: the words that switch are heeded if
/// `switching` says so.
pub open spec fn process_at(chars: Seq<char>, i: int, process: bool, switching: bool) -> bool {
    if switching && word_at(chars, dont_word(), i) {
        false
    } else if switching && word_at(chars, do_word(), i) {
        true
    } else {
        process
    }
}

/// The sum of the products of the multiplications from `i` on, added to
/// `total` and reduced modulo 2^32, and whether multiplications count at
/// the end. Reading goes on one character behind the place at which the
/// reading of a multiplication ended.
pub open spec fn scan(chars: Seq<char>, i: int, process: bool, switching: bool, total: u32) -> (
    u32,
    bool,
)
    decreases chars.len() - i,
{
    if i < 0 || i >= chars.len() {
        (total, process)
    } else {
        let now = process_at(chars, i, process, switching);
        if now && word_at(chars, mul_open(), i) {
            let (found, end) = factors_at(chars, i + 4);
            scan(
                chars,
                if i < end < chars.len() {
                    end + 1
                } else if i < end {
                    chars.len() as int
                } else {
                    i + 1
                },
                now,
                switching,
                match found {
                    Some((a, b)) => ((total + a * b) % 0x1_0000_0000) as u32,
                    None => total,
                },
            )
        } else {
            scan(chars, i + 1, now, switching, total)
        }
    }
}

/// `word` stands at `i`, with at least one character behind it.
fn has_word(chars: &Vec<char>, word: &Vec<char>, i: usize) -> (r: bool)
    requires
        i <= chars.len(),
    ensures
        r == word_at(chars@, word@, i as int),
{
    word.len() < chars.len() - i && stands_at(chars, word, i)
}

/// The sum of the products of the multiplications in `chars`, reduced
/// modulo 2^32, and whether multiplications count at the end, where they
/// count at the outset as `process` says.
pub fn scan_all(chars: &Vec<char>, process: bool, switching: bool) -> (r: (u32, bool))
    ensures
        r == scan(chars@, 0, process, switching, 0),
{
    let n = chars.len();
    let mul = vec!['m', 'u', 'l', '('];
    let yes = vec!['d', 'o', '(', ')'];
    let no = vec!['d', 'o', 'n', '\'', 't', '(', ')'];
    assert(mul@ =~= mul_open() && yes@ =~= do_word() && no@ =~= dont_word());
    let ghost first = process;
    let mut process = process;
    let mut total: u32 = 0;
    let mut i: usize = 0;
    while i < n
        invariant
            i <= n,
            n == chars.len(),
            mul@ == mul_open(),
            yes@ == do_word(),
            no@ == dont_word(),
            scan(chars@, i as int, process, switching, total) == scan(
                chars@,
                0,
                first,
                switching,
                0,
            ),
        decreases n - i,
    {
        if switching && has_word(chars, &no, i) {
            process = false;
        } else if switching && has_word(chars, &yes, i) {
            process = true;
        }
        if process && has_word(chars, &mul, i) {
            let ghost before = total;
            let (res, idx) = parse_mul_sign(chars, i + 4);
            if let Some((a, b)) = res {
                assert(a * b <= 0xffff_ffff * 0xffff_ffff) by (nonlinear_arith)
                    requires
                        a <= 0xffff_ffff,
                        b <= 0xffff_ffff,
                ;
                total = ((total as u64 + (a as u64) * (b as u64)) % 0x1_0000_0000) as u32;
            }
            if idx >= n {
                i = n;
            } else {
                i = idx + 1;
            }
        } else {
            i += 1;
        }
    }
    (total, process)
}

/// The sum of the products of the multiplications in `s`, reduced modulo 2^32.
pub fn parse_multiplications(s: &Vec<char>) -> (r: u32)
    ensures
        r == scan(s@, 0, true, false, 0).0,
{
    scan_all(s, true, false).0
}

/// The sum of the products of the multiplications in `s` that count, and
/// whether multiplications count at the end of `s`, where they count at its
/// beginning as `process` says.
pub fn parse_multiplications_with_switch(s: &Vec<char>, process: bool) -> (r: (u32, bool))
    ensures
        r == scan(s@, 0, process, true, 0),
{
    scan_all(s, process, true)
}

/// The sum of what the first `upto` lines give, and whether multiplications
/// count behind them: they count at the outset, and each line goes on where
/// the one before it ended.
pub open spec fn lines_sum(lines: Seq<Seq<char>>, switching: bool, upto: int) -> (u32, bool)
    decreases upto,
{
    if upto <= 0 {
        (0, true)
    } else {
        let before = lines_sum(lines, switching, upto - 1);
        let here = scan(lines[upto - 1], 0, before.1, switching, 0);
        (((before.0 + here.0) % 0x1_0000_0000) as u32, here.1)
    }
}

/// The sum of the products in all lines, reduced modulo 2^32.
pub fn sum_lines(lines: &Vec<Vec<char>>, switching: bool) -> (r: u32)
    ensures
        r == lines_sum(rows(*lines), switching, lines.len() as int).0,
{
    let mut switch = true;
    let mut total: u32 = 0;
    let mut i: usize = 0;
    while i < lines.len()
        invariant
            i <= lines.len(),
            (total, switch) == lines_sum(rows(*lines), switching, i as int),
        decreases lines.len() - i,
    {
        assert(rows(*lines)[i as int] == lines[i as int]@);
        let (res, s) = scan_all(&lines[i], switch, switching);
        switch = s;
        total = ((total as u64 + res as u64) % 0x1_0000_0000) as u32;
        i += 1;
    }
    total
}

impl AdventProblem for Day3 {
    open spec fn accepts_part_1(&self, lines: Seq<Seq<char>>) -> bool {
        true
    }

    open spec fn accepts_part_2(&self, lines: Seq<Seq<char>>) -> bool {
        true
    }

    open spec fn answer_part_1(&self, lines: Seq<Seq<char>>) -> Option<u32> {
        Some(lines_sum(lines, false, lines.len() as int).0)
    }

    open spec fn answer_part_2(&self, lines: Seq<Seq<char>>) -> Option<u32> {
        Some(lines_sum(lines, true, lines.len() as int).0)
    }

    fn run_part_1(&self, lines: Vec<String>) -> (r: Result<u32, AdventError>) {
        let text = chars_of_lines(&lines);
        Ok(sum_lines(&text, false))
    }

    fn run_part_2(&self, lines: Vec<String>) -> (r: Result<u32, AdventError>) {
        let text = chars_of_lines(&lines);
        Ok(sum_lines(&text, true))
    }
}

} // verus!
