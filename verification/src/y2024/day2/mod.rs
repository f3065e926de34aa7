//! Reports of levels that must rise or fall gently.

use crate::table::{rows, tally};
use crate::text::{chars_of_lines, parse_error, parse_u32, split_whitespace, unsigned_value, words};
use crate::{lines_view, wrapped, AdventError, AdventProblem};
use vstd::arithmetic::div_mod::lemma_add_mod_noop;
use vstd::prelude::*;

verus! {

pub struct Day2;

/// The numbers that `fields` write, if each writes one that a `u32` holds.
pub open spec fn numbers_of(fields: Seq<Seq<char>>) -> Option<Seq<u32>>
    decreases fields.len(),
{
    if fields.len() == 0 {
        Some(Seq::empty())
    } else {
        match (numbers_of(fields.drop_last()), unsigned_value(fields.last(), u32::MAX as nat)) {
            (Some(numbers), Some(v)) => Some(numbers.push(v as u32)),
            _ => None,
        }
    }
}

/// Where the first fields write no numbers, all of them write none.
pub proof fn lemma_numbers_prefix(fields: Seq<Seq<char>>, k: int)
    requires
        0 <= k <= fields.len(),
        numbers_of(fields.take(k)) is None,
    ensures
        numbers_of(fields) is None,
    decreases fields.len() - k,
{
    if k < fields.len() {
        assert(fields.take(k + 1).drop_last() =~= fields.take(k));
        lemma_numbers_prefix(fields, k + 1);
    } else {
        assert(fields.take(k) =~= fields);
    }
}

/// The numbers that the words of `fields` write.
pub fn numbers(fields: &Vec<Vec<char>>) -> (r: Option<Vec<u32>>)
    ensures
        match r {
            Some(v) => numbers_of(rows(*fields)) == Some(v@),
            None => numbers_of(rows(*fields)) is None,
        },
{
    let mut out: Vec<u32> = Vec::new();
    let mut i: usize = 0;
    while i < fields.len()
        invariant
            i <= fields.len(),
            numbers_of(rows(*fields).take(i as int)) == Some(out@),
        decreases fields.len() - i,
    {
        proof {
            assert(rows(*fields).take(i + 1).drop_last() =~= rows(*fields).take(i as int));
            assert(rows(*fields).take(i + 1).last() == fields[i as int]@);
        }
        match parse_u32(&fields[i]) {
            Some(v) => {
                out.push(v);
            },
            None => {
                proof {
                    assert(numbers_of(rows(*fields).take(i + 1)) is None);
                    lemma_numbers_prefix(rows(*fields), i + 1);
                }
                return None;
            },
        }
        i += 1;
    }
    assert(rows(*fields).take(fields.len() as int) =~= rows(*fields));
    Some(out)
}

/// The numbers that the words of `s` write; `None` where a word writes none.
pub fn parse_numbers(s: &Vec<char>) -> (r: Option<Vec<u32>>)
    ensures
        match r {
            Some(v) => numbers_of(words(s@)) == Some(v@),
            None => numbers_of(words(s@)) is None,
        },
{
    let parts = split_whitespace(s);
    numbers(&parts)
}

/// The step from `first` to `second` is gentle, by 1 to 3, and goes the
/// way that `increasing` says.
pub open spec fn safe_step(first: u32, second: u32, increasing: bool) -> bool {
    let diff = if first <= second {
        second - first
    } else {
        first - second
    };
    1 <= diff <= 3 && (if increasing {
        first < second
    } else {
        second < first
    })
}

pub fn is_safe(first: u32, second: u32, increasing: bool) -> (r: bool)
    ensures
        r == safe_step(first, second, increasing),
{
    let diff = if first <= second {
        second - first
    } else {
        first - second
    };
    let diff_check = 1 <= diff && diff <= 3;
    let monotonic_check = increasing && first < second || !increasing && second < first;
    diff_check && monotonic_check
}

/// Every step of `s` is gentle and goes the way of the first.
pub open spec fn safe(s: Seq<u32>) -> bool {
    s.len() <= 1 || forall|i: int| 1 <= i < s.len() ==> safe_step(s[i - 1], #[trigger] s[i], s[1] > s[0])
}

pub fn is_safe_sequence(sequence: Vec<u32>) -> (r: bool)
    ensures
        r == safe(sequence@),
{
    if sequence.len() <= 1 {
        return true;
    }
    let increasing = sequence[1] > sequence[0];
    let mut i: usize = 1;
    while i < sequence.len()
        invariant
            1 <= i <= sequence.len(),
            increasing == (sequence[1] > sequence[0]),
            forall|k: int| 1 <= k < i ==> safe_step(sequence[k - 1], #[trigger] sequence[k], increasing),
        decreases sequence.len() - i,
    {
        if !is_safe(sequence[i - 1], sequence[i], increasing) {
            return false;
        }
        i += 1;
    }
    true
}

/// `s` is safe as it is, or without one of its levels.
pub open spec fn safe_with_one_dropped(s: Seq<u32>) -> bool {
    safe(s) || exists|i: int| 0 <= i < s.len() && safe(#[trigger] s.remove(i))
}

/// `sequence` is safe as it is, or without one of its levels. The
/// threshold is not looked at: one level may go.
pub fn is_safe_with_threshold(sequence: Vec<u32>, threshold: usize) -> (r: bool)
    ensures
        r == safe_with_one_dropped(sequence@),
{
    if is_safe_sequence(sequence.clone()) {
        return true;
    }
    let mut i: usize = 0;
    while i < sequence.len()
        invariant
            i <= sequence.len(),
            !safe(sequence@),
            forall|k: int| 0 <= k < i ==> !safe(#[trigger] sequence@.remove(k)),
        decreases sequence.len() - i,
    {
        let mut chunk = sequence.clone();
        chunk.remove(i);
        if is_safe_sequence(chunk) {
            return true;
        }
        i += 1;
    }
    false
}

/// 1 for a line that is safe, as it is or with one level dropped if
/// `forgiving` says so, and 0 for any other.
pub open spec fn safe_line(line: Seq<char>, forgiving: bool) -> nat {
    match numbers_of(words(line)) {
        Some(s) => if (if forgiving {
            safe_with_one_dropped(s)
        } else {
            safe(s)
        }) {
            1
        } else {
            0
        },
        None => 0,
    }
}

/// Every line writes numbers.
pub open spec fn all_numbers(lines: Seq<Seq<char>>) -> bool {
    forall|i: int| 0 <= i < lines.len() ==> numbers_of(words(#[trigger] lines[i])) is Some
}

/// The number of safe lines, reduced modulo 2^32; `None` where a line
/// does not write numbers.
pub open spec fn safe_count(lines: Seq<Seq<char>>, forgiving: bool) -> Option<u32> {
    if all_numbers(lines) {
        Some(wrapped(tally(lines, |line: Seq<char>| safe_line(line, forgiving))))
    } else {
        None
    }
}

/// Counts the safe lines.
pub fn count_safe(lines: &Vec<Vec<char>>, forgiving: bool) -> (r: Result<u32, AdventError>)
    ensures
        crate::is_outcome(r, safe_count(rows(*lines), forgiving)),
{
    let ghost text = rows(*lines);
    let ghost f = |line: Seq<char>| safe_line(line, forgiving);
    let mut count: u64 = 0;
    let mut i: usize = 0;
    while i < lines.len()
        invariant
            i <= lines.len(),
            text == rows(*lines),
            f == |line: Seq<char>| safe_line(line, forgiving),
            all_numbers(text.take(i as int)),
            count < 0x1_0000_0000,
            count == tally(text.take(i as int), f) % 0x1_0000_0000,
        decreases lines.len() - i,
    {
        proof {
            assert(text.take(i + 1).drop_last() =~= text.take(i as int));
            assert(text.take(i + 1).last() == lines[i as int]@);
        }
        match parse_numbers(&lines[i]) {
            None => {
                assert(numbers_of(words(text[i as int])) is None);
                return Err(parse_error("a level is not written in digits"));
            },
            Some(levels) => {
                let ok = if forgiving {
                    is_safe_with_threshold(levels, 1)
                } else {
                    is_safe_sequence(levels)
                };
                proof {
                    lemma_add_mod_noop(
                        tally(text.take(i as int), f) as int,
                        f(text[i as int]) as int,
                        0x1_0000_0000,
                    );
                    assert forall|k: int| 0 <= k < i + 1 implies numbers_of(
                        words(#[trigger] text.take(i + 1)[k]),
                    ) is Some by {
                        if k < i {
                            assert(text.take(i as int)[k] == text.take(i + 1)[k]);
                        }
                    }
                }
                if ok {
                    count = (count + 1) % 0x1_0000_0000;
                }
            },
        }
        i += 1;
    }
    assert(text.take(lines.len() as int) =~= text);
    Ok(count as u32)
}

impl AdventProblem for Day2 {
    open spec fn accepts_part_1(&self, lines: Seq<Seq<char>>) -> bool {
        true
    }

    open spec fn accepts_part_2(&self, lines: Seq<Seq<char>>) -> bool {
        true
    }

    open spec fn answer_part_1(&self, lines: Seq<Seq<char>>) -> Option<u32> {
        safe_count(lines, false)
    }

    open spec fn answer_part_2(&self, lines: Seq<Seq<char>>) -> Option<u32> {
        safe_count(lines, true)
    }

    fn run_part_1(&self, lines: Vec<String>) -> (r: Result<u32, AdventError>) {
        let text = chars_of_lines(&lines);
        count_safe(&text, false)
    }

    fn run_part_2(&self, lines: Vec<String>) -> (r: Result<u32, AdventError>) {
        let text = chars_of_lines(&lines);
        count_safe(&text, true)
    }
}

} // verus!
