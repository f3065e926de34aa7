//! Towel designs that are to be laid out of striped towels.

use crate::table::rows;
use crate::text::{chars_of_lines, occurs_at, split, split_spec, stands_at};
use crate::{lines_view, wrapped, AdventError, AdventProblem};
use vstd::prelude::*;

verus! {

pub struct Day19;

/// The towel `p` fits the design `line` at `i`: it is not empty, and its
/// stripes stand there.
pub open spec fn fits(line: Seq<char>, p: Seq<char>, i: int) -> bool {
    p.len() > 0 && occurs_at(line, p, i)
}

/// The number of ways to lay out `line` from `i` on with a towel of the
/// first `upto` patterns first, reduced modulo 2^64.
pub open spec fn ways_with(line: Seq<char>, patterns: Seq<Seq<char>>, i: int, upto: int) -> u64
    decreases line.len() - i, upto,
{
    if upto <= 0 || i < 0 || i >= line.len() {
        0
    } else {
        let p = patterns[upto - 1];
        let before = ways_with(line, patterns, i, upto - 1);
        if fits(line, p, i) {
            ((before + ways(line, patterns, i + p.len())) % 0x1_0000_0000_0000_0000) as u64
        } else {
            before
        }
    }
}

/// The number of ways to lay out `line` from `i` on, reduced modulo 2^64:
/// one way for what is left of nothing.
pub open spec fn ways(line: Seq<char>, patterns: Seq<Seq<char>>, i: int) -> u64
    decreases line.len() - i, patterns.len() + 1,
{
    if i < 0 || i >= line.len() {
        if i == line.len() {
            1
        } else {
            0
        }
    } else {
        ways_with(line, patterns, i, patterns.len() as int)
    }
}

/// `line` can be laid out from `i` on with a towel of the first `upto`
/// patterns first.
pub open spec fn lays_with(line: Seq<char>, patterns: Seq<Seq<char>>, i: int, upto: int) -> bool
    decreases line.len() - i, upto,
{
    if upto <= 0 || i < 0 || i >= line.len() {
        false
    } else {
        let p = patterns[upto - 1];
        lays_with(line, patterns, i, upto - 1) || (fits(line, p, i) && lays(
            line,
            patterns,
            i + p.len(),
        ))
    }
}

/// `line` can be laid out from `i` on.
pub open spec fn lays(line: Seq<char>, patterns: Seq<Seq<char>>, i: int) -> bool
    decreases line.len() - i, patterns.len() + 1,
{
    if i < 0 || i >= line.len() {
        i == line.len()
    } else {
        lays_with(line, patterns, i, patterns.len() as int)
    }
}

/// The towel `p` fits the design `line` at `i`.
fn fits_at(line: &Vec<char>, p: &Vec<char>, i: usize) -> (r: bool)
    requires
        i <= line.len(),
    ensures
        r == fits(line@, p@, i as int),
        r ==> i + p.len() <= line.len(),
{
    p.len() > 0 && stands_at(line, p, i)
}

/// The number of ways to lay out `line` from `i` on out of the towels
/// `patterns`, reduced modulo 2^64.
pub fn count_constructable(line: &Vec<char>, patterns: &Vec<Vec<char>>, i: usize) -> (r: u64)
    ensures
        r == ways(line@, rows(*patterns), i as int),
{
    let n = line.len();
    if i > n {
        return 0;
    }
    // The ways from every place behind `at`, the last place first.
    let mut counts: Vec<u64> = Vec::new();
    counts.push(1);
    let mut at = n;
    while at > i
        invariant
            i <= at <= n,
            n == line.len(),
            counts.len() == n - at + 1,
            forall|k: int| at <= k <= n ==> (#[trigger] counts[n - k]) == ways(line@, rows(*patterns), k),
        decreases at,
    {
        at -= 1;
        let mut total: u64 = 0;
        let mut t: usize = 0;
        while t < patterns.len()
            invariant
                t <= patterns.len(),
                at < n,
                n == line.len(),
                counts.len() == n - at,
                forall|k: int|
                    at < k <= n ==> (#[trigger] counts[n - k]) == ways(line@, rows(*patterns), k),
                total == ways_with(line@, rows(*patterns), at as int, t as int),
            decreases patterns.len() - t,
        {
            assert(rows(*patterns)[t as int] == patterns[t as int]@);
            if fits_at(line, &patterns[t], at) {
                let rest = counts[n - (at + patterns[t].len())];
                total = ((total as u128 + rest as u128) % 0x1_0000_0000_0000_0000) as u64;
            }
            t += 1;
        }
        counts.push(total);
    }
    counts[n - i]
}

/// `line` can be laid out from `i` on out of the towels `patterns`.
pub fn is_constructable(line: &Vec<char>, patterns: &Vec<Vec<char>>, i: usize) -> (r: bool)
    ensures
        r == lays(line@, rows(*patterns), i as int),
{
    let n = line.len();
    if i > n {
        return false;
    }
    let mut known: Vec<bool> = Vec::new();
    known.push(true);
    let mut at = n;
    while at > i
        invariant
            i <= at <= n,
            n == line.len(),
            known.len() == n - at + 1,
            forall|k: int| at <= k <= n ==> (#[trigger] known[n - k]) == lays(line@, rows(*patterns), k),
        decreases at,
    {
        at -= 1;
        let mut found = false;
        let mut t: usize = 0;
        while t < patterns.len()
            invariant
                t <= patterns.len(),
                at < n,
                n == line.len(),
                known.len() == n - at,
                forall|k: int|
                    at < k <= n ==> (#[trigger] known[n - k]) == lays(line@, rows(*patterns), k),
                found == lays_with(line@, rows(*patterns), at as int, t as int),
            decreases patterns.len() - t,
        {
            assert(rows(*patterns)[t as int] == patterns[t as int]@);
            if fits_at(line, &patterns[t], at) && known[n - (at + patterns[t].len())] {
                found = true;
            }
            t += 1;
        }
        known.push(found);
    }
    known[n - i]
}

/// The towels that the first line lists, with a comma and a blank between
/// each two.
pub open spec fn towels_of(lines: Seq<Seq<char>>) -> Seq<Seq<char>> {
    if lines.len() == 0 {
        Seq::empty()
    } else {
        split_spec(lines[0], seq![',', ' '])
    }
}

/// How many of the lines from the third up to `upto` can be laid out,
/// reduced modulo 2^32.
pub open spec fn designs_laid(lines: Seq<Seq<char>>, upto: int) -> u32
    decreases upto,
{
    if upto <= 2 {
        0
    } else {
        ((designs_laid(lines, upto - 1) + if lays(lines[upto - 1], towels_of(lines), 0) {
            1int
        } else {
            0int
        }) % 0x1_0000_0000) as u32
    }
}

/// The sum of the numbers of ways to lay out the lines from the third up
/// to `upto`, reduced modulo 2^64.
pub open spec fn designs_ways(lines: Seq<Seq<char>>, upto: int) -> u64
    decreases upto,
{
    if upto <= 2 {
        0
    } else {
        ((designs_ways(lines, upto - 1) + ways(lines[upto - 1], towels_of(lines), 0))
            % 0x1_0000_0000_0000_0000) as u64
    }
}

/// The towels that the first line lists.
pub fn towels(lines: &Vec<Vec<char>>) -> (r: Vec<Vec<char>>)
    ensures
        rows(r) == towels_of(rows(*lines)),
{
    if lines.len() == 0 {
        let none: Vec<Vec<char>> = Vec::new();
        assert(rows(none) =~= Seq::<Seq<char>>::empty());
        return none;
    }
    let sep = vec![',', ' '];
    assert(sep@ =~= seq![',', ' ']);
    assert(rows(*lines)[0] == lines[0]@);
    split(&lines[0], &sep)
}

/// How many of the designs, which stand from the third line on, can be
/// laid out of the towels that the first line lists.
pub fn count_designs(lines: &Vec<Vec<char>>) -> (r: u32)
    ensures
        r == designs_laid(rows(*lines), lines.len() as int),
{
    let patterns = towels(lines);
    let mut total: u32 = 0;
    let mut i: usize = 2;
    if lines.len() < 2 {
        return 0;
    }
    while i < lines.len()
        invariant
            2 <= i <= lines.len(),
            rows(patterns) == towels_of(rows(*lines)),
            total == designs_laid(rows(*lines), i as int),
        decreases lines.len() - i,
    {
        assert(rows(*lines)[i as int] == lines[i as int]@);
        if is_constructable(&lines[i], &patterns, 0) {
            total = ((total as u64 + 1) % 0x1_0000_0000) as u32;
        }
        i += 1;
    }
    total
}

/// The sum of the numbers of ways to lay out the designs, reduced modulo 2^64.
pub fn count_ways(lines: &Vec<Vec<char>>) -> (r: u64)
    ensures
        r == designs_ways(rows(*lines), lines.len() as int),
{
    let patterns = towels(lines);
    let mut total: u64 = 0;
    let mut i: usize = 2;
    if lines.len() < 2 {
        return 0;
    }
    while i < lines.len()
        invariant
            2 <= i <= lines.len(),
            rows(patterns) == towels_of(rows(*lines)),
            total == designs_ways(rows(*lines), i as int),
        decreases lines.len() - i,
    {
        assert(rows(*lines)[i as int] == lines[i as int]@);
        let here = count_constructable(&lines[i], &patterns, 0);
        total = ((total as u128 + here as u128) % 0x1_0000_0000_0000_0000) as u64;
        i += 1;
    }
    total
}

impl AdventProblem for Day19 {
    open spec fn accepts_part_1(&self, lines: Seq<Seq<char>>) -> bool {
        true
    }

    open spec fn accepts_part_2(&self, lines: Seq<Seq<char>>) -> bool {
        true
    }

    open spec fn answer_part_1(&self, lines: Seq<Seq<char>>) -> Option<u32> {
        Some(designs_laid(lines, lines.len() as int))
    }

    open spec fn answer_part_2(&self, lines: Seq<Seq<char>>) -> Option<u32> {
        Some(0)
    }

    fn run_part_1(&self, lines: Vec<String>) -> (r: Result<u32, AdventError>) {
        let text = chars_of_lines(&lines);
        Ok(count_designs(&text))
    }

    /// The answer of this part is wider than the number returned, and
    /// `count_ways` gives it; the number is 0 for all lines.
    fn run_part_2(&self, lines: Vec<String>) -> (r: Result<u32, AdventError>) {
        Ok(0)
    }
}

} // verus!
