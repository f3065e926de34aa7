//! Two lists of location numbers, side by side.

use crate::table::{ascending, rows, sort};
use crate::text::{chars_of_lines, parse_error, parse_u32, split_whitespace, unsigned_value, words};
use crate::{lines_view, wrapped, AdventError, AdventProblem};
use vstd::arithmetic::div_mod::lemma_add_mod_noop;
use vstd::prelude::*;
use vstd::relations::{sorted_by, total_ordering};
use vstd::seq_lib::lemma_sorted_unique;

verus! {

pub struct Day1;

/// The two numbers that the first two words of `line` write.
pub open spec fn ids_of(line: Seq<char>) -> Option<(u32, u32)> {
    let parts = words(line);
    if parts.len() < 2 {
        None
    } else {
        match (unsigned_value(parts[0], u32::MAX as nat), unsigned_value(parts[1], u32::MAX as nat)) {
            (Some(first), Some(second)) => Some((first as u32, second as u32)),
            _ => None,
        }
    }
}

/// The two numbers that the first two words of `s` write; `None` where
/// there are no two words, or one of them writes no number.
pub fn parse_ids(s: &Vec<char>) -> (r: Option<(u32, u32)>)
    ensures
        r == ids_of(s@),
{
    let parts = split_whitespace(s);
    if parts.len() < 2 {
        return None;
    }
    assert(rows(parts)[0] == parts[0]@ && rows(parts)[1] == parts[1]@);
    match (parse_u32(&parts[0]), parse_u32(&parts[1])) {
        (Some(first), Some(second)) => Some((first, second)),
        _ => None,
    }
}

/// Every line writes two numbers.
pub open spec fn all_ids(lines: Seq<Seq<char>>) -> bool {
    forall|i: int| 0 <= i < lines.len() ==> ids_of(#[trigger] lines[i]) is Some
}

/// The left numbers of the lines.
pub open spec fn lefts(lines: Seq<Seq<char>>) -> Seq<u32> {
    Seq::new(lines.len(), |i: int| (ids_of(lines[i])->0).0)
}

/// The right numbers of the lines.
pub open spec fn rights(lines: Seq<Seq<char>>) -> Seq<u32> {
    Seq::new(lines.len(), |i: int| (ids_of(lines[i])->0).1)
}

/// The two lists that the lines write, the left and the right; `None`
/// where a line does not write two numbers.
pub fn parse_lines(lines: &Vec<Vec<char>>) -> (r: Option<(Vec<u32>, Vec<u32>)>)
    ensures
        match r {
            Some((first, second)) => all_ids(rows(*lines)) && first@ == lefts(rows(*lines))
                && second@ == rights(rows(*lines)),
            None => !all_ids(rows(*lines)),
        },
{
    let ghost text = rows(*lines);
    let mut first_measurements: Vec<u32> = Vec::new();
    let mut second_measurements: Vec<u32> = Vec::new();
    let mut i: usize = 0;
    while i < lines.len()
        invariant
            i <= lines.len(),
            text == rows(*lines),
            first_measurements.len() == i,
            second_measurements.len() == i,
            forall|k: int| 0 <= k < i ==> ids_of(#[trigger] text[k]) == Some(
                (first_measurements[k], second_measurements[k]),
            ),
        decreases lines.len() - i,
    {
        match parse_ids(&lines[i]) {
            None => {
                assert(ids_of(text[i as int]) is None);
                return None;
            },
            Some((first, second)) => {
                first_measurements.push(first);
                second_measurements.push(second);
            },
        }
        i += 1;
    }
    assert(first_measurements@ =~= lefts(text));
    assert(second_measurements@ =~= rights(text));
    Some((first_measurements, second_measurements))
}

/// How far `a` and `b` lie apart.
pub open spec fn gap(a: u32, b: u32) -> nat {
    if a <= b {
        (b - a) as nat
    } else {
        (a - b) as nat
    }
}

/// The sum of the gaps between the numbers that stand at the same place in
/// the first `upto` places of `a` and `b`.
pub open spec fn total_gap(a: Seq<u32>, b: Seq<u32>, upto: int) -> nat
    decreases upto,
{
    if upto <= 0 {
        0
    } else {
        total_gap(a, b, upto - 1) + gap(a[upto - 1], b[upto - 1])
    }
}

/// `s` in ascending order.
pub open spec fn sorted(s: Seq<u32>) -> Seq<u32> {
    s.sort_by(|x: u32, y: u32| x <= y)
}

/// What `sort` leaves of `before` is `before` in ascending order.
pub proof fn lemma_sorted(before: Seq<u32>, after: Seq<u32>)
    requires
        ascending(after),
        after.to_multiset() == before.to_multiset(),
    ensures
        after == sorted(before),
{
    let leq = |x: u32, y: u32| x <= y;
    assert(total_ordering(leq));
    before.lemma_sort_by_ensures(leq);
    assert(sorted_by(after, leq));
    lemma_sorted_unique(after, sorted(before), leq);
}

/// The sum of the gaps between the two lists, each in ascending order,
/// reduced modulo 2^32.
pub fn total_distance(first: Vec<u32>, second: Vec<u32>) -> (r: u32)
    requires
        first.len() == second.len(),
    ensures
        r == wrapped(total_gap(sorted(first@), sorted(second@), first.len() as int)),
{
    let mut first = first;
    let mut second = second;
    let ghost a0 = first@;
    let ghost b0 = second@;
    sort(&mut first);
    sort(&mut second);
    proof {
        lemma_sorted(a0, first@);
        lemma_sorted(b0, second@);
        a0.to_multiset_ensures();
        b0.to_multiset_ensures();
        first@.to_multiset_ensures();
        second@.to_multiset_ensures();
    }
    let mut total: u64 = 0;
    let mut i: usize = 0;
    while i < first.len()
        invariant
            i <= first.len(),
            first.len() == second.len(),
            total < 0x1_0000_0000,
            total == total_gap(first@, second@, i as int) % 0x1_0000_0000,
        decreases first.len() - i,
    {
        let a = first[i];
        let b = second[i];
        let d: u64 = if a <= b {
            (b - a) as u64
        } else {
            (a - b) as u64
        };
        proof {
            lemma_add_mod_noop(
                total_gap(first@, second@, i as int) as int,
                d as int,
                0x1_0000_0000,
            );
        }
        total = (total + d % 0x1_0000_0000) % 0x1_0000_0000;
        i += 1;
    }
    total as u32
}

/// How often `v` stands among the first `upto` numbers of `s`.
pub open spec fn frequency(s: Seq<u32>, v: u32, upto: int) -> nat
    decreases upto,
{
    if upto <= 0 {
        0
    } else {
        frequency(s, v, upto - 1) + if s[upto - 1] == v {
            1nat
        } else {
            0nat
        }
    }
}

/// How often `v` stands in `measurements`.
pub fn count_of(measurements: &Vec<u32>, v: u32) -> (r: usize)
    ensures
        r == frequency(measurements@, v, measurements.len() as int),
{
    let mut count: usize = 0;
    let mut i: usize = 0;
    while i < measurements.len()
        invariant
            i <= measurements.len(),
            count <= i,
            count == frequency(measurements@, v, i as int),
        decreases measurements.len() - i,
    {
        if measurements[i] == v {
            count += 1;
        }
        i += 1;
    }
    count
}

/// `table` counts the first `upto` of `measurements`: it has one entry for
/// each number among them, with how often the number stands there, reduced
/// modulo 2^32.
pub open spec fn counts_upto(table: Seq<(u32, u32)>, measurements: Seq<u32>, upto: int) -> bool {
    &&& forall|a: int, b: int| 0 <= a < b < table.len() ==> table[a].0 != table[b].0
    &&& forall|k: int|
        0 <= k < table.len() ==> frequency(measurements, (#[trigger] table[k]).0, upto) > 0
            && table[k].1 == wrapped(frequency(measurements, table[k].0, upto))
    &&& forall|i: int| 0 <= i < upto ==> has_entry(table, #[trigger] measurements[i])
}

/// `table` has an entry for the number `v`.
pub open spec fn has_entry(table: Seq<(u32, u32)>, v: u32) -> bool {
    exists|k: int| 0 <= k < table.len() && (#[trigger] table[k]).0 == v
}

/// For each number of `measurements`, how often it stands there.
pub fn collect_frequencies(measurements: &Vec<u32>) -> (r: Vec<(u32, u32)>)
    ensures
        counts_upto(r@, measurements@, measurements.len() as int),
{
    let mut frequencies: Vec<(u32, u32)> = Vec::new();
    let mut i: usize = 0;
    while i < measurements.len()
        invariant
            i <= measurements.len(),
            counts_upto(frequencies@, measurements@, i as int),
        decreases measurements.len() - i,
    {
        let m = measurements[i];
        let ghost before = frequencies@;
        let mut k: usize = 0;
        let mut found = false;
        while k < frequencies.len() && !found
            invariant
                k <= frequencies.len(),
                frequencies@ == before,
                forall|a: int| 0 <= a < k && !found ==> (#[trigger] frequencies[a]).0 != m,
                found ==> k < frequencies.len() && frequencies[k as int].0 == m,
            decreases frequencies.len() - k + if found { 0int } else { 1int },
        {
            if frequencies[k].0 == m {
                found = true;
            } else {
                k += 1;
            }
        }
        if found {
            let count = frequencies[k].1;
            frequencies[k] = (m, ((count as u64 + 1) % 0x1_0000_0000) as u32);
        } else {
            proof {
                if frequency(measurements@, m, i as int) > 0 {
                    lemma_frequency_found(measurements@, m, i as int);
                    let at = choose|at: int| 0 <= at < i && measurements@[at] == m;
                    assert(has_entry(before, measurements@[at]));
                    let e = choose|e: int| 0 <= e < before.len() && (#[trigger] before[e]).0 == m;
                    assert(frequencies[e].0 != m);
                }
            }
            frequencies.push((m, 1));
        }
        proof {
            let table = frequencies@;
            assert forall|e: int| 0 <= e < table.len() implies frequency(
                measurements@,
                (#[trigger] table[e]).0,
                i + 1,
            ) > 0 && table[e].1 == wrapped(frequency(measurements@, table[e].0, i + 1)) by {
                if e < before.len() {
                    assert(before[e].0 == table[e].0);
                    assert(frequency(measurements@, before[e].0, i as int) > 0);
                }
            }
            assert forall|j: int| 0 <= j < i + 1 implies has_entry(
                table,
                #[trigger] measurements@[j],
            ) by {
                if j < i {
                    assert(has_entry(before, measurements@[j]));
                    let e = choose|e: int|
                        0 <= e < before.len() && (#[trigger] before[e]).0 == measurements@[j];
                    assert(table[e].0 == measurements@[j]);
                } else if found {
                    assert(table[k as int].0 == m);
                } else {
                    assert(table[before.len() as int].0 == m);
                }
            }
            assert forall|a: int, b: int| 0 <= a < b < table.len() implies table[a].0
                != table[b].0 by {
                if b < before.len() {
                    assert(before[a].0 != before[b].0);
                    assert(table[a].0 == before[a].0 && table[b].0 == before[b].0);
                } else {
                    assert(table[a].0 == before[a].0);
                }
            }
        }
        i += 1;
    }
    frequencies
}

/// A number that stands so often among the first of a list stands at one
/// of their places.
proof fn lemma_frequency_found(s: Seq<u32>, v: u32, upto: int)
    requires
        0 <= upto <= s.len(),
        frequency(s, v, upto) > 0,
    ensures
        exists|at: int| 0 <= at < upto && s[at] == v,
    decreases upto,
{
    if s[upto - 1] != v {
        lemma_frequency_found(s, v, upto - 1);
        let at = choose|at: int| 0 <= at < upto - 1 && s[at] == v;
        assert(0 <= at < upto && s[at] == v);
    }
}

/// The sum, over the first `upto` numbers of `a`, of the number times how
/// often it stands in `b`.
pub open spec fn similarity(a: Seq<u32>, b: Seq<u32>, upto: int) -> nat
    decreases upto,
{
    if upto <= 0 {
        0
    } else {
        similarity(a, b, upto - 1) + (a[upto - 1] as nat) * frequency(b, a[upto - 1], b.len() as int)
    }
}

/// The sum, over the numbers of the first list, of the number times how
/// often it stands in the second, reduced modulo 2^32.
pub fn similarity_score(first: &Vec<u32>, second: &Vec<u32>) -> (r: u32)
    ensures
        r == wrapped(similarity(first@, second@, first.len() as int)),
{
    let mut total: u64 = 0;
    let mut i: usize = 0;
    while i < first.len()
        invariant
            i <= first.len(),
            total < 0x1_0000_0000,
            total == similarity(first@, second@, i as int) % 0x1_0000_0000,
        decreases first.len() - i,
    {
        let v = first[i];
        let freq = count_of(second, v);
        assert((v as u128) * (freq as u128) <= 0x1_0000_0000 * 0x1_0000_0000_0000_0000)
            by (nonlinear_arith)
            requires
                v <= 0xffff_ffff,
                freq <= 0xffff_ffff_ffff_ffff,
        ;
        let worth: u128 = (v as u128) * (freq as u128);
        let low: u64 = (worth % 0x1_0000_0000) as u64;
        proof {
            lemma_add_mod_noop(
                similarity(first@, second@, i as int) as int,
                worth as int,
                0x1_0000_0000,
            );
        }
        total = (total + low) % 0x1_0000_0000;
        i += 1;
    }
    total as u32
}

impl AdventProblem for Day1 {
    open spec fn accepts_part_1(&self, lines: Seq<Seq<char>>) -> bool {
        true
    }

    open spec fn accepts_part_2(&self, lines: Seq<Seq<char>>) -> bool {
        true
    }

    open spec fn answer_part_1(&self, lines: Seq<Seq<char>>) -> Option<u32> {
        if all_ids(lines) {
            Some(wrapped(total_gap(sorted(lefts(lines)), sorted(rights(lines)), lines.len() as int)))
        } else {
            None
        }
    }

    open spec fn answer_part_2(&self, lines: Seq<Seq<char>>) -> Option<u32> {
        if all_ids(lines) {
            Some(wrapped(similarity(lefts(lines), rights(lines), lines.len() as int)))
        } else {
            None
        }
    }

    fn run_part_1(&self, lines: Vec<String>) -> (r: Result<u32, AdventError>) {
        let text = chars_of_lines(&lines);
        match parse_lines(&text) {
            None => Err(parse_error("a line does not write two numbers")),
            Some((first, second)) => Ok(total_distance(first, second)),
        }
    }

    fn run_part_2(&self, lines: Vec<String>) -> (r: Result<u32, AdventError>) {
        let text = chars_of_lines(&lines);
        match parse_lines(&text) {
            None => Err(parse_error("a line does not write two numbers")),
            Some((first, second)) => Ok(similarity_score(&first, &second)),
        }
    }
}

} // verus!
