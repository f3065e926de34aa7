//! Print requests whose pages must follow ordering rules.

use crate::table::{first_empty, lemma_first_empty, rows};
use crate::text::{
    chars_of_lines, parse_error, parse_u32, split, split_spec, unsigned_value,
};
use crate::y2024::day2::{numbers, numbers_of};
use crate::{lines_view, wrapped, AdventError, AdventProblem};
use vstd::prelude::*;

verus! {

pub struct Day5;

/// The pages of one print request, in the order in which they are to be printed.
pub struct Request {
    pub pages: Vec<u32>,
}

/// A page with the pages that must be printed before it.
pub struct Page {
    pub num: u32,
    pub dependencies: Vec<u32>,
}

impl Page {
    /// This page waits for fewer pages than `other`.
    pub fn precedes(&self, other: &Page) -> (r: bool)
        ensures
            r == (self.dependencies.len() < other.dependencies.len()),
    {
        self.dependencies.len() < other.dependencies.len()
    }
}

/// A rule says that `page` must be printed before `later`.
pub open spec fn must_precede(rules: Seq<(u32, u32)>, page: u32, later: u32) -> bool {
    rules.contains((page, later))
}

/// No page of `pages` stands before a page that a rule puts before it.
pub open spec fn in_order(rules: Seq<(u32, u32)>, pages: Seq<u32>) -> bool {
    forall|i: int, j: int|
        0 <= i < j < pages.len() ==> !#[trigger] must_precede(rules, pages[j], pages[i])
}

/// The first `upto` pages stand before no page that a rule puts before them.
pub open spec fn in_order_upto(rules: Seq<(u32, u32)>, pages: Seq<u32>, upto: int) -> bool {
    forall|i: int, j: int|
        0 <= i < j < pages.len() && i < upto ==> !#[trigger] must_precede(rules, pages[j], pages[i])
}

/// `j` is the place of the first page behind `i` that a rule puts before
/// the page at `i`.
pub open spec fn is_first_breach(rules: Seq<(u32, u32)>, pages: Seq<u32>, i: int, j: int) -> bool {
    &&& i < j < pages.len()
    &&& must_precede(rules, pages[j], pages[i])
    &&& forall|k: int| i < k < j ==> !must_precede(rules, #[trigger] pages[k], pages[i])
}

/// `pages` with the pages at `i` and `j` exchanged.
pub open spec fn exchanged(pages: Seq<u32>, i: int, j: int) -> Seq<u32> {
    pages.update(i, pages[j]).update(j, pages[i])
}

/// What `fix` makes of `pages` from the place `i` on with `budget` moves
/// left, and whether it came to an end: where a page behind `i` must come
/// before the page at `i`, the first such page changes places with it, and
/// the place `i` is looked at again; else the next place is looked at.
pub open spec fn fixed(rules: Seq<(u32, u32)>, pages: Seq<u32>, i: int, budget: nat) -> (
    Seq<u32>,
    bool,
)
    decreases pages.len() - i, budget,
{
    if i < 0 || i >= pages.len() {
        (pages, true)
    } else if exists|j: int| is_first_breach(rules, pages, i, j) {
        if budget == 0 {
            (pages, false)
        } else {
            let j = choose|j: int| is_first_breach(rules, pages, i, j);
            fixed(rules, exchanged(pages, i, j), i, (budget - 1) as nat)
        }
    } else {
        fixed(rules, pages, i + 1, budget)
    }
}

/// There is one first breach at most.
pub proof fn lemma_first_breach_unique(rules: Seq<(u32, u32)>, pages: Seq<u32>, i: int, j: int)
    requires
        is_first_breach(rules, pages, i, j),
    ensures
        (choose|k: int| is_first_breach(rules, pages, i, k)) == j,
{
    let k = choose|k: int| is_first_breach(rules, pages, i, k);
    assert(is_first_breach(rules, pages, i, k));
    if k < j {
        assert(!must_precede(rules, pages[k], pages[i]));
    } else if j < k {
        assert(!must_precede(rules, pages[j], pages[i]));
    }
}

/// A rule says that `page` must be printed before `later`.
pub fn has_rule(rules: &Vec<(u32, u32)>, page: u32, later: u32) -> (r: bool)
    ensures
        r == must_precede(rules@, page, later),
{
    let mut k: usize = 0;
    while k < rules.len()
        invariant
            k <= rules.len(),
            forall|t: int| 0 <= t < k ==> rules[t] != (page, later),
        decreases rules.len() - k,
    {
        if rules[k].0 == page && rules[k].1 == later {
            assert(rules@[k as int] == (page, later));
            return true;
        }
        k += 1;
    }
    false
}

/// The place of the first page behind `i` that a rule puts before the
/// page at `i`, if there is one.
fn first_breach(pages: &Vec<u32>, rules: &Vec<(u32, u32)>, i: usize) -> (r: Option<usize>)
    requires
        i < pages.len(),
    ensures
        match r {
            Some(j) => is_first_breach(rules@, pages@, i as int, j as int),
            None => forall|k: int|
                i < k < pages.len() ==> !must_precede(rules@, #[trigger] pages[k], pages[i as int]),
        },
{
    let mut j = i + 1;
    while j < pages.len()
        invariant
            i < j <= pages.len(),
            forall|k: int| i < k < j ==> !must_precede(rules@, #[trigger] pages[k], pages[i as int]),
        decreases pages.len() - j,
    {
        if has_rule(rules, pages[j], pages[i]) {
            return Some(j);
        }
        j += 1;
    }
    None
}

impl Request {
    /// The page in the middle.
    pub fn middle(&self) -> (r: u32)
        requires
            self.pages.len() > 0,
        ensures
            r == self.pages[self.pages.len() as int / 2],
    {
        self.pages[self.pages.len() / 2]
    }

    /// No page stands before a page that a rule puts before it.
    pub fn is_valid(&self, rules: &Vec<(u32, u32)>) -> (r: bool)
        ensures
            r == in_order(rules@, self.pages@),
    {
        let n = self.pages.len();
        let mut i: usize = 0;
        while i < n
            invariant
                i <= n,
                n == self.pages.len(),
                in_order_upto(rules@, self.pages@, i as int),
            decreases n - i,
        {
            match first_breach(&self.pages, rules, i) {
                Some(j) => {
                    assert(must_precede(rules@, self.pages[j as int], self.pages[i as int]));
                    return false;
                },
                None => {},
            }
            i += 1;
        }
        true
    }

    /// Puts the pages in an order that obeys the rules, by moving forward,
    /// page by page, what must come first. Gives up, and says so with
    /// `false`, after as many moves as the square of the number of pages,
    /// which are enough unless the rules run in a circle.
    pub fn fix(&mut self, rules: &Vec<(u32, u32)>) -> (r: bool)
        ensures
            (final(self).pages@, r) == fixed(
                rules@,
                old(self).pages@,
                0,
                old(self).pages@.len() * old(self).pages@.len(),
            ),
            final(self).pages@.to_multiset() == old(self).pages@.to_multiset(),
            final(self).pages@.len() == old(self).pages@.len(),
            r ==> in_order(rules@, final(self).pages@),
    {
        let n = self.pages.len();
        assert((n as u128) * (n as u128) <= 0xffff_ffff_ffff_ffff * 0xffff_ffff_ffff_ffff)
            by (nonlinear_arith)
            requires
                n <= 0xffff_ffff_ffff_ffff,
        ;
        let mut budget: u128 = (n as u128) * (n as u128);
        let ghost goal = fixed(rules@, self.pages@, 0, budget as nat);
        let mut i: usize = 0;
        while i < n
            invariant
                i <= n,
                n == self.pages.len(),
                n == old(self).pages@.len(),
                self.pages@.to_multiset() == old(self).pages@.to_multiset(),
                in_order_upto(rules@, self.pages@, i as int),
                fixed(rules@, self.pages@, i as int, budget as nat) == goal,
                goal == fixed(
                    rules@,
                    old(self).pages@,
                    0,
                    old(self).pages@.len() * old(self).pages@.len(),
                ),
            decreases n - i, budget,
        {
            match first_breach(&self.pages, rules, i) {
                Some(j) => {
                    proof {
                        lemma_first_breach_unique(rules@, self.pages@, i as int, j as int);
                    }
                    if budget == 0 {
                        return false;
                    }
                    budget = budget - 1;
                    let ghost before = self.pages@;
                    let tmp = self.pages[i];
                    let other = self.pages[j];
                    self.pages[i] = other;
                    self.pages[j] = tmp;
                    proof {
                        assert(self.pages@ =~= exchanged(before, i as int, j as int));
                        lemma_swap_keeps(rules@, before, self.pages@, i as int, j as int);
                    }
                },
                None => {
                    assert forall|j: int| !is_first_breach(rules@, self.pages@, i as int, j) by {}
                    i += 1;
                },
            }
        }
        true
    }
}

/// Exchanging two pages behind the first `upto` keeps the first `upto`
/// pages in order, and keeps what pages there are.
proof fn lemma_swap_keeps(rules: Seq<(u32, u32)>, before: Seq<u32>, after: Seq<u32>, i: int, j: int)
    requires
        0 <= i < j < before.len(),
        after == before.update(i, before[j]).update(j, before[i]),
        in_order_upto(rules, before, i),
    ensures
        in_order_upto(rules, after, i),
        after.to_multiset() == before.to_multiset(),
{
    assert forall|a: int, b: int| 0 <= a < b < after.len() && a < i implies !#[trigger] must_precede(
        rules,
        after[b],
        after[a],
    ) by {
        let c = if b == i {
            j
        } else if b == j {
            i
        } else {
            b
        };
        assert(!must_precede(rules, before[c], before[a]));
    }
    let mid = before.update(i, before[j]);
    vstd::seq_lib::to_multiset_update(before, i, before[j]);
    vstd::seq_lib::to_multiset_update(mid, j, before[i]);
    vstd::seq_lib::to_multiset_contains(before, before[i]);
    vstd::seq_lib::to_multiset_contains(before, before[j]);
    assert(before.contains(before[i]) && before.contains(before[j]));
    assert(after.to_multiset() =~= before.to_multiset());
}

/// The rule that `line` writes: two numbers with a bar between them.
pub open spec fn rule_of(line: Seq<char>) -> Option<(u32, u32)> {
    let parts = split_spec(line, seq!['|']);
    if parts.len() < 2 {
        None
    } else {
        match (unsigned_value(parts[0], u32::MAX as nat), unsigned_value(parts[1], u32::MAX as nat)) {
            (Some(a), Some(b)) => Some((a as u32, b as u32)),
            _ => None,
        }
    }
}

/// Reads the rules from the lines before the first empty one, and says how
/// many lines those are; `None` where one of them writes no rule.
pub fn parse_ordering_rules(lines: &Vec<Vec<char>>) -> (r: Option<(Vec<(u32, u32)>, usize)>)
    ensures
        match r {
            Some((rules, k)) => k == first_empty(rows(*lines), 0) && rules.len() == k
                && forall|i: int| 0 <= i < k ==> rule_of(#[trigger] rows(*lines)[i]) == Some(rules[i]),
            None => exists|i: int|
                0 <= i < first_empty(rows(*lines), 0) && rule_of(#[trigger] rows(*lines)[i]) is None,
        },
{
    let ghost text = rows(*lines);
    let bar = vec!['|'];
    assert(bar@ =~= seq!['|']);
    let mut rules: Vec<(u32, u32)> = Vec::new();
    let mut i: usize = 0;
    while i < lines.len() && lines[i].len() > 0
        invariant
            i <= lines.len(),
            text == rows(*lines),
            bar@ == seq!['|'],
            rules.len() == i,
            forall|j: int| 0 <= j < i ==> (#[trigger] text[j]).len() > 0,
            forall|j: int| 0 <= j < i ==> rule_of(#[trigger] text[j]) == Some(rules[j]),
        decreases lines.len() - i,
    {
        assert(text[i as int] == lines[i as int]@);
        let parts = split(&lines[i], &bar);
        let rule = if parts.len() < 2 {
            None
        } else {
            assert(rows(parts)[0] == parts[0]@ && rows(parts)[1] == parts[1]@);
            match (parse_u32(&parts[0]), parse_u32(&parts[1])) {
                (Some(a), Some(b)) => Some((a, b)),
                _ => None,
            }
        };
        match rule {
            Some(rule) => {
                rules.push(rule);
            },
            None => {
                proof {
                    lemma_first_empty_after(text, 0, i as int);
                    assert(rule_of(text[i as int]) is None);
                }
                return None;
            },
        }
        i += 1;
    }
    proof {
        assert(i < lines.len() ==> text[i as int].len() == 0);
        lemma_first_empty(text, 0, i as int);
    }
    Some((rules, i))
}

/// The pages that `line` writes: numbers with commas between them.
pub open spec fn pages_of(line: Seq<char>) -> Option<Seq<u32>> {
    numbers_of(split_spec(line, seq![',']))
}

/// Reads the print requests from the lines that begin with line `start`, up
/// to the first empty one; `None` where one of them writes no request.
pub fn parse_print_requests(lines: &Vec<Vec<char>>, start: usize) -> (r: Option<Vec<Request>>)
    ensures
        match r {
            Some(requests) => {
                &&& start <= lines.len() ==> start + requests.len() == first_empty(
                    rows(*lines),
                    start as int,
                )
                &&& start > lines.len() ==> requests.len() == 0
                &&& forall|i: int|
                    0 <= i < requests.len() ==> pages_of(rows(*lines)[start + i]) == Some(
                        (#[trigger] requests[i]).pages@,
                    )
            },
            None => exists|i: int|
                start <= i < first_empty(rows(*lines), start as int) && pages_of(
                    #[trigger] rows(*lines)[i],
                ) is None,
        },
{
    let ghost text = rows(*lines);
    let comma = vec![','];
    assert(comma@ =~= seq![',']);
    let mut requests: Vec<Request> = Vec::new();
    let mut i = start;
    while i < lines.len() && lines[i].len() > 0
        invariant
            text == rows(*lines),
            comma@ == seq![','],
            start <= i <= lines.len() || (start > lines.len() && i == start),
            requests.len() == i - start,
            forall|j: int| start <= j < i ==> (#[trigger] text[j]).len() > 0,
            forall|k: int|
                0 <= k < requests.len() ==> pages_of(text[start + k]) == Some(
                    (#[trigger] requests[k]).pages@,
                ),
        decreases lines.len() - i,
    {
        assert(text[i as int] == lines[i as int]@);
        let fields = split(&lines[i], &comma);
        match numbers(&fields) {
            Some(pages) => {
                requests.push(Request { pages });
            },
            None => {
                proof {
                    lemma_first_empty_after(text, start as int, i as int);
                    assert(pages_of(text[i as int]) is None);
                }
                return None;
            },
        }
        i += 1;
    }
    proof {
        assert(i < lines.len() ==> text[i as int].len() == 0);
        if start <= lines.len() {
            lemma_first_empty(text, start as int, i as int);
        }
    }
    Some(requests)
}

/// The line with which what follows the block that ends at `end` begins.
pub open spec fn block_after(lines: Seq<Seq<char>>, end: int) -> int {
    if end < lines.len() {
        end + 1
    } else {
        end
    }
}

/// The rules and the requests that the lines write: the rules up to the
/// first empty line, the requests behind it up to the next.
pub open spec fn print_job(lines: Seq<Seq<char>>) -> Option<(Seq<(u32, u32)>, Seq<Seq<u32>>)> {
    let k = first_empty(lines, 0);
    let start = block_after(lines, k);
    let end = first_empty(lines, start);
    if (forall|i: int| 0 <= i < k ==> rule_of(#[trigger] lines[i]) is Some) && (forall|i: int|
        start <= i < end ==> pages_of(#[trigger] lines[i]) is Some) {
        Some(
            (
                Seq::new(k as nat, |i: int| rule_of(lines[i])->0),
                Seq::new((end - start) as nat, |i: int| pages_of(lines[start + i])->0),
            ),
        )
    } else {
        None
    }
}

/// What the request `pages` adds to the sum: the page in its middle if it
/// is in order and requests in order are counted, or the page in the middle
/// of what `fix` makes of it if it is not in order and such are counted.
pub open spec fn request_worth(rules: Seq<(u32, u32)>, pages: Seq<u32>, fixing: bool) -> nat {
    if pages.len() == 0 {
        0
    } else if in_order(rules, pages) {
        if fixing {
            0
        } else {
            pages[pages.len() as int / 2] as nat
        }
    } else if fixing {
        fixed(rules, pages, 0, pages.len() * pages.len()).0[pages.len() as int / 2] as nat
    } else {
        0
    }
}

/// The sum of what the first `upto` requests add, reduced modulo 2^32.
pub open spec fn job_worth(rules: Seq<(u32, u32)>, requests: Seq<Seq<u32>>, fixing: bool, upto: int) -> u32
    decreases upto,
{
    if upto <= 0 {
        0
    } else {
        ((job_worth(rules, requests, fixing, upto - 1) + request_worth(
            rules,
            requests[upto - 1],
            fixing,
        )) % 0x1_0000_0000) as u32
    }
}

/// The sum of the middle pages of the requests that are in order, or, if
/// `fixing`, of those that are not, once they are put in order.
pub fn print_total(lines: &Vec<Vec<char>>, fixing: bool) -> (r: Result<u32, AdventError>)
    ensures
        match r {
            Ok(total) => print_job(rows(*lines)) matches Some(job) && total == job_worth(
                job.0,
                job.1,
                fixing,
                job.1.len() as int,
            ),
            Err(e) => print_job(rows(*lines)) is None && e is InputParseError,
        },
{
    let ghost text = rows(*lines);
    proof {
        lemma_first_empty_bounds(text, 0);
    }
    let (rules, k) = match parse_ordering_rules(lines) {
        Some(found) => found,
        None => {
            return Err(parse_error("a line writes no ordering rule"));
        },
    };
    let start = if k < lines.len() {
        k + 1
    } else {
        k
    };
    let mut requests = match parse_print_requests(lines, start) {
        Some(requests) => requests,
        None => {
            return Err(parse_error("a line writes no print request"));
        },
    };
    let ghost given = Seq::new(requests.len() as nat, |i: int| requests[i].pages@);
    proof {
        lemma_first_empty_bounds(text, start as int);
        let end = first_empty(text, start as int);
        assert forall|i: int| start <= i < end implies pages_of(#[trigger] text[i]) is Some by {
            assert(pages_of(text[start + (i - start)]) == Some(requests[i - start].pages@));
        }
        assert(print_job(text) is Some);
        let job = print_job(text)->0;
        assert(job.0 =~= rules@);
        assert(job.1 =~= given);
    }
    let mut total: u32 = 0;
    let mut i: usize = 0;
    while i < requests.len()
        invariant
            i <= requests.len(),
            given.len() == requests.len(),
            forall|j: int| i <= j < requests.len() ==> (#[trigger] requests[j]).pages@ == given[j],
            total == job_worth(rules@, given, fixing, i as int),
        decreases requests.len() - i,
    {
        let mut request = Request { pages: Vec::new() };
        std::mem::swap(&mut request, &mut requests[i]);
        assert(request.pages@ == given[i as int]);
        let mut worth: u32 = 0;
        if request.pages.len() > 0 {
            if request.is_valid(&rules) {
                if !fixing {
                    worth = request.middle();
                }
            } else if fixing {
                request.fix(&rules);
                worth = request.middle();
            }
        }
        total = ((total as u64 + worth as u64) % 0x1_0000_0000) as u32;
        i += 1;
    }
    Ok(total)
}

/// Where the lines from `from` up to `i` hold something, the first empty
/// line behind `from` lies behind `i`.
proof fn lemma_first_empty_after(lines: Seq<Seq<char>>, from: int, i: int)
    requires
        0 <= from <= i < lines.len(),
        forall|j: int| from <= j <= i ==> (#[trigger] lines[j]).len() > 0,
    ensures
        first_empty(lines, from) > i,
    decreases i - from,
{
    if from < i {
        lemma_first_empty_after(lines, from + 1, i);
    } else {
        lemma_first_empty_bounds(lines, from + 1);
    }
}

/// The first empty line behind `from` lies at or behind `from`.
proof fn lemma_first_empty_bounds(lines: Seq<Seq<char>>, from: int)
    requires
        0 <= from <= lines.len(),
    ensures
        from <= first_empty(lines, from) <= lines.len(),
    decreases lines.len() - from,
{
    if from < lines.len() && lines[from].len() > 0 {
        lemma_first_empty_bounds(lines, from + 1);
    }
}

impl AdventProblem for Day5 {
    open spec fn accepts_part_1(&self, lines: Seq<Seq<char>>) -> bool {
        true
    }

    open spec fn accepts_part_2(&self, lines: Seq<Seq<char>>) -> bool {
        true
    }

    open spec fn answer_part_1(&self, lines: Seq<Seq<char>>) -> Option<u32> {
        match print_job(lines) {
            Some(job) => Some(job_worth(job.0, job.1, false, job.1.len() as int)),
            None => None,
        }
    }

    open spec fn answer_part_2(&self, lines: Seq<Seq<char>>) -> Option<u32> {
        match print_job(lines) {
            Some(job) => Some(job_worth(job.0, job.1, true, job.1.len() as int)),
            None => None,
        }
    }

    fn run_part_1(&self, lines: Vec<String>) -> (r: Result<u32, AdventError>) {
        let text = chars_of_lines(&lines);
        print_total(&text, false)
    }

    fn run_part_2(&self, lines: Vec<String>) -> (r: Result<u32, AdventError>) {
        let text = chars_of_lines(&lines);
        print_total(&text, true)
    }
}

} // verus!
