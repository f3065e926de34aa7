//! Secret numbers that follow one another by mixing and pruning.

use crate::table::rows;
use crate::text::{chars_of_lines, parse_error, parse_u64, unsigned_value};
use crate::{lines_view, AdventError, AdventProblem};
use vstd::prelude::*;

verus! {

pub struct Day22;

/// `x` mixed into `y` bit by bit, and pruned to 24 bits.
pub open spec fn mixed(x: u64, y: u64) -> u64 {
    (x ^ y) % 16777216
}

pub fn mix_and_prune(x: u64, y: u64) -> (r: u64)
    ensures
        r == mixed(x, y),
{
    (x ^ y) % 16777216
}

/// The secret number that follows `n`: `n` times 64 is mixed in, then the
/// result divided by 32, then the result times 2048. Only the lowest 64 bits
/// of a product are kept, which is all of it for numbers below 2^53.
pub open spec fn next_secret(n: u64) -> u64 {
    let a = mixed(n << 6, n);
    let b = mixed(a >> 5, a);
    mixed(b << 11, b)
}

pub fn next_secret_number(n: u64) -> (r: u64)
    ensures
        r == next_secret(n),
{
    let next = mix_and_prune(n << 6, n);
    let next = mix_and_prune(next >> 5, next);
    mix_and_prune(next << 11, next)
}

/// The secret number that comes `k` numbers after `n`.
pub open spec fn secret_after(n: u64, k: nat) -> u64
    decreases k,
{
    if k == 0 {
        n
    } else {
        next_secret(secret_after(n, (k - 1) as nat))
    }
}

/// The 2000th secret number after `n`.
pub fn final_secret_number(n: u64) -> (r: u64)
    ensures
        r == secret_after(n, 2000),
{
    let mut next = n;
    let mut k: u32 = 0;
    while k < 2000
        invariant
            k <= 2000,
            next == secret_after(n, k as nat),
        decreases 2000 - k,
    {
        next = next_secret_number(next);
        k += 1;
    }
    next
}

/// By how much the price of `second`, its last digit, lies above that of `first`.
pub open spec fn price_change(first: u64, second: u64) -> int {
    (second % 10) - (first % 10)
}

pub fn compute_diff(first: u64, second: u64) -> (r: i64)
    ensures
        r == price_change(first, second),
{
    (second % 10) as i64 - (first % 10) as i64
}

/// The numbers that the lines write, if each writes one.
pub open spec fn secrets_of(lines: Seq<Seq<char>>) -> Option<Seq<u64>> {
    if forall|i: int| 0 <= i < lines.len() ==> unsigned_value(#[trigger] lines[i], u64::MAX as nat) is Some {
        Some(Seq::new(lines.len(), |i: int| unsigned_value(lines[i], u64::MAX as nat)->0 as u64))
    } else {
        None
    }
}

/// The sum of the 2000th secret numbers after the first `upto` of
/// `secrets`, reduced modulo 2^64.
pub open spec fn final_sum(secrets: Seq<u64>, upto: int) -> u64
    decreases upto,
{
    if upto <= 0 {
        0
    } else {
        ((final_sum(secrets, upto - 1) + secret_after(secrets[upto - 1], 2000)) % 0x1_0000_0000_0000_0000) as u64
    }
}

/// The sum of the 2000th secret numbers after the numbers that the lines
/// write, reduced modulo 2^64; a line that writes no number is refused.
pub fn sum_of_finals(lines: &Vec<Vec<char>>) -> (r: Result<u64, AdventError>)
    ensures
        match r {
            Ok(total) => secrets_of(rows(*lines)) matches Some(secrets) && total == final_sum(
                secrets,
                secrets.len() as int,
            ),
            Err(e) => secrets_of(rows(*lines)) is None && e is InputParseError,
        },
{
    let ghost text = rows(*lines);
    let ghost secrets = Seq::new(
        text.len(),
        |i: int| unsigned_value(text[i], u64::MAX as nat)->0 as u64,
    );
    let mut total: u64 = 0;
    let mut i: usize = 0;
    while i < lines.len()
        invariant
            i <= lines.len(),
            text == rows(*lines),
            secrets == Seq::new(
                text.len(),
                |i: int| unsigned_value(text[i], u64::MAX as nat)->0 as u64,
            ),
            forall|k: int| 0 <= k < i ==> unsigned_value(#[trigger] text[k], u64::MAX as nat) is Some,
            total == final_sum(secrets, i as int),
        decreases lines.len() - i,
    {
        match parse_u64(&lines[i]) {
            None => {
                assert(unsigned_value(text[i as int], u64::MAX as nat) is None);
                return Err(parse_error("a secret number is not written in digits"));
            },
            Some(n) => {
                let last = final_secret_number(n);
                assert(secrets[i as int] == n);
                total = ((total as u128 + last as u128) % 0x1_0000_0000_0000_0000) as u64;
            },
        }
        i += 1;
    }
    Ok(total)
}

/// By how much the price changes from the secret number `j` after `n` to
/// the next.
pub open spec fn change(n: u64, j: int) -> int {
    price_change(secret_after(n, j as nat), secret_after(n, (j + 1) as nat))
}

/// With the change `j` the last four changes after `n` are `seq`, and the
/// price that they lead to is not 0, so that it can be noted.
pub open spec fn offers(n: u64, j: int, seq: (int, int, int, int)) -> bool {
    &&& j >= 3
    &&& seq == (change(n, j - 3), change(n, j - 2), change(n, j - 1), change(n, j))
    &&& secret_after(n, (j + 1) as nat) % 10 > 0
}

/// The price that the changes `seq` fetch among the first `upto` changes
/// after `n`: the first price noted with them, and 0 where there is none.
pub open spec fn sold(n: u64, seq: (int, int, int, int), upto: int) -> u64
    decreases upto,
{
    if upto <= 3 {
        0
    } else {
        let before = sold(n, seq, upto - 1);
        if before > 0 {
            before
        } else if offers(n, upto - 1, seq) {
            secret_after(n, upto as nat) % 10
        } else {
            0
        }
    }
}

/// As many rows as there are lists of four changes, each from -9 to 9.
pub const CHANGES: usize = 130321;

/// The four changes that stand in the row `k` of a table of prices.
pub open spec fn changes_at(k: int) -> (int, int, int, int) {
    (((k / 19) / 19) / 19 - 9, ((k / 19) / 19) % 19 - 9, (k / 19) % 19 - 9, k % 19 - 9)
}

/// The row of a table of prices in which the changes `seq` stand.
pub open spec fn row_of(seq: (int, int, int, int)) -> int {
    (((seq.0 + 9) * 19 + (seq.1 + 9)) * 19 + (seq.2 + 9)) * 19 + (seq.3 + 9)
}

/// Each list of four changes from -9 to 9 has its row.
pub proof fn lemma_row_of(seq: (int, int, int, int))
    requires
        -9 <= seq.0 <= 9,
        -9 <= seq.1 <= 9,
        -9 <= seq.2 <= 9,
        -9 <= seq.3 <= 9,
    ensures
        0 <= row_of(seq) < CHANGES,
        changes_at(row_of(seq)) == seq,
{
    let a = seq.0 + 9;
    let b = seq.1 + 9;
    let c = seq.2 + 9;
    let d = seq.3 + 9;
    let r1 = a * 19 + b;
    let r2 = r1 * 19 + c;
    let r3 = r2 * 19 + d;
    assert(r1 / 19 == a && r1 % 19 == b);
    assert(r2 / 19 == r1 && r2 % 19 == c);
    assert(r3 / 19 == r2 && r3 % 19 == d);
    assert(row_of(seq) == r3);
}

/// Each row holds the list of changes whose row it is.
pub proof fn lemma_changes_at(k: int)
    requires
        0 <= k < CHANGES,
    ensures
        row_of(changes_at(k)) == k,
        -9 <= changes_at(k).0 <= 9,
{
    let r2 = k / 19;
    let r1 = r2 / 19;
    let a = r1 / 19;
    assert(k == r2 * 19 + k % 19);
    assert(r2 == r1 * 19 + r2 % 19);
    assert(r1 == a * 19 + r1 % 19);
}

/// A change of prices lies between -9 and 9.
fn change_of(first: u64, second: u64) -> (r: i64)
    ensures
        r == price_change(first, second),
        -9 <= r <= 9,
{
    compute_diff(first, second)
}

/// The prices that the lists of four changes fetch among the first 2000
/// changes after `n`, a row for each list.
pub fn banana_prices(n: u64) -> (r: Vec<u64>)
    ensures
        r.len() == CHANGES,
        forall|k: int| 0 <= k < CHANGES ==> #[trigger] r[k] == sold(n, changes_at(k), 2000),
{
    let mut prices: Vec<u64> = Vec::new();
    let mut k: usize = 0;
    while k < CHANGES
        invariant
            k <= CHANGES,
            prices.len() == k,
            forall|a: int| 0 <= a < k ==> #[trigger] prices[a] == 0,
        decreases CHANGES - k,
    {
        prices.push(0);
        k += 1;
    }
    let first = n;
    let second = next_secret_number(first);
    let third = next_secret_number(second);
    let fourth = next_secret_number(third);
    proof {
        reveal_with_fuel(secret_after, 4);
    }
    let mut prev_seq = (change_of(first, second), change_of(second, third), change_of(third, fourth));
    let mut prev = fourth;
    let mut t: usize = 3;
    while t < 2000
        invariant
            3 <= t <= 2000,
            prices.len() == CHANGES,
            prev == secret_after(n, t as nat),
            prev_seq.0 == change(n, t - 3),
            prev_seq.1 == change(n, t - 2),
            prev_seq.2 == change(n, t - 1),
            forall|a: int| 0 <= a < CHANGES ==> #[trigger] prices[a] == sold(n, changes_at(a), t as int),
        decreases 2000 - t,
    {
        let next = next_secret_number(prev);
        let price = next % 10;
        let diff = change_of(prev, next);
        let ghost seq = (prev_seq.0 as int, prev_seq.1 as int, prev_seq.2 as int, diff as int);
        proof {
            lemma_row_of(seq);
        }
        let row = ((((prev_seq.0 + 9) * 19 + (prev_seq.1 + 9)) * 19 + (prev_seq.2 + 9)) * 19 + (diff
            + 9)) as usize;
        let ghost before = prices@;
        if price > 0 {
            if prices[row] == 0 {
                prices[row] = price;
            }
        }
        proof {
            assert forall|a: int| 0 <= a < CHANGES implies #[trigger] prices[a] == sold(
                n,
                changes_at(a),
                t + 1,
            ) by {
                assert(before[a] == sold(n, changes_at(a), t as int));
                if a != row {
                    lemma_changes_at(a);
                    assert(changes_at(a) != seq);
                }
            }
        }
        prev = next;
        prev_seq = (prev_seq.1, prev_seq.2, diff);
        t += 1;
    }
    prices
}

/// What the changes `seq` fetch from the first `upto` buyers, whose first
/// secret numbers are `secrets`, reduced modulo 2^64.
pub open spec fn fetched(secrets: Seq<u64>, seq: (int, int, int, int), upto: int) -> u64
    decreases upto,
{
    if upto <= 0 {
        0
    } else {
        ((fetched(secrets, seq, upto - 1) + sold(secrets[upto - 1], seq, 2000))
            % 0x1_0000_0000_0000_0000) as u64
    }
}

/// `best` is the most that any list of four changes fetches from the
/// buyers.
pub open spec fn is_best_price(secrets: Seq<u64>, best: u64) -> bool {
    &&& forall|k: int|
        0 <= k < CHANGES ==> #[trigger] fetched(secrets, changes_at(k), secrets.len() as int)
            <= best
    &&& exists|k: int|
        0 <= k < CHANGES && #[trigger] fetched(secrets, changes_at(k), secrets.len() as int)
            == best
}

/// The most that a list of four changes fetches from the buyers whose
/// first secret numbers the lines write; a line that writes no number is
/// refused, and so are lines of which nothing can be had.
pub fn best_price(lines: &Vec<Vec<char>>) -> (r: Result<u64, AdventError>)
    ensures
        match r {
            Ok(best) => secrets_of(rows(*lines)) matches Some(secrets) && is_best_price(
                secrets,
                best,
            ) && best > 0,
            Err(e) => e is InputParseError && (secrets_of(rows(*lines)) matches Some(secrets)
                ==> is_best_price(secrets, 0)),
        },
{
    let ghost text = rows(*lines);
    let ghost secrets = Seq::new(
        text.len(),
        |i: int| unsigned_value(text[i], u64::MAX as nat)->0 as u64,
    );
    let mut totals: Vec<u64> = Vec::new();
    let mut k: usize = 0;
    while k < CHANGES
        invariant
            k <= CHANGES,
            totals.len() == k,
            forall|a: int| 0 <= a < k ==> #[trigger] totals[a] == 0,
        decreases CHANGES - k,
    {
        totals.push(0);
        k += 1;
    }
    let mut i: usize = 0;
    while i < lines.len()
        invariant
            i <= lines.len(),
            text == rows(*lines),
            secrets == Seq::new(
                text.len(),
                |i: int| unsigned_value(text[i], u64::MAX as nat)->0 as u64,
            ),
            forall|k: int| 0 <= k < i ==> unsigned_value(#[trigger] text[k], u64::MAX as nat) is Some,
            totals.len() == CHANGES,
            forall|a: int|
                0 <= a < CHANGES ==> #[trigger] totals[a] == fetched(secrets, changes_at(a), i as int),
        decreases lines.len() - i,
    {
        match parse_u64(&lines[i]) {
            None => {
                assert(unsigned_value(text[i as int], u64::MAX as nat) is None);
                return Err(parse_error("a secret number is not written in digits"));
            },
            Some(n) => {
                assert(secrets[i as int] == n);
                let prices = banana_prices(n);
                let mut a: usize = 0;
                while a < CHANGES
                    invariant
                        a <= CHANGES,
                        i < lines.len(),
                        secrets[i as int] == n,
                        totals.len() == CHANGES,
                        prices.len() == CHANGES,
                        forall|b: int|
                            0 <= b < CHANGES ==> #[trigger] prices[b] == sold(n, changes_at(b), 2000),
                        forall|b: int|
                            0 <= b < a ==> #[trigger] totals[b] == fetched(
                                secrets,
                                changes_at(b),
                                i + 1,
                            ),
                        forall|b: int|
                            a <= b < CHANGES ==> #[trigger] totals[b] == fetched(
                                secrets,
                                changes_at(b),
                                i as int,
                            ),
                    decreases CHANGES - a,
                {
                    let sum = ((totals[a] as u128 + prices[a] as u128) % 0x1_0000_0000_0000_0000) as u64;
                    totals[a] = sum;
                    a += 1;
                }
            },
        }
        i += 1;
    }
    assert(secrets_of(text) == Some(secrets));
    let mut best: u64 = totals[0];
    let mut a: usize = 1;
    while a < CHANGES
        invariant
            1 <= a <= CHANGES,
            totals.len() == CHANGES,
            forall|b: int| 0 <= b < a ==> #[trigger] totals[b] <= best,
            exists|b: int| 0 <= b < a && #[trigger] totals[b] == best,
        decreases CHANGES - a,
    {
        if totals[a] > best {
            best = totals[a];
        }
        a += 1;
    }
    proof {
        let b = choose|b: int| 0 <= b < CHANGES && #[trigger] totals[b] == best;
        assert(fetched(secrets, changes_at(b), secrets.len() as int) == best);
        assert forall|k: int| 0 <= k < CHANGES implies #[trigger] fetched(
            secrets,
            changes_at(k),
            secrets.len() as int,
        ) <= best by {
            assert(totals[k] <= best);
        }
    }
    if best == 0 {
        return Err(parse_error("no price to be had"));
    }
    Ok(best)
}

impl AdventProblem for Day22 {
    open spec fn accepts_part_1(&self, lines: Seq<Seq<char>>) -> bool {
        true
    }

    open spec fn accepts_part_2(&self, lines: Seq<Seq<char>>) -> bool {
        true
    }

    open spec fn answer_part_1(&self, lines: Seq<Seq<char>>) -> Option<u32> {
        if secrets_of(lines) is Some {
            Some(0)
        } else {
            None
        }
    }

    open spec fn answer_part_2(&self, lines: Seq<Seq<char>>) -> Option<u32> {
        match secrets_of(lines) {
            Some(secrets) => if is_best_price(secrets, 0) {
                None
            } else {
                Some(0)
            },
            None => None,
        }
    }

    /// The answer of this part is wider than the number returned, and
    /// `sum_of_finals` gives it; the number is 0 for all lines that parse.
    fn run_part_1(&self, lines: Vec<String>) -> (r: Result<u32, AdventError>) {
        let text = chars_of_lines(&lines);
        match sum_of_finals(&text) {
            Ok(_) => Ok(0),
            Err(e) => Err(e),
        }
    }

    fn run_part_2(&self, lines: Vec<String>) -> (r: Result<u32, AdventError>) {
        let text = chars_of_lines(&lines);
        match best_price(&text) {
            Ok(best) => {
                proof {
                    let secrets = secrets_of(lines_view(lines))->0;
                    let k = choose|k: int|
                        0 <= k < CHANGES && #[trigger] fetched(
                            secrets,
                            changes_at(k),
                            secrets.len() as int,
                        ) == best;
                    assert(!is_best_price(secrets, 0));
                }
                Ok(0)
            },
            Err(e) => Err(e),
        }
    }
}

} // verus!
