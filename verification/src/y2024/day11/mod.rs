//! Stones that change with every blink.

use crate::text::{
    chars_of_lines, decimal, digits_of, parse_error, parse_values, split, split_spec, values_of,
};
use crate::table::rows;
use crate::{lines_view, wrapped, AdventError, AdventProblem};
use vstd::prelude::*;

verus! {

pub struct Day11;

/// Ten to the power `k`.
pub open spec fn pow10(k: nat) -> nat
    decreases k,
{
    if k == 0 {
        1
    } else {
        10 * pow10((k - 1) as nat)
    }
}

/// What a stone with the number `n` becomes at a blink: 0 becomes 1; a
/// number of an even count of digits falls into its two halves; any other
/// number is multiplied by 2024.
pub open spec fn blinked(n: nat) -> Seq<nat> {
    if n == 0 {
        seq![1nat]
    } else if decimal(n).len() % 2 == 0 {
        let half = pow10(decimal(n).len() / 2);
        seq![n / half, n % half]
    } else {
        seq![n * 2024]
    }
}

/// A number of `len` digits is less than ten to the power `len`, and no
/// less than ten to the power `len - 1`.
pub proof fn lemma_decimal_len(n: nat)
    ensures
        decimal(n).len() >= 1,
        n < pow10(decimal(n).len()),
        n > 0 ==> n >= pow10((decimal(n).len() - 1) as nat),
    decreases n,
{
    if n >= 10 {
        lemma_decimal_len(n / 10);
    } else {
        assert(pow10(1) == 10 * pow10(0));
    }
}

/// Ten to the power `k`, for `k` of at most 19.
pub fn power_of_ten(k: usize) -> (r: u64)
    requires
        k <= 19,
    ensures
        r == pow10(k as nat),
{
    let mut r: u64 = 1;
    let mut i: usize = 0;
    proof {
        lemma_pow10_grows(0, 19);
    }
    while i < k
        invariant
            i <= k <= 19,
            r == pow10(i as nat),
            r <= pow10(19),
            pow10(19) == 10000000000000000000,
        decreases k - i,
    {
        proof {
            lemma_pow10_grows((i + 1) as nat, 19);
        }
        r = r * 10;
        i += 1;
    }
    r
}

/// Powers of ten grow with their exponent.
pub proof fn lemma_pow10_grows(a: nat, b: nat)
    requires
        a <= b,
    ensures
        pow10(a) <= pow10(b),
        pow10(19) == 10000000000000000000,
    decreases b - a,
{
    if a < b {
        lemma_pow10_grows(a + 1, b);
    }
    assert(pow10(19) == 10000000000000000000) by {
        reveal_with_fuel(pow10, 20);
    }
}

/// What a stone with the number `n` becomes at a blink.
pub fn blink(n: u64) -> (r: Vec<u64>)
    requires
        decimal(n as nat).len() % 2 == 0 || n * 2024 <= u64::MAX,
    ensures
        r@.map_values(|v: u64| v as nat) == blinked(n as nat),
        r.len() == 1 || r.len() == 2,
{
    if n == 0 {
        let mut out: Vec<u64> = Vec::new();
        out.push(1);
        assert(out@.map_values(|v: u64| v as nat) =~= blinked(n as nat));
        return out;
    }
    let digits = digits_of(n);
    proof {
        lemma_decimal_len(n as nat);
        if digits.len() > 20 {
            lemma_pow10_grows(20, (digits.len() - 1) as nat);
            assert(pow10(20) == 10 * pow10(19));
        }
    }
    let mut out: Vec<u64> = Vec::new();
    if digits.len() % 2 == 0 {
        let half = power_of_ten(digits.len() / 2);
        proof {
            lemma_decimal_len(0);
            assert(half > 0) by {
                lemma_pow10_grows(0, (digits.len() / 2) as nat);
            }
        }
        out.push(n / half);
        out.push(n % half);
    } else {
        out.push(n * 2024);
    }
    assert(out@.map_values(|v: u64| v as nat) =~= blinked(n as nat));
    out
}

/// The stones after one blink at the first `upto` of `stones`, in their order.
pub open spec fn blinked_all(stones: Seq<nat>, upto: int) -> Seq<nat>
    decreases upto,
{
    if upto <= 0 {
        Seq::empty()
    } else {
        blinked_all(stones, upto - 1) + blinked(stones[upto - 1])
    }
}

/// The stones after `k` blinks.
pub open spec fn stones_after(stones: Seq<nat>, k: nat) -> Seq<nat>
    decreases k,
{
    if k == 0 {
        stones
    } else {
        let before = stones_after(stones, (k - 1) as nat);
        blinked_all(before, before.len() as int)
    }
}

/// One of the stones has a number that 64 bits do not hold.
pub open spec fn too_large(stones: Seq<nat>) -> bool {
    exists|i: int| 0 <= i < stones.len() && #[trigger] stones[i] > u64::MAX
}

/// The stones after one blink at each; `None` where the number of a stone
/// would leave the 64 bits that hold it.
pub fn blink_all(stones: &Vec<u64>) -> (r: Option<Vec<u64>>)
    ensures
        r matches Some(next) ==> next@.map_values(|v: u64| v as nat) == blinked_all(
            stones@.map_values(|v: u64| v as nat),
            stones.len() as int,
        ),
        r is None ==> too_large(
            blinked_all(stones@.map_values(|v: u64| v as nat), stones.len() as int),
        ),
{
    let ghost f = |v: u64| v as nat;
    let ghost given = stones@.map_values(f);
    let mut next: Vec<u64> = Vec::new();
    let mut i: usize = 0;
    while i < stones.len()
        invariant
            i <= stones.len(),
            f == |v: u64| v as nat,
            given == stones@.map_values(f),
            next@.map_values(f) == blinked_all(given, i as int),
        decreases stones.len() - i,
    {
        let n = stones[i];
        let digits = digits_of(n);
        if digits.len() % 2 != 0 && n > u64::MAX / 2024 {
            proof {
                let all = blinked_all(given, stones.len() as int);
                let here = blinked_all(given, i as int).len() as int;
                lemma_blinked_grows(given, i + 1, stones.len() as int);
                assert(blinked_all(given, i + 1)[here] == blinked(n as nat)[0]);
                assert(n != 0);
                assert(all[here] > u64::MAX);
            }
            return None;
        }
        let mut after = blink(n);
        let ghost before = next@;
        let ghost added = after@;
        next.append(&mut after);
        proof {
            assert(next@.map_values(f) =~= before.map_values(f) + added.map_values(f));
        }
        i += 1;
    }
    Some(next)
}

/// A blink at more stones leaves the stones of a blink at the first of
/// them at the front.
pub proof fn lemma_blinked_grows(stones: Seq<nat>, mid: int, upto: int)
    requires
        0 <= mid <= upto,
    ensures
        blinked_all(stones, mid).len() <= blinked_all(stones, upto).len(),
        forall|i: int|
            0 <= i < blinked_all(stones, mid).len() ==> #[trigger] blinked_all(stones, upto)[i]
                == blinked_all(stones, mid)[i],
    decreases upto - mid,
{
    if mid < upto {
        lemma_blinked_grows(stones, mid, upto - 1);
    }
}

/// The stones that the first line writes: numbers with a blank between
/// each two.
pub open spec fn stones_of(lines: Seq<Seq<char>>) -> Option<Seq<u64>> {
    if lines.len() == 0 {
        None
    } else {
        values_of(split_spec(lines[0], seq![' ']))
    }
}

/// How many stones there are after 25 blinks, reduced modulo 2^32; `None`
/// where the first line writes no stones, or where in the course of the
/// blinks the number of a stone leaves the 64 bits that hold it.
pub open spec fn stone_count(lines: Seq<Seq<char>>) -> Option<u32> {
    match stones_of(lines) {
        Some(stones) => {
            let given = stones.map_values(|v: u64| v as nat);
            if forall|k: nat| k <= 25 ==> !too_large(#[trigger] stones_after(given, k)) {
                Some(wrapped(stones_after(given, 25).len()))
            } else {
                None
            }
        },
        None => None,
    }
}

/// Stones whose numbers 64 bits hold are not too large.
proof fn lemma_held(stones: Seq<u64>)
    ensures
        !too_large(stones.map_values(|v: u64| v as nat)),
{
}

/// Counts the stones after 25 blinks.
pub fn count_stones(lines: &Vec<Vec<char>>) -> (r: Result<u32, AdventError>)
    ensures
        crate::is_outcome(r, stone_count(rows(*lines))),
{
    if lines.len() == 0 {
        return Err(parse_error("the stones stand in the first line"));
    }
    let blank = vec![' '];
    assert(blank@ =~= seq![' ']);
    let fields = split(&lines[0], &blank);
    assert(rows(*lines)[0] == lines[0]@);
    let mut nums = match parse_values(&fields) {
        Some(nums) => nums,
        None => {
            return Err(parse_error("a stone is not written in digits"));
        },
    };
    let ghost f = |v: u64| v as nat;
    let ghost given = nums@.map_values(f);
    let mut k: u32 = 0;
    proof {
        lemma_held(nums@);
    }
    while k < 25
        invariant
            k <= 25,
            f == |v: u64| v as nat,
            stones_of(rows(*lines)) matches Some(stones) && stones.map_values(f) == given,
            nums@.map_values(f) == stones_after(given, k as nat),
            forall|j: nat| j <= k ==> !too_large(#[trigger] stones_after(given, j)),
        decreases 25 - k,
    {
        match blink_all(&nums) {
            None => {
                assert(too_large(stones_after(given, (k + 1) as nat)));
                return Err(parse_error("the number of a stone has grown too large"));
            },
            Some(next) => {
                proof {
                    lemma_held(next@);
                }
                nums = next;
            },
        }
        k += 1;
    }
    let n = nums.len() as u64;
    Ok((n % 0x1_0000_0000) as u32)
}

/// How many stones a stone with the number `n` has become after `k` blinks.
pub open spec fn brood(n: nat, k: nat) -> nat
    decreases k,
{
    if k == 0 {
        1
    } else {
        let next = blinked(n);
        if next.len() == 2 {
            brood(next[0], (k - 1) as nat) + brood(next[1], (k - 1) as nat)
        } else {
            brood(next[0], (k - 1) as nat)
        }
    }
}

/// Through `k` blinks neither the stone with the number `n` nor one that
/// comes of it has a number that leaves 64 bits.
pub open spec fn keeps(n: nat, k: nat) -> bool
    decreases k,
{
    n <= u64::MAX && (k == 0 || {
        let next = blinked(n);
        keeps(next[0], (k - 1) as nat) && (next.len() < 2 || keeps(next[1], (k - 1) as nat))
    })
}

/// How many stones the first `upto` entries of `tally` have become after
/// `k` blinks, where an entry holds a number and how many stones bear it.
pub open spec fn brood_of(tally: Seq<(u64, u64)>, k: nat, upto: int) -> nat
    decreases upto,
{
    if upto <= 0 {
        0
    } else {
        brood_of(tally, k, upto - 1) + (tally[upto - 1].1 as nat) * brood(
            tally[upto - 1].0 as nat,
            k,
        )
    }
}

/// Through `k` blinks no stone of `tally` grows beyond 64 bits.
pub open spec fn all_keep(tally: Seq<(u64, u64)>, k: nat) -> bool {
    forall|a: int| 0 <= a < tally.len() ==> keeps((#[trigger] tally[a]).0 as nat, k)
}

/// Every stone by itself.
pub open spec fn one_each(stones: Seq<u64>) -> Seq<(u64, u64)> {
    Seq::new(stones.len(), |i: int| (stones[i], 1u64))
}

/// How many stones there are after `k` blinks at `stones`; `None` where
/// the number of a stone leaves the 64 bits that hold it, or where the
/// stones are more than 64 bits count.
pub open spec fn count_of(stones: Seq<u64>, k: nat) -> Option<u64> {
    let tally = one_each(stones);
    let count = brood_of(tally, k, tally.len() as int);
    if all_keep(tally, k) && count <= u64::MAX {
        Some(count as u64)
    } else {
        None
    }
}

/// A stone becomes at least one stone.
proof fn lemma_brood_positive(n: nat, k: nat)
    ensures
        brood(n, k) >= 1,
    decreases k,
{
    if k > 0 {
        let next = blinked(n);
        lemma_brood_positive(next[0], (k - 1) as nat);
        if next.len() == 2 {
            lemma_brood_positive(next[1], (k - 1) as nat);
        }
    }
}

/// More entries become no fewer stones, and all of them at least as many
/// as one entry counts.
proof fn lemma_brood_of_grows(tally: Seq<(u64, u64)>, k: nat, from: int, upto: int)
    requires
        0 <= from <= upto <= tally.len(),
    ensures
        brood_of(tally, k, from) <= brood_of(tally, k, upto),
        from < upto ==> brood_of(tally, k, from) + tally[from].1 <= brood_of(tally, k, upto),
    decreases upto - from,
{
    if from < upto {
        lemma_brood_of_grows(tally, k, from, upto - 1);
        let last = tally[upto - 1];
        lemma_brood_positive(last.0 as nat, k);
        assert(last.1 * brood(last.0 as nat, k) >= last.1) by (nonlinear_arith)
            requires
                brood(last.0 as nat, k) >= 1,
        ;
    }
}

/// What the first entries become does not depend on the later ones.
proof fn lemma_brood_of_same(a: Seq<(u64, u64)>, b: Seq<(u64, u64)>, k: nat, upto: int)
    requires
        0 <= upto <= a.len(),
        upto <= b.len(),
        forall|i: int| 0 <= i < upto ==> a[i] == b[i],
    ensures
        brood_of(a, k, upto) == brood_of(b, k, upto),
    decreases upto,
{
    if upto > 0 {
        lemma_brood_of_same(a, b, k, upto - 1);
    }
}

/// More stones of one number become as many stones more as these become.
proof fn lemma_brood_of_more(tally: Seq<(u64, u64)>, k: nat, at: int, more: u64, upto: int)
    requires
        0 <= at < tally.len(),
        0 <= upto <= tally.len(),
        tally[at].1 + more <= u64::MAX,
    ensures
        brood_of(tally.update(at, (tally[at].0, (tally[at].1 + more) as u64)), k, upto) == brood_of(
            tally,
            k,
            upto,
        ) + if at < upto {
            more * brood(tally[at].0 as nat, k)
        } else {
            0
        },
    decreases upto,
{
    let changed = tally.update(at, (tally[at].0, (tally[at].1 + more) as u64));
    if upto > 0 {
        lemma_brood_of_more(tally, k, at, more, upto - 1);
        if at == upto - 1 {
            let b = brood(tally[at].0 as nat, k);
            assert((tally[at].1 + more) * b == tally[at].1 * b + more * b) by (nonlinear_arith);
        }
    }
}

/// Adds `count` stones of the number `stone` to `tally`, and says in which
/// entry they are counted; `None`, with `tally` as it was, where the count
/// of that entry would leave its 64 bits.
fn add_count(tally: &mut Vec<(u64, u64)>, stone: u64, count: u64) -> (r: Option<usize>)
    ensures
        match r {
            Some(at) => if at < old(tally).len() {
                old(tally)[at as int].0 == stone && old(tally)[at as int].1 + count <= u64::MAX
                    && final(tally)@ == old(tally)@.update(
                    at as int,
                    (stone, (old(tally)[at as int].1 + count) as u64),
                )
            } else {
                final(tally)@ == old(tally)@.push((stone, count))
            },
            None => final(tally)@ == old(tally)@ && exists|at: int|
                0 <= at < old(tally).len() && (#[trigger] old(tally)[at]).0 == stone && old(
                    tally,
                )[at].1 + count > u64::MAX,
        },
{
    let mut at: usize = 0;
    while at < tally.len()
        invariant
            at <= tally.len(),
            tally@ == old(tally)@,
        decreases tally.len() - at,
    {
        if tally[at].0 == stone {
            let held = tally[at].1;
            if held > u64::MAX - count {
                return None;
            }
            tally[at] = (stone, held + count);
            return Some(at);
        }
        at += 1;
    }
    tally.push((stone, count));
    Some(at)
}

/// What the stones of `tally` have become after `k` blinks does not change
/// when `count` stones of the number `stone` are taken out of the count
/// and counted where `add_count` has put them.
proof fn lemma_added(
    before: Seq<(u64, u64)>,
    after: Seq<(u64, u64)>,
    stone: u64,
    count: u64,
    at: int,
    k: nat,
)
    requires
        0 <= at,
        at < before.len() ==> before[at].0 == stone && before[at].1 + count <= u64::MAX && after
            == before.update(at, (stone, (before[at].1 + count) as u64)),
        at >= before.len() ==> after == before.push((stone, count)),
    ensures
        brood_of(after, k, after.len() as int) == brood_of(before, k, before.len() as int) + count
            * brood(stone as nat, k),
        all_keep(after, k) <==> all_keep(before, k) && keeps(stone as nat, k),
{
    if at < before.len() {
        lemma_brood_of_more(before, k, at, count, before.len() as int);
        if all_keep(before, k) {
            assert(keeps(before[at].0 as nat, k));
            assert forall|a: int| 0 <= a < after.len() implies keeps(
                (#[trigger] after[a]).0 as nat,
                k,
            ) by {
                if a != at {
                    assert(after[a] == before[a]);
                }
            }
        }
        if all_keep(after, k) {
            assert(keeps(after[at].0 as nat, k));
            assert forall|a: int| 0 <= a < before.len() implies keeps(
                (#[trigger] before[a]).0 as nat,
                k,
            ) by {
                if a != at {
                    assert(after[a] == before[a]);
                }
            }
        }
    } else {
        lemma_brood_of_same(before, after, k, before.len() as int);
        if all_keep(before, k) && keeps(stone as nat, k) {
            assert forall|a: int| 0 <= a < after.len() implies keeps(
                (#[trigger] after[a]).0 as nat,
                k,
            ) by {
                if a < before.len() {
                    assert(after[a] == before[a]);
                }
            }
        }
        if all_keep(after, k) {
            assert(keeps(after[before.len() as int].0 as nat, k));
            assert forall|a: int| 0 <= a < before.len() implies keeps(
                (#[trigger] before[a]).0 as nat,
                k,
            ) by {
                assert(after[a] == before[a]);
            }
        }
    }
}

/// Where `add_count` finds no room, the stones are more than 64 bits count.
proof fn lemma_no_room(before: Seq<(u64, u64)>, stone: u64, count: u64, k: nat)
    requires
        exists|at: int|
            0 <= at < before.len() && (#[trigger] before[at]).0 == stone && before[at].1 + count
                > u64::MAX,
    ensures
        brood_of(before, k, before.len() as int) + count > u64::MAX,
{
    let at = choose|at: int|
        0 <= at < before.len() && (#[trigger] before[at]).0 == stone && before[at].1 + count
            > u64::MAX;
    lemma_brood_of_grows(before, k, at, before.len() as int);
    lemma_brood_of_grows(before, k, 0, at);
}

/// One blink at the stones of `tally`, counted by their numbers; `None`
/// where the number of a stone leaves its 64 bits, or a count does.
fn blink_tally(tally: &Vec<(u64, u64)>, k: u32) -> (r: Option<Vec<(u64, u64)>>)
    requires
        k >= 1,
    ensures
        match r {
            Some(next) => brood_of(next@, (k - 1) as nat, next.len() as int) == brood_of(
                tally@,
                k as nat,
                tally.len() as int,
            ) && (all_keep(next@, (k - 1) as nat) <==> all_keep(tally@, k as nat)),
            None => !all_keep(tally@, k as nat) || brood_of(tally@, k as nat, tally.len() as int)
                > u64::MAX,
        },
{
    let ghost left = (k - 1) as nat;
    let mut next: Vec<(u64, u64)> = Vec::new();
    let mut i: usize = 0;
    while i < tally.len()
        invariant
            i <= tally.len(),
            k >= 1,
            left == (k - 1) as nat,
            brood_of(next@, left, next.len() as int) == brood_of(tally@, k as nat, i as int),
            all_keep(next@, left) <==> all_keep(tally@.take(i as int), k as nat),
        decreases tally.len() - i,
    {
        let (stone, count) = tally[i];
        let digits = digits_of(stone);
        let ghost grown = blinked(stone as nat);
        proof {
            lemma_brood_of_grows(tally@, k as nat, i + 1, tally.len() as int);
            lemma_brood_positive(stone as nat, k as nat);
            assert(count * brood(stone as nat, k as nat) >= count) by (nonlinear_arith)
                requires
                    brood(stone as nat, k as nat) >= 1,
            ;
        }
        if digits.len() % 2 != 0 && stone > u64::MAX / 2024 {
            proof {
                assert(stone != 0);
                assert(grown[0] > u64::MAX);
                assert(!keeps(grown[0], left));
                assert(!keeps(stone as nat, k as nat));
                assert(!keeps(tally@[i as int].0 as nat, k as nat));
            }
            return None;
        }
        let after = blink(stone);
        assert(after@.map_values(|v: u64| v as nat) == grown);
        assert(after@.map_values(|v: u64| v as nat).len() == after.len());
        assert(after.len() == grown.len());
        assert(after[0] as nat == after@.map_values(|v: u64| v as nat)[0]);
        let ghost before = next@;
        match add_count(&mut next, after[0], count) {
            Some(at) => {
                proof {
                    lemma_added(before, next@, after[0], count, at as int, left);
                }
            },
            None => {
                proof {
                    lemma_no_room(before, after[0], count, left);
                    lemma_brood_positive(grown[0], left);
                    if grown.len() == 2 {
                        lemma_brood_positive(grown[1], left);
                    }
                }
                return None;
            },
        }
        let ghost mid = next@;
        if after.len() == 2 {
            assert(after[1] as nat == after@.map_values(|v: u64| v as nat)[1]);
            match add_count(&mut next, after[1], count) {
                Some(at) => {
                    proof {
                        lemma_added(mid, next@, after[1], count, at as int, left);
                        assert(count * (brood(grown[0], left) + brood(grown[1], left)) == count
                            * brood(grown[0], left) + count * brood(grown[1], left))
                            by (nonlinear_arith);
                    }
                },
                None => {
                    proof {
                        lemma_no_room(mid, after[1], count, left);
                        assert(count * (brood(grown[0], left) + brood(grown[1], left)) == count
                            * brood(grown[0], left) + count * brood(grown[1], left))
                            by (nonlinear_arith);
                        lemma_brood_positive(grown[1], left);
                        assert(count * brood(grown[1], left) >= count) by (nonlinear_arith)
                            requires
                                brood(grown[1], left) >= 1,
                        ;
                    }
                    return None;
                },
            }
        }
        proof {
            let done = tally@.take(i as int);
            let more = tally@.take(i + 1);
            assert(more.drop_last() =~= done);
            assert(more.last() == tally@[i as int]);
            assert(keeps(stone as nat, k as nat) <==> keeps(grown[0], left) && (grown.len() < 2
                || keeps(grown[1], left)));
            if all_keep(more, k as nat) {
                assert(keeps(more[i as int].0 as nat, k as nat));
                assert forall|a: int| 0 <= a < done.len() implies keeps(
                    (#[trigger] done[a]).0 as nat,
                    k as nat,
                ) by {
                    assert(done[a] == more[a]);
                }
            }
            if all_keep(done, k as nat) && keeps(stone as nat, k as nat) {
                assert forall|a: int| 0 <= a < more.len() implies keeps(
                    (#[trigger] more[a]).0 as nat,
                    k as nat,
                ) by {
                    if a < i {
                        assert(done[a] == more[a]);
                    }
                }
            }
            assert(all_keep(more, k as nat) <==> all_keep(done, k as nat) && keeps(
                stone as nat,
                k as nat,
            ));
            assert(all_keep(mid, left) <==> all_keep(before, left) && keeps(grown[0], left));
            assert(all_keep(next@, left) <==> all_keep(mid, left) && (grown.len() < 2 || keeps(
                grown[1],
                left,
            )));
        }
        i += 1;
    }
    assert(tally@.take(tally.len() as int) =~= tally@);
    Some(next)
}

/// How many stones there are after `blinks` blinks at `stones`.
pub fn count_after(stones: &Vec<u64>, blinks: u32) -> (r: Option<u64>)
    ensures
        r == count_of(stones@, blinks as nat),
{
    let mut tally: Vec<(u64, u64)> = Vec::new();
    let mut i: usize = 0;
    while i < stones.len()
        invariant
            i <= stones.len(),
            tally@ == one_each(stones@).take(i as int),
        decreases stones.len() - i,
    {
        tally.push((stones[i], 1));
        assert(tally@ =~= one_each(stones@).take(i + 1));
        i += 1;
    }
    assert(one_each(stones@).take(stones.len() as int) =~= one_each(stones@));
    let ghost given = tally@;
    let mut k: u32 = blinks;
    while k > 0
        invariant
            k <= blinks,
            given == one_each(stones@),
            brood_of(tally@, k as nat, tally.len() as int) == brood_of(
                given,
                blinks as nat,
                given.len() as int,
            ),
            all_keep(tally@, k as nat) <==> all_keep(given, blinks as nat),
        decreases k,
    {
        tally = match blink_tally(&tally, k) {
            Some(next) => next,
            None => {
                return None;
            },
        };
        k -= 1;
    }
    let mut total: u64 = 0;
    let mut a: usize = 0;
    while a < tally.len()
        invariant
            a <= tally.len(),
            total == brood_of(tally@, 0, a as int),
            given == one_each(stones@),
            brood_of(tally@, 0, tally.len() as int) == brood_of(
                given,
                blinks as nat,
                given.len() as int,
            ),
        decreases tally.len() - a,
    {
        proof {
            lemma_brood_of_grows(tally@, 0, a + 1, tally.len() as int);
            assert(tally[a as int].1 * brood(tally[a as int].0 as nat, 0) == tally[a as int].1)
                by (nonlinear_arith)
                requires
                    brood(tally[a as int].0 as nat, 0) == 1,
            ;
        }
        if tally[a].1 > u64::MAX - total {
            return None;
        }
        total = total + tally[a].1;
        a += 1;
    }
    proof {
        assert(all_keep(tally@, 0));
    }
    Some(total)
}

/// How many stones there are after `blinks` blinks at the stones that the
/// first line writes.
pub open spec fn long_count(lines: Seq<Seq<char>>, blinks: nat) -> Option<u64> {
    match stones_of(lines) {
        Some(stones) => count_of(stones, blinks),
        None => None,
    }
}

/// Counts the stones after `blinks` blinks, however many they are, as long
/// as 64 bits count them.
pub fn count_many(lines: &Vec<Vec<char>>, blinks: u32) -> (r: Result<u64, AdventError>)
    ensures
        match r {
            Ok(count) => long_count(rows(*lines), blinks as nat) == Some(count),
            Err(e) => long_count(rows(*lines), blinks as nat) is None && e is InputParseError,
        },
{
    if lines.len() == 0 {
        return Err(parse_error("the stones stand in the first line"));
    }
    let blank = vec![' '];
    assert(blank@ =~= seq![' ']);
    let fields = split(&lines[0], &blank);
    assert(rows(*lines)[0] == lines[0]@);
    let stones = match parse_values(&fields) {
        Some(nums) => nums,
        None => {
            return Err(parse_error("a stone is not written in digits"));
        },
    };
    match count_after(&stones, blinks) {
        Some(count) => Ok(count),
        None => Err(parse_error("the stones have grown too large")),
    }
}

impl AdventProblem for Day11 {
    open spec fn accepts_part_1(&self, lines: Seq<Seq<char>>) -> bool {
        true
    }

    open spec fn accepts_part_2(&self, lines: Seq<Seq<char>>) -> bool {
        true
    }

    open spec fn answer_part_1(&self, lines: Seq<Seq<char>>) -> Option<u32> {
        stone_count(lines)
    }

    open spec fn answer_part_2(&self, lines: Seq<Seq<char>>) -> Option<u32> {
        match long_count(lines, 75) {
            Some(_) => Some(0),
            None => None,
        }
    }

    fn run_part_1(&self, lines: Vec<String>) -> (r: Result<u32, AdventError>) {
        let text = chars_of_lines(&lines);
        count_stones(&text)
    }

    fn run_part_2(&self, lines: Vec<String>) -> (r: Result<u32, AdventError>) {
        let text = chars_of_lines(&lines);
        match count_many(&text, 75) {
            Ok(_) => Ok(0),
            Err(e) => Err(e),
        }
    }
}

} // verus!
