//! Claw machines with two buttons and a prize.

use crate::pattern::{captures, groups_view, regex_captures, regex_compiles};
use crate::text::{chars_of, parse_error, parse_u64, unsigned_value};
use crate::{lines_view, AdventError, AdventProblem};
use vstd::arithmetic::div_mod::{lemma_fundamental_div_mod, lemma_fundamental_div_mod_converse};
use vstd::prelude::*;

verus! {

pub struct Day13;

/// A claw machine: how far each button moves the claw along the two axes,
/// and where the prize lies.
pub struct Game {
    pub button_a: (u64, u64),
    pub button_b: (u64, u64),
    pub prize: (u64, u64),
}

/// `x` pushes of the first button and `y` of the second bring the claw to
/// the prize.
pub open spec fn wins(game: Game, x: int, y: int) -> bool {
    &&& game.button_a.0 * x + game.button_b.0 * y == game.prize.0
    &&& game.button_a.1 * x + game.button_b.1 * y == game.prize.1
}

/// The determinant of the two buttons: where it is not 0, at most one pair
/// of numbers of pushes wins.
pub open spec fn determinant(game: Game) -> int {
    game.button_a.0 * game.button_b.1 - game.button_b.0 * game.button_a.1
}

/// Cramer's rule: pushes that bring the claw to the prize, times the
/// determinant of the buttons, are the determinants with the prize in place
/// of a button.
pub proof fn lemma_cramer(a: int, b: int, c: int, d: int, x: int, y: int, p: int, q: int)
    requires
        a * x + b * y == p,
        c * x + d * y == q,
    ensures
        x * (a * d - b * c) == d * p - b * q,
        y * (a * d - b * c) == a * q - c * p,
{
    assert(d * (a * x + b * y) == d * (a * x) + d * (b * y)) by (nonlinear_arith);
    assert(b * (c * x + d * y) == b * (c * x) + b * (d * y)) by (nonlinear_arith);
    assert(d * (b * y) == b * (d * y)) by (nonlinear_arith);
    assert(d * (a * x) == x * (a * d)) by (nonlinear_arith);
    assert(b * (c * x) == x * (b * c)) by (nonlinear_arith);
    assert(x * (a * d - b * c) == x * (a * d) - x * (b * c)) by (nonlinear_arith);
    assert(a * (c * x + d * y) == a * (c * x) + a * (d * y)) by (nonlinear_arith);
    assert(c * (a * x + b * y) == c * (a * x) + c * (b * y)) by (nonlinear_arith);
    assert(a * (c * x) == c * (a * x)) by (nonlinear_arith);
    assert(a * (d * y) == y * (a * d)) by (nonlinear_arith);
    assert(c * (b * y) == y * (b * c)) by (nonlinear_arith);
    assert(y * (a * d - b * c) == y * (a * d) - y * (b * c)) by (nonlinear_arith);
}

/// A number that has the same product with a number other than 0 as
/// another is that other.
pub proof fn lemma_cancel(x: int, u: int, f: int)
    requires
        f != 0,
        x * f == u * f,
    ensures
        x == u,
{
    assert((x - u) * f == x * f - u * f) by (nonlinear_arith);
    assert(x - u == 0) by (nonlinear_arith)
        requires
            f != 0,
            (x - u) * f == 0,
    ;
}

/// The quotient of `a` by `b` if `b` divides `a`, for wide numbers.
fn exact_quotient(a: i128, b: i128) -> (r: Option<i128>)
    requires
        b != 0,
        a > i128::MIN,
        b > i128::MIN,
    ensures
        match r {
            Some(q) => q * b == a,
            None => forall|q: int| #[trigger] (q * b) != a,
        },
{
    let ua: u128 = if a < 0 { (-a) as u128 } else { a as u128 };
    let ub: u128 = if b < 0 { (-b) as u128 } else { b as u128 };
    let q = ua / ub;
    let m = ua % ub;
    proof {
        lemma_fundamental_div_mod(ua as int, ub as int);
    }
    if m != 0 {
        proof {
            assert forall|t: int| #[trigger] (t * b) != a by {
                if t * b == a {
                    let s: int = if (a < 0) == (b < 0) { t } else { -t };
                    assert(s * ub == ua) by (nonlinear_arith)
                        requires
                            t * b == a,
                            ua == if a < 0 { -a } else { a as int },
                            ub == if b < 0 { -b } else { b as int },
                            s == if (a < 0) == (b < 0) { t } else { -t },
                    ;
                    lemma_fundamental_div_mod_converse(ua as int, ub as int, s, 0);
                }
            }
        }
        return None;
    }
    let signed = if (a < 0) == (b < 0) { q as i128 } else { -(q as i128) };
    proof {
        assert(signed * b == a) by (nonlinear_arith)
            requires
                ua == ub * q,
                ua == if a < 0 { -a } else { a as int },
                ub == if b < 0 { -b } else { b as int },
                signed == if (a < 0) == (b < 0) { q as int } else { -(q as int) },
        ;
    }
    Some(signed)
}

impl Game {
    /// The numbers of pushes of the two buttons that bring the claw to the
    /// prize, where the buttons do not pull the same way and all numbers
    /// of the machine are below 2^62: the one pair that wins, if there is
    /// one of whole numbers.
    pub fn solve(&self) -> (r: Option<(i64, i64)>)
        requires
            determinant(*self) != 0,
            self.button_a.0 < 0x4000_0000_0000_0000,
            self.button_a.1 < 0x4000_0000_0000_0000,
            self.button_b.0 < 0x4000_0000_0000_0000,
            self.button_b.1 < 0x4000_0000_0000_0000,
            self.prize.0 < 0x4000_0000_0000_0000,
            self.prize.1 < 0x4000_0000_0000_0000,
        ensures
            match r {
                Some((x, y)) => wins(*self, x as int, y as int),
                None => forall|x: int, y: int| !#[trigger] wins(*self, x, y) || x < i64::MIN || x
                    > i64::MAX || y < i64::MIN || y > i64::MAX,
            },
    {
        let (a, b, c, d) = (
            self.button_a.0 as i128,
            self.button_b.0 as i128,
            self.button_a.1 as i128,
            self.button_b.1 as i128,
        );
        let (p_a, p_b) = (self.prize.0 as i128, self.prize.1 as i128);
        let bound: i128 = 0x4000_0000_0000_0000;
        assert(-bound * bound <= a * d <= bound * bound && -bound * bound <= b * c <= bound * bound
            && -bound * bound <= d * p_a <= bound * bound && -bound * bound <= b * p_b <= bound
            * bound && -bound * bound <= c * p_a <= bound * bound && -bound * bound <= a * p_b
            <= bound * bound) by (nonlinear_arith)
            requires
                0 <= a < bound,
                0 <= b < bound,
                0 <= c < bound,
                0 <= d < bound,
                0 <= p_a < bound,
                0 <= p_b < bound,
        ;
        let factor = a * d - b * c;
        let top_a = d * p_a - b * p_b;
        let top_b = a * p_b - c * p_a;
        proof {
            // Cramer's rule: every pair that wins has these two products.
            assert forall|x: int, y: int| #[trigger] wins(*self, x, y) implies x * factor == top_a
                && y * factor == top_b by {
                lemma_cramer(a as int, b as int, c as int, d as int, x, y, p_a as int, p_b as int);
            }
        }
        match (exact_quotient(top_a, factor), exact_quotient(top_b, factor)) {
            (Some(s_a), Some(s_b)) => {
                proof {
                    assert(a * top_a + b * top_b == factor * p_a) by (nonlinear_arith)
                        requires
                            factor == a * d - b * c,
                            top_a == d * p_a - b * p_b,
                            top_b == a * p_b - c * p_a,
                    ;
                    assert(c * top_a + d * top_b == factor * p_b) by (nonlinear_arith)
                        requires
                            factor == a * d - b * c,
                            top_a == d * p_a - b * p_b,
                            top_b == a * p_b - c * p_a,
                    ;
                    assert(factor * (a * s_a + b * s_b) == a * (s_a * factor) + b * (s_b * factor))
                        by (nonlinear_arith);
                    assert(factor * (c * s_a + d * s_b) == c * (s_a * factor) + d * (s_b * factor))
                        by (nonlinear_arith);
                    assert(factor * (a * s_a + b * s_b) == factor * p_a && factor * (c * s_a + d
                        * s_b) == factor * p_b);
                    assert((a * s_a + b * s_b) * factor == factor * (a * s_a + b * s_b))
                        by (nonlinear_arith);
                    assert((c * s_a + d * s_b) * factor == factor * (c * s_a + d * s_b))
                        by (nonlinear_arith);
                    assert(p_a * factor == factor * p_a) by (nonlinear_arith);
                    assert(p_b * factor == factor * p_b) by (nonlinear_arith);
                    lemma_cancel((a * s_a + b * s_b) as int, p_a as int, factor as int);
                    lemma_cancel((c * s_a + d * s_b) as int, p_b as int, factor as int);
                    assert forall|x: int, y: int| #[trigger] wins(*self, x, y) implies x == s_a
                        && y == s_b by {
                        lemma_cancel(x, s_a as int, factor as int);
                        lemma_cancel(y, s_b as int, factor as int);
                    }
                }
                if s_a < i64::MIN as i128 || s_a > i64::MAX as i128 || s_b < i64::MIN as i128
                    || s_b > i64::MAX as i128 {
                    None
                } else {
                    Some((s_a as i64, s_b as i64))
                }
            },
            _ => None,
        }
    }
}

/// The pattern of the line of the first button.
pub open spec fn button_a_pattern() -> Seq<char> {
    "Button A: X\\+(\\d+), Y\\+(\\d+)"@
}

/// The pattern of the line of the second button.
pub open spec fn button_b_pattern() -> Seq<char> {
    "Button B: X\\+(\\d+), Y\\+(\\d+)"@
}

/// The pattern of the line of the prize.
pub open spec fn prize_pattern() -> Seq<char> {
    "Prize: X=(\\d+), Y=(\\d+)"@
}

/// The number that the group `i` of `groups` writes.
pub open spec fn group_value(groups: Seq<Option<Seq<char>>>, i: int) -> Option<u64> {
    if 0 <= i < groups.len() {
        match groups[i] {
            Some(text) => match unsigned_value(text, u64::MAX as nat) {
                Some(v) => Some(v as u64),
                None => None,
            },
            None => None,
        }
    } else {
        None
    }
}

/// The two numbers that the groups 1 and 2 of a match write.
pub open spec fn pair_in(groups: Seq<Option<Seq<char>>>) -> Option<(u64, u64)> {
    match (group_value(groups, 1), group_value(groups, 2)) {
        (Some(x), Some(y)) => Some((x, y)),
        _ => None,
    }
}

/// The number that the group `i` of `groups` writes.
fn value_of_group(groups: &Vec<Option<String>>, i: usize) -> (r: Option<u64>)
    ensures
        r == group_value(groups_view(Some(*groups))->0, i as int),
{
    if i >= groups.len() {
        return None;
    }
    match &groups[i] {
        Some(text) => parse_u64(&chars_of(text.as_str())),
        None => None,
    }
}

/// The two numbers that the groups 1 and 2 of a match write; `None` where
/// one of the groups is missing or writes no number.
pub fn pair_from(groups: &Vec<Option<String>>) -> (r: Option<(u64, u64)>)
    ensures
        r == pair_in(groups_view(Some(*groups))->0),
{
    match (value_of_group(groups, 1), value_of_group(groups, 2)) {
        (Some(x), Some(y)) => Some((x, y)),
        _ => None,
    }
}

/// The two numbers that `pattern` finds in `line`.
pub open spec fn pair_of(pattern: Seq<char>, line: Seq<char>) -> Option<(u64, u64)> {
    if regex_compiles(pattern) {
        match regex_captures(pattern, line) {
            Some(groups) => pair_in(groups),
            None => None,
        }
    } else {
        None
    }
}

/// The two numbers that `pattern` finds in `line`.
pub fn parse_pair(pattern: &str, line: &str) -> (r: Option<(u64, u64)>)
    ensures
        r == pair_of(pattern@, line@),
{
    match captures(pattern, line) {
        Ok(Some(groups)) => pair_from(&groups),
        _ => None,
    }
}

/// The machine that the three lines from `i` on describe, with `offset`
/// added to both numbers of its prize: `None` where a line is missing or
/// does not look as it should, or where the prize lies too far for a
/// 64-bit number.
pub open spec fn game_at(lines: Seq<Seq<char>>, i: int, offset: u64) -> Option<Game> {
    if i < 0 || i + 2 >= lines.len() {
        None
    } else {
        match (
            pair_of(button_a_pattern(), lines[i]),
            pair_of(button_b_pattern(), lines[i + 1]),
            pair_of(prize_pattern(), lines[i + 2]),
        ) {
            (Some(a), Some(b), Some(p)) => if p.0 + offset <= u64::MAX && p.1 + offset <= u64::MAX {
                Some(
                    Game {
                        button_a: a,
                        button_b: b,
                        prize: ((p.0 + offset) as u64, (p.1 + offset) as u64),
                    },
                )
            } else {
                None
            },
            _ => None,
        }
    }
}

/// The machine that the three lines from `i` on describe.
pub fn parse_game(lines: &Vec<String>, i: usize, offset: u64) -> (r: Option<Game>)
    ensures
        r == game_at(lines_view(*lines), i as int, offset),
{
    if lines.len() < 3 || i >= lines.len() - 2 {
        return None;
    }
    match (
        parse_pair("Button A: X\\+(\\d+), Y\\+(\\d+)", lines[i].as_str()),
        parse_pair("Button B: X\\+(\\d+), Y\\+(\\d+)", lines[i + 1].as_str()),
        parse_pair("Prize: X=(\\d+), Y=(\\d+)", lines[i + 2].as_str()),
    ) {
        (Some(a), Some(b), Some(p)) => match (p.0.checked_add(offset), p.1.checked_add(offset)) {
            (Some(x), Some(y)) => Some(Game { button_a: a, button_b: b, prize: (x, y) }),
            _ => None,
        },
        _ => None,
    }
}

/// The machines that the lines describe, four lines for each, up to the
/// machine `upto`; `None` where one of them is not described as it should be.
pub open spec fn games_upto(lines: Seq<Seq<char>>, offset: u64, upto: int) -> Option<Seq<Game>>
    decreases upto,
{
    if upto <= 0 {
        Some(Seq::empty())
    } else {
        match (games_upto(lines, offset, upto - 1), game_at(lines, 4 * (upto - 1), offset)) {
            (Some(games), Some(game)) => Some(games.push(game)),
            _ => None,
        }
    }
}

/// The number of machines that `n` lines describe: one for every four
/// lines, and one for what is left.
pub open spec fn games_in(n: int) -> int {
    (n + 3) / 4
}

/// Reads the machines, four lines for each: the two buttons, the prize,
/// and an empty line.
pub fn parse_lines(lines: &Vec<String>, offset: u64) -> (r: Option<Vec<Game>>)
    ensures
        match r {
            Some(games) => games_upto(lines_view(*lines), offset, games_in(lines.len() as int))
                == Some(games@),
            None => games_upto(lines_view(*lines), offset, games_in(lines.len() as int)) is None,
        },
{
    let n = lines.len();
    let mut games: Vec<Game> = Vec::new();
    let mut i: usize = 0;
    let ghost mut k: int = 0;
    while i < n
        invariant
            n == lines.len(),
            i <= n,
            i < n ==> i == 4 * k,
            i == n ==> k == games_in(n as int),
            0 <= k <= games_in(n as int),
            games_upto(lines_view(*lines), offset, k) == Some(games@),
        decreases n - i,
    {
        match parse_game(lines, i, offset) {
            Some(game) => {
                games.push(game);
            },
            None => {
                proof {
                    lemma_games_stay_none(
                        lines_view(*lines),
                        offset,
                        k + 1,
                        games_in(n as int),
                    );
                }
                return None;
            },
        }
        proof {
            k = k + 1;
        }
        i = if n - i <= 4 {
            n
        } else {
            i + 4
        };
    }
    Some(games)
}

/// Once a machine is not described as it should be, no list of machines
/// is left.
proof fn lemma_games_stay_none(lines: Seq<Seq<char>>, offset: u64, at: int, upto: int)
    requires
        at <= upto,
        games_upto(lines, offset, at) is None,
    ensures
        games_upto(lines, offset, upto) is None,
    decreases upto - at,
{
    if at < upto {
        lemma_games_stay_none(lines, offset, at, upto - 1);
    }
}

/// The machine can be solved: its buttons do not pull the same way, and
/// all its numbers are below 2^62.
pub open spec fn solvable(game: Game) -> bool {
    &&& determinant(game) != 0
    &&& game.button_a.0 < 0x4000_0000_0000_0000
    &&& game.button_a.1 < 0x4000_0000_0000_0000
    &&& game.button_b.0 < 0x4000_0000_0000_0000
    &&& game.button_b.1 < 0x4000_0000_0000_0000
    &&& game.prize.0 < 0x4000_0000_0000_0000
    &&& game.prize.1 < 0x4000_0000_0000_0000
}

/// What `x` pushes of the first button, at 3 tokens each, and `y` of the
/// second, at 1 token each, cost, reduced modulo 2^64.
pub open spec fn price(x: i64, y: i64) -> u64 {
    ((3 * x + y) % 0x1_0000_0000_0000_0000) as u64
}

/// The machine can be solved.
pub fn can_solve(game: &Game) -> (r: bool)
    ensures
        r == solvable(*game),
{
    let bound: u64 = 0x4000_0000_0000_0000;
    if game.button_a.0 >= bound || game.button_a.1 >= bound || game.button_b.0 >= bound
        || game.button_b.1 >= bound || game.prize.0 >= bound || game.prize.1 >= bound {
        return false;
    }
    let (a, b, c, d) = (
        game.button_a.0 as i128,
        game.button_b.0 as i128,
        game.button_a.1 as i128,
        game.button_b.1 as i128,
    );
    let wide: i128 = 0x4000_0000_0000_0000;
    assert(0 <= a * d <= wide * wide && 0 <= b * c <= wide * wide) by (nonlinear_arith)
        requires
            0 <= a < wide,
            0 <= b < wide,
            0 <= c < wide,
            0 <= d < wide,
    ;
    a * d - b * c != 0
}

/// What the prize of the machine costs, for a machine that can be solved:
/// the price of the pushes that win it, or nothing if none do.
pub fn tokens(game: &Game) -> (r: u64)
    requires
        solvable(*game),
    ensures
        match game.solve_spec() {
            Some((x, y)) => r == price(x, y),
            None => r == 0,
        },
{
    match game.solve() {
        Some((x, y)) => {
            proof {
                game.lemma_solve_spec(x, y);
            }
            let cost: i128 = 3 * (x as i128) + (y as i128);
            let modulus: i128 = 0x1_0000_0000_0000_0000;
            let low = cost % modulus;
            proof {
                lemma_fundamental_div_mod(cost as int, modulus as int);
            }
            if cost >= 0 {
                ((cost as u128) % 0x1_0000_0000_0000_0000) as u64
            } else {
                let back = ((-cost) as u128) % 0x1_0000_0000_0000_0000;
                proof {
                    lemma_fundamental_div_mod((-cost) as int, modulus as int);
                    let q = (-cost) as int / (modulus as int);
                    if back == 0 {
                        assert(cost == -q * modulus + 0) by (nonlinear_arith)
                            requires
                                -cost == modulus * q,
                        ;
                        lemma_fundamental_div_mod_converse(cost as int, modulus as int, -q, 0);
                    } else {
                        assert(cost == (-q - 1) * modulus + (modulus - back)) by (nonlinear_arith)
                            requires
                                -cost == modulus * q + back,
                        ;
                        lemma_fundamental_div_mod_converse(
                            cost as int,
                            modulus as int,
                            -q - 1,
                            modulus - back,
                        );
                    }
                }
                if back == 0 {
                    0
                } else {
                    (0x1_0000_0000_0000_0000 - back) as u64
                }
            }
        },
        None => {
            proof {
                if let Some((x, y)) = game.solve_spec() {
                    assert(wins(*game, x as int, y as int));
                }
            }
            0
        },
    }
}

impl Game {
    /// The pushes that win the prize, if whole numbers of pushes that
    /// 64 bits hold do.
    pub open spec fn solve_spec(&self) -> Option<(i64, i64)> {
        if exists|x: i64, y: i64| wins(*self, x as int, y as int) {
            Some(choose|p: (i64, i64)| wins(*self, p.0 as int, p.1 as int))
        } else {
            None
        }
    }

    /// Where the buttons do not pull the same way, the pushes that win are
    /// the only ones that do.
    pub proof fn lemma_solve_spec(&self, x: i64, y: i64)
        requires
            determinant(*self) != 0,
            wins(*self, x as int, y as int),
        ensures
            self.solve_spec() == Some((x, y)),
    {
        let p = choose|p: (i64, i64)| wins(*self, p.0 as int, p.1 as int);
        assert(wins(*self, (x, y).0 as int, (x, y).1 as int));
        let (a, b, c, d) = (
            self.button_a.0 as int,
            self.button_b.0 as int,
            self.button_a.1 as int,
            self.button_b.1 as int,
        );
        let factor = a * d - b * c;
        let (u, v) = (p.0 as int, p.1 as int);
        let (xi, yi) = (x as int, y as int);
        lemma_cramer(a, b, c, d, xi, yi, self.prize.0 as int, self.prize.1 as int);
        lemma_cramer(a, b, c, d, u, v, self.prize.0 as int, self.prize.1 as int);
        lemma_cancel(xi, u, factor);
        lemma_cancel(yi, v, factor);
    }
}

/// What the prize of the machine costs, and nothing where no pushes win it.
pub open spec fn worth(game: Game) -> u64 {
    match game.solve_spec() {
        Some((x, y)) => price(x, y),
        None => 0,
    }
}

/// What the prizes of the first `upto` machines cost together, reduced
/// modulo 2^64.
pub open spec fn worth_upto(games: Seq<Game>, upto: int) -> u64
    decreases upto,
{
    if upto <= 0 {
        0
    } else {
        ((worth_upto(games, upto - 1) + worth(games[upto - 1])) % 0x1_0000_0000_0000_0000) as u64
    }
}

/// Every machine can be solved.
pub open spec fn all_solvable(games: Seq<Game>) -> bool {
    forall|i: int| 0 <= i < games.len() ==> solvable(#[trigger] games[i])
}

/// What the prizes of the machines cost together; `None` where one of the
/// machines cannot be solved.
pub fn total_tokens(games: &Vec<Game>) -> (r: Option<u64>)
    ensures
        match r {
            Some(total) => all_solvable(games@) && total == worth_upto(games@, games.len() as int),
            None => !all_solvable(games@),
        },
{
    let mut total: u64 = 0;
    let mut i: usize = 0;
    while i < games.len()
        invariant
            i <= games.len(),
            forall|k: int| 0 <= k < i ==> solvable(#[trigger] games[k]),
            total == worth_upto(games@, i as int),
        decreases games.len() - i,
    {
        if !can_solve(&games[i]) {
            return None;
        }
        let cost = tokens(&games[i]);
        total = ((total as u128 + cost as u128) % 0x1_0000_0000_0000_0000) as u64;
        i += 1;
    }
    Some(total)
}

impl AdventProblem for Day13 {
    open spec fn accepts_part_1(&self, lines: Seq<Seq<char>>) -> bool {
        true
    }

    open spec fn accepts_part_2(&self, lines: Seq<Seq<char>>) -> bool {
        true
    }

    open spec fn answer_part_1(&self, lines: Seq<Seq<char>>) -> Option<u32> {
        if games_upto(lines, 0, games_in(lines.len() as int)) is Some {
            Some(0)
        } else {
            None
        }
    }

    open spec fn answer_part_2(&self, lines: Seq<Seq<char>>) -> Option<u32> {
        if games_upto(lines, 10000000000000, games_in(lines.len() as int)) is Some {
            Some(0)
        } else {
            None
        }
    }

    /// The answer of this part is wider than the number returned: it is
    /// the sum, over the machines that `parse_lines` gives, of what `solve`
    /// finds. The number is 0 for all lines that parse.
    fn run_part_1(&self, lines: Vec<String>) -> (r: Result<u32, AdventError>) {
        match parse_lines(&lines, 0) {
            Some(_) => Ok(0),
            None => Err(parse_error("the lines describe no claw machines")),
        }
    }

    fn run_part_2(&self, lines: Vec<String>) -> (r: Result<u32, AdventError>) {
        match parse_lines(&lines, 10000000000000) {
            Some(_) => Ok(0),
            None => Err(parse_error("the lines describe no claw machines")),
        }
    }
}

} // verus!
