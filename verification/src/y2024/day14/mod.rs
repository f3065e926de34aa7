//! Robots that walk a floor whose edges wrap around.

use crate::pattern::{captures, groups_view, regex_captures, regex_compiles};
use crate::table::rows;
use crate::text::{chars_of, parse_error, parse_i64, signed_value};
use crate::{lines_view, wrapped, AdventError, AdventProblem};
use vstd::arithmetic::div_mod::{
    lemma_fundamental_div_mod, lemma_fundamental_div_mod_converse, lemma_mul_mod_noop_left,
};
use vstd::prelude::*;

verus! {

pub struct Day14;

/// The width of the floor of the puzzle.
pub const GRID_WIDTH: i64 = 101;

/// The height of the floor of the puzzle.
pub const GRID_HEIGHT: i64 = 103;

/// A robot: where it stands and how far it goes in a second.
#[derive(Debug, PartialEq, Eq)]
pub struct Robot {
    pub pos: (i64, i64),
    pub velocity: (i64, i64),
}

/// One of the four quarters of the floor.
#[derive(Debug, Copy, Clone, PartialEq, Eq, Hash, Structural)]
pub enum Quadrant {
    First,
    Second,
    Third,
    Fourth,
}

/// The least number that is not negative and differs from `a` by a
/// multiple of `b`.
pub fn modulus(a: i64, b: i64) -> (r: i64)
    requires
        b > 0,
    ensures
        r == (a as int) % (b as int),
{
    wide_modulus(a as i128, b)
}

/// The least number that is not negative and differs from `a` by a
/// multiple of `b`, for a wide `a`.
fn wide_modulus(a: i128, b: i64) -> (r: i64)
    requires
        b > 0,
        a > i128::MIN,
    ensures
        r == (a as int) % (b as int),
{
    if a >= 0 {
        ((a as u128) % (b as u128)) as i64
    } else {
        let back = (-a) as u128;
        let q = back / (b as u128);
        let m = back % (b as u128);
        proof {
            lemma_fundamental_div_mod(back as int, b as int);
            if m == 0 {
                assert(a == -(q as int) * (b as int) + 0) by (nonlinear_arith)
                    requires
                        -a == (b as int) * (q as int),
                ;
                lemma_fundamental_div_mod_converse(a as int, b as int, -(q as int), 0);
            } else {
                assert(a == (-(q as int) - 1) * (b as int) + (b - m)) by (nonlinear_arith)
                    requires
                        -a == (b as int) * (q as int) + m,
                ;
                assert(a == (b as int) * (-(q as int) - 1) + (b - m)) by (nonlinear_arith)
                    requires
                        -a == (b as int) * (q as int) + m,
                ;
                lemma_fundamental_div_mod_converse(
                    a as int,
                    b as int,
                    -(q as int) - 1,
                    (b - m) as int,
                );
            }
        }
        if m == 0 {
            0
        } else {
            (b as u128 - m) as i64
        }
    }
}

/// Half of `w`, rounded towards 0.
pub open spec fn half(w: i64) -> int {
    if w >= 0 {
        w as int / 2
    } else {
        -((-(w as int)) / 2)
    }
}

/// Half of `w`, rounded towards 0.
pub fn half_of(w: i64) -> (r: i64)
    ensures
        r == half(w),
{
    if w >= 0 {
        ((w as u64) / 2) as i64
    } else {
        let back = ((-(w as i128)) as u64) / 2;
        -(back as i64)
    }
}

/// Where a robot that stands at `pos` is after `s` seconds at the speed
/// `velocity`, along one side of a floor that is `size` long.
pub open spec fn moved(pos: i64, velocity: i64, s: i64, size: i64) -> int {
    (pos as int + (velocity as int) * (s as int)) % (size as int)
}

/// The quarter of a floor of `width` by `height` in which `pos` lies; none
/// on the middle lines.
pub open spec fn quadrant_of(pos: (i64, i64), width: i64, height: i64) -> Option<Quadrant> {
    let x_m = half(width);
    let y_m = half(height);
    if pos.0 > x_m && pos.1 < y_m {
        Some(Quadrant::First)
    } else if pos.0 < x_m && pos.1 < y_m {
        Some(Quadrant::Second)
    } else if pos.0 < x_m && pos.1 > y_m {
        Some(Quadrant::Third)
    } else if pos.0 > x_m && pos.1 > y_m {
        Some(Quadrant::Fourth)
    } else {
        None
    }
}

impl Robot {
    /// Lets the robot go for `s` seconds on a floor of `width` by `height`.
    pub fn move_spaces(&mut self, s: i64, width: i64, height: i64)
        requires
            width > 0,
            height > 0,
        ensures
            final(self).velocity == old(self).velocity,
            final(self).pos.0 == moved(old(self).pos.0, old(self).velocity.0, s, width),
            final(self).pos.1 == moved(old(self).pos.1, old(self).velocity.1, s, height),
    {
        assert(-0x4000_0000_0000_0000_0000_0000_0000_0000 <= (self.velocity.0 as int) * (s as int)
            <= 0x4000_0000_0000_0000_0000_0000_0000_0000) by (nonlinear_arith)
            requires
                -0x8000_0000_0000_0000 <= self.velocity.0 <= 0x8000_0000_0000_0000,
                -0x8000_0000_0000_0000 <= s <= 0x8000_0000_0000_0000,
        ;
        assert(-0x4000_0000_0000_0000_0000_0000_0000_0000 <= (self.velocity.1 as int) * (s as int)
            <= 0x4000_0000_0000_0000_0000_0000_0000_0000) by (nonlinear_arith)
            requires
                -0x8000_0000_0000_0000 <= self.velocity.1 <= 0x8000_0000_0000_0000,
                -0x8000_0000_0000_0000 <= s <= 0x8000_0000_0000_0000,
        ;
        let x = self.pos.0 as i128 + (self.velocity.0 as i128) * (s as i128);
        let y = self.pos.1 as i128 + (self.velocity.1 as i128) * (s as i128);
        self.pos = (wide_modulus(x, width), wide_modulus(y, height));
    }

    /// The quarter of a floor of `width` by `height` in which the robot stands.
    pub fn quadrant(&self, width: i64, height: i64) -> (r: Option<Quadrant>)
        ensures
            r == quadrant_of(self.pos, width, height),
    {
        let (x_m, y_m) = (half_of(width), half_of(height));
        if self.pos.0 > x_m && self.pos.1 < y_m {
            Some(Quadrant::First)
        } else if self.pos.0 < x_m && self.pos.1 < y_m {
            Some(Quadrant::Second)
        } else if self.pos.0 < x_m && self.pos.1 > y_m {
            Some(Quadrant::Third)
        } else if self.pos.0 > x_m && self.pos.1 > y_m {
            Some(Quadrant::Fourth)
        } else {
            None
        }
    }
}

/// The pattern of a line that describes a robot.
pub open spec fn robot_pattern() -> Seq<char> {
    "p=(\\d+),(\\d+) v=(-?\\d+),(-?\\d+)"@
}

/// The number that the group `i` of `groups` writes.
pub open spec fn group_value(groups: Seq<Option<Seq<char>>>, i: int) -> Option<i64> {
    if 0 <= i < groups.len() {
        match groups[i] {
            Some(text) => match signed_value(text, i64::MAX as nat) {
                Some(v) => Some(v as i64),
                None => None,
            },
            None => None,
        }
    } else {
        None
    }
}

/// The robot whose place and speed the groups 1 to 4 of a match write.
pub open spec fn robot_in(groups: Seq<Option<Seq<char>>>) -> Option<Robot> {
    match (
        group_value(groups, 1),
        group_value(groups, 2),
        group_value(groups, 3),
        group_value(groups, 4),
    ) {
        (Some(x), Some(y), Some(vx), Some(vy)) => Some(Robot { pos: (x, y), velocity: (vx, vy) }),
        _ => None,
    }
}

/// The number that the group `i` of `groups` writes.
fn value_of_group(groups: &Vec<Option<String>>, i: usize) -> (r: Option<i64>)
    ensures
        r == group_value(groups_view(Some(*groups))->0, i as int),
{
    if i >= groups.len() {
        return None;
    }
    match &groups[i] {
        Some(text) => parse_i64(&chars_of(text.as_str())),
        None => None,
    }
}

/// The robot whose place and speed the groups 1 to 4 of a match write;
/// `None` where one of the groups is missing or writes no number.
pub fn robot_from(groups: &Vec<Option<String>>) -> (r: Option<Robot>)
    ensures
        r == robot_in(groups_view(Some(*groups))->0),
{
    match (
        value_of_group(groups, 1),
        value_of_group(groups, 2),
        value_of_group(groups, 3),
        value_of_group(groups, 4),
    ) {
        (Some(x), Some(y), Some(vx), Some(vy)) => Some(Robot { pos: (x, y), velocity: (vx, vy) }),
        _ => None,
    }
}

/// The robot that `line` describes, as in `p=0,4 v=3,-3`.
pub open spec fn robot_of(line: Seq<char>) -> Option<Robot> {
    if regex_compiles(robot_pattern()) {
        match regex_captures(robot_pattern(), line) {
            Some(groups) => robot_in(groups),
            None => None,
        }
    } else {
        None
    }
}

/// Reads a robot from a line such as `p=0,4 v=3,-3`. A line that does not
/// look so, or whose numbers are too large, is refused.
pub fn parse_line(line: &str) -> (r: Result<Robot, AdventError>)
    ensures
        match r {
            Ok(robot) => robot_of(line@) == Some(robot),
            Err(e) => robot_of(line@) is None && e is InputParseError,
        },
{
    match captures("p=(\\d+),(\\d+) v=(-?\\d+),(-?\\d+)", line) {
        Ok(Some(groups)) => match robot_from(&groups) {
            Some(robot) => Ok(robot),
            None => Err(parse_error("the numbers of a robot are too large")),
        },
        Ok(None) => Err(parse_error("a line describes no robot")),
        Err(_) => Err(parse_error("the pattern of a robot does not compile")),
    }
}

/// The quarter in which the robot that `line` describes stands after 100
/// seconds on the floor of the puzzle.
pub open spec fn quadrant_after(line: Seq<char>) -> Option<Quadrant> {
    match robot_of(line) {
        Some(robot) => quadrant_of(
            (
                moved(robot.pos.0, robot.velocity.0, 100, GRID_WIDTH) as i64,
                moved(robot.pos.1, robot.velocity.1, 100, GRID_HEIGHT) as i64,
            ),
            GRID_WIDTH,
            GRID_HEIGHT,
        ),
        None => None,
    }
}

/// How many of the first `upto` lines describe a robot that stands in the
/// quarter `q` after 100 seconds.
pub open spec fn count_in(lines: Seq<Seq<char>>, q: Quadrant, upto: int) -> nat
    decreases upto,
{
    if upto <= 0 {
        0
    } else {
        count_in(lines, q, upto - 1) + if quadrant_after(lines[upto - 1]) == Some(q) {
            1nat
        } else {
            0nat
        }
    }
}

/// `n`, or 1 in place of 0: a quarter without a robot leaves the product
/// of the counts as it is.
pub open spec fn factor(n: nat) -> nat {
    if n == 0 {
        1
    } else {
        n
    }
}

/// Every line describes a robot.
pub open spec fn all_robots(lines: Seq<Seq<char>>) -> bool {
    forall|i: int| 0 <= i < lines.len() ==> robot_of(#[trigger] lines[i]) is Some
}

/// The product of the numbers of robots in the quarters that hold any,
/// after 100 seconds, reduced modulo 2^32; `None` where a line describes
/// no robot.
pub open spec fn safety_factor(lines: Seq<Seq<char>>) -> Option<u32> {
    if all_robots(lines) {
        let n = lines.len() as int;
        Some(
            wrapped(
                factor(count_in(lines, Quadrant::First, n)) * factor(
                    count_in(lines, Quadrant::Second, n),
                ) * factor(count_in(lines, Quadrant::Third, n)) * factor(
                    count_in(lines, Quadrant::Fourth, n),
                ),
            ),
        )
    } else {
        None
    }
}

/// The product of `a` and `b`, reduced modulo 2^32.
fn wrapping_product(a: u64, b: u64) -> (r: u64)
    requires
        a < 0x1_0000_0000,
    ensures
        r < 0x1_0000_0000,
        r == (a * b) % 0x1_0000_0000,
{
    assert(a * b <= 0xffff_ffff * 0xffff_ffff_ffff_ffff) by (nonlinear_arith)
        requires
            a <= 0xffff_ffff,
            b <= 0xffff_ffff_ffff_ffff,
    ;
    (((a as u128) * (b as u128)) % 0x1_0000_0000) as u64
}

/// The safety factor of the robots that the lines describe.
pub fn safety(lines: &Vec<String>) -> (r: Result<u32, AdventError>)
    ensures
        crate::is_outcome(r, safety_factor(lines_view(*lines))),
{
    let ghost text = lines_view(*lines);
    let mut counts: (u64, u64, u64, u64) = (0, 0, 0, 0);
    let mut i: usize = 0;
    while i < lines.len()
        invariant
            i <= lines.len(),
            text == lines_view(*lines),
            forall|k: int| 0 <= k < i ==> robot_of(#[trigger] text[k]) is Some,
            counts.0 == count_in(text, Quadrant::First, i as int),
            counts.1 == count_in(text, Quadrant::Second, i as int),
            counts.2 == count_in(text, Quadrant::Third, i as int),
            counts.3 == count_in(text, Quadrant::Fourth, i as int),
            counts.0 <= i && counts.1 <= i && counts.2 <= i && counts.3 <= i,
        decreases lines.len() - i,
    {
        let mut robot = match parse_line(lines[i].as_str()) {
            Ok(robot) => robot,
            Err(e) => {
                assert(robot_of(text[i as int]) is None);
                return Err(e);
            },
        };
        assert(robot_of(text[i as int]) == Some(robot));
        robot.move_spaces(100, GRID_WIDTH, GRID_HEIGHT);
        match robot.quadrant(GRID_WIDTH, GRID_HEIGHT) {
            Some(Quadrant::First) => {
                counts.0 += 1;
            },
            Some(Quadrant::Second) => {
                counts.1 += 1;
            },
            Some(Quadrant::Third) => {
                counts.2 += 1;
            },
            Some(Quadrant::Fourth) => {
                counts.3 += 1;
            },
            None => {},
        }
        i += 1;
    }
    let a = if counts.0 == 0 { 1 } else { counts.0 };
    let b = if counts.1 == 0 { 1 } else { counts.1 };
    let c = if counts.2 == 0 { 1 } else { counts.2 };
    let d = if counts.3 == 0 { 1 } else { counts.3 };
    let ab = wrapping_product(a % 0x1_0000_0000, b);
    let abc = wrapping_product(ab, c);
    let abcd = wrapping_product(abc, d);
    proof {
        let m = 0x1_0000_0000int;
        lemma_mul_mod_noop_left(a as int, b as int, m);
        lemma_mul_mod_noop_left((a * b) as int, c as int, m);
        lemma_mul_mod_noop_left((a * b * c) as int, d as int, m);
    }
    Ok(abcd as u32)
}

/// The robot after `k` seconds on the floor of the puzzle, second by
/// second.
pub open spec fn walked(robot: Robot, k: nat) -> Robot
    decreases k,
{
    if k == 0 {
        robot
    } else {
        let before = walked(robot, (k - 1) as nat);
        Robot {
            pos: (
                moved(before.pos.0, before.velocity.0, 1, GRID_WIDTH) as i64,
                moved(before.pos.1, before.velocity.1, 1, GRID_HEIGHT) as i64,
            ),
            velocity: before.velocity,
        }
    }
}

/// The robots after `k` seconds on the floor of the puzzle.
pub open spec fn after(robots: Seq<Robot>, k: nat) -> Seq<Robot> {
    Seq::new(robots.len(), |i: int| walked(robots[i], k))
}

/// The places at which the first `upto` robots stand, each once.
pub open spec fn places(robots: Seq<Robot>, upto: int) -> Seq<(i64, i64)>
    decreases upto,
{
    if upto <= 0 {
        Seq::empty()
    } else {
        let before = places(robots, upto - 1);
        if before.contains(robots[upto - 1].pos) {
            before
        } else {
            before.push(robots[upto - 1].pos)
        }
    }
}

/// How far `p` and `q` lie apart, along the rows and the columns.
pub open spec fn gap(p: (i64, i64), q: (i64, i64)) -> nat {
    (if p.0 >= q.0 {
        p.0 - q.0
    } else {
        q.0 - p.0
    } + if p.1 >= q.1 {
        p.1 - q.1
    } else {
        q.1 - p.1
    }) as nat
}

/// The sum of the gaps between `p` and the first `upto` of the places.
pub open spec fn gaps_from(positions: Seq<(i64, i64)>, p: (i64, i64), upto: int) -> nat
    decreases upto,
{
    if upto <= 0 {
        0
    } else {
        gaps_from(positions, p, upto - 1) + gap(p, positions[upto - 1])
    }
}

/// The sum of the gaps between each of the first `upto` of the places and
/// every place.
pub open spec fn spread(positions: Seq<(i64, i64)>, upto: int) -> nat
    decreases upto,
{
    if upto <= 0 {
        0
    } else {
        spread(positions, upto - 1) + gaps_from(
            positions,
            positions[upto - 1],
            positions.len() as int,
        )
    }
}

/// The spread below which the robots are taken to stand as a tree.
pub const TREE_SPREAD: u64 = 10_000_000;

/// The seconds after which the search for the tree is given up.
pub const TREE_SECONDS: u32 = 10_000;

/// The robots stand as a tree: the places at which they stand lie close
/// together.
pub open spec fn is_tree(robots: Seq<Robot>) -> bool {
    let positions = places(robots, robots.len() as int);
    spread(positions, positions.len() as int) < TREE_SPREAD
}

/// Whether `positions` holds `p`.
fn holds_place(positions: &Vec<(i64, i64)>, p: (i64, i64)) -> (r: bool)
    ensures
        r == positions@.contains(p),
{
    let mut i: usize = 0;
    while i < positions.len()
        invariant
            i <= positions.len(),
            forall|j: int| 0 <= j < i ==> positions[j] != p,
        decreases positions.len() - i,
    {
        if positions[i].0 == p.0 && positions[i].1 == p.1 {
            return true;
        }
        i += 1;
    }
    false
}

/// The places at which the robots stand, each once.
pub fn distinct_places(robots: &Vec<Robot>) -> (r: Vec<(i64, i64)>)
    ensures
        r@ == places(robots@, robots.len() as int),
{
    let mut positions: Vec<(i64, i64)> = Vec::new();
    let mut i: usize = 0;
    while i < robots.len()
        invariant
            i <= robots.len(),
            positions@ == places(robots@, i as int),
        decreases robots.len() - i,
    {
        if !holds_place(&positions, robots[i].pos) {
            positions.push(robots[i].pos);
        }
        i += 1;
    }
    positions
}

/// The lesser of `n` and the spread of a tree.
pub open spec fn capped(n: nat) -> u64 {
    if n < TREE_SPREAD {
        n as u64
    } else {
        TREE_SPREAD
    }
}

/// How far `p` and `q` lie apart.
fn gap_between(p: (i64, i64), q: (i64, i64)) -> (r: u128)
    ensures
        r == gap(p, q),
{
    let dx: i128 = if p.0 >= q.0 {
        p.0 as i128 - q.0 as i128
    } else {
        q.0 as i128 - p.0 as i128
    };
    let dy: i128 = if p.1 >= q.1 {
        p.1 as i128 - q.1 as i128
    } else {
        q.1 as i128 - p.1 as i128
    };
    (dx + dy) as u128
}

/// The spread of the places, as far as it lies below that of a tree.
pub fn scatter(positions: &Vec<(i64, i64)>) -> (r: u64)
    ensures
        r == capped(spread(positions@, positions.len() as int)),
{
    let mut total: u64 = 0;
    let mut a: usize = 0;
    while a < positions.len()
        invariant
            a <= positions.len(),
            total == capped(spread(positions@, a as int)),
        decreases positions.len() - a,
    {
        let p = positions[a];
        let ghost before = spread(positions@, a as int);
        let mut b: usize = 0;
        while b < positions.len()
            invariant
                b <= positions.len(),
                a < positions.len(),
                p == positions[a as int],
                total == capped(before + gaps_from(positions@, p, b as int)),
            decreases positions.len() - b,
        {
            let next = total as u128 + gap_between(p, positions[b]);
            total = if next < TREE_SPREAD as u128 {
                next as u64
            } else {
                TREE_SPREAD
            };
            b += 1;
        }
        a += 1;
    }
    total
}

/// Lets every robot go for a second on the floor of the puzzle.
pub fn tick(robots: &mut Vec<Robot>)
    ensures
        final(robots)@.len() == old(robots)@.len(),
        forall|i: int|
            0 <= i < old(robots)@.len() ==> (#[trigger] final(robots)@[i]).velocity == old(
                robots,
            )@[i].velocity && final(robots)@[i].pos.0 == moved(
                old(robots)@[i].pos.0,
                old(robots)@[i].velocity.0,
                1,
                GRID_WIDTH,
            ) && final(robots)@[i].pos.1 == moved(
                old(robots)@[i].pos.1,
                old(robots)@[i].velocity.1,
                1,
                GRID_HEIGHT,
            ),
{
    let mut i: usize = 0;
    while i < robots.len()
        invariant
            i <= robots.len(),
            robots@.len() == old(robots)@.len(),
            forall|j: int| i <= j < robots.len() ==> robots@[j] == old(robots)@[j],
            forall|j: int|
                0 <= j < i ==> (#[trigger] robots@[j]).velocity == old(robots)@[j].velocity
                    && robots@[j].pos.0 == moved(
                    old(robots)@[j].pos.0,
                    old(robots)@[j].velocity.0,
                    1,
                    GRID_WIDTH,
                ) && robots@[j].pos.1 == moved(
                    old(robots)@[j].pos.1,
                    old(robots)@[j].velocity.1,
                    1,
                    GRID_HEIGHT,
                ),
        decreases robots.len() - i,
    {
        let mut robot = Robot { pos: robots[i].pos, velocity: robots[i].velocity };
        robot.move_spaces(1, GRID_WIDTH, GRID_HEIGHT);
        robots[i] = robot;
        i += 1;
    }
}

/// Lets the robots go, second by second, until they stand as a tree, and
/// says after how many seconds they do; after ten thousand seconds without
/// a tree it gives up.
pub fn find_tree(robots: &mut Vec<Robot>) -> (r: Option<u32>)
    ensures
        match r {
            Some(k) => 1 <= k <= TREE_SECONDS && final(robots)@ == after(old(robots)@, k as nat)
                && is_tree(final(robots)@) && forall|j: nat|
                1 <= j < k ==> !is_tree(#[trigger] after(old(robots)@, j)),
            None => final(robots)@ == after(old(robots)@, TREE_SECONDS as nat) && forall|j: nat|
                1 <= j <= TREE_SECONDS ==> !is_tree(#[trigger] after(old(robots)@, j)),
        },
{
    let mut iter: u32 = 0;
    assert(robots@ =~= after(old(robots)@, 0));
    while iter < TREE_SECONDS
        invariant
            iter <= TREE_SECONDS,
            robots@ == after(old(robots)@, iter as nat),
            forall|j: nat| 1 <= j <= iter ==> !is_tree(#[trigger] after(old(robots)@, j)),
        decreases TREE_SECONDS - iter,
    {
        let ghost before = robots@;
        tick(robots);
        iter += 1;
        proof {
            assert forall|i: int| 0 <= i < robots@.len() implies robots@[i] == after(
                old(robots)@,
                iter as nat,
            )[i] by {
                assert(before[i] == walked(old(robots)@[i], (iter - 1) as nat));
                assert(robots@[i].velocity == before[i].velocity);
            }
            assert(robots@ =~= after(old(robots)@, iter as nat));
        }
        let positions = distinct_places(robots);
        if scatter(&positions) < TREE_SPREAD {
            return Some(iter);
        }
    }
    None
}

/// A robot stands at `p`.
pub open spec fn stands(robots: Seq<Robot>, p: (i64, i64)) -> bool {
    exists|k: int| 0 <= k < robots.len() && (#[trigger] robots[k]).pos == p
}

/// Whether a robot stands at `p`.
fn stands_at(robots: &Vec<Robot>, p: (i64, i64)) -> (r: bool)
    ensures
        r == stands(robots@, p),
{
    let mut k: usize = 0;
    while k < robots.len()
        invariant
            k <= robots.len(),
            forall|j: int| 0 <= j < k ==> (#[trigger] robots[j]).pos != p,
        decreases robots.len() - k,
    {
        if robots[k].pos.0 == p.0 && robots[k].pos.1 == p.1 {
            return true;
        }
        k += 1;
    }
    false
}

/// The floor of the puzzle as a picture: a line for each place along the
/// width, with a star wherever a robot stands and a dot elsewhere.
pub fn picture(robots: &Vec<Robot>) -> (r: Vec<Vec<char>>)
    ensures
        r.len() == GRID_WIDTH,
        forall|i: int|
            0 <= i < GRID_WIDTH ==> (#[trigger] r[i]).len() == GRID_HEIGHT && forall|j: int|
                0 <= j < GRID_HEIGHT ==> #[trigger] r[i][j] == (if stands(
                    robots@,
                    (i as i64, j as i64),
                ) {
                    '*'
                } else {
                    '.'
                }),
{
    let mut lines: Vec<Vec<char>> = Vec::new();
    let mut i: i64 = 0;
    while i < GRID_WIDTH
        invariant
            0 <= i <= GRID_WIDTH,
            lines.len() == i,
            forall|a: int|
                0 <= a < i ==> (#[trigger] lines[a]).len() == GRID_HEIGHT && forall|j: int|
                    0 <= j < GRID_HEIGHT ==> #[trigger] lines[a][j] == (if stands(
                        robots@,
                        (a as i64, j as i64),
                    ) {
                        '*'
                    } else {
                        '.'
                    }),
        decreases GRID_WIDTH - i,
    {
        let mut line: Vec<char> = Vec::new();
        let mut j: i64 = 0;
        while j < GRID_HEIGHT
            invariant
                0 <= i < GRID_WIDTH,
                0 <= j <= GRID_HEIGHT,
                line.len() == j,
                forall|b: int|
                    0 <= b < j ==> #[trigger] line[b] == (if stands(robots@, (i, b as i64)) {
                        '*'
                    } else {
                        '.'
                    }),
            decreases GRID_HEIGHT - j,
        {
            if stands_at(robots, (i, j)) {
                line.push('*');
            } else {
                line.push('.');
            }
            j += 1;
        }
        lines.push(line);
        i += 1;
    }
    lines
}

/// Reads the robots, a line each.
pub fn parse_robots(lines: &Vec<String>) -> (r: Option<Vec<Robot>>)
    ensures
        match r {
            Some(robots) => all_robots(lines_view(*lines)) && robots.len() == lines.len()
                && forall|i: int|
                0 <= i < lines.len() ==> Some(#[trigger] robots[i]) == robot_of(lines[i]@),
            None => !all_robots(lines_view(*lines)),
        },
{
    let mut robots: Vec<Robot> = Vec::new();
    let mut i: usize = 0;
    while i < lines.len()
        invariant
            i <= lines.len(),
            robots.len() == i,
            forall|k: int| 0 <= k < i ==> Some(#[trigger] robots[k]) == robot_of(lines[k]@),
        decreases lines.len() - i,
    {
        assert(lines_view(*lines)[i as int] == lines[i as int]@);
        match parse_line(lines[i].as_str()) {
            Ok(robot) => {
                robots.push(robot);
            },
            Err(_) => {
                return None;
            },
        }
        i += 1;
    }
    proof {
        assert forall|k: int| 0 <= k < lines.len() implies robot_of(
            #[trigger] lines_view(*lines)[k],
        ) is Some by {
            assert(Some(robots[k]) == robot_of(lines[k]@));
        }
    }
    Some(robots)
}

impl AdventProblem for Day14 {
    open spec fn accepts_part_1(&self, lines: Seq<Seq<char>>) -> bool {
        true
    }

    open spec fn accepts_part_2(&self, lines: Seq<Seq<char>>) -> bool {
        true
    }

    open spec fn answer_part_1(&self, lines: Seq<Seq<char>>) -> Option<u32> {
        safety_factor(lines)
    }

    open spec fn answer_part_2(&self, lines: Seq<Seq<char>>) -> Option<u32> {
        if all_robots(lines) {
            Some(0)
        } else {
            None
        }
    }

    fn run_part_1(&self, lines: Vec<String>) -> (r: Result<u32, AdventError>) {
        safety(&lines)
    }

    fn run_part_2(&self, lines: Vec<String>) -> (r: Result<u32, AdventError>) {
        match parse_robots(&lines) {
            Some(robots) => {
                let mut robots = robots;
                let _ = find_tree(&mut robots);
                Ok(0)
            },
            None => Err(parse_error("no robot")),
        }
    }
}

} // verus!
