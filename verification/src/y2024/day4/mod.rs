//! A word search for XMAS, straight and crossed.

use crate::table::{rows, sum_over};
use crate::text::chars_of_lines;
use crate::{lines_view, wrapped, AdventError, AdventProblem};
use vstd::arithmetic::div_mod::lemma_add_mod_noop;
use vstd::prelude::*;

verus! {

pub struct Day4;

/// The eight ways in which a word can be written.
#[derive(Debug, Copy, Clone, PartialEq, Eq, Hash, Structural)]
pub enum Direction {
    North,
    South,
    East,
    West,
    NorthWest,
    NorthEast,
    SouthWest,
    SouthEast,
}

impl Direction {
    /// By how many rows and columns one letter lies from the one before.
    pub open spec fn step(self) -> (int, int) {
        match self {
            Direction::North => (0, 1),
            Direction::South => (0, -1),
            Direction::East => (1, 0),
            Direction::West => (-1, 0),
            Direction::NorthWest => (-1, -1),
            Direction::NorthEast => (-1, 1),
            Direction::SouthWest => (1, -1),
            Direction::SouthEast => (1, 1),
        }
    }

    pub fn offset(self) -> (r: (i32, i32))
        ensures
            r.0 == self.step().0,
            r.1 == self.step().1,
    {
        match self {
            Direction::North => (0, 1),
            Direction::South => (0, -1),
            Direction::East => (1, 0),
            Direction::West => (-1, 0),
            Direction::NorthWest => (-1, -1),
            Direction::NorthEast => (-1, 1),
            Direction::SouthWest => (1, -1),
            Direction::SouthEast => (1, 1),
        }
    }

    /// The place one letter on from row `row` and column `col`.
    pub fn transition(self, row: usize, col: usize) -> (r: (i128, i128))
        ensures
            r.0 == row + self.step().0,
            r.1 == col + self.step().1,
    {
        let (ro, co) = self.offset();
        (row as i128 + ro as i128, col as i128 + co as i128)
    }
}

/// The letter in row `r` and column `c`, if there is one.
pub open spec fn letter(grid: Seq<Seq<char>>, r: int, c: int) -> Option<char> {
    if 0 <= r < grid.len() && 0 <= c < grid[r].len() {
        Some(grid[r][c])
    } else {
        None
    }
}

/// The letter in row `r` and column `c`, if there is one.
fn letter_at(grid: &Vec<Vec<char>>, r: i128, c: i128) -> (l: Option<char>)
    ensures
        l == letter(rows(*grid), r as int, c as int),
{
    if r < 0 || c < 0 || r >= grid.len() as i128 {
        return None;
    }
    let row = &grid[r as usize];
    assert(rows(*grid)[r as int] == row@);
    if c >= row.len() as i128 {
        None
    } else {
        Some(row[c as usize])
    }
}

/// The letters `a`, `b` and `c` stand one, two and three letters on from
/// row `r` and column `col` in the direction `d`.
pub open spec fn spells(grid: Seq<Seq<char>>, r: int, col: int, d: Direction, a: char, b: char, c: char) -> bool {
    let (ro, co) = d.step();
    &&& letter(grid, r + ro, col + co) == Some(a)
    &&& letter(grid, r + 2 * ro, col + 2 * co) == Some(b)
    &&& letter(grid, r + 3 * ro, col + 3 * co) == Some(c)
}

/// The letters `a`, `b` and `c` stand one, two and three letters on.
fn spelled(grid: &Vec<Vec<char>>, r: usize, col: usize, d: Direction, a: char, b: char, c: char) -> (found: bool)
    ensures
        found == spells(rows(*grid), r as int, col as int, d, a, b, c),
{
    let (ro, co) = d.offset();
    let (ro, co) = (ro as i128, co as i128);
    let (r, col) = (r as i128, col as i128);
    match (
        letter_at(grid, r + ro, col + co),
        letter_at(grid, r + 2 * ro, col + 2 * co),
        letter_at(grid, r + 3 * ro, col + 3 * co),
    ) {
        (Some(x), Some(y), Some(z)) => x == a && y == b && z == c,
        _ => false,
    }
}

/// 1 if XMAS is written from row `r` and column `c` on in the direction
/// `d`, and else 0.
pub open spec fn xmas_on(grid: Seq<Seq<char>>, r: int, c: int, d: Direction) -> nat {
    if letter(grid, r, c) == Some('X') && spells(grid, r, c, d, 'M', 'A', 'S') {
        1
    } else {
        0
    }
}

/// In how many directions XMAS is written from row `r` and column `c` on.
pub open spec fn xmas_at(grid: Seq<Seq<char>>, r: int, c: int) -> nat {
    xmas_on(grid, r, c, Direction::North) + xmas_on(grid, r, c, Direction::South) + xmas_on(
        grid,
        r,
        c,
        Direction::East,
    ) + xmas_on(grid, r, c, Direction::West) + xmas_on(grid, r, c, Direction::NorthWest) + xmas_on(
        grid,
        r,
        c,
        Direction::NorthEast,
    ) + xmas_on(grid, r, c, Direction::SouthWest) + xmas_on(grid, r, c, Direction::SouthEast)
}

/// How often XMAS is written in the grid.
pub open spec fn xmas_count(grid: Seq<Seq<char>>) -> nat {
    sum_over(
        0,
        grid.len() as int,
        |r: int| sum_over(0, grid[r].len() as int, |c: int| xmas_at(grid, r, c)),
    )
}

/// 1 if XMAS is written from row `r` and column `c` on in the direction `d`.
fn xmas_from(grid: &Vec<Vec<char>>, r: usize, c: usize, d: Direction) -> (n: u64)
    requires
        r < grid.len(),
        c < grid[r as int].len(),
    ensures
        n == xmas_on(rows(*grid), r as int, c as int, d),
        n <= 1,
{
    assert(rows(*grid)[r as int] == grid[r as int]@);
    if grid[r][c] == 'X' && spelled(grid, r, c, d, 'M', 'A', 'S') {
        1
    } else {
        0
    }
}

/// How often a count of cells gives `f`, summed over the cells of the grid
/// and reduced modulo 2^32.
fn count_cells(grid: &Vec<Vec<char>>, crossed: bool) -> (r: u32)
    ensures
        r == wrapped(
            if crossed {
                cross_count(rows(*grid))
            } else {
                xmas_count(rows(*grid))
            },
        ),
{
    let ghost text = rows(*grid);
    let ghost cell = |r: int, c: int|
        if crossed {
            cross_at(text, r, c)
        } else {
            xmas_at(text, r, c)
        };
    let ghost inner = |r: int| sum_over(0, text[r].len() as int, |c: int| cell(r, c));
    let mut total: u64 = 0;
    let mut i: usize = 0;
    while i < grid.len()
        invariant
            i <= grid.len(),
            text == rows(*grid),
            cell == |r: int, c: int|
                if crossed {
                    cross_at(text, r, c)
                } else {
                    xmas_at(text, r, c)
                },
            inner == |r: int| sum_over(0, text[r].len() as int, |c: int| cell(r, c)),
            total < 0x1_0000_0000,
            total == sum_over(0, i as int, inner) % 0x1_0000_0000,
        decreases grid.len() - i,
    {
        let ghost f = |c: int| cell(i as int, c);
        let mut here: u64 = 0;
        let mut j: usize = 0;
        assert(text[i as int] == grid[i as int]@);
        while j < grid[i].len()
            invariant
                i < grid.len(),
                j <= grid[i as int].len(),
                text == rows(*grid),
                cell == |r: int, c: int|
                    if crossed {
                        cross_at(text, r, c)
                    } else {
                        xmas_at(text, r, c)
                    },
                f == |c: int| cell(i as int, c),
                here < 0x1_0000_0000,
                here == sum_over(0, j as int, f) % 0x1_0000_0000,
            decreases grid[i as int].len() - j,
        {
            let more = if crossed {
                cross_here(grid, i, j)
            } else {
                xmas_from(grid, i, j, Direction::North) + xmas_from(grid, i, j, Direction::South)
                    + xmas_from(grid, i, j, Direction::East) + xmas_from(
                    grid,
                    i,
                    j,
                    Direction::West,
                ) + xmas_from(grid, i, j, Direction::NorthWest) + xmas_from(
                    grid,
                    i,
                    j,
                    Direction::NorthEast,
                ) + xmas_from(grid, i, j, Direction::SouthWest) + xmas_from(
                    grid,
                    i,
                    j,
                    Direction::SouthEast,
                )
            };
            proof {
                assert(more == f(j as int));
                lemma_add_mod_noop(sum_over(0, j as int, f) as int, more as int, 0x1_0000_0000);
            }
            here = (here + more) % 0x1_0000_0000;
            j += 1;
        }
        proof {
            assert(inner(i as int) == sum_over(0, text[i as int].len() as int, f));
            lemma_add_mod_noop(
                sum_over(0, i as int, inner) as int,
                inner(i as int) as int,
                0x1_0000_0000,
            );
        }
        total = (total + here) % 0x1_0000_0000;
        i += 1;
    }
    proof {
        assert(xmas_count(text) == sum_over(0, text.len() as int, inner) || crossed) by {
            if !crossed {
                assert(inner =~= (|r: int|
                    sum_over(0, text[r].len() as int, |c: int| xmas_at(text, r, c)))) by {
                    assert forall|r: int| #[trigger]
                        inner(r) == sum_over(0, text[r].len() as int, |c: int| xmas_at(text, r, c)) by {
                        assert((|c: int| cell(r, c)) =~= (|c: int| xmas_at(text, r, c)));
                    }
                }
            }
        }
        assert(cross_count(text) == sum_over(0, text.len() as int, inner) || !crossed) by {
            if crossed {
                assert(inner =~= (|r: int|
                    sum_over(0, text[r].len() as int, |c: int| cross_at(text, r, c)))) by {
                    assert forall|r: int| #[trigger]
                        inner(r) == sum_over(0, text[r].len() as int, |c: int| cross_at(text, r, c)) by {
                        assert((|c: int| cell(r, c)) =~= (|c: int| cross_at(text, r, c)));
                    }
                }
            }
        }
    }
    total as u32
}

/// How often XMAS is written in the grid, in any of the eight directions,
/// reduced modulo 2^32.
pub fn count_xmas(grid: Vec<Vec<char>>) -> (r: u32)
    ensures
        r == wrapped(xmas_count(rows(grid))),
{
    count_cells(&grid, false)
}

/// MAS is written through row `r` and column `c`, where its A stands, in
/// the direction `d` or against it.
pub open spec fn mas_through(grid: Seq<Seq<char>>, r: int, c: int, d: Direction) -> bool {
    let (ro, co) = d.step();
    &&& letter(grid, r, c) == Some('A')
    &&& (letter(grid, r - ro, c - co) == Some('M') && letter(grid, r + ro, c + co) == Some('S'))
        || (letter(grid, r - ro, c - co) == Some('S') && letter(grid, r + ro, c + co) == Some('M'))
}

/// 1 if two MAS cross in row `r` and column `c`, one on each diagonal, and
/// else 0.
pub open spec fn cross_at(grid: Seq<Seq<char>>, r: int, c: int) -> nat {
    if mas_through(grid, r, c, Direction::SouthEast) && mas_through(
        grid,
        r,
        c,
        Direction::SouthWest,
    ) {
        1
    } else {
        0
    }
}

/// In how many places two MAS cross.
pub open spec fn cross_count(grid: Seq<Seq<char>>) -> nat {
    sum_over(
        0,
        grid.len() as int,
        |r: int| sum_over(0, grid[r].len() as int, |c: int| cross_at(grid, r, c)),
    )
}

/// MAS is written through row `r` and column `c` in the direction `d` or
/// against it.
fn mas_here(grid: &Vec<Vec<char>>, r: usize, c: usize, d: Direction) -> (found: bool)
    ensures
        found == mas_through(rows(*grid), r as int, c as int, d),
{
    let (ro, co) = d.offset();
    let (ro, co) = (ro as i128, co as i128);
    let (r, c) = (r as i128, c as i128);
    match (letter_at(grid, r, c), letter_at(grid, r - ro, c - co), letter_at(grid, r + ro, c + co)) {
        (Some(a), Some(x), Some(y)) => a == 'A' && ((x == 'M' && y == 'S') || (x == 'S' && y == 'M')),
        _ => false,
    }
}

/// 1 if two MAS cross in row `r` and column `c`.
fn cross_here(grid: &Vec<Vec<char>>, r: usize, c: usize) -> (n: u64)
    ensures
        n == cross_at(rows(*grid), r as int, c as int),
        n <= 1,
{
    if mas_here(grid, r, c, Direction::SouthEast) && mas_here(grid, r, c, Direction::SouthWest) {
        1
    } else {
        0
    }
}

/// In how many places two MAS cross, one on each diagonal, reduced modulo 2^32.
pub fn count_cross_mas(grid: Vec<Vec<char>>) -> (r: u32)
    ensures
        r == wrapped(cross_count(rows(grid))),
{
    count_cells(&grid, true)
}

/// MAS is written from row `r` and column `c` on in the direction `d`.
pub open spec fn mas_from(grid: Seq<Seq<char>>, r: int, c: int, d: Direction) -> bool {
    let (ro, co) = d.step();
    &&& letter(grid, r, c) == Some('M')
    &&& letter(grid, r + ro, c + co) == Some('A')
    &&& letter(grid, r + 2 * ro, c + 2 * co) == Some('S')
}

/// Where a MAS ends that is written from row `r` and column `c` on in the
/// direction `d`, with that direction.
pub open spec fn end_of(r: int, c: int, d: Direction) -> (usize, usize, Direction) {
    ((r + 2 * d.step().0) as usize, (c + 2 * d.step().1) as usize, d)
}

/// The ends `found`, and that of the MAS from row `r` and column `c` on in
/// the direction `d`, if there is one.
pub open spec fn ends_with(
    found: Seq<(usize, usize, Direction)>,
    grid: Seq<Seq<char>>,
    r: int,
    c: int,
    d: Direction,
) -> Seq<(usize, usize, Direction)> {
    if mas_from(grid, r, c, d) {
        found.push(end_of(r, c, d))
    } else {
        found
    }
}

/// The ends `found`, and those of the MAS written aslant from row `r` and
/// column `c` on.
pub open spec fn ends_at(found: Seq<(usize, usize, Direction)>, grid: Seq<Seq<char>>, r: int, c: int) -> Seq<
    (usize, usize, Direction),
> {
    ends_with(
        ends_with(
            ends_with(ends_with(found, grid, r, c, Direction::NorthWest), grid, r, c, Direction::NorthEast),
            grid,
            r,
            c,
            Direction::SouthWest,
        ),
        grid,
        r,
        c,
        Direction::SouthEast,
    )
}

/// The ends `found`, and those of the MAS written aslant from the first
/// `upto` places of row `r` on.
pub open spec fn row_ends(found: Seq<(usize, usize, Direction)>, grid: Seq<Seq<char>>, r: int, upto: int) -> Seq<
    (usize, usize, Direction),
>
    decreases upto,
{
    if upto <= 0 {
        found
    } else {
        ends_at(row_ends(found, grid, r, upto - 1), grid, r, upto - 1)
    }
}

/// The ends of the MAS written aslant from the first `upto` rows on, in
/// the order of their beginnings.
pub open spec fn all_ends(grid: Seq<Seq<char>>, upto: int) -> Seq<(usize, usize, Direction)>
    decreases upto,
{
    if upto <= 0 {
        Seq::empty()
    } else {
        row_ends(all_ends(grid, upto - 1), grid, upto - 1, grid[upto - 1].len() as int)
    }
}

/// Notes the end of the MAS from row `r` and column `c` on in the
/// direction `d`, if there is one.
fn note_end(found: &mut Vec<(usize, usize, Direction)>, grid: &Vec<Vec<char>>, r: usize, c: usize, d: Direction)
    ensures
        final(found)@ == ends_with(old(found)@, rows(*grid), r as int, c as int, d),
{
    let (ro, co) = d.offset();
    let (ro, co) = (ro as i128, co as i128);
    let (row, col) = (r as i128, c as i128);
    match (
        letter_at(grid, row, col),
        letter_at(grid, row + ro, col + co),
        letter_at(grid, row + 2 * ro, col + 2 * co),
    ) {
        (Some(x), Some(y), Some(z)) => {
            if x == 'M' && y == 'A' && z == 'S' {
                let end_row = row + 2 * ro;
                let end_col = col + 2 * co;
                assert(0 <= end_row < rows(*grid).len());
                assert(rows(*grid)[end_row as int] == grid[end_row as int]@);
                found.push((end_row as usize, end_col as usize, d));
            }
        },
        _ => {},
    }
}

/// The places at which a MAS ends that is written aslant, each with the
/// direction in which it is written.
pub fn find_mas(grid: &Vec<Vec<char>>) -> (r: Vec<(usize, usize, Direction)>)
    ensures
        r@ == all_ends(rows(*grid), grid.len() as int),
{
    let mut end_points: Vec<(usize, usize, Direction)> = Vec::new();
    let mut i: usize = 0;
    while i < grid.len()
        invariant
            i <= grid.len(),
            end_points@ == all_ends(rows(*grid), i as int),
        decreases grid.len() - i,
    {
        let ghost begun = end_points@;
        assert(rows(*grid)[i as int] == grid[i as int]@);
        let n = grid[i].len();
        let mut j: usize = 0;
        while j < n
            invariant
                j <= n,
                i < grid.len(),
                n == rows(*grid)[i as int].len(),
                end_points@ == row_ends(begun, rows(*grid), i as int, j as int),
            decreases n - j,
        {
            note_end(&mut end_points, grid, i, j, Direction::NorthWest);
            note_end(&mut end_points, grid, i, j, Direction::NorthEast);
            note_end(&mut end_points, grid, i, j, Direction::SouthWest);
            note_end(&mut end_points, grid, i, j, Direction::SouthEast);
            j += 1;
        }
        i += 1;
    }
    end_points
}

impl AdventProblem for Day4 {
    open spec fn accepts_part_1(&self, lines: Seq<Seq<char>>) -> bool {
        true
    }

    open spec fn accepts_part_2(&self, lines: Seq<Seq<char>>) -> bool {
        true
    }

    open spec fn answer_part_1(&self, lines: Seq<Seq<char>>) -> Option<u32> {
        Some(wrapped(xmas_count(lines)))
    }

    open spec fn answer_part_2(&self, lines: Seq<Seq<char>>) -> Option<u32> {
        Some(wrapped(cross_count(lines)))
    }

    fn run_part_1(&self, lines: Vec<String>) -> (r: Result<u32, AdventError>) {
        let grid = chars_of_lines(&lines);
        Ok(count_xmas(grid))
    }

    fn run_part_2(&self, lines: Vec<String>) -> (r: Result<u32, AdventError>) {
        let grid = chars_of_lines(&lines);
        Ok(count_cross_mas(grid))
    }
}

} // verus!
