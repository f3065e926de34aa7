//! Bytes that fall into a memory space, and the way around them.

use crate::table::{put, rows};
use crate::text::{chars_of_lines, parse_error, parse_usize, split, split_spec, unsigned_value};
use crate::y2024::day16::best::{is_shortest_cost, shortest_cost};
use crate::y2024::day16::grid::{covers, walls_of, Grid, Position, SearchState};
use crate::{lines_view, AdventError, AdventProblem};
use vstd::prelude::*;

pub use crate::y2024::day16::grid::Direction;

verus! {

pub struct Day18;

/// The place that `line` writes: its column, a comma, and its row.
pub open spec fn byte_of(line: Seq<char>) -> Option<(usize, usize)> {
    let parts = split_spec(line, seq![',']);
    if parts.len() < 2 {
        None
    } else {
        match (
            unsigned_value(parts[0], usize::MAX as nat),
            unsigned_value(parts[1], usize::MAX as nat),
        ) {
            (Some(col), Some(row)) => Some((row as usize, col as usize)),
            _ => None,
        }
    }
}

/// The place that `line` writes, by row and column.
pub fn parse_byte(line: &Vec<char>) -> (r: Option<(usize, usize)>)
    ensures
        r == byte_of(line@),
{
    let comma = vec![','];
    assert(comma@ =~= seq![',']);
    let parts = split(line, &comma);
    if parts.len() < 2 {
        return None;
    }
    assert(rows(parts)[0] == parts[0]@ && rows(parts)[1] == parts[1]@);
    match (parse_usize(&parts[0]), parse_usize(&parts[1])) {
        (Some(col), Some(row)) => Some((row, col)),
        _ => None,
    }
}

/// A memory space of `m` rows and `n` columns without a byte in it.
pub open spec fn empty_space(m: nat, n: nat) -> Seq<Seq<char>> {
    Seq::new(m, |i: int| Seq::new(n, |j: int| '.'))
}

/// The memory space after the first `upto` lines have let their bytes
/// fall; `None` where one of them writes no place in the space.
pub open spec fn fallen(lines: Seq<Seq<char>>, upto: int, m: nat, n: nat) -> Option<Seq<Seq<char>>>
    decreases upto,
{
    if upto <= 0 {
        Some(empty_space(m, n))
    } else {
        match (fallen(lines, upto - 1, m, n), byte_of(lines[upto - 1])) {
            (Some(grid), Some(at)) => if at.0 < m && at.1 < n {
                Some(put(grid, at.0 as int, at.1 as int, '#'))
            } else {
                None
            },
            _ => None,
        }
    }
}

/// The lesser of `a` and `b`.
pub open spec fn least(a: int, b: int) -> int {
    if a <= b {
        a
    } else {
        b
    }
}

/// The memory space whose last place is `boundary`, after the first
/// `limit` lines, or all if there are fewer, have let their bytes fall;
/// `None` where one of them writes no place in the space.
pub fn parse_lines(lines: &Vec<Vec<char>>, limit: usize, boundary: (usize, usize)) -> (r: Option<
    Vec<Vec<char>>,
>)
    requires
        boundary.0 < usize::MAX,
        boundary.1 < usize::MAX,
    ensures
        match r {
            Some(grid) => fallen(
                rows(*lines),
                least(lines.len() as int, limit as int),
                (boundary.0 + 1) as nat,
                (boundary.1 + 1) as nat,
            ) == Some(rows(grid)),
            None => fallen(
                rows(*lines),
                least(lines.len() as int, limit as int),
                (boundary.0 + 1) as nat,
                (boundary.1 + 1) as nat,
            ) is None,
        },
{
    let m = boundary.0 + 1;
    let n = boundary.1 + 1;
    let mut grid: Vec<Vec<char>> = Vec::new();
    let mut i: usize = 0;
    while i < m
        invariant
            i <= m,
            grid.len() == i,
            forall|k: int| 0 <= k < i ==> (#[trigger] grid[k])@ == empty_space(m as nat, n as nat)[k],
        decreases m - i,
    {
        let mut row: Vec<char> = Vec::new();
        let mut j: usize = 0;
        while j < n
            invariant
                j <= n,
                row.len() == j,
                forall|k: int| 0 <= k < j ==> (#[trigger] row[k]) == '.',
            decreases n - j,
        {
            row.push('.');
            j += 1;
        }
        assert(row@ =~= empty_space(m as nat, n as nat)[i as int]);
        grid.push(row);
        i += 1;
    }
    assert(rows(grid) =~= empty_space(m as nat, n as nat));
    let count = if lines.len() < limit {
        lines.len()
    } else {
        limit
    };
    let mut k: usize = 0;
    while k < count
        invariant
            k <= count <= lines.len(),
            count == least(lines.len() as int, limit as int),
            m == boundary.0 + 1,
            n == boundary.1 + 1,
            grid.len() == m,
            forall|t: int| 0 <= t < m ==> (#[trigger] grid[t]).len() == n,
            fallen(rows(*lines), k as int, m as nat, n as nat) == Some(rows(grid)),
        decreases count - k,
    {
        assert(rows(*lines)[k as int] == lines[k as int]@);
        match parse_byte(&lines[k]) {
            Some((r, c)) => {
                if r < m && c < n {
                    let ghost before = rows(grid);
                    grid[r][c] = '#';
                    assert(rows(grid) =~~= put(before, r as int, c as int, '#'));
                } else {
                    proof {
                        lemma_fallen_stays_none(rows(*lines), k + 1, count as int, m as nat, n as nat);
                    }
                    return None;
                }
            },
            None => {
                proof {
                    lemma_fallen_stays_none(rows(*lines), k + 1, count as int, m as nat, n as nat);
                }
                return None;
            },
        }
        k += 1;
    }
    Some(grid)
}

/// Once a line has written no place, no memory space is left.
proof fn lemma_fallen_stays_none(lines: Seq<Seq<char>>, at: int, upto: int, m: nat, n: nat)
    requires
        at <= upto,
        fallen(lines, at, m, n) is None,
    ensures
        fallen(lines, upto, m, n) is None,
    decreases upto - at,
{
    if at < upto {
        lemma_fallen_stays_none(lines, at, upto - 1, m, n);
    }
}

/// The start of the way: the top left corner. The heading does not matter,
/// as turns are free.
pub open spec fn corner() -> SearchState {
    SearchState { position: Position { row: 0, col: 0 }, direction: Direction::Right }
}

/// The number of steps of the shortest way from the top left corner of
/// `grid` to `end`, through the places down to `end` that hold no byte;
/// `u32::MAX` where there is no way. `None` where `grid` does not reach
/// as far as `end`.
pub fn find_lowest_score(grid: &Vec<Vec<char>>, end: (usize, usize)) -> (r: Option<u32>)
    ensures
        match r {
            Some(score) => end.0 < usize::MAX && end.1 < usize::MAX && covers(
                rows(*grid),
                (end.0 + 1) as usize,
                (end.1 + 1) as usize,
            ) && is_shortest_cost(
                walls_of(rows(*grid), (end.0 + 1) as usize, (end.1 + 1) as usize),
                corner(),
                Position { row: end.0, col: end.1 },
                0,
                score,
            ),
            None => !(end.0 < usize::MAX && end.1 < usize::MAX && covers(
                rows(*grid),
                (end.0 + 1) as usize,
                (end.1 + 1) as usize,
            )),
        },
{
    if end.0 == usize::MAX || end.1 == usize::MAX {
        return None;
    }
    match Grid::of_walls(grid, end.0 + 1, end.1 + 1) {
        Some(maze) => {
            let start = SearchState {
                position: Position { row: 0, col: 0 },
                direction: Direction::Right,
            };
            Some(shortest_cost(&maze, start, Position { row: end.0, col: end.1 }, 0))
        },
        None => None,
    }
}

/// The number of steps of the shortest way through the memory space of the
/// puzzle, 71 by 71, after the first 1024 bytes have fallen.
pub open spec fn steps_after_kilobyte(lines: Seq<Seq<char>>) -> Option<u32> {
    match fallen(lines, least(lines.len() as int, 1024), 71, 71) {
        Some(grid) => Some(
            choose|score: u32|
                is_shortest_cost(
                    walls_of(grid, 71, 71),
                    corner(),
                    Position { row: 70, col: 70 },
                    0,
                    score,
                ),
        ),
        None => None,
    }
}

/// There is no way from the top left corner of `grid` to `end`.
pub open spec fn no_way(grid: Seq<Seq<char>>, end: (usize, usize)) -> bool {
    is_shortest_cost(
        walls_of(grid, (end.0 + 1) as usize, (end.1 + 1) as usize),
        corner(),
        Position { row: end.0, col: end.1 },
        0,
        u32::MAX,
    )
}

/// How the fall of further bytes ends.
#[derive(Debug, Copy, Clone, PartialEq, Eq, Structural)]
pub enum Cutoff {
    /// The byte of the line with this number has cut off the way.
    Blocked(usize),
    /// All bytes have fallen, and there is a way still.
    Open,
    /// The line with this number writes no place in the memory space.
    Unreadable(usize),
}

/// How the fall of the bytes of the lines from `k` on into `grid` ends:
/// with the first byte after which there is no way to `end`, with the
/// first line that writes no place in the space, or with the last line.
pub open spec fn fall_from(lines: Seq<Seq<char>>, grid: Seq<Seq<char>>, k: int, end: (usize, usize)) -> Cutoff
    decreases lines.len() - k,
{
    if k < 0 || k >= lines.len() {
        Cutoff::Open
    } else {
        match byte_of(lines[k]) {
            Some(at) => if at.0 < grid.len() && at.1 < grid[at.0 as int].len() {
                let next = put(grid, at.0 as int, at.1 as int, '#');
                if no_way(next, end) {
                    Cutoff::Blocked(k as usize)
                } else {
                    fall_from(lines, next, k + 1, end)
                }
            } else {
                Cutoff::Unreadable(k as usize)
            },
            None => Cutoff::Unreadable(k as usize),
        }
    }
}

/// Lets the bytes of the lines from `from` on fall into `grid`, one after
/// the other, until there is no way from its top left corner to `end`.
pub fn find_cutoff(lines: &Vec<Vec<char>>, grid: Vec<Vec<char>>, from: usize, end: (usize, usize)) -> (r:
    Cutoff)
    requires
        end.0 < usize::MAX,
        end.1 < usize::MAX,
        covers(rows(grid), (end.0 + 1) as usize, (end.1 + 1) as usize),
    ensures
        r == fall_from(rows(*lines), rows(grid), from as int, end),
{
    let mut space = grid;
    let mut k: usize = from;
    while k < lines.len()
        invariant
            end.0 < usize::MAX,
            end.1 < usize::MAX,
            covers(rows(space), (end.0 + 1) as usize, (end.1 + 1) as usize),
            fall_from(rows(*lines), rows(grid), from as int, end) == fall_from(
                rows(*lines),
                rows(space),
                k as int,
                end,
            ),
        decreases lines.len() - k,
    {
        assert(rows(*lines)[k as int] == lines[k as int]@);
        let (i, j) = match parse_byte(&lines[k]) {
            Some(at) => at,
            None => {
                return Cutoff::Unreadable(k);
            },
        };
        if i >= space.len() {
            return Cutoff::Unreadable(k);
        }
        assert(rows(space)[i as int] == space[i as int]@);
        if j >= space[i].len() {
            return Cutoff::Unreadable(k);
        }
        let ghost before = rows(space);
        space[i][j] = '#';
        proof {
            assert(rows(space) =~= put(before, i as int, j as int, '#'));
            assert forall|a: int| 0 <= a < end.0 + 1 implies (#[trigger] rows(space)[a]).len()
                >= end.1 + 1 by {
                assert(before[a].len() >= end.1 + 1);
            }
        }
        match find_lowest_score(&space, end) {
            Some(score) => {
                if score == u32::MAX {
                    return Cutoff::Blocked(k);
                }
                proof {
                    if no_way(rows(space), end) {
                        crate::y2024::day16::best::lemma_shortest_cost_unique(
                            walls_of(rows(space), (end.0 + 1) as usize, (end.1 + 1) as usize),
                            corner(),
                            Position { row: end.0, col: end.1 },
                            0,
                            score,
                            u32::MAX,
                        );
                    }
                }
            },
            None => {
                proof {
                    assert(false);
                }
            },
        }
        k += 1;
    }
    Cutoff::Open
}

/// Whether the bytes of the puzzle can all be read, the first 1024 and
/// those from the line 1025 on, until one of these cuts off the way.
pub open spec fn bytes_readable(lines: Seq<Seq<char>>) -> bool {
    match fallen(lines, least(lines.len() as int, 1024), 71, 71) {
        Some(grid) => !(fall_from(lines, grid, 1025, (70, 70)) is Unreadable),
        None => false,
    }
}

/// The fall of the bytes of the puzzle, 71 by 71: the first 1024, and then
/// those from the line 1025 on until one of them cuts off the way;
/// `None` where a line writes no place in the space.
pub fn cutoff_after_kilobyte(lines: &Vec<Vec<char>>) -> (r: Option<Cutoff>)
    ensures
        match r {
            Some(cutoff) => bytes_readable(rows(*lines)) && cutoff == fall_from(
                rows(*lines),
                fallen(rows(*lines), least(lines.len() as int, 1024), 71, 71)->0,
                1025,
                (70, 70),
            ),
            None => !bytes_readable(rows(*lines)),
        },
{
    match parse_lines(lines, 1024, (70, 70)) {
        None => None,
        Some(grid) => {
            proof {
                lemma_fallen_shape(rows(*lines), least(lines.len() as int, 1024), 71, 71);
            }
            match find_cutoff(lines, grid, 1025, (70, 70)) {
                Cutoff::Unreadable(_) => None,
                cutoff => Some(cutoff),
            }
        },
    }
}

impl AdventProblem for Day18 {
    open spec fn accepts_part_1(&self, lines: Seq<Seq<char>>) -> bool {
        true
    }

    open spec fn accepts_part_2(&self, lines: Seq<Seq<char>>) -> bool {
        true
    }

    open spec fn answer_part_1(&self, lines: Seq<Seq<char>>) -> Option<u32> {
        steps_after_kilobyte(lines)
    }

    open spec fn answer_part_2(&self, lines: Seq<Seq<char>>) -> Option<u32> {
        if bytes_readable(lines) {
            Some(0)
        } else {
            None
        }
    }

    fn run_part_1(&self, lines: Vec<String>) -> (r: Result<u32, AdventError>) {
        let text = chars_of_lines(&lines);
        match parse_lines(&text, 1024, (70, 70)) {
            None => Err(parse_error("a line writes no place in the memory space")),
            Some(grid) => {
                match find_lowest_score(&grid, (70, 70)) {
                    Some(score) => {
                        proof {
                            crate::y2024::day16::best::lemma_shortest_cost_unique(
                                walls_of(rows(grid), 71, 71),
                                corner(),
                                Position { row: 70, col: 70 },
                                0,
                                score,
                                steps_after_kilobyte(lines_view(lines))->0,
                            );
                        }
                        Ok(score)
                    },
                    None => {
                        proof {
                            lemma_fallen_shape(
                                lines_view(lines),
                                least(lines.len() as int, 1024),
                                71,
                                71,
                            );
                        }
                        Ok(0)
                    },
                }
            },
        }
    }

    fn run_part_2(&self, lines: Vec<String>) -> (r: Result<u32, AdventError>) {
        let text = chars_of_lines(&lines);
        match cutoff_after_kilobyte(&text) {
            Some(_) => Ok(0),
            None => Err(parse_error("a line writes no place in the memory space")),
        }
    }
}

/// The memory space keeps its shape while bytes fall.
proof fn lemma_fallen_shape(lines: Seq<Seq<char>>, upto: int, m: nat, n: nat)
    requires
        fallen(lines, upto, m, n) is Some,
    ensures
        fallen(lines, upto, m, n)->0.len() == m,
        forall|i: int| 0 <= i < m ==> (#[trigger] fallen(lines, upto, m, n)->0[i]).len() == n,
    decreases upto,
{
    if upto > 0 {
        lemma_fallen_shape(lines, upto - 1, m, n);
    }
}

} // verus!
