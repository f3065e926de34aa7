//! Hiking trails that climb from 0 to 9, one step of height at a time.

use crate::table::{find_all, insert_unique, positions_of, rows};
use crate::text::{chars_of_lines, digit_value, to_digit};
use crate::{lines_view, wrapped, AdventError, AdventProblem};
use vstd::arithmetic::div_mod::lemma_add_mod_noop;
use vstd::prelude::*;

verus! {

pub struct Day10;

/// A place where a trail begins, with what it scores.
#[derive(Debug)]
pub struct Trailhead {
    pub start: (usize, usize),
    pub score: u32,
}

/// The four ways to go on a map.
#[derive(Debug, Copy, Clone, PartialEq, Eq, Structural)]
pub enum Direction {
    North,
    South,
    East,
    West,
}

/// The place next to `space` in the direction `direction`, if it lies on
/// a map of `boundary.0` rows and `boundary.1` columns.
pub open spec fn neighbor(space: (usize, usize), boundary: (usize, usize), direction: Direction) -> Option<
    (usize, usize),
> {
    match direction {
        Direction::North => if space.0 == 0 {
            None
        } else {
            Some(((space.0 - 1) as usize, space.1))
        },
        Direction::South => if space.0 + 1 >= boundary.0 {
            None
        } else {
            Some(((space.0 + 1) as usize, space.1))
        },
        Direction::East => if space.1 + 1 >= boundary.1 {
            None
        } else {
            Some((space.0, (space.1 + 1) as usize))
        },
        Direction::West => if space.1 == 0 {
            None
        } else {
            Some((space.0, (space.1 - 1) as usize))
        },
    }
}

pub fn next_space(space: (usize, usize), boundary: (usize, usize), direction: Direction) -> (r: Option<
    (usize, usize),
>)
    ensures
        r == neighbor(space, boundary, direction),
{
    let (row, col) = space;
    let (m, n) = boundary;
    match direction {
        Direction::North => {
            if row == 0 {
                None
            } else {
                Some((row - 1, col))
            }
        },
        Direction::South => {
            if m == 0 || row >= m - 1 {
                None
            } else {
                Some((row + 1, col))
            }
        },
        Direction::East => {
            if n == 0 || col >= n - 1 {
                None
            } else {
                Some((row, col + 1))
            }
        },
        Direction::West => {
            if col == 0 {
                None
            } else {
                Some((row, col - 1))
            }
        },
    }
}

/// The height that the map shows at `p`, if `p` lies on the map and the
/// map shows a digit there.
pub open spec fn height_at(grid: Seq<Seq<char>>, p: (usize, usize)) -> Option<u32> {
    if p.0 < grid.len() && p.1 < grid[p.0 as int].len() {
        digit_value(grid[p.0 as int][p.1 as int])
    } else {
        None
    }
}

/// The place to which a trail at `p` and at the height `h` goes on in the
/// direction `d`: the neighbour there, if it is one higher.
pub open spec fn step(grid: Seq<Seq<char>>, boundary: (usize, usize), p: (usize, usize), h: u32, d: Direction) -> Option<
    (usize, usize),
> {
    match neighbor(p, boundary, d) {
        Some(q) => if height_at(grid, q) == Some((h + 1) as u32) {
            Some(q)
        } else {
            None
        },
        None => None,
    }
}

/// The number of trails that lead from `p`, taken to lie at the height
/// `h`, up to the height 9.
pub open spec fn trails_from(grid: Seq<Seq<char>>, boundary: (usize, usize), p: (usize, usize), h: u32) -> nat
    decreases 9 - h,
{
    if h >= 9 {
        1
    } else {
        trails_on(grid, boundary, p, h, Direction::North) + trails_on(
            grid,
            boundary,
            p,
            h,
            Direction::South,
        ) + trails_on(grid, boundary, p, h, Direction::East) + trails_on(
            grid,
            boundary,
            p,
            h,
            Direction::West,
        )
    }
}

/// The number of trails that lead from `p` at the height `h` up to the
/// height 9 and begin in the direction `d`.
pub open spec fn trails_on(grid: Seq<Seq<char>>, boundary: (usize, usize), p: (usize, usize), h: u32, d: Direction) -> nat
    decreases 9 - h, 0int,
{
    if h >= 9 {
        0
    } else {
        match step(grid, boundary, p, h, d) {
            Some(q) => trails_from(grid, boundary, q, (h + 1) as u32),
            None => 0,
        }
    }
}

/// Four to the power `k`.
pub open spec fn pow4(k: nat) -> nat
    decreases k,
{
    if k == 0 {
        1
    } else {
        4 * pow4((k - 1) as nat)
    }
}

/// From the height `h` lead at most four to the power `9 - h` trails.
pub proof fn lemma_trails_bound(grid: Seq<Seq<char>>, boundary: (usize, usize), p: (usize, usize), h: u32)
    requires
        h <= 9,
    ensures
        trails_from(grid, boundary, p, h) <= pow4((9 - h) as nat),
        pow4((9 - h) as nat) <= 262144,
    decreases 9 - h,
{
    if h < 9 {
        let g = (h + 1) as u32;
        if let Some(q) = step(grid, boundary, p, h, Direction::North) {
            lemma_trails_bound(grid, boundary, q, g);
        }
        if let Some(q) = step(grid, boundary, p, h, Direction::South) {
            lemma_trails_bound(grid, boundary, q, g);
        }
        if let Some(q) = step(grid, boundary, p, h, Direction::East) {
            lemma_trails_bound(grid, boundary, q, g);
        }
        if let Some(q) = step(grid, boundary, p, h, Direction::West) {
            lemma_trails_bound(grid, boundary, q, g);
        }
        lemma_trails_bound(grid, boundary, p, g);
    }
    assert(pow4(9) == 262144) by {
        reveal_with_fuel(pow4, 10);
    }
    assert(pow4((9 - h) as nat) <= 262144) by {
        reveal_with_fuel(pow4, 10);
    }
}

/// The place to which a trail at `space` and at the height `height` goes on
/// in the direction `dir`.
pub fn climb(grid: &Vec<Vec<char>>, space: (usize, usize), boundary: (usize, usize), height: u32, dir: Direction) -> (r: Option<
    (usize, usize),
>)
    requires
        height < 9,
    ensures
        r == step(rows(*grid), boundary, space, height, dir),
{
    match next_space(space, boundary, dir) {
        Some((nr, nc)) => {
            if nr < grid.len() && nc < grid[nr].len() {
                assert(rows(*grid)[nr as int] == grid[nr as int]@);
                match to_digit(grid[nr][nc]) {
                    Some(d) => if d == height + 1 {
                        Some((nr, nc))
                    } else {
                        None
                    },
                    None => None,
                }
            } else {
                None
            }
        },
        None => None,
    }
}

/// The number of trails that lead from `space`, taken to lie at the height
/// `height`, up to the height 9.
pub fn rating_from(grid: &Vec<Vec<char>>, space: (usize, usize), boundary: (usize, usize), height: u32) -> (r: usize)
    requires
        height <= 9,
    ensures
        r == trails_from(rows(*grid), boundary, space, height),
    decreases 9 - height,
{
    if height >= 9 {
        return 1;
    }
    let mut rating: usize = 0;
    proof {
        lemma_trails_bound(rows(*grid), boundary, space, height);
        lemma_trails_bound(rows(*grid), boundary, space, (height + 1) as u32);
    }
    if let Some(next) = climb(grid, space, boundary, height, Direction::North) {
        proof {
            lemma_trails_bound(rows(*grid), boundary, next, (height + 1) as u32);
        }
        rating += rating_from(grid, next, boundary, height + 1);
    }
    if let Some(next) = climb(grid, space, boundary, height, Direction::South) {
        proof {
            lemma_trails_bound(rows(*grid), boundary, next, (height + 1) as u32);
        }
        rating += rating_from(grid, next, boundary, height + 1);
    }
    if let Some(next) = climb(grid, space, boundary, height, Direction::East) {
        proof {
            lemma_trails_bound(rows(*grid), boundary, next, (height + 1) as u32);
        }
        rating += rating_from(grid, next, boundary, height + 1);
    }
    if let Some(next) = climb(grid, space, boundary, height, Direction::West) {
        proof {
            lemma_trails_bound(rows(*grid), boundary, next, (height + 1) as u32);
        }
        rating += rating_from(grid, next, boundary, height + 1);
    }
    rating
}

/// The number of trails that lead from `start` up to the height 9.
pub fn compute_rating(grid: &Vec<Vec<char>>, start: (usize, usize), boundary: (usize, usize)) -> (r: usize)
    ensures
        r == trails_from(rows(*grid), boundary, start, 0),
        r <= 262144,
{
    proof {
        lemma_trails_bound(rows(*grid), boundary, start, 0);
    }
    rating_from(grid, start, boundary, 0)
}

/// A trail leads from `p` at the height `h` up to the height 9 at `end`.
pub open spec fn leads_to(grid: Seq<Seq<char>>, boundary: (usize, usize), p: (usize, usize), h: u32, end: (usize, usize)) -> bool
    decreases 9 - h,
{
    if h >= 9 {
        p == end
    } else {
        leads_on(grid, boundary, p, h, Direction::North, end) || leads_on(
            grid,
            boundary,
            p,
            h,
            Direction::South,
            end,
        ) || leads_on(grid, boundary, p, h, Direction::East, end) || leads_on(
            grid,
            boundary,
            p,
            h,
            Direction::West,
            end,
        )
    }
}

/// A trail that begins in the direction `d` leads from `p` at the height
/// `h` up to the height 9 at `end`.
pub open spec fn leads_on(grid: Seq<Seq<char>>, boundary: (usize, usize), p: (usize, usize), h: u32, d: Direction, end: (usize, usize)) -> bool
    decreases 9 - h, 0int,
{
    if h >= 9 {
        false
    } else {
        match step(grid, boundary, p, h, d) {
            Some(q) => leads_to(grid, boundary, q, (h + 1) as u32, end),
            None => false,
        }
    }
}

/// Notes in `ends` the places at the height 9 to which trails lead from
/// `space`, taken to lie at the height `height`.
pub fn collect_ends(grid: &Vec<Vec<char>>, space: (usize, usize), boundary: (usize, usize), height: u32, ends: &mut Vec<(usize, usize)>)
    requires
        height <= 9,
        old(ends)@.no_duplicates(),
    ensures
        final(ends)@.no_duplicates(),
        forall|end: (usize, usize)| #[trigger]
            final(ends)@.contains(end) <==> old(ends)@.contains(end) || leads_to(
                rows(*grid),
                boundary,
                space,
                height,
                end,
            ),
    decreases 9 - height,
{
    if height >= 9 {
        insert_unique(ends, space);
        return ;
    }
    if let Some(next) = climb(grid, space, boundary, height, Direction::North) {
        collect_ends(grid, next, boundary, height + 1, ends);
    }
    if let Some(next) = climb(grid, space, boundary, height, Direction::South) {
        collect_ends(grid, next, boundary, height + 1, ends);
    }
    if let Some(next) = climb(grid, space, boundary, height, Direction::East) {
        collect_ends(grid, next, boundary, height + 1, ends);
    }
    if let Some(next) = climb(grid, space, boundary, height, Direction::West) {
        collect_ends(grid, next, boundary, height + 1, ends);
    }
}

/// The places at the height 9 to which trails lead from `start`.
pub open spec fn trail_ends(grid: Seq<Seq<char>>, boundary: (usize, usize), start: (usize, usize)) -> Set<
    (usize, usize),
> {
    Set::new(|end: (usize, usize)| leads_to(grid, boundary, start, 0, end))
}

/// The number of places at the height 9 to which trails lead from `start`,
/// reduced modulo 2^32.
pub fn compute_score(grid: &Vec<Vec<char>>, start: (usize, usize), boundary: (usize, usize)) -> (r: u32)
    ensures
        trail_ends(rows(*grid), boundary, start).finite(),
        r == wrapped(trail_ends(rows(*grid), boundary, start).len()),
{
    let mut trailends: Vec<(usize, usize)> = Vec::new();
    collect_ends(grid, start, boundary, 0, &mut trailends);
    proof {
        trailends@.unique_seq_to_set();
        assert(trailends@.to_set() =~= trail_ends(rows(*grid), boundary, start));
    }
    ((trailends.len() as u64) % 0x1_0000_0000) as u32
}

/// The number of rows of `grid` and of columns of its first row.
pub open spec fn boundary_of(grid: Seq<Seq<char>>) -> (usize, usize) {
    if grid.len() == 0 {
        (0, 0)
    } else {
        (grid.len() as usize, grid[0].len() as usize)
    }
}

/// The number of rows of `grid` and of columns of its first row.
pub fn boundary(grid: &Vec<Vec<char>>) -> (r: (usize, usize))
    ensures
        r == boundary_of(rows(*grid)),
{
    if grid.len() == 0 {
        (0, 0)
    } else {
        assert(rows(*grid)[0] == grid[0]@);
        (grid.len(), grid[0].len())
    }
}

/// The places at which trails begin: where the map shows a 0.
pub open spec fn heads(grid: Seq<Seq<char>>) -> Seq<(usize, usize)> {
    positions_of(grid, '0', grid.len() as int)
}

/// What the trailhead at `start` scores: the number of places at the height
/// 9 to which its trails lead, or the number of its trails if `rated`.
pub open spec fn worth(grid: Seq<Seq<char>>, start: (usize, usize), rated: bool) -> u32 {
    if rated {
        trails_from(grid, boundary_of(grid), start, 0) as u32
    } else {
        wrapped(trail_ends(grid, boundary_of(grid), start).len())
    }
}

/// The trailheads of the map, row by row, each with its score.
pub fn find_trailheads(grid: &Vec<Vec<char>>) -> (r: Vec<Trailhead>)
    ensures
        r.len() == heads(rows(*grid)).len(),
        forall|i: int|
            0 <= i < r.len() ==> (#[trigger] r[i]).start == heads(rows(*grid))[i] && r[i].score
                == worth(rows(*grid), r[i].start, false),
{
    let bounds = boundary(grid);
    let starts = find_all(grid, '0');
    let mut trailheads: Vec<Trailhead> = Vec::new();
    let mut i: usize = 0;
    while i < starts.len()
        invariant
            i <= starts.len(),
            starts@ == heads(rows(*grid)),
            bounds == boundary_of(rows(*grid)),
            trailheads.len() == i,
            forall|k: int|
                0 <= k < i ==> (#[trigger] trailheads[k]).start == starts[k] && trailheads[k].score
                    == worth(rows(*grid), trailheads[k].start, false),
        decreases starts.len() - i,
    {
        let score = compute_score(grid, starts[i], bounds);
        trailheads.push(Trailhead { start: starts[i], score });
        i += 1;
    }
    trailheads
}

/// The trailheads of the map, row by row, each with the number of its trails.
pub fn find_trailhead_ratings(grid: &Vec<Vec<char>>) -> (r: Vec<Trailhead>)
    ensures
        r.len() == heads(rows(*grid)).len(),
        forall|i: int|
            0 <= i < r.len() ==> (#[trigger] r[i]).start == heads(rows(*grid))[i] && r[i].score
                == worth(rows(*grid), r[i].start, true),
{
    let bounds = boundary(grid);
    let starts = find_all(grid, '0');
    let mut trailheads: Vec<Trailhead> = Vec::new();
    let mut i: usize = 0;
    while i < starts.len()
        invariant
            i <= starts.len(),
            starts@ == heads(rows(*grid)),
            bounds == boundary_of(rows(*grid)),
            trailheads.len() == i,
            forall|k: int|
                0 <= k < i ==> (#[trigger] trailheads[k]).start == starts[k] && trailheads[k].score
                    == worth(rows(*grid), trailheads[k].start, true),
        decreases starts.len() - i,
    {
        let rating = compute_rating(grid, starts[i], bounds);
        trailheads.push(Trailhead { start: starts[i], score: rating as u32 });
        i += 1;
    }
    trailheads
}

/// The sum of what the first `upto` trailheads of the map score, reduced
/// modulo 2^32.
pub open spec fn total_worth(grid: Seq<Seq<char>>, rated: bool, upto: int) -> u32
    decreases upto,
{
    if upto <= 0 {
        0
    } else {
        ((total_worth(grid, rated, upto - 1) + worth(grid, heads(grid)[upto - 1], rated))
            % 0x1_0000_0000) as u32
    }
}

/// The sum of what the trailheads score, reduced modulo 2^32.
pub fn total_score(grid: &Vec<Vec<char>>, rated: bool) -> (r: u32)
    ensures
        r == total_worth(rows(*grid), rated, heads(rows(*grid)).len() as int),
{
    let trailheads = if rated {
        find_trailhead_ratings(grid)
    } else {
        find_trailheads(grid)
    };
    let mut total: u32 = 0;
    let mut i: usize = 0;
    while i < trailheads.len()
        invariant
            i <= trailheads.len(),
            trailheads.len() == heads(rows(*grid)).len(),
            forall|k: int|
                0 <= k < trailheads.len() ==> (#[trigger] trailheads[k]).start == heads(
                    rows(*grid),
                )[k] && trailheads[k].score == worth(rows(*grid), trailheads[k].start, rated),
            total == total_worth(rows(*grid), rated, i as int),
        decreases trailheads.len() - i,
    {
        total = ((total as u64 + trailheads[i].score as u64) % 0x1_0000_0000) as u32;
        i += 1;
    }
    total
}

impl AdventProblem for Day10 {
    open spec fn accepts_part_1(&self, lines: Seq<Seq<char>>) -> bool {
        true
    }

    open spec fn accepts_part_2(&self, lines: Seq<Seq<char>>) -> bool {
        true
    }

    open spec fn answer_part_1(&self, lines: Seq<Seq<char>>) -> Option<u32> {
        Some(total_worth(lines, false, heads(lines).len() as int))
    }

    open spec fn answer_part_2(&self, lines: Seq<Seq<char>>) -> Option<u32> {
        Some(total_worth(lines, true, heads(lines).len() as int))
    }

    fn run_part_1(&self, lines: Vec<String>) -> (r: Result<u32, AdventError>) {
        let grid = chars_of_lines(&lines);
        Ok(total_score(&grid, false))
    }

    fn run_part_2(&self, lines: Vec<String>) -> (r: Result<u32, AdventError>) {
        let grid = chars_of_lines(&lines);
        Ok(total_score(&grid, true))
    }
}

} // verus!
