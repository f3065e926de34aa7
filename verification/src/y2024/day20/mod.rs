//! A race track, and the cheats that shorten the race.

use crate::table::{find_all, positions_of, row_positions, rows, sum_over};
use crate::text::{chars_of_lines, parse_error};
use crate::y2024::day16::grid::{covers, walls_of, Cell, Grid, Position};
use crate::y2024::day16::steps::{is_steps, lemma_steps_unique, steps_table};
use crate::{lines_view, wrapped, AdventError, AdventProblem};
use vstd::arithmetic::div_mod::lemma_add_mod_noop;
use vstd::prelude::*;

pub use crate::y2024::day16::grid::Direction;

verus! {

pub struct Day20;

/// The place `offset` steps from `space` in the direction `direction`, if
/// it lies on a track of `boundary.0` rows and `boundary.1` columns.
pub open spec fn neighbor(
    space: (usize, usize),
    boundary: (usize, usize),
    offset: usize,
    direction: Direction,
) -> Option<(usize, usize)> {
    match direction {
        Direction::Up => if space.0 < offset {
            None
        } else {
            Some(((space.0 - offset) as usize, space.1))
        },
        Direction::Down => if space.0 + offset >= boundary.0 {
            None
        } else {
            Some(((space.0 + offset) as usize, space.1))
        },
        Direction::Left => if space.1 < offset {
            None
        } else {
            Some((space.0, (space.1 - offset) as usize))
        },
        Direction::Right => if space.1 + offset >= boundary.1 {
            None
        } else {
            Some((space.0, (space.1 + offset) as usize))
        },
    }
}

pub fn next_space(
    space: (usize, usize),
    boundary: (usize, usize),
    offset: usize,
    direction: Direction,
) -> (r: Option<(usize, usize)>)
    ensures
        r == neighbor(space, boundary, offset, direction),
{
    let (row, col) = space;
    let (m, n) = boundary;
    match direction {
        Direction::Up => {
            if row < offset {
                None
            } else {
                Some((row - offset, col))
            }
        },
        Direction::Down => {
            if offset >= m || row >= m - offset {
                None
            } else {
                Some((row + offset, col))
            }
        },
        Direction::Left => {
            if col < offset {
                None
            } else {
                Some((row, col - offset))
            }
        },
        Direction::Right => {
            if offset >= n || col >= n - offset {
                None
            } else {
                Some((row, col + offset))
            }
        },
    }
}

/// The place of the end of the race: the last `E` of the track, or the
/// top left corner if the track shows none.
pub open spec fn end_of(grid: Seq<Seq<char>>) -> Position {
    let all = positions_of(grid, 'E', grid.len() as int);
    if all.len() == 0 {
        Position { row: 0, col: 0 }
    } else {
        Position { row: all.last().0, col: all.last().1 }
    }
}

/// The track is a rectangle of at least one place.
pub open spec fn is_track(grid: Seq<Seq<char>>) -> bool {
    &&& grid.len() > 0
    &&& grid.len() <= usize::MAX
    &&& grid[0].len() > 0
    &&& grid[0].len() <= usize::MAX
    &&& forall|i: int| 0 <= i < grid.len() ==> (#[trigger] grid[i]).len() == grid[0].len()
}

/// For every place of the track, the number of steps of the shortest way
/// from the end of the race to it that avoids the walls, or `u32::MAX` if
/// there is none. `None` where the track is no rectangle.
pub fn find_shortest_distances(grid: &Vec<Vec<char>>) -> (r: Option<Vec<Vec<u32>>>)
    ensures
        match r {
            Some(distances) => {
                &&& is_track(rows(*grid))
                &&& distances.len() == grid.len()
                &&& forall|i: int|
                    0 <= i < distances.len() ==> (#[trigger] distances[i]).len() == grid[0].len()
                &&& forall|i: int, j: int|
                    0 <= i < distances.len() && 0 <= j < distances[i].len() ==> is_steps(
                        walls_of(rows(*grid), grid.len(), grid[0].len()),
                        end_of(rows(*grid)),
                        Position { row: i as usize, col: j as usize },
                        #[trigger] distances[i][j],
                    )
            },
            None => !is_track(rows(*grid)),
        },
{
    if grid.len() == 0 {
        return None;
    }
    assert(rows(*grid)[0] == grid[0]@);
    let m = grid.len();
    let n = grid[0].len();
    let mut i: usize = 0;
    while i < m
        invariant
            i <= m,
            m == grid.len(),
            n == grid[0].len(),
            forall|k: int| 0 <= k < i ==> (#[trigger] rows(*grid)[k]).len() == n,
        decreases m - i,
    {
        assert(rows(*grid)[i as int] == grid[i as int]@);
        if grid[i].len() != n {
            return None;
        }
        i += 1;
    }
    let maze = match Grid::of_walls(grid, m, n) {
        Some(maze) => maze,
        None => {
            return None;
        },
    };
    let ghost cells = maze@;
    let ends = find_all(grid, 'E');
    let end = if ends.len() == 0 {
        Position { row: 0, col: 0 }
    } else {
        let last = ends[ends.len() - 1];
        Position { row: last.0, col: last.1 }
    };
    if end.row >= m || end.col >= n {
        // A place of the track lies on the track.
        proof {
            lemma_positions_inside(rows(*grid), 'E', grid.len() as int);
            assert(ends@.last() == ends@[ends.len() - 1]);
        }
        return None;
    }
    let distances = steps_table(&maze, end);
    proof {
        lemma_positions_inside(rows(*grid), 'E', grid.len() as int);
    }
    Some(distances)
}

/// The distances fit the track: one for every place.
pub open spec fn fits_track(grid: Seq<Seq<char>>, distances: Seq<Seq<u32>>) -> bool {
    &&& is_track(grid)
    &&& distances.len() == grid.len()
    &&& forall|i: int| 0 <= i < distances.len() ==> (#[trigger] distances[i]).len() == grid[0].len()
}

/// A cheat that leads in `d` steps from `p` to `q`, which is no wall,
/// saves at least 100 steps.
pub open spec fn is_cheat(
    grid: Seq<Seq<char>>,
    distances: Seq<Seq<u32>>,
    p: (int, int),
    q: (int, int),
    d: int,
) -> bool {
    grid[q.0][q.1] != '#' && distances[q.0][q.1] + d + 100 <= distances[p.0][p.1]
}

/// 1 if a cheat of two steps in the direction `direction` from the place
/// in row `i` and column `j`, which is no wall, saves at least 100 steps,
/// and else 0.
#[verifier::opaque]
pub open spec fn cheat_2(
    grid: Seq<Seq<char>>,
    distances: Seq<Seq<u32>>,
    i: int,
    j: int,
    direction: Direction,
) -> nat {
    match neighbor(
        (i as usize, j as usize),
        (grid.len() as usize, grid[0].len() as usize),
        2,
        direction,
    ) {
        Some(q) => if grid[i][j] != '#' && is_cheat(
            grid,
            distances,
            (i, j),
            (q.0 as int, q.1 as int),
            2,
        ) {
            1
        } else {
            0
        },
        None => 0,
    }
}

/// The number of cheats of two steps from the place in row `i` and column
/// `j` that save at least 100 steps.
pub open spec fn cheats_2_at(grid: Seq<Seq<char>>, distances: Seq<Seq<u32>>, i: int, j: int) -> nat {
    cheat_2(grid, distances, i, j, Direction::Up) + cheat_2(grid, distances, i, j, Direction::Left)
        + cheat_2(grid, distances, i, j, Direction::Right) + cheat_2(
        grid,
        distances,
        i,
        j,
        Direction::Down,
    )
}

/// The number of cheats of two steps that save at least 100 steps.
pub open spec fn cheats_2(grid: Seq<Seq<char>>, distances: Seq<Seq<u32>>) -> nat {
    sum_over(
        0,
        grid.len() as int,
        |i: int| sum_over(0, grid[0].len() as int, |j: int| cheats_2_at(grid, distances, i, j)),
    )
}

/// 1 for a cheat of two steps that saves at least 100 steps, and else 0.
fn cheat_2_at(
    grid: &Vec<Vec<char>>,
    distances: &Vec<Vec<u32>>,
    i: usize,
    j: usize,
    direction: Direction,
) -> (r: u64)
    requires
        fits_track(rows(*grid), rows(*distances)),
        i < grid.len(),
        j < grid[0].len(),
    ensures
        r == cheat_2(rows(*grid), rows(*distances), i as int, j as int, direction),
        r <= 1,
{
    reveal(cheat_2);
    assert(rows(*grid)[0] == grid[0]@ && rows(*grid)[i as int] == grid[i as int]@);
    assert(rows(*distances)[i as int] == distances[i as int]@);
    assert(rows(*grid)[i as int].len() == rows(*grid)[0].len());
    let boundary = (grid.len(), grid[0].len());
    match next_space((i, j), boundary, 2, direction) {
        Some((nr, nc)) => {
            assert(rows(*grid)[nr as int] == grid[nr as int]@);
            assert(rows(*distances)[nr as int] == distances[nr as int]@);
            assert(rows(*grid)[nr as int].len() == rows(*grid)[0].len());
            if grid[i][j] != '#' && grid[nr][nc] != '#' && distances[nr][nc] as u64 + 102
                <= distances[i][j] as u64 {
                1
            } else {
                0
            }
        },
        None => 0,
    }
}

/// The number of cheats of two steps, straight through a wall, that save
/// at least 100 steps, reduced modulo 2^32.
pub fn find_2ps_shortcuts(grid: &Vec<Vec<char>>, shortest_distances: &Vec<Vec<u32>>) -> (r: u32)
    requires
        fits_track(rows(*grid), rows(*shortest_distances)),
    ensures
        r == wrapped(cheats_2(rows(*grid), rows(*shortest_distances))),
{
    let ghost text = rows(*grid);
    let ghost sd = rows(*shortest_distances);
    let m = grid.len();
    assert(text[0] == grid[0]@);
    let n = grid[0].len();
    let ghost inner = |i: int| sum_over(0, n as int, |j: int| cheats_2_at(text, sd, i, j));
    let mut total: u64 = 0;
    let mut i: usize = 0;
    while i < m
        invariant
            i <= m,
            m == grid.len(),
            n == grid[0].len(),
            text == rows(*grid),
            sd == rows(*shortest_distances),
            fits_track(text, sd),
            inner == |i: int| sum_over(0, n as int, |j: int| cheats_2_at(text, sd, i, j)),
            total < 0x1_0000_0000,
            total == sum_over(0, i as int, inner) % 0x1_0000_0000,
        decreases m - i,
    {
        let ghost f = |j: int| cheats_2_at(text, sd, i as int, j);
        let mut here: u64 = 0;
        let mut j: usize = 0;
        while j < n
            invariant
                j <= n,
                i < m,
                m == grid.len(),
                n == grid[0].len(),
                text == rows(*grid),
                sd == rows(*shortest_distances),
                fits_track(text, sd),
                f == |j: int| cheats_2_at(text, sd, i as int, j),
                here < 0x1_0000_0000,
                here == sum_over(0, j as int, f) % 0x1_0000_0000,
            decreases n - j,
        {
            let more = cheat_2_at(grid, shortest_distances, i, j, Direction::Up) + cheat_2_at(
                grid,
                shortest_distances,
                i,
                j,
                Direction::Left,
            ) + cheat_2_at(grid, shortest_distances, i, j, Direction::Right) + cheat_2_at(
                grid,
                shortest_distances,
                i,
                j,
                Direction::Down,
            );
            proof {
                lemma_add_mod_noop(sum_over(0, j as int, f) as int, more as int, 0x1_0000_0000);
            }
            here = (here + more) % 0x1_0000_0000;
            j += 1;
        }
        proof {
            assert(inner(i as int) == sum_over(0, n as int, f));
            lemma_add_mod_noop(
                sum_over(0, i as int, inner) as int,
                inner(i as int) as int,
                0x1_0000_0000,
            );
        }
        total = (total + here) % 0x1_0000_0000;
        i += 1;
    }
    total as u32
}

/// The number of steps between `p` and `q` where nothing is in the way.
pub open spec fn span(p: (int, int), q: (int, int)) -> int {
    (if p.0 <= q.0 {
        q.0 - p.0
    } else {
        p.0 - q.0
    }) + (if p.1 <= q.1 {
        q.1 - p.1
    } else {
        p.1 - q.1
    })
}

/// 1 if a cheat of at most 20 steps from `p`, which is no wall, to `q`
/// saves at least 100 steps, and else 0.
pub open spec fn cheat_20(grid: Seq<Seq<char>>, distances: Seq<Seq<u32>>, p: (int, int), q: (int, int)) -> nat {
    if grid[p.0][p.1] != '#' && span(p, q) <= 20 && is_cheat(grid, distances, p, q, span(p, q)) {
        1
    } else {
        0
    }
}

/// The first of the rows, or columns, up to 20 before `at`.
pub open spec fn window_lo(at: int) -> int {
    if at < 20 {
        0
    } else {
        at - 20
    }
}

/// The end of the rows, or columns, up to 20 behind `at`, of `size` in all.
pub open spec fn window_hi(at: int, size: int) -> int {
    if at + 21 < size {
        at + 21
    } else {
        size
    }
}

/// The number of cheats of at most 20 steps from the place in row `i` and
/// column `j` that save at least 100 steps.
pub open spec fn cheats_20_at(grid: Seq<Seq<char>>, distances: Seq<Seq<u32>>, i: int, j: int) -> nat {
    sum_over(
        window_lo(i),
        window_hi(i, grid.len() as int),
        |r: int|
            sum_over(
                window_lo(j),
                window_hi(j, grid[0].len() as int),
                |c: int| cheat_20(grid, distances, (i, j), (r, c)),
            ),
    )
}

/// The number of cheats of at most 20 steps that save at least 100 steps.
pub open spec fn cheats_20(grid: Seq<Seq<char>>, distances: Seq<Seq<u32>>) -> nat {
    sum_over(
        0,
        grid.len() as int,
        |i: int| sum_over(0, grid[0].len() as int, |j: int| cheats_20_at(grid, distances, i, j)),
    )
}

/// How far `a` and `b` lie apart.
fn gap(a: usize, b: usize) -> (r: usize)
    ensures
        r == if a <= b { b - a } else { a - b },
{
    if a <= b {
        b - a
    } else {
        a - b
    }
}

/// The number of cheats of at most 20 steps from the place in row `i` and
/// column `j` that save at least 100 steps.
fn cheats_from(grid: &Vec<Vec<char>>, distances: &Vec<Vec<u32>>, i: usize, j: usize) -> (r: u64)
    requires
        fits_track(rows(*grid), rows(*distances)),
        i < grid.len(),
        j < grid[0].len(),
    ensures
        r == cheats_20_at(rows(*grid), rows(*distances), i as int, j as int),
        r <= 41 * 41,
{
    let ghost text = rows(*grid);
    let ghost sd = rows(*distances);
    let m = grid.len();
    assert(text[0] == grid[0]@);
    let n = grid[0].len();
    let r_lo = if i < 20 { 0 } else { i - 20 };
    let r_hi = if m - i > 21 { i + 21 } else { m };
    let c_lo = if j < 20 { 0 } else { j - 20 };
    let c_hi = if n - j > 21 { j + 21 } else { n };
    let ghost inner = |r: int|
        sum_over(c_lo as int, c_hi as int, |c: int| cheat_20(text, sd, (i as int, j as int), (r, c)));
    let mut total: u64 = 0;
    let mut r = r_lo;
    assert(text[i as int] == grid[i as int]@);
    assert(sd[i as int] == distances[i as int]@);
    while r < r_hi
        invariant
            r_lo <= r <= r_hi <= m,
            r_hi - r_lo <= 41,
            c_lo <= c_hi <= n,
            c_hi - c_lo <= 41,
            i < m,
            j < n,
            m == grid.len(),
            n == grid[0].len(),
            text == rows(*grid),
            sd == rows(*distances),
            fits_track(text, sd),
            inner == |r: int|
                sum_over(
                    c_lo as int,
                    c_hi as int,
                    |c: int| cheat_20(text, sd, (i as int, j as int), (r, c)),
                ),
            total == sum_over(r_lo as int, r as int, inner),
            total <= (r - r_lo) * 41,
        decreases r_hi - r,
    {
        let ghost f = |c: int| cheat_20(text, sd, (i as int, j as int), (r as int, c));
        let mut here: u64 = 0;
        let mut c = c_lo;
        assert(text[r as int] == grid[r as int]@);
        assert(sd[r as int] == distances[r as int]@);
        assert(text[i as int] == grid[i as int]@);
        assert(sd[i as int] == distances[i as int]@);
        while c < c_hi
            invariant
                c_lo <= c <= c_hi <= n,
                c_hi - c_lo <= 41,
                i < m,
                j < n,
                r < m,
                m == grid.len(),
                n == grid[0].len(),
                grid[r as int].len() == n,
                grid[i as int].len() == n,
                distances.len() == m,
                distances[r as int].len() == n,
                distances[i as int].len() == n,
                text == rows(*grid),
                sd == rows(*distances),
                f == |c: int| cheat_20(text, sd, (i as int, j as int), (r as int, c)),
                here == sum_over(c_lo as int, c as int, f),
                here <= c - c_lo,
            decreases c_hi - c,
        {
            let d: u128 = gap(i, r) as u128 + gap(j, c) as u128;
            assert(text[r as int] == grid[r as int]@);
            assert(sd[r as int] == distances[r as int]@);
            assert(text[i as int] == grid[i as int]@);
            assert(sd[i as int] == distances[i as int]@);
            if grid[i][j] != '#' && d <= 20 && grid[r][c] != '#' && distances[r][c] as u128 + d
                + 100 <= distances[i][j] as u128 {
                here += 1;
            }
            c += 1;
        }
        proof {
            assert(inner(r as int) == sum_over(c_lo as int, c_hi as int, f));
        }
        total += here;
        r += 1;
    }
    total
}

/// The number of cheats of at most 20 steps, through walls or not, that
/// save at least 100 steps, reduced modulo 2^32.
pub fn find_20ps_shortcuts(grid: &Vec<Vec<char>>, shortest_distances: &Vec<Vec<u32>>) -> (r: u32)
    requires
        fits_track(rows(*grid), rows(*shortest_distances)),
    ensures
        r == wrapped(cheats_20(rows(*grid), rows(*shortest_distances))),
{
    let ghost text = rows(*grid);
    let ghost sd = rows(*shortest_distances);
    let m = grid.len();
    assert(text[0] == grid[0]@);
    let n = grid[0].len();
    let ghost inner = |i: int| sum_over(0, n as int, |j: int| cheats_20_at(text, sd, i, j));
    let mut total: u64 = 0;
    let mut i: usize = 0;
    while i < m
        invariant
            i <= m,
            m == grid.len(),
            n == grid[0].len(),
            text == rows(*grid),
            sd == rows(*shortest_distances),
            fits_track(text, sd),
            inner == |i: int| sum_over(0, n as int, |j: int| cheats_20_at(text, sd, i, j)),
            total < 0x1_0000_0000,
            total == sum_over(0, i as int, inner) % 0x1_0000_0000,
        decreases m - i,
    {
        let ghost f = |j: int| cheats_20_at(text, sd, i as int, j);
        let mut here: u64 = 0;
        let mut j: usize = 0;
        while j < n
            invariant
                j <= n,
                i < m,
                m == grid.len(),
                n == grid[0].len(),
                text == rows(*grid),
                sd == rows(*shortest_distances),
                fits_track(text, sd),
                f == |j: int| cheats_20_at(text, sd, i as int, j),
                here < 0x1_0000_0000,
                here == sum_over(0, j as int, f) % 0x1_0000_0000,
            decreases n - j,
        {
            let more = cheats_from(grid, shortest_distances, i, j);
            proof {
                lemma_add_mod_noop(sum_over(0, j as int, f) as int, more as int, 0x1_0000_0000);
            }
            here = (here + more) % 0x1_0000_0000;
            j += 1;
        }
        proof {
            assert(inner(i as int) == sum_over(0, n as int, f));
            lemma_add_mod_noop(
                sum_over(0, i as int, inner) as int,
                inner(i as int) as int,
                0x1_0000_0000,
            );
        }
        total = (total + here) % 0x1_0000_0000;
        i += 1;
    }
    total as u32
}

/// The distances are those of the places of the track from the end of
/// the race.
pub open spec fn is_distances(grid: Seq<Seq<char>>, distances: Seq<Seq<u32>>) -> bool {
    &&& fits_track(grid, distances)
    &&& forall|i: int, j: int|
        0 <= i < distances.len() && 0 <= j < distances[i].len() ==> is_steps(
            walls_of(grid, grid.len() as usize, grid[0].len() as usize),
            end_of(grid),
            Position { row: i as usize, col: j as usize },
            #[trigger] distances[i][j],
        )
}

/// A track has one table of distances.
pub proof fn lemma_distances_unique(grid: Seq<Seq<char>>, a: Seq<Seq<u32>>, b: Seq<Seq<u32>>)
    requires
        is_distances(grid, a),
        is_distances(grid, b),
    ensures
        a == b,
{
    assert forall|i: int| 0 <= i < a.len() implies #[trigger] a[i] == b[i] by {
        assert forall|j: int| 0 <= j < a[i].len() implies #[trigger] a[i][j] == b[i][j] by {
            lemma_steps_unique(
                walls_of(grid, grid.len() as usize, grid[0].len() as usize),
                end_of(grid),
                Position { row: i as usize, col: j as usize },
                a[i][j],
                b[i][j],
            );
        }
        assert(a[i] =~= b[i]);
    }
    assert(a =~= b);
}

/// The number of cheats that save at least 100 steps on the track that the
/// lines show, reduced modulo 2^32: cheats of two steps, or of up to 20 if
/// `long`. `None` where the track is no rectangle.
pub open spec fn cheat_count(lines: Seq<Seq<char>>, long: bool) -> Option<u32> {
    if is_track(lines) {
        let distances = choose|d: Seq<Seq<u32>>| is_distances(lines, d);
        Some(
            wrapped(
                if long {
                    cheats_20(lines, distances)
                } else {
                    cheats_2(lines, distances)
                },
            ),
        )
    } else {
        None
    }
}

/// Counts the cheats that save at least 100 steps.
pub fn count_cheats(grid: &Vec<Vec<char>>, long: bool) -> (r: Result<u32, AdventError>)
    ensures
        crate::is_outcome(r, cheat_count(rows(*grid), long)),
{
    match find_shortest_distances(grid) {
        None => Err(parse_error("the track is no rectangle")),
        Some(distances) => {
            proof {
                let text = rows(*grid);
                let found = rows(distances);
                assert(text[0] == grid[0]@);
                assert forall|i: int| 0 <= i < found.len() implies (#[trigger] found[i]).len()
                    == text[0].len() by {
                    assert(found[i] == distances[i]@);
                }
                assert forall|i: int, j: int|
                    0 <= i < found.len() && 0 <= j < found[i].len() implies is_steps(
                    walls_of(text, text.len() as usize, text[0].len() as usize),
                    end_of(text),
                    Position { row: i as usize, col: j as usize },
                    #[trigger] found[i][j],
                ) by {
                    assert(found[i] == distances[i]@);
                    assert(found[i][j] == distances[i][j]);
                }
                assert(is_distances(text, found));
                let chosen = choose|d: Seq<Seq<u32>>| is_distances(text, d);
                lemma_distances_unique(text, found, chosen);
            }
            if long {
                Ok(find_20ps_shortcuts(grid, &distances))
            } else {
                Ok(find_2ps_shortcuts(grid, &distances))
            }
        },
    }
}

impl AdventProblem for Day20 {
    open spec fn accepts_part_1(&self, lines: Seq<Seq<char>>) -> bool {
        true
    }

    open spec fn accepts_part_2(&self, lines: Seq<Seq<char>>) -> bool {
        true
    }

    open spec fn answer_part_1(&self, lines: Seq<Seq<char>>) -> Option<u32> {
        cheat_count(lines, false)
    }

    open spec fn answer_part_2(&self, lines: Seq<Seq<char>>) -> Option<u32> {
        cheat_count(lines, true)
    }

    fn run_part_1(&self, lines: Vec<String>) -> (r: Result<u32, AdventError>) {
        let grid = chars_of_lines(&lines);
        count_cheats(&grid, false)
    }

    fn run_part_2(&self, lines: Vec<String>) -> (r: Result<u32, AdventError>) {
        let grid = chars_of_lines(&lines);
        count_cheats(&grid, true)
    }
}

/// The places that hold a character lie in the table.
pub proof fn lemma_positions_inside(grid: Seq<Seq<char>>, c: char, upto: int)
    requires
        0 <= upto <= grid.len(),
        upto <= usize::MAX,
        forall|i: int| 0 <= i < grid.len() ==> (#[trigger] grid[i]).len() <= usize::MAX,
    ensures
        forall|k: int|
            0 <= k < positions_of(grid, c, upto).len() ==> (#[trigger] positions_of(
                grid,
                c,
                upto,
            )[k]).0 < upto && positions_of(grid, c, upto)[k].1 < grid[positions_of(
                grid,
                c,
                upto,
            )[k].0 as int].len(),
    decreases upto,
{
    if upto > 0 {
        lemma_positions_inside(grid, c, upto - 1);
        let row = grid[upto - 1];
        lemma_row_positions_inside(row, (upto - 1) as usize, c, row.len() as int);
        let before = positions_of(grid, c, upto - 1);
        let here = row_positions(row, (upto - 1) as usize, c, row.len() as int);
        let all = positions_of(grid, c, upto);
        assert(all == before + here);
        assert forall|k: int| 0 <= k < all.len() implies (#[trigger] all[k]).0 < upto && all[k].1
            < grid[all[k].0 as int].len() by {
            if k < before.len() {
                assert(all[k] == before[k]);
            } else {
                assert(all[k] == here[k - before.len()]);
            }
        }
    }
}

/// The places of a row that hold a character lie in the row.
pub proof fn lemma_row_positions_inside(row: Seq<char>, r: usize, c: char, upto: int)
    requires
        0 <= upto <= row.len(),
        upto <= usize::MAX,
    ensures
        forall|k: int|
            0 <= k < row_positions(row, r, c, upto).len() ==> (#[trigger] row_positions(
                row,
                r,
                c,
                upto,
            )[k]).0 == r && row_positions(row, r, c, upto)[k].1 < upto,
    decreases upto,
{
    if upto > 0 {
        lemma_row_positions_inside(row, r, c, upto - 1);
        let before = row_positions(row, r, c, upto - 1);
        let all = row_positions(row, r, c, upto);
        assert forall|k: int| 0 <= k < all.len() implies (#[trigger] all[k]).0 == r && all[k].1
            < upto by {
            if k < before.len() {
                assert(all[k] == before[k]);
            }
        }
    }
}

} // verus!
