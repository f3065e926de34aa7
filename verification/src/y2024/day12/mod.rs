//! Garden plots: regions of one plant, their area, fences and sides.

use crate::table::{put, rows, sum_over};
use crate::text::{chars_of_lines, is_alphabetic, is_alphabetic_char, parse_error};
use crate::y2024::day16::grid::{in_bounds, rectangular, Cell, Grid, Position};
use crate::y2024::day16::steps::{is_steps, lemma_steps_unique, steps_table};
use crate::{lines_view, AdventError, AdventProblem};
use vstd::arithmetic::div_mod::lemma_add_mod_noop;
use vstd::prelude::*;

verus! {

pub struct Day12;

/// A region of one plant, with its area and what is measured around it:
/// the length of its fence, or the number of its sides.
#[derive(Debug, Clone, PartialEq, Eq)]
pub struct Plot {
    pub plant: char,
    pub area: u32,
    pub measure: u32,
}

impl Plot {
    /// The area times the measure, reduced modulo 2^32.
    pub fn price(&self) -> (r: u32)
        ensures
            r == (self.area * self.measure) % 0x1_0000_0000,
    {
        assert(self.area * self.measure <= 0xffff_ffff * 0xffff_ffff) by (nonlinear_arith)
            requires
                self.area <= 0xffff_ffff,
                self.measure <= 0xffff_ffff,
        ;
        (((self.area as u64) * (self.measure as u64)) % 0x1_0000_0000) as u32
    }
}

/// The eight ways to a neighbour.
#[derive(Debug, Copy, Clone, PartialEq, Eq, Structural)]
pub enum Direction {
    North,
    South,
    East,
    West,
    NorthEast,
    SouthEast,
    NorthWest,
    SouthWest,
}

impl Direction {
    /// By how many rows and columns the neighbour lies off.
    pub open spec fn step(self) -> (int, int) {
        match self {
            Direction::North => (-1, 0),
            Direction::South => (1, 0),
            Direction::East => (0, 1),
            Direction::West => (0, -1),
            Direction::NorthEast => (-1, 1),
            Direction::SouthEast => (1, 1),
            Direction::NorthWest => (-1, -1),
            Direction::SouthWest => (1, -1),
        }
    }
}

/// The neighbour of `space` in the direction `direction`, if it lies in a
/// garden of `boundary.0` rows and `boundary.1` columns.
pub open spec fn neighbor(space: (usize, usize), boundary: (usize, usize), direction: Direction) -> Option<
    (usize, usize),
> {
    let r = space.0 + direction.step().0;
    let c = space.1 + direction.step().1;
    if 0 <= r < boundary.0 && 0 <= c < boundary.1 {
        Some((r as usize, c as usize))
    } else {
        None
    }
}

pub fn next_space(space: (usize, usize), boundary: (usize, usize), direction: Direction) -> (r: Option<
    (usize, usize),
>)
    ensures
        r == neighbor(space, boundary, direction),
{
    let (dr, dc): (i128, i128) = match direction {
        Direction::North => (-1, 0),
        Direction::South => (1, 0),
        Direction::East => (0, 1),
        Direction::West => (0, -1),
        Direction::NorthEast => (-1, 1),
        Direction::SouthEast => (1, 1),
        Direction::NorthWest => (-1, -1),
        Direction::SouthWest => (1, -1),
    };
    let r = space.0 as i128 + dr;
    let c = space.1 as i128 + dc;
    if 0 <= r && r < boundary.0 as i128 && 0 <= c && c < boundary.1 as i128 {
        Some((r as usize, c as usize))
    } else {
        None
    }
}

/// The garden is a rectangle of at least one place.
pub open spec fn is_garden(grid: Seq<Seq<char>>) -> bool {
    &&& grid.len() > 0
    &&& grid[0].len() > 0
    &&& forall|i: int| 0 <= i < grid.len() ==> (#[trigger] grid[i]).len() == grid[0].len()
}

/// The numbers of rows and columns of the garden.
pub open spec fn bounds(grid: Seq<Seq<char>>) -> (usize, usize) {
    (grid.len() as usize, grid[0].len() as usize)
}

/// The neighbour of the place in row `r` and column `c` in the direction
/// `d` lies in the garden and holds `plant`.
pub open spec fn same_plant(grid: Seq<Seq<char>>, plant: char, r: int, c: int, d: Direction) -> bool {
    match neighbor((r as usize, c as usize), bounds(grid), d) {
        Some(q) => grid[q.0 as int][q.1 as int] == plant,
        None => false,
    }
}

/// The number of fences around the place in row `r` and column `c`: one
/// on every side on which no neighbour holds `plant`.
pub open spec fn fences(grid: Seq<Seq<char>>, plant: char, r: int, c: int) -> nat {
    let side = |d: Direction|
        if same_plant(grid, plant, r, c, d) {
            0nat
        } else {
            1nat
        };
    side(Direction::North) + side(Direction::South) + side(Direction::East) + side(Direction::West)
}

/// 1 if the place has a corner between the sides `a` and `b`: no
/// neighbour holds `plant` on either side, or one does on both but none
/// between them, on the side `between`.
pub open spec fn corner(
    grid: Seq<Seq<char>>,
    plant: char,
    r: int,
    c: int,
    a: Direction,
    b: Direction,
    between: Direction,
) -> nat {
    let (na, nb, nd) = (
        same_plant(grid, plant, r, c, a),
        same_plant(grid, plant, r, c, b),
        same_plant(grid, plant, r, c, between),
    );
    if !na && !nb {
        1
    } else if na && nb && !nd {
        1
    } else {
        0
    }
}

/// The number of corners of the place in row `r` and column `c`, which is
/// what it adds to the number of sides of its plot.
pub open spec fn corners(grid: Seq<Seq<char>>, plant: char, r: int, c: int) -> nat {
    corner(grid, plant, r, c, Direction::North, Direction::East, Direction::NorthEast) + corner(
        grid,
        plant,
        r,
        c,
        Direction::South,
        Direction::East,
        Direction::SouthEast,
    ) + corner(grid, plant, r, c, Direction::North, Direction::West, Direction::NorthWest) + corner(
        grid,
        plant,
        r,
        c,
        Direction::South,
        Direction::West,
        Direction::SouthWest,
    )
}

/// The neighbour in the direction `d` lies in the garden and holds `plant`.
fn has_plant(grid: &Vec<Vec<char>>, space: (usize, usize), boundary: (usize, usize), plant: char, d: Direction) -> (r: bool)
    requires
        is_garden(rows(*grid)),
        boundary == bounds(rows(*grid)),
    ensures
        r == same_plant(rows(*grid), plant, space.0 as int, space.1 as int, d),
{
    match next_space(space, boundary, d) {
        Some((nr, nc)) => {
            assert(rows(*grid)[nr as int] == grid[nr as int]@);
            grid[nr][nc] == plant
        },
        None => false,
    }
}

/// The number of corners of the place `space` of a plot of `plant`.
pub fn count_corners(grid: &Vec<Vec<char>>, space: (usize, usize), boundary: (usize, usize), plant: char) -> (r: u32)
    requires
        is_garden(rows(*grid)),
        boundary == bounds(rows(*grid)),
    ensures
        r == corners(rows(*grid), plant, space.0 as int, space.1 as int),
        r <= 4,
{
    let n = has_plant(grid, space, boundary, plant, Direction::North);
    let s = has_plant(grid, space, boundary, plant, Direction::South);
    let e = has_plant(grid, space, boundary, plant, Direction::East);
    let w = has_plant(grid, space, boundary, plant, Direction::West);
    let ne = has_plant(grid, space, boundary, plant, Direction::NorthEast);
    let se = has_plant(grid, space, boundary, plant, Direction::SouthEast);
    let nw = has_plant(grid, space, boundary, plant, Direction::NorthWest);
    let sw = has_plant(grid, space, boundary, plant, Direction::SouthWest);
    let mut num_corners: u32 = 0;
    if (!n && !e) || (n && e && !ne) {
        num_corners += 1;
    }
    if (!s && !e) || (s && e && !se) {
        num_corners += 1;
    }
    if (!n && !w) || (n && w && !nw) {
        num_corners += 1;
    }
    if (!s && !w) || (s && w && !sw) {
        num_corners += 1;
    }
    num_corners
}

/// The number of fences around the place `space` of a plot of `plant`.
pub fn count_fences(grid: &Vec<Vec<char>>, space: (usize, usize), boundary: (usize, usize), plant: char) -> (r: u32)
    requires
        is_garden(rows(*grid)),
        boundary == bounds(rows(*grid)),
    ensures
        r == fences(rows(*grid), plant, space.0 as int, space.1 as int),
        r <= 4,
{
    let mut fences: u32 = 0;
    if !has_plant(grid, space, boundary, plant, Direction::North) {
        fences += 1;
    }
    if !has_plant(grid, space, boundary, plant, Direction::South) {
        fences += 1;
    }
    if !has_plant(grid, space, boundary, plant, Direction::East) {
        fences += 1;
    }
    if !has_plant(grid, space, boundary, plant, Direction::West) {
        fences += 1;
    }
    fences
}

/// The garden as a maze in which every place that does not hold `plant`
/// is a wall.
pub open spec fn plant_cells(grid: Seq<Seq<char>>, plant: char) -> Seq<Seq<Cell>> {
    Seq::new(
        grid.len(),
        |i: int|
            Seq::new(
                grid[i].len(),
                |j: int|
                    if grid[i][j] == plant {
                        Cell::Open
                    } else {
                        Cell::Wall
                    },
            ),
    )
}

/// The place in row `r` and column `c` belongs to the plot of `start`: a
/// way of fewer than `u32::MAX` steps leads from `start` to it over places
/// that hold the plant of `start`.
pub open spec fn in_plot(grid: Seq<Seq<char>>, start: (usize, usize), r: int, c: int) -> bool {
    exists|v: u32|
        v < u32::MAX && #[trigger] is_steps(
            plant_cells(grid, grid[start.0 as int][start.1 as int]),
            Position { row: start.0, col: start.1 },
            Position { row: r as usize, col: c as usize },
            v,
        )
}

/// What the place in row `r` and column `c` adds to the area of the plot
/// of `start`, or to its measure if `measured`: its fences, or its corners
/// if `sides`.
#[verifier::opaque]
pub open spec fn cell_worth(
    grid: Seq<Seq<char>>,
    start: (usize, usize),
    r: int,
    c: int,
    measured: bool,
    sides: bool,
) -> nat {
    let plant = grid[start.0 as int][start.1 as int];
    if !in_plot(grid, start, r, c) {
        0
    } else if !measured {
        1
    } else if sides {
        corners(grid, plant, r, c)
    } else {
        fences(grid, plant, r, c)
    }
}

/// The area of the plot of `start`, or its measure if `measured`.
pub open spec fn plot_worth(grid: Seq<Seq<char>>, start: (usize, usize), measured: bool, sides: bool) -> nat {
    sum_over(
        0,
        grid.len() as int,
        |r: int|
            sum_over(0, grid[0].len() as int, |c: int| cell_worth(grid, start, r, c, measured, sides)),
    )
}

/// The garden with nothing left of the plot of `start`: a dot in each of
/// its places.
pub open spec fn harvested(grid: Seq<Seq<char>>, start: (usize, usize)) -> Seq<Seq<char>> {
    Seq::new(
        grid.len(),
        |r: int|
            Seq::new(
                grid[r].len(),
                |c: int|
                    if in_plot(grid, start, r, c) {
                        '.'
                    } else {
                        grid[r][c]
                    },
            ),
    )
}

/// The garden as a maze in which every place that does not hold `plant`
/// is a wall.
fn plant_maze(grid: &Vec<Vec<char>>, plant: char) -> (r: Option<Grid>)
    requires
        is_garden(rows(*grid)),
    ensures
        r matches Some(maze) && maze@ == plant_cells(rows(*grid), plant),
{
    let ghost text = rows(*grid);
    let ghost model = plant_cells(text, plant);
    let mut cells: Vec<Vec<Cell>> = Vec::new();
    let mut i: usize = 0;
    while i < grid.len()
        invariant
            i <= grid.len(),
            text == rows(*grid),
            model == plant_cells(text, plant),
            cells.len() == i,
            forall|k: int| 0 <= k < i ==> (#[trigger] cells[k])@ == model[k],
        decreases grid.len() - i,
    {
        let line = &grid[i];
        assert(text[i as int] == line@);
        let mut row: Vec<Cell> = Vec::new();
        let mut j: usize = 0;
        while j < line.len()
            invariant
                j <= line.len(),
                i < grid.len(),
                text.len() == grid.len(),
                text[i as int] == line@,
                model == plant_cells(text, plant),
                row.len() == j,
                forall|k: int| 0 <= k < j ==> (#[trigger] row[k]) == model[i as int][k],
            decreases line.len() - j,
        {
            row.push(if line[j] == plant { Cell::Open } else { Cell::Wall });
            j += 1;
        }
        assert(row@ =~= model[i as int]);
        cells.push(row);
        i += 1;
    }
    assert(rows(cells) =~= model);
    proof {
        assert(model[0].len() == text[0].len());
        assert forall|k: int| 0 <= k < model.len() implies (#[trigger] model[k]).len()
            == model[0].len() by {
            assert(text[k].len() == text[0].len());
        }
    }
    match Grid::new(cells) {
        Ok(maze) => Some(maze),
        Err(_) => None,
    }
}

/// The plot of `start` as a table that holds, for every place, whether
/// it belongs to the plot.
fn plot_table(grid: &Vec<Vec<char>>, start: (usize, usize)) -> (r: Vec<Vec<bool>>)
    requires
        is_garden(rows(*grid)),
        start.0 < grid.len(),
        start.1 < grid[0].len(),
    ensures
        r.len() == grid.len(),
        forall|i: int| 0 <= i < r.len() ==> (#[trigger] r[i]).len() == grid[0].len(),
        forall|i: int, j: int|
            0 <= i < r.len() && 0 <= j < r[i].len() ==> (#[trigger] r[i][j]) == in_plot(
                rows(*grid),
                start,
                i,
                j,
            ),
{
    let ghost text = rows(*grid);
    assert(text[0] == grid[0]@);
    assert(text[start.0 as int] == grid[start.0 as int]@);
    let plant = grid[start.0][start.1];
    let ghost cells = plant_cells(text, plant);
    let from = Position { row: start.0, col: start.1 };
    let maze = match plant_maze(grid, plant) {
        Some(maze) => maze,
        None => {
            return Vec::new();
        },
    };
    assert(cells[start.0 as int].len() == text[start.0 as int].len());
    let steps = steps_table(&maze, from);
    let mut table: Vec<Vec<bool>> = Vec::new();
    let mut i: usize = 0;
    while i < steps.len()
        invariant
            i <= steps.len(),
            steps.len() == text.len(),
            text == rows(*grid),
            plant == text[start.0 as int][start.1 as int],
            cells == plant_cells(text, plant),
            from == (Position { row: start.0, col: start.1 }),
            forall|k: int| 0 <= k < steps.len() ==> (#[trigger] steps[k]).len() == text[0].len(),
            forall|k: int, j: int|
                0 <= k < steps.len() && 0 <= j < steps[k].len() ==> is_steps(
                    cells,
                    from,
                    Position { row: k as usize, col: j as usize },
                    #[trigger] steps[k][j],
                ),
            table.len() == i,
            forall|k: int| 0 <= k < i ==> (#[trigger] table[k]).len() == text[0].len(),
            forall|k: int, j: int|
                0 <= k < i && 0 <= j < table[k].len() ==> (#[trigger] table[k][j]) == in_plot(
                    text,
                    start,
                    k,
                    j,
                ),
        decreases steps.len() - i,
    {
        let mut row: Vec<bool> = Vec::new();
        let mut j: usize = 0;
        while j < steps[i].len()
            invariant
                i < steps.len(),
                j <= steps[i as int].len(),
                plant == text[start.0 as int][start.1 as int],
                cells == plant_cells(text, plant),
                from == (Position { row: start.0, col: start.1 }),
                forall|t: int|
                    0 <= t < steps[i as int].len() ==> is_steps(
                        cells,
                        from,
                        Position { row: i, col: t as usize },
                        #[trigger] steps[i as int][t],
                    ),
                row.len() == j,
                forall|t: int| 0 <= t < j ==> (#[trigger] row[t]) == in_plot(text, start, i as int, t),
            decreases steps[i as int].len() - j,
        {
            let v = steps[i][j];
            proof {
                let p = Position { row: i, col: j };
                assert(is_steps(cells, from, p, v));
                if in_plot(text, start, i as int, j as int) {
                    let w = choose|w: u32| w < u32::MAX && #[trigger] is_steps(cells, from, p, w);
                    lemma_steps_unique(cells, from, p, v, w);
                }
            }
            row.push(v != u32::MAX);
            j += 1;
        }
        table.push(row);
        i += 1;
    }
    table
}

/// What the place `space` adds to the measure of a plot of `plant`.
fn measure_at(grid: &Vec<Vec<char>>, space: (usize, usize), boundary: (usize, usize), plant: char, sides: bool) -> (r: u32)
    requires
        is_garden(rows(*grid)),
        boundary == bounds(rows(*grid)),
    ensures
        r == if sides {
            corners(rows(*grid), plant, space.0 as int, space.1 as int)
        } else {
            fences(rows(*grid), plant, space.0 as int, space.1 as int)
        },
        r <= 4,
{
    if sides {
        count_corners(grid, space, boundary, plant)
    } else {
        count_fences(grid, space, boundary, plant)
    }
}

/// What the place `space` adds to the area and to the measure of the plot
/// of `start`, where `inside` says whether it belongs to the plot.
fn worth_at(
    grid: &Vec<Vec<char>>,
    start: (usize, usize),
    space: (usize, usize),
    inside: bool,
    boundary: (usize, usize),
    plant: char,
    sides: bool,
) -> (r: (u64, u64))
    requires
        is_garden(rows(*grid)),
        boundary == bounds(rows(*grid)),
        plant == rows(*grid)[start.0 as int][start.1 as int],
        inside == in_plot(rows(*grid), start, space.0 as int, space.1 as int),
    ensures
        r.0 == cell_worth(rows(*grid), start, space.0 as int, space.1 as int, false, sides),
        r.1 == cell_worth(rows(*grid), start, space.0 as int, space.1 as int, true, sides),
        r.0 <= 1,
        r.1 <= 4,
{
    reveal(cell_worth);
    if inside {
        (1, measure_at(grid, space, boundary, plant, sides) as u64)
    } else {
        (0, 0)
    }
}

/// The plot of `start` with its area and its measure, both reduced modulo
/// 2^32: the length of its fence, or the number of its sides if `sides`.
pub open spec fn plot_of(grid: Seq<Seq<char>>, start: (usize, usize), sides: bool) -> Plot {
    Plot {
        plant: grid[start.0 as int][start.1 as int],
        area: (plot_worth(grid, start, false, sides) % 0x1_0000_0000) as u32,
        measure: (plot_worth(grid, start, true, sides) % 0x1_0000_0000) as u32,
    }
}

/// Measures the plot of `start`, and leaves a dot in each of its places.
pub fn discover(grid: &mut Vec<Vec<char>>, start: (usize, usize), sides: bool) -> (r: Plot)
    requires
        is_garden(rows(*old(grid))),
        start.0 < old(grid).len(),
        start.1 < old(grid)[0].len(),
    ensures
        r == plot_of(rows(*old(grid)), start, sides),
        rows(*final(grid)) == harvested(rows(*old(grid)), start),
{
    let ghost text = rows(*grid);
    assert(text[0] == grid[0]@);
    assert(text[start.0 as int] == grid[start.0 as int]@);
    let plant = grid[start.0][start.1];
    let m = grid.len();
    let n = grid[0].len();
    let boundary = (m, n);
    let table = plot_table(grid, start);
    let ghost area_row = |r: int|
        sum_over(0, n as int, |c: int| cell_worth(text, start, r, c, false, sides));
    let ghost measure_row = |r: int|
        sum_over(0, n as int, |c: int| cell_worth(text, start, r, c, true, sides));
    let mut area: u64 = 0;
    let mut measure: u64 = 0;
    let mut i: usize = 0;
    while i < m
        invariant
            i <= m,
            m == grid.len(),
            n == grid[0].len(),
            boundary == (m, n),
            text == rows(*grid),
            is_garden(text),
            plant == text[start.0 as int][start.1 as int],
            table.len() == m,
            forall|k: int| 0 <= k < m ==> (#[trigger] table[k]).len() == n,
            forall|k: int, j: int|
                0 <= k < m && 0 <= j < n ==> (#[trigger] table[k][j]) == in_plot(text, start, k, j),
            area_row == |r: int|
                sum_over(0, n as int, |c: int| cell_worth(text, start, r, c, false, sides)),
            measure_row == |r: int|
                sum_over(0, n as int, |c: int| cell_worth(text, start, r, c, true, sides)),
            area < 0x1_0000_0000,
            measure < 0x1_0000_0000,
            area == sum_over(0, i as int, area_row) % 0x1_0000_0000,
            measure == sum_over(0, i as int, measure_row) % 0x1_0000_0000,
        decreases m - i,
    {
        let ghost fa = |c: int| cell_worth(text, start, i as int, c, false, sides);
        let ghost fm = |c: int| cell_worth(text, start, i as int, c, true, sides);
        let mut here_area: u64 = 0;
        let mut here_measure: u64 = 0;
        let mut j: usize = 0;
        while j < n
            invariant
                j <= n,
                i < m,
                m == grid.len(),
                n == grid[0].len(),
                boundary == (m, n),
                text == rows(*grid),
                is_garden(text),
                plant == text[start.0 as int][start.1 as int],
                table.len() == m,
                table[i as int].len() == n,
                forall|t: int| 0 <= t < n ==> (#[trigger] table[i as int][t]) == in_plot(text, start, i as int, t),
                fa == |c: int| cell_worth(text, start, i as int, c, false, sides),
                fm == |c: int| cell_worth(text, start, i as int, c, true, sides),
                here_area < 0x1_0000_0000,
                here_measure < 0x1_0000_0000,
                here_area == sum_over(0, j as int, fa) % 0x1_0000_0000,
                here_measure == sum_over(0, j as int, fm) % 0x1_0000_0000,
            decreases n - j,
        {
            let (one, more) = worth_at(grid, start, (i, j), table[i][j], boundary, plant, sides);
            proof {
                assert(one == fa(j as int));
                assert(more == fm(j as int));
                lemma_add_mod_noop(sum_over(0, j as int, fa) as int, one as int, 0x1_0000_0000);
                lemma_add_mod_noop(sum_over(0, j as int, fm) as int, more as int, 0x1_0000_0000);
            }
            here_area = (here_area + one) % 0x1_0000_0000;
            here_measure = (here_measure + more) % 0x1_0000_0000;
            j += 1;
        }
        proof {
            assert(area_row(i as int) == sum_over(0, n as int, fa));
            assert(measure_row(i as int) == sum_over(0, n as int, fm));
            lemma_add_mod_noop(
                sum_over(0, i as int, area_row) as int,
                area_row(i as int) as int,
                0x1_0000_0000,
            );
            lemma_add_mod_noop(
                sum_over(0, i as int, measure_row) as int,
                measure_row(i as int) as int,
                0x1_0000_0000,
            );
        }
        area = (area + here_area) % 0x1_0000_0000;
        measure = (measure + here_measure) % 0x1_0000_0000;
        i += 1;
    }
    let mut i: usize = 0;
    while i < m
        invariant
            i <= m,
            m == grid.len(),
            m == text.len(),
            is_garden(text),
            n == text[0].len(),
            table.len() == m,
            forall|k: int| 0 <= k < m ==> (#[trigger] table[k]).len() == n,
            forall|k: int, j: int|
                0 <= k < m && 0 <= j < n ==> (#[trigger] table[k][j]) == in_plot(text, start, k, j),
            forall|k: int| 0 <= k < i ==> (#[trigger] rows(*grid)[k]) == harvested(text, start)[k],
            forall|k: int| i <= k < m ==> (#[trigger] rows(*grid)[k]) == text[k],
        decreases m - i,
    {
        let mut j: usize = 0;
        assert(rows(*grid)[i as int] == text[i as int]);
        assert(text[i as int].len() == n);
        while j < n
            invariant
                j <= n,
                i < m,
                m == grid.len(),
                m == text.len(),
                n == text[i as int].len(),
                table.len() == m,
                table[i as int].len() == n,
                forall|t: int| 0 <= t < n ==> (#[trigger] table[i as int][t]) == in_plot(text, start, i as int, t),
                rows(*grid)[i as int].len() == n,
                forall|t: int|
                    0 <= t < j ==> (#[trigger] rows(*grid)[i as int][t]) == harvested(
                        text,
                        start,
                    )[i as int][t],
                forall|t: int| j <= t < n ==> (#[trigger] rows(*grid)[i as int][t]) == text[i as int][t],
                forall|k: int| 0 <= k < i ==> (#[trigger] rows(*grid)[k]) == harvested(text, start)[k],
                forall|k: int| i < k < m ==> (#[trigger] rows(*grid)[k]) == text[k],
            decreases n - j,
        {
            if table[i][j] {
                let ghost before = rows(*grid);
                assert(before[i as int] == grid[i as int]@);
                grid[i][j] = '.';
                assert(rows(*grid) =~~= put(before, i as int, j as int, '.'));
            }
            j += 1;
        }
        assert(rows(*grid)[i as int] =~= harvested(text, start)[i as int]);
        i += 1;
    }
    assert(rows(*grid) =~= harvested(text, start));
    Plot { plant, area: area as u32, measure: measure as u32 }
}

/// The plot of `start` with its area and the length of its fence.
pub fn discover_plot(grid: &mut Vec<Vec<char>>, start: (usize, usize)) -> (r: Plot)
    requires
        is_garden(rows(*old(grid))),
        start.0 < old(grid).len(),
        start.1 < old(grid)[0].len(),
    ensures
        r == plot_of(rows(*old(grid)), start, false),
        rows(*final(grid)) == harvested(rows(*old(grid)), start),
{
    discover(grid, start, false)
}

/// The plot of `start` with its area and the number of its sides.
pub fn discover_sides(grid: &mut Vec<Vec<char>>, start: (usize, usize)) -> (r: Plot)
    requires
        is_garden(rows(*old(grid))),
        start.0 < old(grid).len(),
        start.1 < old(grid)[0].len(),
    ensures
        r == plot_of(rows(*old(grid)), start, true),
        rows(*final(grid)) == harvested(rows(*old(grid)), start),
{
    discover(grid, start, true)
}

/// The plots that are found from row `i` and column `j` on in a garden of
/// `m` rows and `n` columns, row by row: every place that holds a letter
/// begins a plot, which is measured and harvested before the search goes on.
pub open spec fn survey(grid: Seq<Seq<char>>, m: int, n: int, i: int, j: int, sides: bool) -> Seq<Plot>
    decreases m - i, n - j,
{
    if i < 0 || j < 0 || i >= m {
        Seq::empty()
    } else if j >= n {
        survey(grid, m, n, i + 1, 0, sides)
    } else if is_alphabetic_char(grid[i][j]) {
        seq![plot_of(grid, (i as usize, j as usize), sides)] + survey(
            harvested(grid, (i as usize, j as usize)),
            m,
            n,
            i,
            j + 1,
            sides,
        )
    } else {
        survey(grid, m, n, i, j + 1, sides)
    }
}

/// The plots of the garden, each with its area and its measure: the
/// length of its fence, or the number of its sides if `sides`.
pub fn find_plots(grid: Vec<Vec<char>>, sides: bool) -> (r: Vec<Plot>)
    requires
        is_garden(rows(grid)),
    ensures
        r@ == survey(rows(grid), grid.len() as int, grid[0].len() as int, 0, 0, sides),
{
    let mut grid = grid;
    let ghost text = rows(grid);
    assert(text[0] == grid[0]@);
    let (m, n) = (grid.len(), grid[0].len());
    let mut plots: Vec<Plot> = Vec::new();
    let mut i: usize = 0;
    assert(plots@ + survey(text, m as int, n as int, 0, 0, sides) =~= survey(
        text,
        m as int,
        n as int,
        0,
        0,
        sides,
    ));
    while i < m
        invariant
            i <= m,
            m == grid.len(),
            n == rows(grid)[0].len(),
            is_garden(rows(grid)),
            plots@ + survey(rows(grid), m as int, n as int, i as int, 0, sides) == survey(
                text,
                m as int,
                n as int,
                0,
                0,
                sides,
            ),
        decreases m - i,
    {
        let mut j: usize = 0;
        while j < n
            invariant
                j <= n,
                i < m,
                m == grid.len(),
                n == rows(grid)[0].len(),
                is_garden(rows(grid)),
                plots@ + survey(rows(grid), m as int, n as int, i as int, j as int, sides)
                    == survey(text, m as int, n as int, 0, 0, sides),
            decreases n - j,
        {
            let ghost now = rows(grid);
            assert(now[i as int] == grid[i as int]@);
            assert(now[0] == grid[0]@);
            assert(now[i as int].len() == n);
            if is_alphabetic(grid[i][j]) {
                let ghost before = plots@;
                let plot = discover(&mut grid, (i, j), sides);
                plots.push(plot);
                proof {
                    let after = rows(grid);
                    assert(after == harvested(now, (i, j)));
                    assert(after.len() == now.len());
                    assert(after[0].len() == now[0].len());
                    assert forall|k: int| 0 <= k < after.len() implies (#[trigger] after[k]).len()
                        == after[0].len() by {
                        assert(now[k].len() == now[0].len());
                    }
                    assert(plots@ + survey(after, m as int, n as int, i as int, j + 1, sides)
                        =~= before + survey(now, m as int, n as int, i as int, j as int, sides));
                }
            }
            j += 1;
        }
        i += 1;
    }
    assert(plots@ + survey(rows(grid), m as int, n as int, m as int, 0, sides) =~= plots@);
    plots
}

/// The sum of the prices of the first `upto` plots, reduced modulo 2^32.
pub open spec fn total_price(plots: Seq<Plot>, upto: int) -> u32
    decreases upto,
{
    if upto <= 0 {
        0
    } else {
        ((total_price(plots, upto - 1) + (plots[upto - 1].area * plots[upto - 1].measure)
            % 0x1_0000_0000) % 0x1_0000_0000) as u32
    }
}

/// The sum of the prices of the plots of the garden that the lines show,
/// reduced modulo 2^32; `None` where the garden is no rectangle.
pub open spec fn garden_price(lines: Seq<Seq<char>>, sides: bool) -> Option<u32> {
    if is_garden(lines) {
        let plots = survey(lines, lines.len() as int, lines[0].len() as int, 0, 0, sides);
        Some(total_price(plots, plots.len() as int))
    } else {
        None
    }
}

/// The garden is a rectangle of at least one place.
pub fn check_garden(grid: &Vec<Vec<char>>) -> (r: bool)
    ensures
        r == is_garden(rows(*grid)),
{
    if grid.len() == 0 || grid[0].len() == 0 {
        assert(grid.len() == 0 || rows(*grid)[0] == grid[0]@);
        return false;
    }
    assert(rows(*grid)[0] == grid[0]@);
    let n = grid[0].len();
    let mut i: usize = 0;
    while i < grid.len()
        invariant
            i <= grid.len(),
            n == grid[0].len(),
            forall|k: int| 0 <= k < i ==> (#[trigger] rows(*grid)[k]).len() == n,
        decreases grid.len() - i,
    {
        assert(rows(*grid)[i as int] == grid[i as int]@);
        if grid[i].len() != n {
            return false;
        }
        i += 1;
    }
    true
}

/// The sum of the prices of the plots of the garden.
pub fn price_garden(grid: Vec<Vec<char>>, sides: bool) -> (r: Result<u32, AdventError>)
    ensures
        crate::is_outcome(r, garden_price(rows(grid), sides)),
{
    if !check_garden(&grid) {
        return Err(parse_error("the garden is no rectangle"));
    }
    let plots = find_plots(grid, sides);
    let mut total: u32 = 0;
    let mut i: usize = 0;
    while i < plots.len()
        invariant
            i <= plots.len(),
            total == total_price(plots@, i as int),
        decreases plots.len() - i,
    {
        total = ((total as u64 + plots[i].price() as u64) % 0x1_0000_0000) as u32;
        i += 1;
    }
    Ok(total)
}

impl AdventProblem for Day12 {
    open spec fn accepts_part_1(&self, lines: Seq<Seq<char>>) -> bool {
        true
    }

    open spec fn accepts_part_2(&self, lines: Seq<Seq<char>>) -> bool {
        true
    }

    open spec fn answer_part_1(&self, lines: Seq<Seq<char>>) -> Option<u32> {
        garden_price(lines, false)
    }

    open spec fn answer_part_2(&self, lines: Seq<Seq<char>>) -> Option<u32> {
        garden_price(lines, true)
    }

    fn run_part_1(&self, lines: Vec<String>) -> (r: Result<u32, AdventError>) {
        let grid = chars_of_lines(&lines);
        price_garden(grid, false)
    }

    fn run_part_2(&self, lines: Vec<String>) -> (r: Result<u32, AdventError>) {
        let grid = chars_of_lines(&lines);
        price_garden(grid, true)
    }
}

} // verus!
