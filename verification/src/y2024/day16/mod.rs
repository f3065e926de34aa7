//! The reindeer maze: the cheapest way through a grid for a walker that pays
//! 1 for a step ahead and 1000 for a quarter turn.

use crate::table::rows;
use crate::text::{chars_of_lines, parse_error};
use crate::{lines_view, wrapped, AdventError, AdventProblem};
use vstd::prelude::*;

pub mod best;
pub mod steps;
pub mod straight;
pub mod costs;
pub mod frontier;
pub mod grid;
pub mod route;
pub mod search;

use best::{
    all_minimum_cost_positions, is_shortest_cost, lemma_shortest_cost_unique, on_best_route,
    shortest_cost,
};
use grid::{in_bounds, rectangular, Cell, Direction, Grid, Position, SearchState};

verus! {

pub struct Day16;

/// What a quarter turn costs in the puzzle.
pub const TURN_COST: u32 = 1000;

/// The kind of cell that the character `c` stands for.
pub open spec fn cell_of(c: char) -> Cell {
    if c == '#' {
        Cell::Wall
    } else if c == 'S' {
        Cell::Start
    } else if c == 'E' {
        Cell::Goal
    } else {
        Cell::Open
    }
}

/// The cells that the text `lines` stands for.
pub open spec fn cells_of(lines: Seq<Seq<char>>) -> Seq<Seq<Cell>> {
    Seq::new(lines.len(), |i: int| Seq::new(lines[i].len(), |j: int| cell_of(lines[i][j])))
}

/// The cell at `p` is of the kind `kind`.
pub open spec fn marks(cells: Seq<Seq<Cell>>, kind: Cell, p: Position) -> bool {
    in_bounds(cells, p) && cells[p.row as int][p.col as int] == kind
}

/// `p` is `q` or comes before it where the grid is read row by row.
pub open spec fn not_after(p: Position, q: Position) -> bool {
    p.row < q.row || (p.row == q.row && p.col <= q.col)
}

/// `p` is the last cell of the kind `kind`, read row by row.
pub open spec fn is_last_marker(cells: Seq<Seq<Cell>>, kind: Cell, p: Position) -> bool {
    marks(cells, kind, p) && forall|q: Position| #[trigger] marks(cells, kind, q) ==> not_after(q, p)
}

/// The text is a maze: a rectangle of cells with a start and a goal.
pub open spec fn is_maze(lines: Seq<Seq<char>>) -> bool {
    &&& rectangular(cells_of(lines))
    &&& exists|p: Position| #[trigger] marks(cells_of(lines), Cell::Start, p)
    &&& exists|p: Position| #[trigger] marks(cells_of(lines), Cell::Goal, p)
}

/// Where the walker begins: on the last start marker.
pub open spec fn start_of(lines: Seq<Seq<char>>) -> Position {
    choose|p: Position| is_last_marker(cells_of(lines), Cell::Start, p)
}

/// Where the walker wants to be: on the last goal marker.
pub open spec fn goal_of(lines: Seq<Seq<char>>) -> Position {
    choose|p: Position| is_last_marker(cells_of(lines), Cell::Goal, p)
}

/// The state in which the walker begins: on the start, facing right.
pub open spec fn start_state_of(lines: Seq<Seq<char>>) -> SearchState {
    SearchState { position: start_of(lines), direction: Direction::Right }
}

/// A grid with the two positions that the puzzle marks in it.
pub struct Maze {
    pub grid: Grid,
    pub start: Position,
    pub goal: Position,
}

/// There is one last marker of a kind at most.
pub proof fn lemma_last_marker_unique(cells: Seq<Seq<Cell>>, kind: Cell, p: Position, q: Position)
    requires
        is_last_marker(cells, kind, p),
        is_last_marker(cells, kind, q),
    ensures
        p == q,
{
    assert(not_after(p, q));
    assert(not_after(q, p));
}

/// Reads a maze. `None` says that the text is none: it is empty or ragged,
/// or lacks the start or the goal.
pub fn parse_maze(lines: &Vec<Vec<char>>) -> (r: Option<Maze>)
    ensures
        match r {
            Some(maze) => {
                &&& is_maze(rows(*lines))
                &&& maze.grid@ == cells_of(rows(*lines))
                &&& maze.start == start_of(rows(*lines))
                &&& maze.goal == goal_of(rows(*lines))
            },
            None => !is_maze(rows(*lines)),
        },
{
    let ghost text = rows(*lines);
    let ghost model = cells_of(text);
    let mut cells: Vec<Vec<Cell>> = Vec::new();
    let mut start: Option<Position> = None;
    let mut goal: Option<Position> = None;
    let mut i: usize = 0;
    while i < lines.len()
        invariant
            i <= lines.len(),
            text == rows(*lines),
            model == cells_of(text),
            cells.len() == i,
            forall|k: int| 0 <= k < i ==> (#[trigger] cells[k])@ == model[k],
            seen_last(model, Cell::Start, i as int, 0, start),
            seen_last(model, Cell::Goal, i as int, 0, goal),
        decreases lines.len() - i,
    {
        let line = &lines[i];
        let mut row: Vec<Cell> = Vec::new();
        let mut j: usize = 0;
        while j < line.len()
            invariant
                i < lines.len(),
                j <= line.len(),
                line == lines[i as int],
                text == rows(*lines),
                model == cells_of(text),
                row.len() == j,
                forall|k: int| 0 <= k < j ==> (#[trigger] row[k]) == model[i as int][k],
                seen_last(model, Cell::Start, i as int, j as int, start),
                seen_last(model, Cell::Goal, i as int, j as int, goal),
            decreases line.len() - j,
        {
            let c = line[j];
            let here = Position { row: i, col: j };
            let cell = if c == '#' {
                Cell::Wall
            } else if c == 'S' {
                start = Some(here);
                Cell::Start
            } else if c == 'E' {
                goal = Some(here);
                Cell::Goal
            } else {
                Cell::Open
            };
            assert(cell == model[i as int][j as int]);
            row.push(cell);
            j += 1;
        }
        assert(row@ =~= model[i as int]);
        cells.push(row);
        i += 1;
    }
    assert(rows(cells) =~= model);
    match Grid::new(cells) {
        Err(_) => None,
        Ok(grid) => {
            match (start, goal) {
                (Some(s), Some(g)) => {
                    proof {
                        assert(is_last_marker(model, Cell::Start, s));
                        assert(is_last_marker(model, Cell::Goal, g));
                        lemma_last_marker_unique(model, Cell::Start, s, start_of(text));
                        lemma_last_marker_unique(model, Cell::Goal, g, goal_of(text));
                    }
                    Some(Maze { grid, start: s, goal: g })
                },
                _ => None,
            }
        },
    }
}

/// `last` is the last cell of the kind `kind` among those read so far: the
/// rows before `i` and the first `j` cells of row `i`.
spec fn seen_last(cells: Seq<Seq<Cell>>, kind: Cell, i: int, j: int, last: Option<Position>) -> bool {
    match last {
        Some(p) => {
            &&& marks(cells, kind, p)
            &&& (p.row < i || (p.row == i && p.col < j))
            &&& forall|q: Position|
                #[trigger] marks(cells, kind, q) && (q.row < i || (q.row == i && q.col < j))
                    ==> not_after(q, p)
        },
        None => forall|q: Position|
            #[trigger] marks(cells, kind, q) ==> !(q.row < i || (q.row == i && q.col < j)),
    }
}

/// The cost of the cheapest way from the start marker, facing right, to the
/// goal marker; `u32::MAX` if there is no way. A text that is no maze is
/// refused.
pub fn find_lowest_score(grid: &Vec<Vec<char>>) -> (r: Result<u32, AdventError>)
    ensures
        match r {
            Ok(v) => is_maze(rows(*grid)) && is_shortest_cost(
                cells_of(rows(*grid)),
                start_state_of(rows(*grid)),
                goal_of(rows(*grid)),
                TURN_COST,
                v,
            ),
            Err(e) => !is_maze(rows(*grid)) && e is InputParseError,
        },
{
    match parse_maze(grid) {
        None => Err(parse_error("the grid is not a rectangular maze with a start and a goal")),
        Some(maze) => {
            let start = SearchState { position: maze.start, direction: Direction::Right };
            Ok(shortest_cost(&maze.grid, start, maze.goal, TURN_COST))
        },
    }
}

/// The positions that lie on a cheapest way through the maze `lines`.
pub open spec fn best_positions(lines: Seq<Seq<char>>) -> Set<Position> {
    Set::new(
        |p: Position|
            on_best_route(
                cells_of(lines),
                start_state_of(lines),
                goal_of(lines),
                TURN_COST,
                p,
            ),
    )
}

/// The number of cells that lie on a cheapest way from the start marker,
/// facing right, to the goal marker, reduced modulo 2^32; 0 if there is no
/// way. A text that is no maze is refused.
pub fn count_visited_paths(grid: &Vec<Vec<char>>) -> (r: Result<u32, AdventError>)
    ensures
        match r {
            Ok(v) => is_maze(rows(*grid)) && best_positions(rows(*grid)).finite() && v == wrapped(
                best_positions(rows(*grid)).len(),
            ),
            Err(e) => !is_maze(rows(*grid)) && e is InputParseError,
        },
{
    match parse_maze(grid) {
        None => Err(parse_error("the grid is not a rectangular maze with a start and a goal")),
        Some(maze) => {
            let start = SearchState { position: maze.start, direction: Direction::Right };
            let positions = all_minimum_cost_positions(&maze.grid, start, maze.goal, TURN_COST);
            proof {
                positions@.unique_seq_to_set();
                assert(positions@.to_set() =~= best_positions(rows(*grid)));
            }
            let n = positions.len() as u64;
            Ok((n % 0x1_0000_0000) as u32)
        },
    }
}

/// The cost of the cheapest way through the maze `lines`.
pub open spec fn lowest_score(lines: Seq<Seq<char>>) -> u32 {
    choose|d: u32|
        is_shortest_cost(cells_of(lines), start_state_of(lines), goal_of(lines), TURN_COST, d)
}

impl AdventProblem for Day16 {
    open spec fn accepts_part_1(&self, lines: Seq<Seq<char>>) -> bool {
        true
    }

    open spec fn accepts_part_2(&self, lines: Seq<Seq<char>>) -> bool {
        true
    }

    open spec fn answer_part_1(&self, lines: Seq<Seq<char>>) -> Option<u32> {
        if is_maze(lines) {
            Some(lowest_score(lines))
        } else {
            None
        }
    }

    open spec fn answer_part_2(&self, lines: Seq<Seq<char>>) -> Option<u32> {
        if is_maze(lines) {
            Some(wrapped(best_positions(lines).len()))
        } else {
            None
        }
    }

    fn run_part_1(&self, lines: Vec<String>) -> (r: Result<u32, AdventError>) {
        let grid = chars_of_lines(&lines);
        let r = find_lowest_score(&grid);
        proof {
            if let Ok(v) = r {
                let text = lines_view(lines);
                lemma_shortest_cost_unique(
                    cells_of(text),
                    start_state_of(text),
                    goal_of(text),
                    TURN_COST,
                    v,
                    lowest_score(text),
                );
            }
        }
        r
    }

    fn run_part_2(&self, lines: Vec<String>) -> (r: Result<u32, AdventError>) {
        let grid = chars_of_lines(&lines);
        count_visited_paths(&grid)
    }
}

} // verus!
