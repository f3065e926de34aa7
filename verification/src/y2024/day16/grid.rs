use crate::table::rows;
use vstd::prelude::*;

verus! {

/// What occupies one cell of the maze.
#[derive(Debug, Copy, Clone, PartialEq, Eq, Structural)]
pub enum Cell {
    Open,
    Wall,
    Start,
    Goal,
}

/// A heading on the grid. Rows grow downwards, columns to the right.
#[derive(Debug, Copy, Clone, PartialEq, Eq, Hash, Structural)]
pub enum Direction {
    Up,
    Down,
    Left,
    Right,
}

/// A cell of the grid, by row and column, counted from the top-left corner.
#[derive(Debug, Copy, Clone, PartialEq, Eq, Hash, Structural)]
pub struct Position {
    pub row: usize,
    pub col: usize,
}

/// Where the walker stands and which way it faces: the unit of visitation.
#[derive(Debug, Copy, Clone, PartialEq, Eq, Hash, Structural)]
pub struct SearchState {
    pub position: Position,
    pub direction: Direction,
}

impl Direction {
    /// The heading a quarter turn to the right of this one.
    pub open spec fn clockwise(self) -> Direction {
        match self {
            Direction::Up => Direction::Right,
            Direction::Down => Direction::Left,
            Direction::Left => Direction::Up,
            Direction::Right => Direction::Down,
        }
    }

    /// The heading a quarter turn to the left of this one.
    pub open spec fn counterclockwise(self) -> Direction {
        match self {
            Direction::Up => Direction::Left,
            Direction::Down => Direction::Right,
            Direction::Left => Direction::Down,
            Direction::Right => Direction::Up,
        }
    }

    /// The heading half a turn away from this one.
    pub open spec fn opposite(self) -> Direction {
        self.clockwise().clockwise()
    }

    pub fn rotate_clockwise(&self) -> (r: Direction)
        ensures
            r == self.clockwise(),
    {
        match self {
            Direction::Up => Direction::Right,
            Direction::Down => Direction::Left,
            Direction::Left => Direction::Up,
            Direction::Right => Direction::Down,
        }
    }

    pub fn rotate_counterclockwise(&self) -> (r: Direction)
        ensures
            r == self.counterclockwise(),
    {
        match self {
            Direction::Up => Direction::Left,
            Direction::Down => Direction::Right,
            Direction::Left => Direction::Down,
            Direction::Right => Direction::Up,
        }
    }
}

/// `q` is the cell next to `p` on the side `d`.
pub open spec fn ahead(p: Position, d: Direction, q: Position) -> bool {
    match d {
        Direction::Up => q.col == p.col && q.row + 1 == p.row,
        Direction::Down => q.col == p.col && q.row == p.row + 1,
        Direction::Left => q.row == p.row && q.col + 1 == p.col,
        Direction::Right => q.row == p.row && q.col == p.col + 1,
    }
}

/// The neighbour of `space` on the side `direction` inside a grid of
/// `boundary.0` rows and `boundary.1` columns, if there is one.
pub fn next_space(space: Position, boundary: (usize, usize), direction: Direction) -> (r: Option<
    Position,
>)
    ensures
        match r {
            Some(q) => ahead(space, direction, q) && q.row < boundary.0 && q.col < boundary.1,
            None => forall|q: Position|
                ahead(space, direction, q) ==> !(q.row < boundary.0 && q.col < boundary.1),
        },
{
    let (m, n) = boundary;
    match direction {
        Direction::Up => {
            if space.row == 0 || space.row > m || space.col >= n {
                None
            } else {
                Some(Position { row: space.row - 1, col: space.col })
            }
        },
        Direction::Down => {
            if m == 0 || space.row >= m - 1 || space.col >= n {
                None
            } else {
                Some(Position { row: space.row + 1, col: space.col })
            }
        },
        Direction::Left => {
            if space.col == 0 || space.col > n || space.row >= m {
                None
            } else {
                Some(Position { row: space.row, col: space.col - 1 })
            }
        },
        Direction::Right => {
            if n == 0 || space.col >= n - 1 || space.row >= m {
                None
            } else {
                Some(Position { row: space.row, col: space.col + 1 })
            }
        },
    }
}

/// `p` lies inside `cells`.
pub open spec fn in_bounds(cells: Seq<Seq<Cell>>, p: Position) -> bool {
    p.row < cells.len() && p.col < cells[p.row as int].len()
}

/// `p` lies inside `cells` and is no wall.
pub open spec fn passable(cells: Seq<Seq<Cell>>, p: Position) -> bool {
    in_bounds(cells, p) && cells[p.row as int][p.col as int] != Cell::Wall
}

/// `cells` has at least one row and one column, and all rows are equally long.
pub open spec fn rectangular(cells: Seq<Seq<Cell>>) -> bool {
    &&& cells.len() > 0
    &&& cells[0].len() > 0
    &&& forall|i: int| 0 <= i < cells.len() ==> (#[trigger] cells[i]).len() == cells[0].len()
}

/// `chars` has at least `m` rows of at least `n` characters, and neither
/// is 0.
pub open spec fn covers(chars: Seq<Seq<char>>, m: usize, n: usize) -> bool {
    &&& 0 < m <= chars.len()
    &&& 0 < n
    &&& forall|i: int| 0 <= i < m ==> (#[trigger] chars[i]).len() >= n
}

/// The top left corner of `chars`, `m` rows of `n` columns, with a wall for
/// every `#` and an open cell for every other character.
pub open spec fn walls_of(chars: Seq<Seq<char>>, m: usize, n: usize) -> Seq<Seq<Cell>> {
    Seq::new(
        m as nat,
        |i: int|
            Seq::new(
                n as nat,
                |j: int|
                    if chars[i][j] == '#' {
                        Cell::Wall
                    } else {
                        Cell::Open
                    },
            ),
    )
}

/// A rectangular maze of at least one cell.
pub struct Grid {
    cells: Vec<Vec<Cell>>,
}

impl Grid {
    #[verifier::type_invariant]
    spec fn well_formed(&self) -> bool {
        rectangular(rows(self.cells))
    }

    /// The cells, row by row.
    pub closed spec fn view(&self) -> Seq<Seq<Cell>> {
        rows(self.cells)
    }

    /// Makes a grid of `cells`, or gives them back when they are not rectangular.
    pub fn new(cells: Vec<Vec<Cell>>) -> (r: Result<Grid, Vec<Vec<Cell>>>)
        ensures
            match r {
                Ok(g) => rectangular(rows(cells)) && g@ == rows(cells),
                Err(c) => !rectangular(rows(cells)) && c == cells,
            },
    {
        if cells.len() == 0 || cells[0].len() == 0 {
            return Err(cells);
        }
        let n = cells[0].len();
        let mut i: usize = 1;
        while i < cells.len()
            invariant
                1 <= i <= cells.len(),
                n == cells[0].len(),
                n > 0,
                forall|k: int| 0 <= k < i ==> (#[trigger] cells[k]).len() == n,
            decreases cells.len() - i,
        {
            if cells[i].len() != n {
                proof {
                    assert(rows(cells)[i as int].len() == cells[i as int].len());
                    assert(rows(cells)[0].len() == cells[0].len());
                }
                return Err(cells);
            }
            i += 1;
        }
        proof {
            assert forall|k: int| 0 <= k < rows(cells).len() implies (
            #[trigger] rows(cells)[k]).len() == rows(cells)[0].len() by {
                assert(rows(cells)[k].len() == cells[k].len());
            }
        }
        Ok(Grid { cells })
    }

    /// The grid whose cells are the walls and the open cells that the top
    /// left corner of `chars`, `m` rows of `n` columns, shows; `None` where
    /// `chars` does not reach so far, or where `m` or `n` is 0.
    pub fn of_walls(chars: &Vec<Vec<char>>, m: usize, n: usize) -> (r: Option<Grid>)
        ensures
            match r {
                Some(grid) => covers(rows(*chars), m, n) && grid@ == walls_of(rows(*chars), m, n),
                None => !covers(rows(*chars), m, n),
            },
    {
        if m == 0 || n == 0 || chars.len() < m {
            return None;
        }
        let ghost text = rows(*chars);
        let mut cells: Vec<Vec<Cell>> = Vec::new();
        let mut i: usize = 0;
        while i < m
            invariant
                i <= m <= chars.len(),
                n > 0,
                text == rows(*chars),
                cells.len() == i,
                forall|k: int| 0 <= k < i ==> (#[trigger] text[k]).len() >= n,
                forall|k: int| 0 <= k < i ==> (#[trigger] cells[k])@ == walls_of(text, m, n)[k],
            decreases m - i,
        {
            let line = &chars[i];
            assert(text[i as int] == line@);
            if line.len() < n {
                return None;
            }
            let mut row: Vec<Cell> = Vec::new();
            let mut j: usize = 0;
            while j < n
                invariant
                    j <= n <= line.len(),
                    i < m,
                    text[i as int] == line@,
                    row.len() == j,
                    forall|k: int| 0 <= k < j ==> (#[trigger] row[k]) == walls_of(text, m, n)[i as int][k],
                decreases n - j,
            {
                row.push(if line[j] == '#' { Cell::Wall } else { Cell::Open });
                j += 1;
            }
            assert(row@ =~= walls_of(text, m, n)[i as int]);
            cells.push(row);
            i += 1;
        }
        assert(rows(cells) =~= walls_of(text, m, n));
        match Grid::new(cells) {
            Ok(grid) => Some(grid),
            Err(_) => None,
        }
    }

    /// The number of rows and of columns.
    pub fn boundary(&self) -> (r: (usize, usize))
        ensures
            rectangular(self@),
            r.0 == self@.len(),
            r.1 == self@[0].len(),
    {
        proof {
            use_type_invariant(self);
        }
        (self.cells.len(), self.cells[0].len())
    }

    /// The cell at `p`.
    pub fn cell(&self, p: Position) -> (r: Cell)
        requires
            in_bounds(self@, p),
        ensures
            r == self@[p.row as int][p.col as int],
    {
        self.cells[p.row][p.col]
    }
}

} // verus!
