use super::grid::{in_bounds, Cell, Direction, Position, SearchState};
use crate::table::{lemma_tally_update, rows, tally};
use vstd::prelude::*;

verus! {

/// The costs recorded for the four headings at one position.
#[derive(Debug, Copy, Clone, PartialEq, Eq, Structural)]
pub struct CellCosts {
    pub up: u32,
    pub down: u32,
    pub left: u32,
    pub right: u32,
}

impl CellCosts {
    pub open spec fn get(self, d: Direction) -> u32 {
        match d {
            Direction::Up => self.up,
            Direction::Down => self.down,
            Direction::Left => self.left,
            Direction::Right => self.right,
        }
    }

    pub open spec fn with(self, d: Direction, cost: u32) -> CellCosts {
        match d {
            Direction::Up => CellCosts { up: cost, ..self },
            Direction::Down => CellCosts { down: cost, ..self },
            Direction::Left => CellCosts { left: cost, ..self },
            Direction::Right => CellCosts { right: cost, ..self },
        }
    }

    /// How many of the four headings have no cost yet.
    pub open spec fn open_count(self) -> nat {
        let a: nat = if self.up == u32::MAX { 1 } else { 0 };
        let b: nat = if self.down == u32::MAX { 1 } else { 0 };
        let c: nat = if self.left == u32::MAX { 1 } else { 0 };
        let d: nat = if self.right == u32::MAX { 1 } else { 0 };
        a + b + c + d
    }
}

/// The cost recorded in `costs` for `s`.
pub open spec fn cost_at(costs: Seq<Seq<CellCosts>>, s: SearchState) -> u32 {
    costs[s.position.row as int][s.position.col as int].get(s.direction)
}

/// `costs` has one entry for every position of `cells`.
pub open spec fn same_shape(costs: Seq<Seq<CellCosts>>, cells: Seq<Seq<Cell>>) -> bool {
    &&& costs.len() == cells.len()
    &&& forall|i: int| 0 <= i < costs.len() ==> (#[trigger] costs[i]).len() == cells[i].len()
}

/// How many states of one row have no cost yet.
pub open spec fn row_open_count(row: Seq<CellCosts>) -> nat {
    tally(row, |c: CellCosts| c.open_count())
}

/// How many states have no cost yet.
pub open spec fn open_count(costs: Seq<Seq<CellCosts>>) -> nat {
    tally(costs, |row: Seq<CellCosts>| row_open_count(row))
}

/// `costs` with the entry for `s` replaced by `cost`.
pub open spec fn with_cost(costs: Seq<Seq<CellCosts>>, s: SearchState, cost: u32) -> Seq<
    Seq<CellCosts>,
> {
    let r = s.position.row as int;
    let c = s.position.col as int;
    costs.update(r, costs[r].update(c, costs[r][c].with(s.direction, cost)))
}

/// Giving a cost to a state that had none leaves one state fewer without.
pub proof fn lemma_open_count_settle(costs: Seq<Seq<CellCosts>>, s: SearchState, cost: u32)
    requires
        s.position.row < costs.len(),
        s.position.col < costs[s.position.row as int].len(),
        cost_at(costs, s) == u32::MAX,
        cost != u32::MAX,
    ensures
        open_count(with_cost(costs, s, cost)) + 1 == open_count(costs),
{
    let r = s.position.row as int;
    let c = s.position.col as int;
    let cell = costs[r][c].with(s.direction, cost);
    let row = costs[r].update(c, cell);
    lemma_tally_update(costs[r], c, cell, |c: CellCosts| c.open_count());
    lemma_tally_update(costs, r, row, |row: Seq<CellCosts>| row_open_count(row));
}

/// One cost for every search state of a grid; `u32::MAX` where none is known.
pub struct CostMap {
    cells: Vec<Vec<CellCosts>>,
}

impl CostMap {
    pub closed spec fn view(&self) -> Seq<Seq<CellCosts>> {
        rows(self.cells)
    }

    /// A map for `m` rows of `n` columns in which no state has a cost.
    pub fn new(m: usize, n: usize) -> (r: CostMap)
        ensures
            r@.len() == m,
            forall|i: int| 0 <= i < m ==> (#[trigger] r@[i]).len() == n,
            forall|i: int, j: int|
                0 <= i < m && 0 <= j < n ==> (#[trigger] r@[i][j]) == (CellCosts {
                    up: u32::MAX,
                    down: u32::MAX,
                    left: u32::MAX,
                    right: u32::MAX,
                }),
    {
        let blank = CellCosts { up: u32::MAX, down: u32::MAX, left: u32::MAX, right: u32::MAX };
        let mut cells: Vec<Vec<CellCosts>> = Vec::new();
        let mut i: usize = 0;
        while i < m
            invariant
                i <= m,
                cells.len() == i,
                forall|k: int| 0 <= k < i ==> (#[trigger] cells[k]).len() == n,
                forall|k: int, j: int| 0 <= k < i && 0 <= j < n ==> (#[trigger] cells[k][j]) == blank,
            decreases m - i,
        {
            let mut row: Vec<CellCosts> = Vec::new();
            let mut j: usize = 0;
            while j < n
                invariant
                    j <= n,
                    row.len() == j,
                    forall|k: int| 0 <= k < j ==> (#[trigger] row[k]) == blank,
                decreases n - j,
            {
                row.push(blank);
                j += 1;
            }
            cells.push(row);
            i += 1;
        }
        CostMap { cells }
    }

    /// The cost recorded for `s`.
    pub fn get(&self, s: SearchState) -> (r: u32)
        requires
            s.position.row < self@.len(),
            s.position.col < self@[s.position.row as int].len(),
        ensures
            r == cost_at(self@, s),
    {
        let cell = self.cells[s.position.row][s.position.col];
        match s.direction {
            Direction::Up => cell.up,
            Direction::Down => cell.down,
            Direction::Left => cell.left,
            Direction::Right => cell.right,
        }
    }

    /// Records `cost` for `s`.
    pub fn set(&mut self, s: SearchState, cost: u32)
        requires
            s.position.row < old(self)@.len(),
            s.position.col < old(self)@[s.position.row as int].len(),
        ensures
            final(self)@ == with_cost(old(self)@, s, cost),
    {
        let r = s.position.row;
        let c = s.position.col;
        match s.direction {
            Direction::Up => {
                self.cells[r][c].up = cost;
            },
            Direction::Down => {
                self.cells[r][c].down = cost;
            },
            Direction::Left => {
                self.cells[r][c].left = cost;
            },
            Direction::Right => {
                self.cells[r][c].right = cost;
            },
        }
        assert(self@ =~= with_cost(old(self)@, s, cost));
    }
}

} // verus!
