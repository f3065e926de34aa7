//! What the way costs where nothing stands in it.

use super::best::{is_route, is_shortest_cost};
use super::grid::{ahead, in_bounds, passable, rectangular, Cell, Direction, Position, SearchState};
use super::route::{
    is_step, is_walk, lemma_walk_extend, lemma_walk_shrink, lemma_walk_single, reaches, step_cost,
    walk_cost,
};
use vstd::prelude::*;

verus! {

/// The number of steps between `p` and `q` where nothing is in the way.
pub open spec fn manhattan(p: Position, q: Position) -> int {
    (if p.row <= q.row {
        q.row - p.row
    } else {
        p.row - q.row
    }) + (if p.col <= q.col {
        q.col - p.col
    } else {
        p.col - q.col
    })
}

/// The number of quarter turns that bring the heading `d` to `x`.
pub open spec fn quarter_turns(d: Direction, x: Direction) -> int {
    if d == x {
        0
    } else if d == x.opposite() {
        2
    } else {
        1
    }
}

/// The heading along the rows that leads from `p` towards `q`, if they lie
/// in different rows.
pub open spec fn row_heading(p: Position, q: Position) -> Option<Direction> {
    if q.row < p.row {
        Some(Direction::Up)
    } else if q.row > p.row {
        Some(Direction::Down)
    } else {
        None
    }
}

/// The heading along the columns that leads from `p` towards `q`, if they
/// lie in different columns.
pub open spec fn col_heading(p: Position, q: Position) -> Option<Direction> {
    if q.col < p.col {
        Some(Direction::Left)
    } else if q.col > p.col {
        Some(Direction::Right)
    } else {
        None
    }
}

/// The least number of quarter turns that a walker in the state `s` must
/// make to come to `goal`: it must at some time face every heading in which
/// `goal` lies.
pub open spec fn turns_needed(s: SearchState, goal: Position) -> int {
    match (row_heading(s.position, goal), col_heading(s.position, goal)) {
        (None, None) => 0,
        (Some(x), None) => quarter_turns(s.direction, x),
        (None, Some(y)) => quarter_turns(s.direction, y),
        (Some(x), Some(y)) => if s.direction == x || s.direction == y {
            1
        } else {
            2
        },
    }
}

/// What `t` quarter turns cost, for `t` up to 2.
pub open spec fn turns_cost(t: int, turn_cost: u32) -> int {
    if t <= 0 {
        0
    } else if t == 1 {
        turn_cost as int
    } else {
        2 * turn_cost
    }
}

/// What the way from `s` to `goal` costs at the least, walls or no walls:
/// the steps and the turns that must be made.
pub open spec fn least_cost(s: SearchState, goal: Position, turn_cost: u32) -> int {
    manhattan(s.position, goal) + turns_cost(turns_needed(s, goal), turn_cost)
}

/// A move saves no more than it costs.
pub proof fn lemma_move_saves_little(
    cells: Seq<Seq<Cell>>,
    a: SearchState,
    b: SearchState,
    goal: Position,
    turn_cost: u32,
)
    requires
        is_step(cells, a, b),
    ensures
        least_cost(a, goal, turn_cost) <= step_cost(a, b, turn_cost) + least_cost(b, goal, turn_cost),
{
    let d = a.direction;
    assert(d.clockwise() != d && d.counterclockwise() != d);
    assert(d.opposite() != d);
    if a.direction == b.direction {
        assert(ahead(a.position, d, b.position));
    } else {
        assert(a.position == b.position);
    }
}

/// No walk costs less than the steps and turns that must be made.
pub proof fn lemma_least_cost(
    cells: Seq<Seq<Cell>>,
    w: Seq<SearchState>,
    goal: Position,
    turn_cost: u32,
)
    requires
        is_walk(cells, false, w),
    ensures
        least_cost(w[0], goal, turn_cost) <= walk_cost(w, turn_cost) + least_cost(
            w.last(),
            goal,
            turn_cost,
        ),
    decreases w.len(),
{
    if w.len() > 1 {
        lemma_walk_shrink(cells, false, w, turn_cost);
        lemma_least_cost(cells, w.drop_last(), goal, turn_cost);
        lemma_move_saves_little(cells, w.drop_last().last(), w.last(), goal, turn_cost);
    }
}

/// The position `t` steps from `p` in the heading `d`.
pub open spec fn steps_from(p: Position, d: Direction, t: int) -> Position {
    match d {
        Direction::Up => Position { row: (p.row - t) as usize, col: p.col },
        Direction::Down => Position { row: (p.row + t) as usize, col: p.col },
        Direction::Left => Position { row: p.row, col: (p.col - t) as usize },
        Direction::Right => Position { row: p.row, col: (p.col + t) as usize },
    }
}

/// The `k` cells ahead of `p` in the heading `d` lie in the grid and are
/// no walls.
pub open spec fn clear_ahead(cells: Seq<Seq<Cell>>, p: Position, d: Direction, k: int) -> bool {
    forall|t: int|
        1 <= t <= k ==> passable(cells, #[trigger] steps_from(p, d, t)) && (d == Direction::Up
            ==> p.row >= t) && (d == Direction::Left ==> p.col >= t) && (d == Direction::Down
            ==> p.row + t <= usize::MAX) && (d == Direction::Right ==> p.col + t <= usize::MAX)
}

/// Along `k` clear cells straight ahead leads a walk of cost `k`.
pub proof fn lemma_walk_ahead(
    cells: Seq<Seq<Cell>>,
    w: Seq<SearchState>,
    k: int,
    turn_cost: u32,
) -> (r: Seq<SearchState>)
    requires
        is_walk(cells, false, w),
        k >= 0,
        clear_ahead(cells, w.last().position, w.last().direction, k),
    ensures
        is_walk(cells, false, r),
        r[0] == w[0],
        r.last() == (SearchState {
            position: steps_from(w.last().position, w.last().direction, k),
            direction: w.last().direction,
        }),
        walk_cost(r, turn_cost) == walk_cost(w, turn_cost) + k,
    decreases k,
{
    let p = w.last().position;
    let d = w.last().direction;
    if k == 0 {
        assert(steps_from(p, d, 0) == p);
        w
    } else {
        assert forall|t: int| 1 <= t <= k - 1 implies passable(
            cells,
            #[trigger] steps_from(p, d, t),
        ) && (d == Direction::Up ==> p.row >= t) && (d == Direction::Left ==> p.col >= t) && (d
            == Direction::Down ==> p.row + t <= usize::MAX) && (d == Direction::Right ==> p.col + t
            <= usize::MAX) by {
            assert(passable(cells, steps_from(p, d, t)));
        }
        let before = lemma_walk_ahead(cells, w, k - 1, turn_cost);
        let next = SearchState { position: steps_from(p, d, k), direction: d };
        assert(passable(cells, steps_from(p, d, k)));
        if k > 1 {
            assert(passable(cells, steps_from(p, d, k - 1)));
        }
        assert(ahead(steps_from(p, d, k - 1), d, steps_from(p, d, k)));
        assert(is_step(cells, before.last(), next));
        lemma_walk_extend(cells, false, before, next, turn_cost);
        before.push(next)
    }
}

/// A walker turns to any heading by as many quarter turns as lie between.
pub proof fn lemma_walk_turning(
    cells: Seq<Seq<Cell>>,
    start: SearchState,
    x: Direction,
    turn_cost: u32,
) -> (r: Seq<SearchState>)
    requires
        in_bounds(cells, start.position),
    ensures
        is_walk(cells, false, r),
        r[0] == start,
        r.last() == (SearchState { position: start.position, direction: x }),
        walk_cost(r, turn_cost) == turns_cost(quarter_turns(start.direction, x), turn_cost),
{
    let d = start.direction;
    let w0 = seq![start];
    lemma_walk_single(cells, false, start, turn_cost);
    if d == x {
        assert(start == SearchState { position: start.position, direction: x });
        w0
    } else if d.clockwise() == x {
        let s1 = SearchState { position: start.position, direction: x };
        lemma_walk_extend(cells, false, w0, s1, turn_cost);
        w0.push(s1)
    } else if d.counterclockwise() == x {
        let s1 = SearchState { position: start.position, direction: x };
        lemma_walk_extend(cells, false, w0, s1, turn_cost);
        w0.push(s1)
    } else {
        assert(x == d.opposite());
        let s1 = SearchState { position: start.position, direction: d.clockwise() };
        let s2 = SearchState { position: start.position, direction: x };
        lemma_walk_extend(cells, false, w0, s1, turn_cost);
        lemma_walk_extend(cells, false, w0.push(s1), s2, turn_cost);
        w0.push(s1).push(s2)
    }
}

/// Where the goal lies in the row or the column of the start with no wall
/// between them, the shortest cost is the distance between the two, and the
/// cost of a turn for every quarter turn that the walker must make to face
/// the goal: none if it faces there already, one if the goal lies to its side,
/// two if it lies behind.
pub proof fn lemma_straight_line_cost(
    cells: Seq<Seq<Cell>>,
    start: SearchState,
    goal: Position,
    x: Direction,
    k: int,
    turn_cost: u32,
)
    requires
        in_bounds(cells, start.position),
        k >= 0,
        goal == steps_from(start.position, x, k),
        clear_ahead(cells, start.position, x, k),
        k == 0 ==> x == start.direction,
        k + turns_cost(quarter_turns(start.direction, x), turn_cost) < u32::MAX,
    ensures
        is_shortest_cost(
            cells,
            start,
            goal,
            turn_cost,
            (k + turns_cost(quarter_turns(start.direction, x), turn_cost)) as u32,
        ),
{
    let cost = k + turns_cost(quarter_turns(start.direction, x), turn_cost);
    let turning = lemma_walk_turning(cells, start, x, turn_cost);
    let w = lemma_walk_ahead(cells, turning, k, turn_cost);
    assert(seq![start][0] == start);
    assert(reaches(cells, false, seq![start], w, w.last()));
    assert(w.last().position == goal);
    assert(walk_cost(w, turn_cost) == cost);
    if k > 0 {
        assert(passable(cells, steps_from(start.position, x, k)));
    }
    assert(least_cost(start, goal, turn_cost) == cost);
    assert forall|v: Seq<SearchState>| #[trigger]
        reaches(cells, false, seq![start], v, v.last()) && v.last().position
            == goal implies walk_cost(v, turn_cost) >= cost by {
        lemma_least_cost(cells, v, goal, turn_cost);
        assert(v[0] == start);
        assert(least_cost(v.last(), goal, turn_cost) == 0);
    }
}

} // verus!
