//! Steps on a grid where a turn costs nothing.

use super::best::arrivals;
use super::costs::{cost_at, same_shape, CostMap};
use super::grid::{in_bounds, rectangular, Cell, Direction, Grid, Position, SearchState};
use super::route::is_distance;
use super::search::{explore, lemma_distance_unique};
use vstd::prelude::*;

verus! {

/// The least of four numbers.
pub open spec fn least_of(a: u32, b: u32, c: u32, d: u32) -> u32 {
    let ab = if a <= b {
        a
    } else {
        b
    };
    let cd = if c <= d {
        c
    } else {
        d
    };
    if ab <= cd {
        ab
    } else {
        cd
    }
}

/// `v` is the number of steps of the shortest way from `from` to `p` that
/// avoids the walls: the least of the distances of `p` under its four
/// headings from `from` under any heading, where a turn costs nothing. `u32::MAX` says that there is no way.
pub open spec fn is_steps(cells: Seq<Seq<Cell>>, from: Position, p: Position, v: u32) -> bool {
    exists|a: u32, b: u32, c: u32, d: u32|
        #![trigger least_of(a, b, c, d)]
        {
            &&& is_distance(cells, false, arrivals(from), 0, arrivals(p)[0], a)
            &&& is_distance(cells, false, arrivals(from), 0, arrivals(p)[1], b)
            &&& is_distance(cells, false, arrivals(from), 0, arrivals(p)[2], c)
            &&& is_distance(cells, false, arrivals(from), 0, arrivals(p)[3], d)
            &&& v == least_of(a, b, c, d)
        }
}

/// A place has one number of steps from another.
pub proof fn lemma_steps_unique(cells: Seq<Seq<Cell>>, from: Position, p: Position, v: u32, w: u32)
    requires
        is_steps(cells, from, p, v),
        is_steps(cells, from, p, w),
    ensures
        v == w,
{
    let (a, b, c, d) = choose|a: u32, b: u32, c: u32, d: u32|
        #![trigger least_of(a, b, c, d)]
        {
            &&& is_distance(cells, false, arrivals(from), 0, arrivals(p)[0], a)
            &&& is_distance(cells, false, arrivals(from), 0, arrivals(p)[1], b)
            &&& is_distance(cells, false, arrivals(from), 0, arrivals(p)[2], c)
            &&& is_distance(cells, false, arrivals(from), 0, arrivals(p)[3], d)
            &&& v == least_of(a, b, c, d)
        };
    let (a2, b2, c2, d2) = choose|a: u32, b: u32, c: u32, d: u32|
        #![trigger least_of(a, b, c, d)]
        {
            &&& is_distance(cells, false, arrivals(from), 0, arrivals(p)[0], a)
            &&& is_distance(cells, false, arrivals(from), 0, arrivals(p)[1], b)
            &&& is_distance(cells, false, arrivals(from), 0, arrivals(p)[2], c)
            &&& is_distance(cells, false, arrivals(from), 0, arrivals(p)[3], d)
            &&& w == least_of(a, b, c, d)
        };
    lemma_distance_unique(cells, false, arrivals(from), 0, arrivals(p)[0], a, a2);
    lemma_distance_unique(cells, false, arrivals(from), 0, arrivals(p)[1], b, b2);
    lemma_distance_unique(cells, false, arrivals(from), 0, arrivals(p)[2], c, c2);
    lemma_distance_unique(cells, false, arrivals(from), 0, arrivals(p)[3], d, d2);
}

/// For every place of the grid, the number of steps of the shortest way
/// from `from` to it that avoids the walls, or `u32::MAX` if there is none.
pub fn steps_table(maze: &Grid, from: Position) -> (r: Vec<Vec<u32>>)
    requires
        in_bounds(maze@, from),
    ensures
        r.len() == maze@.len(),
        forall|i: int| 0 <= i < r.len() ==> (#[trigger] r[i]).len() == maze@[0].len(),
        forall|i: int, j: int|
            0 <= i < r.len() && 0 <= j < r[i].len() ==> is_steps(
                maze@,
                from,
                Position { row: i as usize, col: j as usize },
                #[trigger] r[i][j],
            ),
{
    let ghost cells = maze@;
    let (m, n) = maze.boundary();
    let mut sources: Vec<SearchState> = Vec::new();
    sources.push(SearchState { position: from, direction: Direction::Up });
    sources.push(SearchState { position: from, direction: Direction::Down });
    sources.push(SearchState { position: from, direction: Direction::Left });
    sources.push(SearchState { position: from, direction: Direction::Right });
    assert(sources@ =~= arrivals(from));
    let (costs, _) = explore(maze, &sources, 0, false, None);
    let mut distances: Vec<Vec<u32>> = Vec::new();
    let mut i: usize = 0;
    while i < m
        invariant
            i <= m,
            m == cells.len(),
            n == cells[0].len(),
            forall|k: int| 0 <= k < m ==> (#[trigger] cells[k]).len() == n,
            same_shape(costs@, cells),
            sources@ == arrivals(from),
            forall|s: SearchState|
                in_bounds(cells, s.position) ==> is_distance(
                    cells,
                    false,
                    sources@,
                    0,
                    s,
                    #[trigger] cost_at(costs@, s),
                ),
            distances.len() == i,
            forall|k: int| 0 <= k < i ==> (#[trigger] distances[k]).len() == n,
            forall|k: int, j: int|
                0 <= k < i && 0 <= j < n ==> is_steps(
                    cells,
                    from,
                    Position { row: k as usize, col: j as usize },
                    #[trigger] distances[k][j],
                ),
        decreases m - i,
    {
        let mut row: Vec<u32> = Vec::new();
        let mut j: usize = 0;
        while j < n
            invariant
                j <= n,
                i < m,
                m == cells.len(),
                cells[i as int].len() == n,
                same_shape(costs@, cells),
                sources@ == arrivals(from),
                forall|s: SearchState|
                    in_bounds(cells, s.position) ==> is_distance(
                        cells,
                        false,
                        sources@,
                        0,
                        s,
                        #[trigger] cost_at(costs@, s),
                    ),
                row.len() == j,
                forall|k: int|
                    0 <= k < j ==> is_steps(
                        cells,
                        from,
                        Position { row: i, col: k as usize },
                        #[trigger] row[k],
                    ),
            decreases n - j,
        {
            let p = Position { row: i, col: j };
            let a = costs.get(SearchState { position: p, direction: Direction::Up });
            let b = costs.get(SearchState { position: p, direction: Direction::Down });
            let c = costs.get(SearchState { position: p, direction: Direction::Left });
            let d = costs.get(SearchState { position: p, direction: Direction::Right });
            let ab = if a <= b { a } else { b };
            let cd = if c <= d { c } else { d };
            let v = if ab <= cd { ab } else { cd };
            proof {
                assert(in_bounds(cells, p));
                assert(v == least_of(a, b, c, d));
                assert(is_steps(cells, from, p, v));
            }
            row.push(v);
            j += 1;
        }
        distances.push(row);
        i += 1;
    }
    distances
}

} // verus!
