use super::costs::{cost_at, same_shape, CellCosts, CostMap};
use super::grid::{in_bounds, rectangular, Cell, Direction, Grid, Position, SearchState};
use super::route::{
    is_distance, is_walk, lemma_cost_concat, lemma_cost_reverse, lemma_walk_concat,
    lemma_walk_reverse, lemma_walk_split, reaches, walk_cost,
};
use super::search::{
    explore, is_arrival_cost, lemma_distance_bounds, lemma_distance_witnessed, witnessed,
};
use crate::table::{lemma_push_contains, lemma_push_no_duplicates};
use vstd::prelude::*;

verus! {

/// `w` is a route: a sequence of moves that begins in `start` and ends at
/// `goal`, whatever the heading there.
pub open spec fn is_route(
    cells: Seq<Seq<Cell>>,
    start: SearchState,
    goal: Position,
    w: Seq<SearchState>,
) -> bool {
    reaches(cells, false, seq![start], w, w.last()) && w.last().position == goal
}

/// `d` is what the cheapest route from `start` to `goal` costs; `u32::MAX`
/// says that there is no route, or none whose cost lies below `u32::MAX`.
pub open spec fn is_shortest_cost(
    cells: Seq<Seq<Cell>>,
    start: SearchState,
    goal: Position,
    turn_cost: u32,
    d: u32,
) -> bool {
    is_arrival_cost(cells, false, seq![start], turn_cost, goal, d)
}

/// `goal` can be had from `start` at a cost below `u32::MAX`.
pub open spec fn reachable(
    cells: Seq<Seq<Cell>>,
    start: SearchState,
    goal: Position,
    turn_cost: u32,
) -> bool {
    exists|w: Seq<SearchState>| #[trigger]
        is_route(cells, start, goal, w) && walk_cost(w, turn_cost) < u32::MAX
}

/// `w` is a route that no other route undercuts.
pub open spec fn is_best_route(
    cells: Seq<Seq<Cell>>,
    start: SearchState,
    goal: Position,
    turn_cost: u32,
    w: Seq<SearchState>,
) -> bool {
    &&& is_route(cells, start, goal, w)
    &&& walk_cost(w, turn_cost) < u32::MAX
    &&& forall|v: Seq<SearchState>| #[trigger]
        is_route(cells, start, goal, v) ==> walk_cost(v, turn_cost) >= walk_cost(w, turn_cost)
}

/// Some cheapest route from `start` to `goal` passes over `p`.
pub open spec fn on_best_route(
    cells: Seq<Seq<Cell>>,
    start: SearchState,
    goal: Position,
    turn_cost: u32,
    p: Position,
) -> bool {
    exists|w: Seq<SearchState>, k: int|
        is_best_route(cells, start, goal, turn_cost, w) && 0 <= k < w.len() && (
        #[trigger] w[k]).position == p
}

/// The search has one answer: two costs that are both the shortest are equal.
/// So asking twice for the shortest cost on one grid gives one value.
pub proof fn lemma_shortest_cost_unique(
    cells: Seq<Seq<Cell>>,
    start: SearchState,
    goal: Position,
    turn_cost: u32,
    a: u32,
    b: u32,
)
    requires
        is_shortest_cost(cells, start, goal, turn_cost, a),
        is_shortest_cost(cells, start, goal, turn_cost, b),
    ensures
        a == b,
{
    if a < b {
        let w = choose|w: Seq<SearchState>| #[trigger]
            reaches(cells, false, seq![start], w, w.last()) && w.last().position == goal
                && walk_cost(w, turn_cost) == a;
        assert(walk_cost(w, turn_cost) >= b);
    } else if b < a {
        let w = choose|w: Seq<SearchState>| #[trigger]
            reaches(cells, false, seq![start], w, w.last()) && w.last().position == goal
                && walk_cost(w, turn_cost) == b;
        assert(walk_cost(w, turn_cost) >= a);
    }
}

/// The least accumulated cost at which a walker that begins in `start` can
/// stand on `goal`, where a step onto the open cell ahead costs 1 and a
/// quarter turn in place costs `turn_cost`. `u32::MAX` says that `goal`
/// cannot be reached at a cost below it.
pub fn shortest_cost(grid: &Grid, start: SearchState, goal: Position, turn_cost: u32) -> (r: u32)
    ensures
        is_shortest_cost(grid@, start, goal, turn_cost, r),
{
    let (m, n) = grid.boundary();
    if start.position.row >= m || start.position.col >= n {
        assert forall|w: Seq<SearchState>| #[trigger]
            reaches(grid@, false, seq![start], w, w.last()) implies false by {
            assert(seq![start][0] == start);
            assert(in_bounds(grid@, w[0].position));
        }
        return u32::MAX;
    }
    let mut sources: Vec<SearchState> = Vec::new();
    sources.push(start);
    assert(sources@ =~= seq![start]);
    let (_, cost) = explore(grid, &sources, turn_cost, false, Some(goal));
    cost
}

/// Both maps agree that `s` lies on a cheapest route: what it costs to come
/// to `s` and what it costs to go on from there add up to `best`.
pub open spec fn is_tight(
    ahead: Seq<Seq<CellCosts>>,
    behind: Seq<Seq<CellCosts>>,
    best: u32,
    s: SearchState,
) -> bool {
    &&& cost_at(ahead, s) < u32::MAX
    &&& cost_at(behind, s) < u32::MAX
    &&& cost_at(ahead, s) + cost_at(behind, s) == best
}

/// `p` is tight under one of the four headings.
pub open spec fn is_tight_at(
    ahead: Seq<Seq<CellCosts>>,
    behind: Seq<Seq<CellCosts>>,
    best: u32,
    p: Position,
) -> bool {
    ||| is_tight(ahead, behind, best, SearchState { position: p, direction: Direction::Up })
    ||| is_tight(ahead, behind, best, SearchState { position: p, direction: Direction::Down })
    ||| is_tight(ahead, behind, best, SearchState { position: p, direction: Direction::Left })
    ||| is_tight(ahead, behind, best, SearchState { position: p, direction: Direction::Right })
}

/// The four states at `goal`.
pub open spec fn arrivals(goal: Position) -> Seq<SearchState> {
    seq![
        SearchState { position: goal, direction: Direction::Up },
        SearchState { position: goal, direction: Direction::Down },
        SearchState { position: goal, direction: Direction::Left },
        SearchState { position: goal, direction: Direction::Right },
    ]
}

/// `ahead` holds the distances from `start`, and `behind` the distances to
/// `goal`, of every state of the grid.
pub open spec fn both_ways(
    cells: Seq<Seq<Cell>>,
    start: SearchState,
    goal: Position,
    turn_cost: u32,
    ahead: Seq<Seq<CellCosts>>,
    behind: Seq<Seq<CellCosts>>,
) -> bool {
    &&& forall|s: SearchState|
        in_bounds(cells, s.position) ==> is_distance(
            cells,
            false,
            seq![start],
            turn_cost,
            s,
            #[trigger] cost_at(ahead, s),
        )
    &&& forall|s: SearchState|
        in_bounds(cells, s.position) ==> is_distance(
            cells,
            true,
            arrivals(goal),
            turn_cost,
            s,
            #[trigger] cost_at(behind, s),
        )
}

/// A state through which one can come from `start` at cost `a` and go on to
/// `goal` at cost `b` lies on a route of cost `a + b`.
#[verifier::rlimit(60)]
proof fn lemma_route_through(
    cells: Seq<Seq<Cell>>,
    start: SearchState,
    goal: Position,
    turn_cost: u32,
    s: SearchState,
    a: nat,
    b: nat,
) -> (r: (Seq<SearchState>, int))
    requires
        witnessed(cells, false, seq![start], turn_cost, s, a),
        witnessed(cells, true, arrivals(goal), turn_cost, s, b),
    ensures
        is_route(cells, start, goal, r.0),
        walk_cost(r.0, turn_cost) == a + b,
        0 <= r.1 < r.0.len(),
        r.0[r.1] == s,
{
    reveal(witnessed);
    let wa = choose|w: Seq<SearchState>| #[trigger]
        reaches(cells, false, seq![start], w, s) && walk_cost(w, turn_cost) == a;
    let wb = choose|w: Seq<SearchState>| #[trigger]
        reaches(cells, true, arrivals(goal), w, s) && walk_cost(w, turn_cost) == b;
    lemma_walk_reverse(cells, true, wb);
    lemma_cost_reverse(wb, turn_cost);
    let back = wb.reverse();
    lemma_walk_concat(cells, false, wa, back);
    lemma_cost_concat(wa, back, turn_cost);
    let j = wa + back.drop_first();
    let g = wb[0];
    let k = choose|k: int| 0 <= k < arrivals(goal).len() && arrivals(goal)[k] == g;
    assert(g.position == goal);
    assert(j[wa.len() - 1] == wa[wa.len() - 1]);
    (j, wa.len() - 1)
}

/// A cheapest route passes over every tight position.
proof fn lemma_tight_on_best_route(
    cells: Seq<Seq<Cell>>,
    start: SearchState,
    goal: Position,
    turn_cost: u32,
    ahead: Seq<Seq<CellCosts>>,
    behind: Seq<Seq<CellCosts>>,
    best: u32,
    s: SearchState,
)
    requires
        both_ways(cells, start, goal, turn_cost, ahead, behind),
        is_shortest_cost(cells, start, goal, turn_cost, best),
        best < u32::MAX,
        in_bounds(cells, s.position),
        is_tight(ahead, behind, best, s),
    ensures
        on_best_route(cells, start, goal, turn_cost, s.position),
{
    let a = cost_at(ahead, s);
    let b = cost_at(behind, s);
    lemma_distance_witnessed(cells, false, seq![start], turn_cost, s, a);
    lemma_distance_witnessed(cells, true, arrivals(goal), turn_cost, s, b);
    let (w, k) = lemma_route_through(cells, start, goal, turn_cost, s, a as nat, b as nat);
    assert(is_best_route(cells, start, goal, turn_cost, w));
    assert(w[k].position == s.position);
}

/// Every state of a cheapest route is tight.
proof fn lemma_best_route_is_tight(
    cells: Seq<Seq<Cell>>,
    start: SearchState,
    goal: Position,
    turn_cost: u32,
    ahead: Seq<Seq<CellCosts>>,
    behind: Seq<Seq<CellCosts>>,
    best: u32,
    w: Seq<SearchState>,
    k: int,
)
    requires
        both_ways(cells, start, goal, turn_cost, ahead, behind),
        is_shortest_cost(cells, start, goal, turn_cost, best),
        best < u32::MAX,
        is_best_route(cells, start, goal, turn_cost, w),
        0 <= k < w.len(),
    ensures
        is_tight(ahead, behind, best, w[k]),
{
    let s = w[k];
    // No route costs less than `best`, and one costs exactly that.
    let v = choose|v: Seq<SearchState>| #[trigger]
        reaches(cells, false, seq![start], v, v.last()) && v.last().position == goal && walk_cost(
            v,
            turn_cost,
        ) == best;
    assert(is_route(cells, start, goal, v));
    assert(reaches(cells, false, seq![start], w, w.last()));
    assert(walk_cost(w, turn_cost) == best);
    lemma_walk_split(cells, false, w, k, turn_cost);
    let a = w.take(k + 1);
    let b = w.skip(k);
    assert(reaches(cells, false, seq![start], a, s));
    lemma_walk_reverse(cells, false, b);
    lemma_cost_reverse(b, turn_cost);
    let g = w.last();
    assert(g == SearchState { position: goal, direction: g.direction });
    assert(arrivals(goal)[0] == g || arrivals(goal)[1] == g || arrivals(goal)[2] == g || arrivals(
        goal,
    )[3] == g);
    assert(reaches(cells, true, arrivals(goal), b.reverse(), s));
    let da = cost_at(ahead, s);
    let db = cost_at(behind, s);
    assert(in_bounds(cells, s.position));
    lemma_distance_bounds(cells, false, seq![start], turn_cost, s, da, a);
    lemma_distance_bounds(cells, true, arrivals(goal), turn_cost, s, db, b.reverse());
    lemma_distance_witnessed(cells, false, seq![start], turn_cost, s, da);
    lemma_distance_witnessed(cells, true, arrivals(goal), turn_cost, s, db);
    let (x, _) = lemma_route_through(cells, start, goal, turn_cost, s, da as nat, db as nat);
    assert(reaches(cells, false, seq![start], x, x.last()));
    assert(walk_cost(x, turn_cost) >= best);
}

/// A position is tight exactly when a cheapest route passes over it.
proof fn lemma_tight_is_on_best_route(
    cells: Seq<Seq<Cell>>,
    start: SearchState,
    goal: Position,
    turn_cost: u32,
    ahead: Seq<Seq<CellCosts>>,
    behind: Seq<Seq<CellCosts>>,
    best: u32,
    p: Position,
)
    requires
        both_ways(cells, start, goal, turn_cost, ahead, behind),
        is_shortest_cost(cells, start, goal, turn_cost, best),
        best < u32::MAX,
        in_bounds(cells, p),
    ensures
        is_tight_at(ahead, behind, best, p) <==> on_best_route(cells, start, goal, turn_cost, p),
{
    let up = SearchState { position: p, direction: Direction::Up };
    let down = SearchState { position: p, direction: Direction::Down };
    let left = SearchState { position: p, direction: Direction::Left };
    let right = SearchState { position: p, direction: Direction::Right };
    if is_tight(ahead, behind, best, up) {
        lemma_tight_on_best_route(cells, start, goal, turn_cost, ahead, behind, best, up);
    }
    if is_tight(ahead, behind, best, down) {
        lemma_tight_on_best_route(cells, start, goal, turn_cost, ahead, behind, best, down);
    }
    if is_tight(ahead, behind, best, left) {
        lemma_tight_on_best_route(cells, start, goal, turn_cost, ahead, behind, best, left);
    }
    if is_tight(ahead, behind, best, right) {
        lemma_tight_on_best_route(cells, start, goal, turn_cost, ahead, behind, best, right);
    }
    if on_best_route(cells, start, goal, turn_cost, p) {
        let (w, k) = choose|w: Seq<SearchState>, k: int|
            is_best_route(cells, start, goal, turn_cost, w) && 0 <= k < w.len() && (
            #[trigger] w[k]).position == p;
        lemma_best_route_is_tight(cells, start, goal, turn_cost, ahead, behind, best, w, k);
        let s = w[k];
        assert(s == up || s == down || s == left || s == right);
    }
}

/// The least of the distances of the four states at `goal` is what `goal`
/// costs.
proof fn lemma_best_of_arrivals(
    cells: Seq<Seq<Cell>>,
    start: SearchState,
    goal: Position,
    turn_cost: u32,
    ahead: Seq<Seq<CellCosts>>,
    best: u32,
)
    requires
        in_bounds(cells, goal),
        forall|s: SearchState|
            in_bounds(cells, s.position) ==> is_distance(
                cells,
                false,
                seq![start],
                turn_cost,
                s,
                #[trigger] cost_at(ahead, s),
            ),
        forall|k: int| 0 <= k < 4 ==> best <= cost_at(ahead, #[trigger] arrivals(goal)[k]),
        exists|k: int| 0 <= k < 4 && best == cost_at(ahead, #[trigger] arrivals(goal)[k]),
    ensures
        is_shortest_cost(cells, start, goal, turn_cost, best),
{
    let k = choose|k: int| 0 <= k < 4 && best == cost_at(ahead, #[trigger] arrivals(goal)[k]);
    let s = arrivals(goal)[k];
    assert(s.position == goal);
    if best < u32::MAX {
        lemma_distance_witnessed(cells, false, seq![start], turn_cost, s, best);
        reveal(witnessed);
        let w = choose|w: Seq<SearchState>| #[trigger]
            reaches(cells, false, seq![start], w, s) && walk_cost(w, turn_cost) == best as nat;
        assert(reaches(cells, false, seq![start], w, w.last()));
    }
    assert forall|w: Seq<SearchState>| #[trigger]
        reaches(cells, false, seq![start], w, w.last()) && w.last().position
            == goal implies walk_cost(w, turn_cost) >= best by {
        let g = w.last();
        assert(g == SearchState { position: goal, direction: g.direction });
        let j: int = match g.direction {
            Direction::Up => 0,
            Direction::Down => 1,
            Direction::Left => 2,
            Direction::Right => 3,
        };
        assert(arrivals(goal)[j] == g);
        lemma_distance_bounds(cells, false, seq![start], turn_cost, g, cost_at(ahead, g), w);
    }
}

/// Among the routes there is a cheapest, if one costs less than `u32::MAX`.
proof fn lemma_best_route_exists(
    cells: Seq<Seq<Cell>>,
    start: SearchState,
    goal: Position,
    turn_cost: u32,
    w: Seq<SearchState>,
) -> (v: Seq<SearchState>)
    requires
        is_route(cells, start, goal, w),
        walk_cost(w, turn_cost) < u32::MAX,
    ensures
        is_best_route(cells, start, goal, turn_cost, v),
    decreases walk_cost(w, turn_cost),
{
    if forall|x: Seq<SearchState>| #[trigger]
        is_route(cells, start, goal, x) ==> walk_cost(x, turn_cost) >= walk_cost(w, turn_cost) {
        w
    } else {
        let x = choose|x: Seq<SearchState>| #[trigger]
            is_route(cells, start, goal, x) && walk_cost(x, turn_cost) < walk_cost(w, turn_cost);
        lemma_best_route_exists(cells, start, goal, turn_cost, x)
    }
}

/// Where the goal can be reached, a cheapest route passes over the start and
/// over the goal.
pub proof fn lemma_best_route_ends(
    cells: Seq<Seq<Cell>>,
    start: SearchState,
    goal: Position,
    turn_cost: u32,
)
    requires
        reachable(cells, start, goal, turn_cost),
    ensures
        on_best_route(cells, start, goal, turn_cost, start.position),
        on_best_route(cells, start, goal, turn_cost, goal),
{
    let w = choose|w: Seq<SearchState>| #[trigger]
        is_route(cells, start, goal, w) && walk_cost(w, turn_cost) < u32::MAX;
    let v = lemma_best_route_exists(cells, start, goal, turn_cost, w);
    assert(seq![start].contains(v[0]));
    assert(seq![start][0] == start);
    assert(v[0].position == start.position);
    assert(v[v.len() - 1].position == goal);
}

/// No route passes over a position outside the grid, and where `goal`
/// cannot be reached there is no cheapest route.
proof fn lemma_no_best_route(
    cells: Seq<Seq<Cell>>,
    start: SearchState,
    goal: Position,
    turn_cost: u32,
    p: Position,
)
    requires
        !in_bounds(cells, p) || !in_bounds(cells, start.position) || !in_bounds(cells, goal)
            || is_shortest_cost(cells, start, goal, turn_cost, u32::MAX),
    ensures
        !on_best_route(cells, start, goal, turn_cost, p),
{
    if on_best_route(cells, start, goal, turn_cost, p) {
        let (w, k) = choose|w: Seq<SearchState>, k: int|
            is_best_route(cells, start, goal, turn_cost, w) && 0 <= k < w.len() && (
            #[trigger] w[k]).position == p;
        assert(in_bounds(cells, w[k].position));
        assert(seq![start].contains(w[0]));
        assert(seq![start][0] == start);
        assert(in_bounds(cells, w[0].position));
        assert(in_bounds(cells, w[w.len() - 1].position));
        assert(reaches(cells, false, seq![start], w, w.last()));
    }
}

/// `p` is tight under one of the four headings.
fn tight_at(ahead: &CostMap, behind: &CostMap, best: u32, p: Position) -> (r: bool)
    requires
        p.row < ahead@.len(),
        p.col < ahead@[p.row as int].len(),
        p.row < behind@.len(),
        p.col < behind@[p.row as int].len(),
    ensures
        r == is_tight_at(ahead@, behind@, best, p),
{
    tight(ahead, behind, best, SearchState { position: p, direction: Direction::Up }) || tight(
        ahead,
        behind,
        best,
        SearchState { position: p, direction: Direction::Down },
    ) || tight(ahead, behind, best, SearchState { position: p, direction: Direction::Left })
        || tight(ahead, behind, best, SearchState { position: p, direction: Direction::Right })
}

/// What it costs to come to `s` and to go on from there adds up to `best`.
fn tight(ahead: &CostMap, behind: &CostMap, best: u32, s: SearchState) -> (r: bool)
    requires
        s.position.row < ahead@.len(),
        s.position.col < ahead@[s.position.row as int].len(),
        s.position.row < behind@.len(),
        s.position.col < behind@[s.position.row as int].len(),
    ensures
        r == is_tight(ahead@, behind@, best, s),
{
    let a = ahead.get(s);
    let b = behind.get(s);
    a < u32::MAX && b < u32::MAX && a as u64 + b as u64 == best as u64
}

/// The positions that lie on a cheapest route from `start` to `goal`, each
/// once, row by row; none where `goal` cannot be reached at a cost below
/// `u32::MAX`.
pub fn all_minimum_cost_positions(
    grid: &Grid,
    start: SearchState,
    goal: Position,
    turn_cost: u32,
) -> (r: Vec<Position>)
    ensures
        forall|p: Position| r@.contains(p) <==> on_best_route(grid@, start, goal, turn_cost, p),
        r@.no_duplicates(),
        reachable(grid@, start, goal, turn_cost) ==> r@.contains(start.position) && r@.contains(
            goal,
        ),
{
    let ghost cells = grid@;
    let (m, n) = grid.boundary();
    let mut out: Vec<Position> = Vec::new();
    proof {
        if reachable(cells, start, goal, turn_cost) {
            lemma_best_route_ends(cells, start, goal, turn_cost);
        }
    }
    if start.position.row >= m || start.position.col >= n || goal.row >= m || goal.col >= n {
        proof {
            assert forall|p: Position| !on_best_route(cells, start, goal, turn_cost, p) by {
                lemma_no_best_route(cells, start, goal, turn_cost, p);
            }
        }
        return out;
    }
    let mut sources: Vec<SearchState> = Vec::new();
    sources.push(start);
    assert(sources@ =~= seq![start]);
    let (ahead, _) = explore(grid, &sources, turn_cost, false, None);
    let up = SearchState { position: goal, direction: Direction::Up };
    let down = SearchState { position: goal, direction: Direction::Down };
    let left = SearchState { position: goal, direction: Direction::Left };
    let right = SearchState { position: goal, direction: Direction::Right };
    let mut ends: Vec<SearchState> = Vec::new();
    ends.push(up);
    ends.push(down);
    ends.push(left);
    ends.push(right);
    assert(ends@ =~= arrivals(goal));
    let (behind, _) = explore(grid, &ends, turn_cost, true, None);
    let mut best = ahead.get(up);
    if ahead.get(down) < best {
        best = ahead.get(down);
    }
    if ahead.get(left) < best {
        best = ahead.get(left);
    }
    if ahead.get(right) < best {
        best = ahead.get(right);
    }
    proof {
        assert(arrivals(goal)[0] == up && arrivals(goal)[1] == down && arrivals(goal)[2] == left
            && arrivals(goal)[3] == right);
        lemma_best_of_arrivals(cells, start, goal, turn_cost, ahead@, best);
    }
    if best == u32::MAX {
        proof {
            assert forall|p: Position| !on_best_route(cells, start, goal, turn_cost, p) by {
                lemma_no_best_route(cells, start, goal, turn_cost, p);
            }
        }
        return out;
    }
    let mut i: usize = 0;
    while i < m
        invariant
            i <= m,
            cells == grid@,
            rectangular(cells),
            m == cells.len(),
            n == cells[0].len(),
            same_shape(ahead@, cells),
            same_shape(behind@, cells),
            forall|p: Position|
                out@.contains(p) <==> (p.row < i && p.col < n && is_tight_at(
                    ahead@,
                    behind@,
                    best,
                    p,
                )),
            out@.no_duplicates(),
        decreases m - i,
    {
        let mut j: usize = 0;
        while j < n
            invariant
                i < m,
                j <= n,
                rectangular(cells),
                m == cells.len(),
                n == cells[0].len(),
                same_shape(ahead@, cells),
                same_shape(behind@, cells),
                forall|p: Position|
                    out@.contains(p) <==> ((p.row < i && p.col < n) || (p.row == i && p.col < j))
                        && is_tight_at(ahead@, behind@, best, p),
                out@.no_duplicates(),
            decreases n - j,
        {
            let here = Position { row: i, col: j };
            assert(cells[i as int].len() == n);
            if tight_at(&ahead, &behind, best, here) {
                proof {
                    lemma_push_contains(out@, here);
                    lemma_push_no_duplicates(out@, here);
                }
                out.push(here);
            }
            j += 1;
        }
        i += 1;
    }
    proof {
        assert forall|p: Position|
            out@.contains(p) <==> on_best_route(cells, start, goal, turn_cost, p) by {
            if p.row < m && p.col < n {
                assert(cells[p.row as int].len() == n);
                lemma_tight_is_on_best_route(
                    cells,
                    start,
                    goal,
                    turn_cost,
                    ahead@,
                    behind@,
                    best,
                    p,
                );
            } else {
                if p.row < m {
                    assert(cells[p.row as int].len() == n);
                }
                lemma_no_best_route(cells, start, goal, turn_cost, p);
            }
        }
    }
    out
}

} // verus!
