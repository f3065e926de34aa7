//! A guard that walks its rounds and turns right at every obstacle.

use crate::table::{
    find_all, insert_unique, lemma_push_contains, positions_of, put, rows,
};
use crate::text::{chars_of_lines, parse_error};
use crate::y2024::day20::lemma_positions_inside;
use crate::y2024::day16::costs::{
    cost_at, lemma_open_count_settle, open_count, same_shape, with_cost, CostMap,
};
use crate::y2024::day16::grid::{Position, SearchState};
use crate::{lines_view, wrapped, AdventError, AdventProblem};
use vstd::prelude::*;

verus! {

pub struct Day6;

/// The four ways to go.
#[derive(Debug, Copy, Clone, PartialEq, Eq, Hash, Structural)]
pub enum Direction {
    North,
    South,
    East,
    West,
}

impl Direction {
    /// The way a quarter turn to the right of this one.
    pub open spec fn turned(self) -> Direction {
        match self {
            Direction::North => Direction::East,
            Direction::East => Direction::South,
            Direction::South => Direction::West,
            Direction::West => Direction::North,
        }
    }

    pub fn rotate(&self) -> (r: Direction)
        ensures
            r == self.turned(),
    {
        match *self {
            Direction::North => Direction::East,
            Direction::East => Direction::South,
            Direction::South => Direction::West,
            Direction::West => Direction::North,
        }
    }
}

/// The map is a rectangle of at least one place.
pub open spec fn is_map(grid: Seq<Seq<char>>) -> bool {
    &&& grid.len() > 0
    &&& grid[0].len() > 0
    &&& forall|i: int| 0 <= i < grid.len() ==> (#[trigger] grid[i]).len() == grid[0].len()
}

/// A place and a way to go.
pub type Stance = (usize, usize, Direction);

/// What the guard does next in the stance `s`: it steps on where it can,
/// turns right where an obstacle is in its way, and leaves the map where
/// the map ends, which `None` says.
pub open spec fn next_stance(grid: Seq<Seq<char>>, s: Stance) -> Option<Stance> {
    let (row, col, direction) = s;
    let ahead: Option<(int, int)> = match direction {
        Direction::North => if row == 0 {
            None
        } else {
            Some((row - 1, col as int))
        },
        Direction::South => if row + 1 >= grid.len() {
            None
        } else {
            Some((row + 1, col as int))
        },
        Direction::East => if col + 1 >= grid[0].len() {
            None
        } else {
            Some((row as int, col + 1))
        },
        Direction::West => if col == 0 {
            None
        } else {
            Some((row as int, col - 1))
        },
    };
    match ahead {
        None => None,
        Some(p) => if grid[p.0][p.1] == '#' {
            Some((row, col, direction.turned()))
        } else {
            Some((p.0 as usize, p.1 as usize, direction))
        },
    }
}

/// The stance of the guard after `k` moves from `s`, `None` once it has
/// left the map.
pub open spec fn stance_after(grid: Seq<Seq<char>>, s: Stance, k: nat) -> Option<Stance>
    decreases k,
{
    if k == 0 {
        Some(s)
    } else {
        match stance_after(grid, s, (k - 1) as nat) {
            Some(before) => next_stance(grid, before),
            None => None,
        }
    }
}

/// After `k` moves from `s` the guard is at `p`.
pub open spec fn is_at(grid: Seq<Seq<char>>, s: Stance, k: nat, p: (usize, usize)) -> bool {
    match stance_after(grid, s, k) {
        Some(t) => (t.0, t.1) == p,
        None => false,
    }
}

/// Within `upto` moves from `s` the guard comes to `p`.
pub open spec fn comes_to(grid: Seq<Seq<char>>, s: Stance, upto: nat, p: (usize, usize)) -> bool {
    exists|k: nat| k <= upto && #[trigger] is_at(grid, s, k, p)
}

/// The stance `s` lies on the map.
pub open spec fn on_map(grid: Seq<Seq<char>>, s: Stance) -> bool {
    s.0 < grid.len() && s.1 < grid[0].len()
}

/// What the guard does next.
pub fn transition(grid: &Vec<Vec<char>>, curr: (usize, usize), direction: Direction) -> (r: Option<
    Stance,
>)
    requires
        is_map(rows(*grid)),
        on_map(rows(*grid), (curr.0, curr.1, direction)),
    ensures
        r == next_stance(rows(*grid), (curr.0, curr.1, direction)),
        r matches Some(s) ==> on_map(rows(*grid), s),
{
    assert(rows(*grid)[0] == grid[0]@);
    let (m, n) = (grid.len(), grid[0].len());
    let (row, col) = curr;
    let (next_row, next_col) = match direction {
        Direction::North => {
            if row == 0 {
                return None;
            }
            (row - 1, col)
        },
        Direction::South => {
            if row == m - 1 {
                return None;
            }
            (row + 1, col)
        },
        Direction::East => {
            if col == n - 1 {
                return None;
            }
            (row, col + 1)
        },
        Direction::West => {
            if col == 0 {
                return None;
            }
            (row, col - 1)
        },
    };
    assert(rows(*grid)[next_row as int] == grid[next_row as int]@);
    if grid[next_row][next_col] == '#' {
        Some((row, col, direction.rotate()))
    } else {
        Some((next_row, next_col, direction))
    }
}

/// The place at which the guard starts: the first `^` of the map, or the
/// top left corner if the map shows none.
pub open spec fn start_of(grid: Seq<Seq<char>>) -> (usize, usize) {
    let all = positions_of(grid, '^', grid.len() as int);
    if all.len() == 0 {
        (0, 0)
    } else {
        all[0]
    }
}

pub fn find_start(grid: &Vec<Vec<char>>) -> (r: (usize, usize))
    ensures
        r == start_of(rows(*grid)),
{
    let all = find_all(grid, '^');
    if all.len() == 0 {
        (0, 0)
    } else {
        all[0]
    }
}

/// The stance `s` as a state of a table that holds a mark for every stance.
pub open spec fn as_state(s: Stance) -> SearchState {
    SearchState {
        position: Position { row: s.0, col: s.1 },
        direction: match s.2 {
            Direction::North => crate::y2024::day16::grid::Direction::Up,
            Direction::South => crate::y2024::day16::grid::Direction::Down,
            Direction::East => crate::y2024::day16::grid::Direction::Right,
            Direction::West => crate::y2024::day16::grid::Direction::Left,
        },
    }
}

/// The stance `s` as a state of a table that holds a mark for every stance.
fn state_of(s: Stance) -> (r: SearchState)
    ensures
        r == as_state(s),
{
    SearchState {
        position: Position { row: s.0, col: s.1 },
        direction: match s.2 {
            Direction::North => crate::y2024::day16::grid::Direction::Up,
            Direction::South => crate::y2024::day16::grid::Direction::Down,
            Direction::East => crate::y2024::day16::grid::Direction::Right,
            Direction::West => crate::y2024::day16::grid::Direction::Left,
        },
    }
}

/// How a walk of the guard ends.
pub ghost enum Walk {
    /// The guard leaves the map after so many moves.
    Leaves(nat),
    /// The guard comes back, after the second number of moves, to the
    /// stance in which it was after the first.
    Circles(nat, nat),
}

/// The walk of the guard from `s` ends as `walk` says.
pub open spec fn ends_as(grid: Seq<Seq<char>>, s: Stance, walk: Walk) -> bool {
    match walk {
        Walk::Leaves(k) => stance_after(grid, s, k) is Some && stance_after(grid, s, k + 1) is None,
        Walk::Circles(i, j) => i < j && stance_after(grid, s, i) is Some && stance_after(grid, s, i)
            == stance_after(grid, s, j),
    }
}

/// Follows the guard from `start`, where it goes north, until it leaves
/// the map or comes back to a stance in which it was before. Says which
/// of the two, and gives the places where the guard was up to then, each
/// once, in the order in which it came to them.
pub fn follow(grid: &Vec<Vec<char>>, start: (usize, usize)) -> (r: (bool, Vec<(usize, usize)>, Ghost<Walk>))
    requires
        is_map(rows(*grid)),
        on_map(rows(*grid), (start.0, start.1, Direction::North)),
    ensures
        ends_as(rows(*grid), (start.0, start.1, Direction::North), r.2@),
        r.0 == (r.2@ is Circles),
        r.1@.no_duplicates(),
        forall|p: (usize, usize)|
            r.1@.contains(p) <==> comes_to(
                rows(*grid),
                (start.0, start.1, Direction::North),
                moves_of(r.2@),
                p,
            ),
{
    let ghost text = rows(*grid);
    let ghost first: Stance = (start.0, start.1, Direction::North);
    assert(text[0] == grid[0]@);
    let mut seen = CostMap::new(grid.len(), grid[0].len());
    let mut places: Vec<(usize, usize)> = Vec::new();
    let mut curr: Stance = (start.0, start.1, Direction::North);
    let ghost mut k: nat = 0;
    let ghost mut when: Map<Stance, nat> = Map::empty();
    proof {
        assert forall|i: int| 0 <= i < seen@.len() implies (#[trigger] seen@[i]).len()
            == text[0].len() by {}
    }
    seen.set(state_of(curr), 0);
    places.push((curr.0, curr.1));
    proof {
        when = when.insert(curr, 0);
        assert(places@[0] == (start.0, start.1));
        assert(is_at(text, first, 0, (start.0, start.1)));
        assert forall|p: (usize, usize)| places@.contains(p) <==> comes_to(text, first, 0, p) by {
            if comes_to(text, first, 0, p) {
                let j = choose|j: nat| j <= 0 && #[trigger] is_at(text, first, j, p);
            }
        }
    }
    loop
        invariant
            text == rows(*grid),
            is_map(text),
            first == (start.0, start.1, Direction::North),
            stance_after(text, first, k) == Some(curr),
            on_map(text, curr),
            seen@.len() == text.len(),
            forall|i: int| 0 <= i < seen@.len() ==> (#[trigger] seen@[i]).len() == text[0].len(),
            forall|s: Stance|
                on_map(text, s) ==> (cost_at(seen@, #[trigger] as_state(s)) != u32::MAX
                    <==> when.dom().contains(s)),
            forall|s: Stance| #[trigger]
                when.dom().contains(s) ==> when[s] <= k && stance_after(text, first, when[s])
                    == Some(s),
            forall|j: nat| j <= k ==> (#[trigger] stance_after(text, first, j)) is Some,
            places@.no_duplicates(),
            forall|p: (usize, usize)| places@.contains(p) <==> comes_to(text, first, k, p),
        decreases open_count(seen@),
    {
        let next = transition(grid, (curr.0, curr.1), curr.2);
        match next {
            None => {
                return (false, places, Ghost(Walk::Leaves(k)));
            },
            Some(s) => {
                let state = state_of(s);
                if seen.get(state) != u32::MAX {
                    proof {
                        assert(when.dom().contains(s));
                    }
                    return (true, places, Ghost(Walk::Circles(when[s], k + 1)));
                }
                let ghost before = seen@;
                let ghost old_places = places@;
                proof {
                    lemma_open_count_settle(before, state, 0);
                    lemma_push_contains(old_places, (s.0, s.1));
                }
                seen.set(state, 0);
                insert_unique(&mut places, (s.0, s.1));
                proof {
                    let now = seen@;
                    assert forall|t: Stance|
                        on_map(text, t) implies (cost_at(now, #[trigger] as_state(t)) != u32::MAX
                        <==> when.insert(s, k + 1).dom().contains(t)) by {
                        if t != s {
                            assert(as_state(t) != as_state(s));
                            assert(cost_at(now, as_state(t)) == cost_at(before, as_state(t)));
                        }
                    }
                    assert forall|i: int| 0 <= i < now.len() implies (#[trigger] now[i]).len()
                        == text[0].len() by {}
                    assert forall|p: (usize, usize)|
                        places@.contains(p) <==> comes_to(text, first, k + 1, p) by {
                        if old_places.contains(p) {
                            let j = choose|j: nat| j <= k && #[trigger] is_at(text, first, j, p);
                            assert(j <= k + 1 && is_at(text, first, j, p));
                        }
                        if p == (s.0, s.1) {
                            assert(is_at(text, first, k + 1, p));
                        }
                        if comes_to(text, first, k + 1, p) {
                            let j = choose|j: nat| j <= k + 1 && #[trigger] is_at(text, first, j, p);
                            if j <= k {
                                assert(comes_to(text, first, k, p));
                            }
                        }
                    }
                    when = when.insert(s, k + 1);
                    k = k + 1;
                }
                curr = s;
            },
        }
    }
}

/// The number of moves that a walk takes up to its end.
pub open spec fn moves_of(walk: Walk) -> nat {
    match walk {
        Walk::Leaves(k) => k,
        Walk::Circles(i, j) => (j - 1) as nat,
    }
}

/// The guard comes back to a stance in which it was before, and so walks
/// in a circle for ever.
pub open spec fn circles(grid: Seq<Seq<char>>, s: Stance) -> bool {
    exists|i: nat, j: nat|
        i < j && (#[trigger] stance_after(grid, s, i)) is Some && stance_after(grid, s, i)
            == #[trigger] stance_after(grid, s, j)
}

/// The guard leaves the map.
pub open spec fn leaves(grid: Seq<Seq<char>>, s: Stance) -> bool {
    exists|k: nat| (#[trigger] stance_after(grid, s, k)) is None
}

/// Once the guard has left the map, it is gone.
proof fn lemma_gone(grid: Seq<Seq<char>>, s: Stance, k: nat, n: nat)
    requires
        stance_after(grid, s, k) is None,
        k <= n,
    ensures
        stance_after(grid, s, n) is None,
    decreases n - k,
{
    if k < n {
        lemma_gone(grid, s, k, (n - 1) as nat);
    }
}

/// From two moves on with the same stance the guard goes the same way.
proof fn lemma_same_way(grid: Seq<Seq<char>>, s: Stance, i: nat, j: nat, t: nat)
    requires
        stance_after(grid, s, i) == stance_after(grid, s, j),
    ensures
        stance_after(grid, s, i + t) == stance_after(grid, s, j + t),
    decreases t,
{
    if t > 0 {
        lemma_same_way(grid, s, i, j, (t - 1) as nat);
    }
}

/// A guard that walks in a circle is on the map after any number of moves.
proof fn lemma_circle_stays(grid: Seq<Seq<char>>, s: Stance, i: nat, j: nat, n: nat)
    requires
        i < j,
        stance_after(grid, s, i) is Some,
        stance_after(grid, s, i) == stance_after(grid, s, j),
    ensures
        stance_after(grid, s, n) is Some,
    decreases n,
{
    if n <= j {
        if stance_after(grid, s, n) is None {
            lemma_gone(grid, s, n, j);
        }
    } else {
        let back = (n - (j - i)) as nat;
        lemma_circle_stays(grid, s, i, j, back);
        lemma_same_way(grid, s, i, j, (n - j) as nat);
        assert(i + (n - j) == back);
    }
}

/// A guard that leaves the map does not walk in a circle.
pub proof fn lemma_leaves_or_circles(grid: Seq<Seq<char>>, s: Stance)
    ensures
        !(leaves(grid, s) && circles(grid, s)),
{
    if leaves(grid, s) && circles(grid, s) {
        let k = choose|k: nat| (#[trigger] stance_after(grid, s, k)) is None;
        let (i, j) = choose|i: nat, j: nat|
            i < j && (#[trigger] stance_after(grid, s, i)) is Some && stance_after(grid, s, i)
                == #[trigger] stance_after(grid, s, j);
        lemma_circle_stays(grid, s, i, j, k);
    }
}

/// The stance in which the guard starts at `start`: it goes north.
pub open spec fn outset(start: (usize, usize)) -> Stance {
    (start.0, start.1, Direction::North)
}

/// The guard that starts at `start` walks in a circle.
pub fn try_traversal(grid: &Vec<Vec<char>>, start: (usize, usize)) -> (r: bool)
    requires
        is_map(rows(*grid)),
        on_map(rows(*grid), outset(start)),
    ensures
        r == circles(rows(*grid), outset(start)),
        !r == leaves(rows(*grid), outset(start)),
{
    let (circling, _, Ghost(walk)) = follow(grid, start);
    proof {
        lemma_leaves_or_circles(rows(*grid), outset(start));
        match walk {
            Walk::Leaves(k) => {
                assert(stance_after(rows(*grid), outset(start), k + 1) is None);
            },
            Walk::Circles(i, j) => {
                assert(stance_after(rows(*grid), outset(start), i) == stance_after(
                    rows(*grid),
                    outset(start),
                    j,
                ));
            },
        }
    }
    circling
}

/// The guard that starts at `start` comes to `p` at some time.
pub open spec fn visits(grid: Seq<Seq<char>>, start: (usize, usize), p: (usize, usize)) -> bool {
    exists|k: nat| #[trigger] is_at(grid, outset(start), k, p)
}

/// The places to which the guard that starts at `start` comes, each once,
/// in the order in which it comes to them.
pub fn find_visited(grid: &Vec<Vec<char>>, start: (usize, usize)) -> (r: Vec<(usize, usize)>)
    requires
        is_map(rows(*grid)),
        on_map(rows(*grid), outset(start)),
    ensures
        r@.no_duplicates(),
        forall|p: (usize, usize)| r@.contains(p) <==> visits(rows(*grid), start, p),
{
    let (_, places, Ghost(walk)) = follow(grid, start);
    proof {
        let text = rows(*grid);
        let first = outset(start);
        let upto = moves_of(walk);
        assert forall|p: (usize, usize)| places@.contains(p) <==> visits(text, start, p) by {
            if places@.contains(p) {
                let k = choose|k: nat| k <= upto && #[trigger] is_at(text, first, k, p);
                assert(is_at(text, first, k, p));
            }
            if visits(text, start, p) {
                let k = choose|k: nat| #[trigger] is_at(text, first, k, p);
                lemma_early(text, first, walk, k, p);
            }
        }
    }
    places
}

/// Where the guard is at any time it is within the moves of its walk up
/// to the end of the walk.
proof fn lemma_early(grid: Seq<Seq<char>>, s: Stance, walk: Walk, k: nat, p: (usize, usize))
    requires
        ends_as(grid, s, walk),
        is_at(grid, s, k, p),
    ensures
        comes_to(grid, s, moves_of(walk), p),
    decreases k,
{
    match walk {
        Walk::Leaves(n) => {
            if k > n {
                lemma_gone(grid, s, n + 1, k);
            }
            assert(is_at(grid, s, k, p));
        },
        Walk::Circles(i, j) => {
            if k >= j {
                let back = (k - (j - i)) as nat;
                lemma_same_way(grid, s, i, j, (k - j) as nat);
                assert(i + (k - j) == back);
                assert(is_at(grid, s, back, p));
                lemma_early(grid, s, walk, back, p);
            } else {
                assert(is_at(grid, s, k, p));
            }
        },
    }
}

/// An obstacle at `p` makes the guard that starts at `start` walk in a circle.
pub open spec fn traps(grid: Seq<Seq<char>>, start: (usize, usize), p: (usize, usize)) -> bool {
    circles(put(grid, p.0 as int, p.1 as int, '#'), outset(start))
}

/// Of the first `upto` places of `visited`, those at which an obstacle
/// makes the guard walk in a circle.
pub open spec fn trapping(grid: Seq<Seq<char>>, start: (usize, usize), visited: Seq<(usize, usize)>, upto: int) -> Seq<
    (usize, usize),
>
    decreases upto,
{
    if upto <= 0 {
        Seq::empty()
    } else if traps(grid, start, visited[upto - 1]) {
        trapping(grid, start, visited, upto - 1).push(visited[upto - 1])
    } else {
        trapping(grid, start, visited, upto - 1)
    }
}

/// The places of `visited`, which lie on the map, at which an obstacle
/// makes the guard that starts at `start` walk in a circle. The map is left
/// as it was.
pub fn find_obstacles(grid: &mut Vec<Vec<char>>, start: (usize, usize), visited: &Vec<(usize, usize)>) -> (r: Vec<
    (usize, usize),
>)
    requires
        is_map(rows(*old(grid))),
        on_map(rows(*old(grid)), outset(start)),
        forall|k: int|
            0 <= k < visited.len() ==> on_map(
                rows(*old(grid)),
                ((#[trigger] visited[k]).0, visited[k].1, Direction::North),
            ),
    ensures
        rows(*final(grid)) == rows(*old(grid)),
        r@ == trapping(rows(*old(grid)), start, visited@, visited.len() as int),
{
    let ghost text = rows(*grid);
    let mut obstacles: Vec<(usize, usize)> = Vec::new();
    let mut k: usize = 0;
    while k < visited.len()
        invariant
            k <= visited.len(),
            text == rows(*old(grid)),
            rows(*grid) == text,
            is_map(text),
            on_map(text, outset(start)),
            forall|t: int|
                0 <= t < visited.len() ==> on_map(
                    text,
                    ((#[trigger] visited[t]).0, visited[t].1, Direction::North),
                ),
            obstacles@ == trapping(text, start, visited@, k as int),
        decreases visited.len() - k,
    {
        let (row, col) = visited[k];
        assert(text[row as int].len() == text[0].len());
        assert(rows(*grid)[row as int] == grid[row as int]@);
        let held = grid[row][col];
        grid[row][col] = '#';
        proof {
            assert(rows(*grid) =~~= put(text, row as int, col as int, '#'));
            assert forall|i: int| 0 <= i < rows(*grid).len() implies (#[trigger] rows(*grid)[i]).len()
                == rows(*grid)[0].len() by {
                assert(text[i].len() == text[0].len());
            }
        }
        if try_traversal(grid, start) {
            obstacles.push((row, col));
        }
        grid[row][col] = held;
        assert(rows(*grid) =~~= text);
        k += 1;
    }
    obstacles
}

/// The places at which an obstacle makes the guard walk in a circle are
/// the visited places that trap it, each once.
proof fn lemma_trapping(grid: Seq<Seq<char>>, start: (usize, usize), visited: Seq<(usize, usize)>, upto: int)
    requires
        visited.no_duplicates(),
        0 <= upto <= visited.len(),
    ensures
        trapping(grid, start, visited, upto).no_duplicates(),
        forall|p: (usize, usize)| #[trigger]
            trapping(grid, start, visited, upto).contains(p) <==> traps(grid, start, p) && exists|
                k: int,
            |
                0 <= k < upto && visited[k] == p,
    decreases upto,
{
    if upto > 0 {
        lemma_trapping(grid, start, visited, upto - 1);
        let before = trapping(grid, start, visited, upto - 1);
        let last = visited[upto - 1];
        let all = trapping(grid, start, visited, upto);
        if traps(grid, start, last) {
            lemma_push_contains(before, last);
            if before.contains(last) {
                let k = choose|k: int| 0 <= k < upto - 1 && visited[k] == last;
                assert(visited[k] == visited[upto - 1]);
            }
            crate::table::lemma_push_no_duplicates(before, last);
        }
        assert forall|p: (usize, usize)| #[trigger]
            all.contains(p) <==> traps(grid, start, p) && exists|k: int|
                0 <= k < upto && visited[k] == p by {
            if before.contains(p) {
                let k = choose|k: int| 0 <= k < upto - 1 && visited[k] == p;
                assert(0 <= k < upto && visited[k] == p);
            }
            if traps(grid, start, p) && exists|k: int| 0 <= k < upto && visited[k] == p {
                let k = choose|k: int| 0 <= k < upto && visited[k] == p;
                if k < upto - 1 {
                    assert(before.contains(p));
                }
            }
        }
    }
}

/// The places on the way of the guard, its start apart, at which an
/// obstacle makes it walk in a circle.
pub open spec fn traps_of(grid: Seq<Seq<char>>) -> Set<(usize, usize)> {
    Set::new(
        |p: (usize, usize)|
            p != start_of(grid) && visits(grid, start_of(grid), p) && traps(grid, start_of(grid), p),
    )
}

/// The places to which the guard comes.
pub open spec fn visited_of(grid: Seq<Seq<char>>) -> Set<(usize, usize)> {
    Set::new(|p: (usize, usize)| visits(grid, start_of(grid), p))
}

/// The number of places to which the guard comes, or, if `trapping`, of
/// those among them at which an obstacle traps it, reduced modulo 2^32.
/// `None` where the map is no rectangle.
pub open spec fn patrol_count(grid: Seq<Seq<char>>, trapping: bool) -> Option<u32> {
    if is_map(grid) && grid.len() <= usize::MAX && grid[0].len() <= usize::MAX {
        Some(
            wrapped(
                if trapping {
                    traps_of(grid).len()
                } else {
                    visited_of(grid).len()
                },
            ),
        )
    } else {
        None
    }
}

/// The map is a rectangle of at least one place.
pub fn check_map(grid: &Vec<Vec<char>>) -> (r: bool)
    ensures
        r == is_map(rows(*grid)),
{
    if grid.len() == 0 || grid[0].len() == 0 {
        assert(grid.len() == 0 || rows(*grid)[0] == grid[0]@);
        return false;
    }
    assert(rows(*grid)[0] == grid[0]@);
    let n = grid[0].len();
    let mut i: usize = 0;
    while i < grid.len()
        invariant
            i <= grid.len(),
            n == grid[0].len(),
            forall|k: int| 0 <= k < i ==> (#[trigger] rows(*grid)[k]).len() == n,
        decreases grid.len() - i,
    {
        assert(rows(*grid)[i as int] == grid[i as int]@);
        if grid[i].len() != n {
            return false;
        }
        i += 1;
    }
    true
}

/// Counts the places to which the guard comes, or, if `trapping`, those
/// among them at which an obstacle traps it.
pub fn count_patrol(grid: &mut Vec<Vec<char>>, trapping: bool) -> (r: Result<u32, AdventError>)
    ensures
        crate::is_outcome(r, patrol_count(rows(*old(grid)), trapping)),
{
    if !check_map(grid) {
        return Err(parse_error("the map is no rectangle"));
    }
    let ghost text = rows(*grid);
    let start = find_start(grid);
    proof {
        assert(text[0] == grid[0]@);
        assert forall|i: int| 0 <= i < text.len() implies (#[trigger] text[i]).len()
            <= usize::MAX by {
            assert(text[i] == (*grid)@[i]@);
            assert((*grid)@[i].len() <= usize::MAX);
        }
        lemma_positions_inside(text, '^', text.len() as int);
    }
    let visited = find_visited(grid, start);
    if !trapping {
        proof {
            visited@.unique_seq_to_set();
            assert(visited@.to_set() =~= visited_of(text));
        }
        return Ok(((visited.len() as u64) % 0x1_0000_0000) as u32);
    }
    let mut rest: Vec<(usize, usize)> = Vec::new();
    let mut k: usize = 0;
    while k < visited.len()
        invariant
            k <= visited.len(),
            visited@.no_duplicates(),
            rest@.no_duplicates(),
            forall|p: (usize, usize)|
                rest@.contains(p) <==> p != start && exists|t: int|
                    0 <= t < k && visited[t] == p,
        decreases visited.len() - k,
    {
        let p = visited[k];
        if p.0 != start.0 || p.1 != start.1 {
            proof {
                lemma_push_contains(rest@, p);
                if rest@.contains(p) {
                    let t = choose|t: int| 0 <= t < k && visited[t] == p;
                    assert(visited[t] == visited[k as int]);
                }
                crate::table::lemma_push_no_duplicates(rest@, p);
            }
            rest.push(p);
        }
        k += 1;
    }
    proof {
        assert forall|t: int| 0 <= t < rest.len() implies on_map(
            text,
            ((#[trigger] rest[t]).0, rest[t].1, Direction::North),
        ) by {
            assert(rest@.contains(rest[t]));
            let u = choose|u: int| 0 <= u < visited.len() && visited[u] == rest[t];
            assert(visited@.contains(visited[u]));
            let j = choose|j: nat| #[trigger] is_at(text, outset(start), j, rest[t]);
            lemma_stays_on_map(text, outset(start), j);
        }
    }
    let obstacles = find_obstacles(grid, start, &rest);
    proof {
        lemma_trapping(text, start, rest@, rest.len() as int);
        obstacles@.unique_seq_to_set();
        assert forall|p: (usize, usize)| obstacles@.contains(p) <==> traps_of(text).contains(p) by {
            if obstacles@.contains(p) {
                let t = choose|t: int| 0 <= t < rest.len() && rest[t] == p;
                assert(rest@.contains(p));
                let u = choose|u: int| 0 <= u < visited.len() && visited[u] == p;
                assert(visited@.contains(p));
            }
            if traps_of(text).contains(p) {
                assert(visited@.contains(p));
                let u = choose|u: int| 0 <= u < visited.len() && visited[u] == p;
                assert(rest@.contains(p));
                let t = choose|t: int| 0 <= t < rest.len() && rest[t] == p;
            }
        }
        assert(obstacles@.to_set() =~= traps_of(text));
    }
    Ok(((obstacles.len() as u64) % 0x1_0000_0000) as u32)
}

/// A guard that starts on the map is on the map as long as it is there.
proof fn lemma_stays_on_map(grid: Seq<Seq<char>>, s: Stance, k: nat)
    requires
        is_map(grid),
        on_map(grid, s),
        grid.len() <= usize::MAX,
        grid[0].len() <= usize::MAX,
    ensures
        stance_after(grid, s, k) matches Some(t) ==> on_map(grid, t),
    decreases k,
{
    if k > 0 {
        lemma_stays_on_map(grid, s, (k - 1) as nat);
    }
}

impl AdventProblem for Day6 {
    open spec fn accepts_part_1(&self, lines: Seq<Seq<char>>) -> bool {
        true
    }

    open spec fn accepts_part_2(&self, lines: Seq<Seq<char>>) -> bool {
        true
    }

    open spec fn answer_part_1(&self, lines: Seq<Seq<char>>) -> Option<u32> {
        patrol_count(lines, false)
    }

    open spec fn answer_part_2(&self, lines: Seq<Seq<char>>) -> Option<u32> {
        patrol_count(lines, true)
    }

    fn run_part_1(&self, lines: Vec<String>) -> (r: Result<u32, AdventError>) {
        let mut grid = chars_of_lines(&lines);
        count_patrol(&mut grid, false)
    }

    fn run_part_2(&self, lines: Vec<String>) -> (r: Result<u32, AdventError>) {
        let mut grid = chars_of_lines(&lines);
        count_patrol(&mut grid, true)
    }
}

} // verus!
