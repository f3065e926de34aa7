use crate::table::{lemma_tally_put, put, rows, tally_all};
use vstd::prelude::*;

verus! {

/// What stands on one cell of the warehouse floor. A box that is one cell
/// wide is a `BoxLeft`; a box that is two cells wide is a `BoxLeft` with a
/// `BoxRight` to its right.
#[derive(Debug, Copy, Clone, PartialEq, Eq, Structural)]
pub enum Space {
    Empty,
    Robot,
    BoxLeft,
    BoxRight,
    Wall,
}

/// The way the robot is told to go.
#[derive(Debug, Copy, Clone, PartialEq, Eq, Structural)]
pub enum Direction {
    Up,
    Down,
    Left,
    Right,
}

impl Space {
    /// What the character `value` stands for on a floor plan.
    pub open spec fn of_char(value: char) -> Option<Space> {
        if value == '#' {
            Some(Space::Wall)
        } else if value == 'O' {
            Some(Space::BoxLeft)
        } else if value == '@' {
            Some(Space::Robot)
        } else if value == '.' {
            Some(Space::Empty)
        } else {
            None
        }
    }

    /// The character that shows this space on a plan of wide boxes.
    pub open spec fn to_char(self) -> char {
        match self {
            Space::Wall => '#',
            Space::Robot => '@',
            Space::Empty => '.',
            Space::BoxLeft => '[',
            Space::BoxRight => ']',
        }
    }

    /// Reads a space from a floor plan; `None` for a character that stands
    /// for nothing.
    pub fn from_char(value: char) -> (r: Option<Space>)
        ensures
            r == Space::of_char(value),
    {
        if value == '#' {
            Some(Space::Wall)
        } else if value == 'O' {
            Some(Space::BoxLeft)
        } else if value == '@' {
            Some(Space::Robot)
        } else if value == '.' {
            Some(Space::Empty)
        } else {
            None
        }
    }

    pub fn as_char(&self) -> (r: char)
        ensures
            r == self.to_char(),
    {
        match self {
            Space::Wall => '#',
            Space::Robot => '@',
            Space::Empty => '.',
            Space::BoxLeft => '[',
            Space::BoxRight => ']',
        }
    }
}

impl Direction {
    /// What the character `value` stands for in a list of moves.
    pub open spec fn of_char(value: char) -> Option<Direction> {
        if value == '^' {
            Some(Direction::Up)
        } else if value == 'v' {
            Some(Direction::Down)
        } else if value == '<' {
            Some(Direction::Left)
        } else if value == '>' {
            Some(Direction::Right)
        } else {
            None
        }
    }

    /// Reads a move; `None` for a character that stands for none.
    pub fn from_char(value: char) -> (r: Option<Direction>)
        ensures
            r == Direction::of_char(value),
    {
        if value == '^' {
            Some(Direction::Up)
        } else if value == 'v' {
            Some(Direction::Down)
        } else if value == '<' {
            Some(Direction::Left)
        } else if value == '>' {
            Some(Direction::Right)
        } else {
            None
        }
    }
}

/// The cell `t` steps from `from` in the direction `d`.
pub open spec fn along(from: (int, int), d: Direction, t: int) -> (int, int) {
    match d {
        Direction::Up => (from.0 - t, from.1),
        Direction::Down => (from.0 + t, from.1),
        Direction::Left => (from.0, from.1 - t),
        Direction::Right => (from.0, from.1 + t),
    }
}

/// What stands at row `r` and column `c`; `None` outside the floor.
pub open spec fn at(cells: Seq<Seq<Space>>, r: int, c: int) -> Option<Space> {
    if 0 <= r < cells.len() && 0 <= c < cells[r].len() {
        Some(cells[r][c])
    } else {
        None
    }
}

/// What stands `t` steps from `from` in the direction `d`.
pub open spec fn seen(cells: Seq<Seq<Space>>, from: (int, int), d: Direction, t: int) -> Option<
    Space,
> {
    at(cells, along(from, d, t).0, along(from, d, t).1)
}

/// The floor is a rectangle of at least one cell.
pub open spec fn well_shaped(cells: Seq<Seq<Space>>) -> bool {
    &&& cells.len() > 0
    &&& cells[0].len() > 0
    &&& forall|i: int| 0 <= i < cells.len() ==> (#[trigger] cells[i]).len() == cells[0].len()
}

/// There is one robot, and it stands at `robot`.
pub open spec fn robot_alone(cells: Seq<Seq<Space>>, robot: (int, int)) -> bool {
    &&& at(cells, robot.0, robot.1) == Some(Space::Robot)
    &&& forall|r: int, c: int|
        #[trigger] at(cells, r, c) == Some(Space::Robot) ==> r == robot.0 && c == robot.1
}

/// All boxes are one cell wide.
pub open spec fn all_narrow(cells: Seq<Seq<Space>>) -> bool {
    forall|r: int, c: int| #[trigger] at(cells, r, c) != Some(Space::BoxRight)
}

/// The cell at row `r` and column `c`, if it holds half a box, has the
/// other half beside it: a left half its right half to the right, a right
/// half its left half to the left.
pub open spec fn pairs_up(cells: Seq<Seq<Space>>, r: int, c: int) -> bool {
    &&& at(cells, r, c) == Some(Space::BoxLeft) ==> at(cells, r, c + 1) == Some(Space::BoxRight)
    &&& at(cells, r, c) == Some(Space::BoxRight) ==> at(cells, r, c - 1) == Some(Space::BoxLeft)
}

/// All boxes are two cells wide.
pub open spec fn all_paired(cells: Seq<Seq<Space>>) -> bool {
    forall|r: int, c: int| #[trigger] pairs_up(cells, r, c)
}

/// The number of boxes on the floor.
pub open spec fn box_count(cells: Seq<Seq<Space>>) -> nat {
    tally_all(
        cells,
        |s: Space|
            if s == Space::BoxLeft {
                1nat
            } else {
                0nat
            },
    )
}

/// The `k` cells in front of `robot` all hold a narrow box.
pub open spec fn is_chain(cells: Seq<Seq<Space>>, robot: (int, int), d: Direction, k: int) -> bool {
    k >= 0 && forall|t: int| 1 <= t <= k ==> #[trigger] seen(cells, robot, d, t) == Some(
        Space::BoxLeft,
    )
}

/// Exactly `k` boxes stand in a row in front of `robot`.
pub open spec fn is_whole_chain(
    cells: Seq<Seq<Space>>,
    robot: (int, int),
    d: Direction,
    k: int,
) -> bool {
    is_chain(cells, robot, d, k) && seen(cells, robot, d, k + 1) != Some(Space::BoxLeft)
}

/// The number of boxes that stand in a row in front of `robot`.
pub open spec fn chain_len(cells: Seq<Seq<Space>>, robot: (int, int), d: Direction) -> int {
    choose|k: int| is_whole_chain(cells, robot, d, k)
}

/// The floor after the robot has pushed the `k` boxes in front of it one
/// cell on: the cell behind the last box takes a box, the cell in front of
/// the robot takes the robot, and where the robot stood nothing is left.
pub open spec fn narrow_push(
    cells: Seq<Seq<Space>>,
    robot: (int, int),
    d: Direction,
    k: int,
) -> Seq<Seq<Space>> {
    let end = along(robot, d, k + 1);
    let next = along(robot, d, 1);
    let c1 = put(cells, end.0, end.1, Space::BoxLeft);
    let c2 = put(c1, next.0, next.1, Space::Robot);
    put(c2, robot.0, robot.1, Space::Empty)
}

/// The floor and the robot's place after one move among narrow boxes: where
/// the chain of boxes in front of the robot ends before an empty cell, robot
/// and chain go one cell on; where it ends before anything else, or at the
/// edge of the floor, nothing moves.
pub open spec fn narrow_step(cells: Seq<Seq<Space>>, robot: (int, int), d: Direction) -> (
    Seq<Seq<Space>>,
    (int, int),
) {
    let k = chain_len(cells, robot, d);
    if seen(cells, robot, d, k + 1) == Some(Space::Empty) {
        (narrow_push(cells, robot, d, k), along(robot, d, 1))
    } else {
        (cells, robot)
    }
}

/// A chain has one length.
pub proof fn lemma_chain_len(cells: Seq<Seq<Space>>, robot: (int, int), d: Direction, k: int)
    requires
        is_whole_chain(cells, robot, d, k),
    ensures
        chain_len(cells, robot, d) == k,
{
    let j = chain_len(cells, robot, d);
    assert(is_whole_chain(cells, robot, d, j));
    if j < k {
        assert(seen(cells, robot, d, j + 1) == Some(Space::BoxLeft));
    } else if k < j {
        assert(seen(cells, robot, d, k + 1) == Some(Space::BoxLeft));
    }
}

/// What a search for the robot knows once it has looked at the rows before
/// `i` and at the first `j` cells of row `i`: `found` is the first robot
/// among them, and `many` says that there is a second, in which case
/// `other` holds two.
pub closed spec fn robots_seen(
    cells: Seq<Seq<Space>>,
    i: int,
    j: int,
    found: Option<(usize, usize)>,
    many: bool,
    other: ((int, int), (int, int)),
) -> bool {
    match found {
        None => !many && forall|r: int, c: int|
            (r < i || (r == i && c < j)) ==> #[trigger] at(cells, r, c) != Some(Space::Robot),
        Some(p) => {
            &&& at(cells, p.0 as int, p.1 as int) == Some(Space::Robot)
            &&& p.0 < i || (p.0 == i && p.1 < j)
            &&& !many ==> forall|r: int, c: int|
                (r < i || (r == i && c < j)) && #[trigger] at(cells, r, c) == Some(Space::Robot)
                    ==> r == p.0 && c == p.1
            &&& many ==> other.0 != other.1 && at(cells, other.0.0, other.0.1) == Some(
                Space::Robot,
            ) && at(cells, other.1.0, other.1.1) == Some(Space::Robot)
        },
    }
}

/// The warehouse: its floor and the place of the robot on it.
pub struct Grid {
    pub spaces: Vec<Vec<Space>>,
    pub robot: (usize, usize),
}

impl Grid {
    /// The floor, row by row.
    pub open spec fn cells(&self) -> Seq<Seq<Space>> {
        rows(self.spaces)
    }

    /// Where the robot stands, by row and column.
    pub open spec fn place(&self) -> (int, int) {
        (self.robot.0 as int, self.robot.1 as int)
    }

    /// A rectangular floor with the robot where the grid says, and no other.
    pub open spec fn well_formed(&self) -> bool {
        well_shaped(self.cells()) && robot_alone(self.cells(), self.place())
    }

    /// A well-formed warehouse of narrow boxes.
    pub open spec fn is_narrow(&self) -> bool {
        self.well_formed() && all_narrow(self.cells())
    }

    /// A well-formed warehouse of wide boxes.
    pub open spec fn is_wide(&self) -> bool {
        self.well_formed() && all_paired(self.cells())
    }

    /// What stands at row `r` and column `c`.
    pub fn get(&self, r: usize, c: usize) -> (s: Space)
        requires
            at(self.cells(), r as int, c as int) is Some,
        ensures
            s == self.cells()[r as int][c as int],
    {
        self.spaces[r][c]
    }

    /// Puts `s` at row `r` and column `c`.
    pub fn set(&mut self, r: usize, c: usize, s: Space)
        requires
            at(old(self).cells(), r as int, c as int) is Some,
        ensures
            final(self).cells() == put(old(self).cells(), r as int, c as int, s),
            final(self).robot == old(self).robot,
    {
        self.spaces[r][c] = s;
        assert(self.cells() =~~= put(old(self).cells(), r as int, c as int, s));
    }

    /// Makes a warehouse of the floor `spaces`, or gives the floor back
    /// where it is no rectangle or does not hold exactly one robot.
    pub fn new(spaces: Vec<Vec<Space>>) -> (r: Result<Grid, Vec<Vec<Space>>>)
        ensures
            match r {
                Ok(grid) => grid.well_formed() && grid.cells() == rows(spaces),
                Err(given) => given == spaces && !(well_shaped(rows(spaces)) && exists|
                    robot: (int, int),
                | robot_alone(rows(spaces), robot)),
            },
    {
        let ghost cells = rows(spaces);
        if spaces.len() == 0 || spaces[0].len() == 0 {
            return Err(spaces);
        }
        let m = spaces.len();
        let n = spaces[0].len();
        let mut found: Option<(usize, usize)> = None;
        let mut many = false;
        let ghost mut other: ((int, int), (int, int)) = ((0, 0), (0, 0));
        let mut i: usize = 0;
        while i < m
            invariant
                i <= m,
                m == spaces.len(),
                n == spaces[0].len(),
                n > 0,
                cells == rows(spaces),
                forall|k: int| 0 <= k < i ==> (#[trigger] cells[k]).len() == n,
                robots_seen(cells, i as int, 0, found, many, other),
            decreases m - i,
        {
            if spaces[i].len() != n {
                assert(cells[i as int].len() != cells[0].len());
                return Err(spaces);
            }
            let mut j: usize = 0;
            while j < n
                invariant
                    i < m,
                    j <= n,
                    m == spaces.len(),
                    n == spaces[i as int].len(),
                    cells == rows(spaces),
                    robots_seen(cells, i as int, j as int, found, many, other),
                decreases n - j,
            {
                assert(at(cells, i as int, j as int) == Some(spaces[i as int][j as int]));
                if spaces[i][j] == Space::Robot {
                    match found {
                        Some(p) => {
                            proof {
                                if !many {
                                    other = ((p.0 as int, p.1 as int), (i as int, j as int));
                                }
                            }
                            many = true;
                        },
                        None => {
                            found = Some((i, j));
                        },
                    }
                }
                j += 1;
            }
            i += 1;
        }
        match found {
            Some(robot) => {
                if many {
                    proof {
                        assert forall|p: (int, int)| !robot_alone(cells, p) by {
                            assert(at(cells, other.0.0, other.0.1) == Some(Space::Robot));
                            assert(at(cells, other.1.0, other.1.1) == Some(Space::Robot));
                        }
                    }
                    Err(spaces)
                } else {
                    Ok(Grid { spaces, robot })
                }
            },
            None => {
                proof {
                    assert forall|p: (int, int)| !robot_alone(cells, p) by {
                        if at(cells, p.0, p.1) == Some(Space::Robot) {
                            assert(p.0 < m);
                        }
                    }
                }
                Err(spaces)
            },
        }
    }

    /// The number of rows and of columns.
    pub fn boundary(&self) -> (r: (usize, usize))
        requires
            well_shaped(self.cells()),
        ensures
            r.0 == self.cells().len(),
            r.1 == self.cells()[0].len(),
    {
        (self.spaces.len(), self.spaces[0].len())
    }

    /// The cell next to `space` in the direction `direction`, if the floor
    /// goes on there.
    pub fn next_space(&self, space: (usize, usize), direction: Direction) -> (r: Option<
        (usize, usize),
    >)
        requires
            well_shaped(self.cells()),
            at(self.cells(), space.0 as int, space.1 as int) is Some,
        ensures
            match r {
                Some(q) => along((space.0 as int, space.1 as int), direction, 1) == (
                    q.0 as int,
                    q.1 as int,
                ) && seen(self.cells(), (space.0 as int, space.1 as int), direction, 1) is Some,
                None => seen(self.cells(), (space.0 as int, space.1 as int), direction, 1) is None,
            },
    {
        let (row, col) = space;
        let (m, n) = self.boundary();
        assert(self.cells()[row as int].len() == n);
        let r = match direction {
            Direction::Up => {
                if row == 0 {
                    None
                } else {
                    Some((row - 1, col))
                }
            },
            Direction::Down => {
                if row >= m - 1 {
                    None
                } else {
                    Some((row + 1, col))
                }
            },
            Direction::Left => {
                if col == 0 {
                    None
                } else {
                    Some((row, col - 1))
                }
            },
            Direction::Right => {
                if col >= n - 1 {
                    None
                } else {
                    Some((row, col + 1))
                }
            },
        };
        proof {
            if let Some(q) = r {
                assert(self.cells()[q.0 as int].len() == n);
            }
        }
        r
    }

    /// Moves the robot one cell in a warehouse of narrow boxes, pushing the
    /// boxes in front of it if there is room behind them.
    pub fn move_robot_1(&mut self, direction: Direction)
        requires
            old(self).is_narrow(),
        ensures
            final(self).is_narrow(),
            (final(self).cells(), final(self).place()) == narrow_step(
                old(self).cells(),
                old(self).place(),
                direction,
            ),
    {
        let space = self.robot;
        let ghost cells = self.cells();
        let ghost from = self.place();
        let (m, n) = self.boundary();
        let next = match self.next_space(space, direction) {
            None => {
                proof {
                    assert(is_whole_chain(cells, from, direction, 0));
                    lemma_chain_len(cells, from, direction, 0);
                }
                return ;
            },
            Some(next) => next,
        };
        let (nr, nc) = next;
        match self.spaces[nr][nc] {
            Space::Empty => {
                proof {
                    assert(is_whole_chain(cells, from, direction, 0));
                    lemma_chain_len(cells, from, direction, 0);
                }
                self.spaces[space.0][space.1] = Space::Empty;
                self.spaces[nr][nc] = Space::Robot;
                self.robot = (nr, nc);
                proof {
                    assert(self.cells() =~~= narrow_push(cells, from, direction, 0));
                    lemma_narrow_push_keeps(cells, from, direction, 0);
                }
            },
            Space::BoxLeft => {
                assert(cells[space.0 as int].len() == n);
                let (mut r, mut c) = (nr, nc);
                let ghost mut t: int = 1;
                let mut edge = false;
                loop
                    invariant
                        self.cells() == cells,
                        self.robot == space,
                        well_shaped(cells),
                        m == cells.len(),
                        n == cells[0].len(),
                        1 <= t,
                        from == (space.0 as int, space.1 as int),
                        space.0 < m,
                        space.1 < n,
                        along(from, direction, t) == (r as int, c as int),
                        r < m,
                        c < n,
                        t < m + n,
                        is_chain(cells, from, direction, if edge { t } else { t - 1 }),
                        edge ==> seen(cells, from, direction, t + 1) is None,
                    ensures
                        edge || cells[r as int][c as int] != Space::BoxLeft,
                    decreases m + n - t, if edge { 0int } else { 1int },
                {
                    assert(cells[r as int].len() == n);
                    if edge || self.spaces[r][c] != Space::BoxLeft {
                        break ;
                    }
                    match self.next_space((r, c), direction) {
                        Some((ar, ac)) => {
                            proof {
                                assert(along(from, direction, t + 1) == (ar as int, ac as int));
                                assert(seen(cells, from, direction, t + 1) is Some);
                                assert(seen(cells, from, direction, t) == Some(Space::BoxLeft));
                                t = t + 1;
                            }
                            r = ar;
                            c = ac;
                        },
                        None => {
                            edge = true;
                        },
                    }
                }
                proof {
                    let k = if edge { t } else { t - 1 };
                    assert(cells[r as int].len() == n);
                    assert(is_whole_chain(cells, from, direction, k));
                    lemma_chain_len(cells, from, direction, k);
                }
                if !edge && self.spaces[r][c] == Space::Empty {
                    self.spaces[space.0][space.1] = Space::Empty;
                    self.spaces[nr][nc] = Space::Robot;
                    self.spaces[r][c] = Space::BoxLeft;
                    self.robot = (nr, nc);
                    proof {
                        assert(self.cells() =~~= narrow_push(cells, from, direction, t - 1));
                        lemma_narrow_push_keeps(cells, from, direction, t - 1);
                    }
                }
            },
            _ => {
                proof {
                    assert(is_whole_chain(cells, from, direction, 0));
                    lemma_chain_len(cells, from, direction, 0);
                }
            },
        }
    }
}

/// A push leaves a well-formed warehouse of narrow boxes, with as many boxes
/// as before.
pub proof fn lemma_narrow_push_keeps(
    cells: Seq<Seq<Space>>,
    robot: (int, int),
    d: Direction,
    k: int,
)
    requires
        well_shaped(cells),
        robot_alone(cells, robot),
        all_narrow(cells),
        is_chain(cells, robot, d, k),
        seen(cells, robot, d, k + 1) == Some(Space::Empty),
    ensures
        well_shaped(narrow_push(cells, robot, d, k)),
        all_narrow(narrow_push(cells, robot, d, k)),
        robot_alone(narrow_push(cells, robot, d, k), along(robot, d, 1)),
        box_count(narrow_push(cells, robot, d, k)) == box_count(cells),
{
    let f = |s: Space|
        if s == Space::BoxLeft {
            1nat
        } else {
            0nat
        };
    let end = along(robot, d, k + 1);
    let next = along(robot, d, 1);
    let c1 = put(cells, end.0, end.1, Space::BoxLeft);
    let c2 = put(c1, next.0, next.1, Space::Robot);
    let c3 = put(c2, robot.0, robot.1, Space::Empty);
    if k > 0 {
        assert(seen(cells, robot, d, 1) == Some(Space::BoxLeft));
    }
    assert(seen(cells, robot, d, 1) is Some);
    assert(next != robot);
    assert(at(c3, next.0, next.1) == Some(Space::Robot));
    lemma_tally_put(cells, end.0, end.1, Space::BoxLeft, f);
    lemma_tally_put(c1, next.0, next.1, Space::Robot, f);
    lemma_tally_put(c2, robot.0, robot.1, Space::Empty, f);
    assert forall|r: int, c: int| #[trigger] at(c3, r, c) == Some(Space::Robot) implies r == next.0
        && c == next.1 by {
        if !(r == next.0 && c == next.1) {
            if !(r == robot.0 && c == robot.1) {
                if !(r == end.0 && c == end.1) {
                    assert(at(cells, r, c) == Some(Space::Robot));
                }
            }
        }
    }
    assert forall|r: int, c: int| #[trigger] at(c3, r, c) != Some(Space::BoxRight) by {
        assert(at(cells, r, c) != Some(Space::BoxRight));
    }
}

/// Pushing a row of boxes that ends before a wall, or at the edge of the
/// floor, or before anything else that is no empty cell, moves nothing: not a
/// box and not the robot.
pub proof fn lemma_push_against_wall(
    cells: Seq<Seq<Space>>,
    robot: (int, int),
    d: Direction,
    k: int,
)
    requires
        is_chain(cells, robot, d, k),
        seen(cells, robot, d, k + 1) != Some(Space::BoxLeft),
        seen(cells, robot, d, k + 1) != Some(Space::Empty),
    ensures
        narrow_step(cells, robot, d) == (cells, robot),
{
    lemma_chain_len(cells, robot, d, k);
}

/// Pushing a row of `k` boxes with an empty cell behind it shifts the whole
/// row by exactly one cell: the robot stands where the first box stood,
/// every box but the first stays a box, the empty cell takes the last box,
/// nothing else changes, and there are as many boxes as before.
pub proof fn lemma_push_into_room(
    cells: Seq<Seq<Space>>,
    robot: (int, int),
    d: Direction,
    k: int,
)
    requires
        well_shaped(cells),
        robot_alone(cells, robot),
        all_narrow(cells),
        is_chain(cells, robot, d, k),
        seen(cells, robot, d, k + 1) == Some(Space::Empty),
    ensures
        narrow_step(cells, robot, d).1 == along(robot, d, 1),
        seen(narrow_step(cells, robot, d).0, robot, d, 0) == Some(Space::Empty),
        seen(narrow_step(cells, robot, d).0, robot, d, 1) == Some(Space::Robot),
        forall|t: int|
            2 <= t <= k + 1 ==> #[trigger] seen(narrow_step(cells, robot, d).0, robot, d, t)
                == Some(Space::BoxLeft),
        forall|r: int, c: int|
            (forall|t: int| 0 <= t <= k + 1 ==> along(robot, d, t) != (r, c)) ==> #[trigger] at(
                narrow_step(cells, robot, d).0,
                r,
                c,
            ) == at(cells, r, c),
        box_count(narrow_step(cells, robot, d).0) == box_count(cells),
{
    lemma_chain_len(cells, robot, d, k);
    lemma_narrow_push_keeps(cells, robot, d, k);
    let after = narrow_push(cells, robot, d, k);
    assert(seen(cells, robot, d, 0) == Some(Space::Robot));
    if k > 0 {
        assert(seen(cells, robot, d, 1) == Some(Space::BoxLeft));
    }
    assert forall|t: int| 2 <= t <= k + 1 implies #[trigger] seen(after, robot, d, t) == Some(
        Space::BoxLeft,
    ) by {
        if t <= k {
            assert(seen(cells, robot, d, t) == Some(Space::BoxLeft));
        }
    }
    assert forall|r: int, c: int|
        (forall|t: int| 0 <= t <= k + 1 ==> along(robot, d, t) != (r, c)) implies #[trigger] at(
        after,
        r,
        c,
    ) == at(cells, r, c) by {
        assert(along(robot, d, 0) != (r, c));
        assert(along(robot, d, 1) != (r, c));
        assert(along(robot, d, k + 1) != (r, c));
    }
}

} // verus!
