//! Moves among boxes that are two cells wide.

use super::grid::{
    all_paired, along, at, pairs_up, robot_alone, seen, well_shaped, Direction, Grid, Space,
};
use crate::table::{lemma_push_contains, put, rows};
use vstd::prelude::*;

verus! {

/// `s` is one half of a wide box.
pub open spec fn is_box(s: Option<Space>) -> bool {
    s == Some(Space::BoxLeft) || s == Some(Space::BoxRight)
}

/// The `k` cells in front of `robot` all hold half a box.
pub open spec fn is_row_chain(cells: Seq<Seq<Space>>, robot: (int, int), d: Direction, k: int) -> bool {
    k >= 0 && forall|t: int| 1 <= t <= k ==> is_box(#[trigger] seen(cells, robot, d, t))
}

/// Exactly `k` halves of boxes stand in a row in front of `robot`.
pub open spec fn is_whole_row_chain(
    cells: Seq<Seq<Space>>,
    robot: (int, int),
    d: Direction,
    k: int,
) -> bool {
    is_row_chain(cells, robot, d, k) && !is_box(seen(cells, robot, d, k + 1))
}

/// The number of halves of boxes that stand in a row in front of `robot`.
pub open spec fn row_chain_len(cells: Seq<Seq<Space>>, robot: (int, int), d: Direction) -> int {
    choose|k: int| is_whole_row_chain(cells, robot, d, k)
}

/// A row of boxes has one length.
pub proof fn lemma_row_chain_len(cells: Seq<Seq<Space>>, robot: (int, int), d: Direction, k: int)
    requires
        is_whole_row_chain(cells, robot, d, k),
    ensures
        row_chain_len(cells, robot, d) == k,
{
    let j = row_chain_len(cells, robot, d);
    assert(is_whole_row_chain(cells, robot, d, j));
    if j < k {
        assert(is_box(seen(cells, robot, d, j + 1)));
    } else if k < j {
        assert(is_box(seen(cells, robot, d, k + 1)));
    }
}

/// How many steps in the direction `d` lead from `robot` to row `r` and
/// column `c`, if the cell lies on that line.
pub open spec fn line_index(robot: (int, int), d: Direction, r: int, c: int) -> Option<int> {
    match d {
        Direction::Up => if c == robot.1 {
            Some(robot.0 - r)
        } else {
            None
        },
        Direction::Down => if c == robot.1 {
            Some(r - robot.0)
        } else {
            None
        },
        Direction::Left => if r == robot.0 {
            Some(robot.1 - c)
        } else {
            None
        },
        Direction::Right => if r == robot.0 {
            Some(c - robot.1)
        } else {
            None
        },
    }
}

/// What stands at row `r` and column `c` after the robot has pushed the `k`
/// cells in front of it one cell on.
pub open spec fn shifted_cell(
    cells: Seq<Seq<Space>>,
    robot: (int, int),
    d: Direction,
    k: int,
    r: int,
    c: int,
) -> Space {
    match line_index(robot, d, r, c) {
        Some(t) => if t == 0 {
            Space::Empty
        } else if t == 1 {
            Space::Robot
        } else if 2 <= t <= k + 1 {
            cells[along(robot, d, t - 1).0][along(robot, d, t - 1).1]
        } else {
            cells[r][c]
        },
        None => cells[r][c],
    }
}

/// The floor after the robot has pushed the `k` cells in front of it one
/// cell on: each takes what stood before it, the first takes the robot, and
/// where the robot stood nothing is left.
pub open spec fn row_push(cells: Seq<Seq<Space>>, robot: (int, int), d: Direction, k: int) -> Seq<
    Seq<Space>,
> {
    Seq::new(
        cells.len(),
        |r: int| Seq::new(cells[r].len(), |c: int| shifted_cell(cells, robot, d, k, r, c)),
    )
}

/// The floor and the robot's place after a move to the left or to the right
/// among wide boxes: where the row of boxes in front of the robot ends
/// before an empty cell, robot and row go one cell on; else nothing moves.
pub open spec fn row_step(cells: Seq<Seq<Space>>, robot: (int, int), d: Direction) -> (
    Seq<Seq<Space>>,
    (int, int),
) {
    let k = row_chain_len(cells, robot, d);
    if seen(cells, robot, d, k + 1) == Some(Space::Empty) {
        (row_push(cells, robot, d, k), along(robot, d, 1))
    } else {
        (cells, robot)
    }
}

/// A floor that holds in every cell what a push leaves there is the floor
/// after the push.
pub proof fn lemma_is_row_push(
    cells: Seq<Seq<Space>>,
    now: Seq<Seq<Space>>,
    robot: (int, int),
    d: Direction,
    k: int,
)
    requires
        now.len() == cells.len(),
        forall|r: int| 0 <= r < cells.len() ==> (#[trigger] now[r]).len() == cells[r].len(),
        forall|r: int, c: int|
            0 <= r < cells.len() && 0 <= c < cells[r].len() ==> #[trigger] now[r][c]
                == shifted_cell(cells, robot, d, k, r, c),
    ensures
        now == row_push(cells, robot, d, k),
{
    assert(now =~~= row_push(cells, robot, d, k));
}

/// A push to the left or right leaves a well-formed warehouse of wide boxes.
pub proof fn lemma_row_push_keeps(cells: Seq<Seq<Space>>, robot: (int, int), d: Direction, k: int)
    requires
        well_shaped(cells),
        robot_alone(cells, robot),
        all_paired(cells),
        d == Direction::Left || d == Direction::Right,
        is_row_chain(cells, robot, d, k),
        seen(cells, robot, d, k + 1) == Some(Space::Empty),
    ensures
        well_shaped(row_push(cells, robot, d, k)),
        all_paired(row_push(cells, robot, d, k)),
        robot_alone(row_push(cells, robot, d, k), along(robot, d, 1)),
{
    let after = row_push(cells, robot, d, k);
    assert(seen(cells, robot, d, 0) == Some(Space::Robot));
    assert forall|t: int| 0 <= t <= k + 1 implies (#[trigger] seen(cells, robot, d, t)) is Some by {
        if 1 <= t <= k {
            assert(is_box(seen(cells, robot, d, t)));
        }
    }
    assert forall|r: int, c: int| #[trigger] at(after, r, c) is Some implies at(after, r, c)
        == Some(shifted_cell(cells, robot, d, k, r, c)) && at(cells, r, c) is Some by {}
    assert forall|r: int, c: int| at(cells, r, c) is Some implies #[trigger] at(after, r, c)
        is Some by {}
    assert forall|r: int, c: int| #[trigger]
        at(after, r, c) == Some(Space::Robot) implies (r, c) == along(robot, d, 1) by {
        match line_index(robot, d, r, c) {
            Some(t) => {
                if 2 <= t <= k + 1 {
                    assert(is_box(seen(cells, robot, d, t - 1)));
                } else if t != 1 {
                    assert(at(cells, r, c) == Some(Space::Robot));
                }
            },
            None => {
                assert(at(cells, r, c) == Some(Space::Robot));
            },
        }
    }
    assert(at(after, along(robot, d, 1).0, along(robot, d, 1).1) == Some(Space::Robot)) by {
        assert(seen(cells, robot, d, 1) is Some);
    }
    assert forall|r: int, c: int| #[trigger] pairs_up(after, r, c) by {
        lemma_pair_moves(cells, robot, d, k, r, c);
    }
}

/// After a push to the left or right every half of a box still has its
/// other half beside it.
proof fn lemma_pair_moves(
    cells: Seq<Seq<Space>>,
    robot: (int, int),
    d: Direction,
    k: int,
    r: int,
    c: int,
)
    requires
        well_shaped(cells),
        robot_alone(cells, robot),
        all_paired(cells),
        d == Direction::Left || d == Direction::Right,
        is_row_chain(cells, robot, d, k),
        seen(cells, robot, d, k + 1) == Some(Space::Empty),
    ensures
        pairs_up(row_push(cells, robot, d, k), r, c),
{
    let after = row_push(cells, robot, d, k);
    assert(seen(cells, robot, d, 0) == Some(Space::Robot));
    assert(forall|t: int| 1 <= t <= k ==> is_box(#[trigger] seen(cells, robot, d, t)));
    // What the pairing of the boxes says of the cells around this one.
    assert(pairs_up(cells, r, c));
    assert(pairs_up(cells, r, c - 1));
    assert(pairs_up(cells, r, c - 2));
    assert(pairs_up(cells, r, c + 1));
    assert(pairs_up(cells, r, c));
    assert(pairs_up(cells, r, c + 1));
    assert(pairs_up(cells, r, c + 2));
    assert(pairs_up(cells, r, c - 1));
    if r == robot.0 {
        let t = line_index(robot, d, r, c)->0;
        assert(along(robot, d, t) == (r, c));
        assert(along(robot, d, t - 1) == (r, if d == Direction::Right { c - 1 } else { c + 1 }));
        assert(along(robot, d, t + 1) == (r, if d == Direction::Right { c + 1 } else { c - 1 }));
        assert(along(robot, d, t - 2) == (r, if d == Direction::Right { c - 2 } else { c + 2 }));
        assert(along(robot, d, t + 2) == (r, if d == Direction::Right { c + 2 } else { c - 2 }));
        if 1 <= t - 2 <= k {
            assert(is_box(seen(cells, robot, d, t - 2)));
        }
        if 1 <= t - 1 <= k {
            assert(is_box(seen(cells, robot, d, t - 1)));
        }
        if 1 <= t <= k {
            assert(is_box(seen(cells, robot, d, t)));
        }
        if 1 <= t + 1 <= k {
            assert(is_box(seen(cells, robot, d, t + 1)));
        }
    }
}

impl Grid {
    /// Looks along the row of boxes in front of the robot for the first cell
    /// that holds no half of a box. Returns that cell and `true`, or `false`
    /// with the last cell of the floor where the boxes go on to its edge;
    /// the third part is the number of cells that the row of boxes takes.
    fn row_chain_end(&self, direction: Direction) -> (r: ((usize, usize), bool, Ghost<int>))
        requires
            self.well_formed(),
        ensures
            is_whole_row_chain(self.cells(), self.place(), direction, r.2@),
            r.1 ==> along(self.place(), direction, r.2@ + 1) == (r.0.0 as int, r.0.1 as int)
                && seen(self.cells(), self.place(), direction, r.2@ + 1) == Some(
                self.cells()[r.0.0 as int][r.0.1 as int],
            ),
            !r.1 ==> seen(self.cells(), self.place(), direction, r.2@ + 1) is None,
    {
        let ghost cells = self.cells();
        let ghost from = self.place();
        let (m, n) = self.boundary();
        let (mut r, mut c) = self.robot;
        let ghost mut t: int = 0;
        assert(cells[r as int].len() == n);
        loop
            invariant
                self.cells() == cells,
                self.place() == from,
                well_shaped(cells),
                m == cells.len(),
                n == cells[0].len(),
                from.0 < m,
                from.1 < n,
                0 <= t < m + n,
                along(from, direction, t) == (r as int, c as int),
                r < m,
                c < n,
                is_row_chain(cells, from, direction, t),
            decreases m + n - t,
        {
            assert(cells[r as int].len() == n);
            match self.next_space((r, c), direction) {
                None => {
                    assert(along(from, direction, t + 1) == along(
                        (r as int, c as int),
                        direction,
                        1,
                    ));
                    return ((r, c), false, Ghost(t));
                },
                Some((ar, ac)) => {
                    assert(along(from, direction, t + 1) == (ar as int, ac as int));
                    assert(seen(cells, from, direction, t + 1) is Some);
                    assert(cells[ar as int].len() == n);
                    let cell = self.get(ar, ac);
                    if cell == Space::BoxLeft || cell == Space::BoxRight {
                        r = ar;
                        c = ac;
                        proof {
                            t = t + 1;
                        }
                    } else {
                        return ((ar, ac), true, Ghost(t));
                    }
                },
            }
        }
    }

    /// Pushes the row of boxes to the right of the robot one cell on, and
    /// the robot after it, if an empty cell lies behind the row.
    pub fn move_boxes_right(&mut self)
        requires
            old(self).is_wide(),
        ensures
            final(self).is_wide(),
            (final(self).cells(), final(self).place()) == row_step(
                old(self).cells(),
                old(self).place(),
                Direction::Right,
            ),
    {
        let ghost cells = self.cells();
        let ghost from = self.place();
        let (m, n) = self.boundary();
        let (end, found, Ghost(k)) = self.row_chain_end(Direction::Right);
        proof {
            lemma_row_chain_len(cells, from, Direction::Right, k);
        }
        if found && self.get(end.0, end.1) == Space::Empty {
            let (rr, rc) = self.robot;
            let ec = end.1;
            let mut col = ec;
            assert(cells[rr as int].len() == n);
            assert(forall|r: int| 0 <= r < m ==> (#[trigger] cells[r]).len() == n);
            while col > rc + 1
                invariant
                    rc + 1 <= col <= ec < n,
                    rr < m,
                    m == cells.len(),
                    well_shaped(cells),
                    n == cells[0].len(),
                    self.robot == (rr, rc),
                    self.cells().len() == m,
                    forall|r: int| 0 <= r < m ==> (#[trigger] self.cells()[r]).len() == n,
                    forall|r: int, c: int|
                        0 <= r < m && 0 <= c < n ==> #[trigger] self.cells()[r][c] == (if r == rr
                            && col < c <= ec {
                            cells[r][c - 1]
                        } else {
                            cells[r][c]
                        }),
                decreases col,
            {
                let moved = self.get(rr, col - 1);
                self.set(rr, col, moved);
                col -= 1;
            }
            self.set(rr, rc, Space::Empty);
            self.set(rr, rc + 1, Space::Robot);
            self.robot = (rr, rc + 1);
            proof {
                let now = self.cells();
                assert forall|r: int| 0 <= r < cells.len() implies (#[trigger] now[r]).len()
                    == cells[r].len() by {}
                assert forall|r: int, c: int|
                    0 <= r < cells.len() && 0 <= c < cells[r].len() implies #[trigger] now[r][c]
                    == shifted_cell(cells, from, Direction::Right, k, r, c) by {
                    assert(cells[r].len() == n);
                }
                lemma_is_row_push(cells, now, from, Direction::Right, k);
                lemma_row_push_keeps(cells, from, Direction::Right, k);
            }
        }
    }

    /// Pushes the row of boxes to the left of the robot one cell on, and the
    /// robot after it, if an empty cell lies behind the row.
    pub fn move_boxes_left(&mut self)
        requires
            old(self).is_wide(),
        ensures
            final(self).is_wide(),
            (final(self).cells(), final(self).place()) == row_step(
                old(self).cells(),
                old(self).place(),
                Direction::Left,
            ),
    {
        let ghost cells = self.cells();
        let ghost from = self.place();
        let (m, n) = self.boundary();
        let (end, found, Ghost(k)) = self.row_chain_end(Direction::Left);
        proof {
            lemma_row_chain_len(cells, from, Direction::Left, k);
        }
        if found && self.get(end.0, end.1) == Space::Empty {
            let (rr, rc) = self.robot;
            let ec = end.1;
            let mut col = ec;
            assert(cells[rr as int].len() == n);
            assert(forall|r: int| 0 <= r < m ==> (#[trigger] cells[r]).len() == n);
            while col < rc - 1
                invariant
                    ec <= col <= rc - 1,
                    rc < n,
                    rr < m,
                    m == cells.len(),
                    well_shaped(cells),
                    n == cells[0].len(),
                    self.robot == (rr, rc),
                    self.cells().len() == m,
                    forall|r: int| 0 <= r < m ==> (#[trigger] self.cells()[r]).len() == n,
                    forall|r: int, c: int|
                        0 <= r < m && 0 <= c < n ==> #[trigger] self.cells()[r][c] == (if r == rr
                            && ec <= c < col {
                            cells[r][c + 1]
                        } else {
                            cells[r][c]
                        }),
                decreases rc - col,
            {
                let moved = self.get(rr, col + 1);
                self.set(rr, col, moved);
                col += 1;
            }
            self.set(rr, rc, Space::Empty);
            self.set(rr, rc - 1, Space::Robot);
            self.robot = (rr, rc - 1);
            proof {
                let now = self.cells();
                assert forall|r: int| 0 <= r < cells.len() implies (#[trigger] now[r]).len()
                    == cells[r].len() by {}
                assert forall|r: int, c: int|
                    0 <= r < cells.len() && 0 <= c < cells[r].len() implies #[trigger] now[r][c]
                    == shifted_cell(cells, from, Direction::Left, k, r, c) by {
                    assert(cells[r].len() == n);
                }
                lemma_is_row_push(cells, now, from, Direction::Left, k);
                lemma_row_push_keeps(cells, from, Direction::Left, k);
            }
        }
    }
}

/// The column of the other half of the box of which row `r` holds one half
/// in column `c`.
pub open spec fn partner_col(cells: Seq<Seq<Space>>, r: int, c: int) -> int {
    if at(cells, r, c) == Some(Space::BoxLeft) {
        c + 1
    } else {
        c - 1
    }
}

/// The cell in column `c`, `t` rows from the robot in the direction `d`,
/// goes along when the robot moves: the robot's own cell does, and every
/// half of a box that stands before a cell that goes along, or whose other
/// half does.
pub open spec fn carried(cells: Seq<Seq<Space>>, robot: (int, int), d: Direction, t: int, c: int) -> bool
    decreases t,
{
    if t <= 0 {
        t == 0 && c == robot.1
    } else {
        let r = along(robot, d, t).0;
        is_box(at(cells, r, c)) && (carried(cells, robot, d, t - 1, c) || carried(
            cells,
            robot,
            d,
            t - 1,
            partner_col(cells, r, c),
        ))
    }
}

/// A cell that holds `s` lets something be pushed onto it: it is empty, or
/// holds half a box, which then is pushed on itself.
pub open spec fn gives_way(s: Option<Space>) -> bool {
    s == Some(Space::Empty) || is_box(s)
}

/// Something that would go along with the robot stands before a cell that
/// does not give way: a wall, or the edge of the floor.
pub open spec fn is_blocked(cells: Seq<Seq<Space>>, robot: (int, int), d: Direction) -> bool {
    exists|t: int, c: int|
        0 <= t && #[trigger] carried(cells, robot, d, t, c) && !gives_way(
            at(cells, along(robot, d, t + 1).0, c),
        )
}

/// How many rows row `r` lies from the robot in the direction `d`.
pub open spec fn row_index(robot: (int, int), d: Direction, r: int) -> int {
    if d == Direction::Up {
        robot.0 - r
    } else {
        r - robot.0
    }
}

/// What stands at row `r` and column `c` after everything that goes along
/// with the robot has moved one row on.
pub open spec fn lifted_cell(
    cells: Seq<Seq<Space>>,
    robot: (int, int),
    d: Direction,
    r: int,
    c: int,
) -> Space {
    let t = row_index(robot, d, r);
    if t >= 1 && carried(cells, robot, d, t - 1, c) {
        cells[along(robot, d, t - 1).0][c]
    } else if t >= 0 && carried(cells, robot, d, t, c) {
        Space::Empty
    } else {
        cells[r][c]
    }
}

/// The floor after everything that goes along with the robot has moved one
/// row on.
pub open spec fn column_push(cells: Seq<Seq<Space>>, robot: (int, int), d: Direction) -> Seq<
    Seq<Space>,
> {
    Seq::new(
        cells.len(),
        |r: int| Seq::new(cells[r].len(), |c: int| lifted_cell(cells, robot, d, r, c)),
    )
}

/// The floor and the robot's place after a move up or down among wide
/// boxes: all or nothing. Where anything that would go along is blocked,
/// nothing moves; else the robot and all that goes along move one row on.
pub open spec fn column_step(cells: Seq<Seq<Space>>, robot: (int, int), d: Direction) -> (
    Seq<Seq<Space>>,
    (int, int),
) {
    if is_blocked(cells, robot, d) {
        (cells, robot)
    } else {
        (column_push(cells, robot, d), along(robot, d, 1))
    }
}

/// The floor and the robot's place after one move among wide boxes.
pub open spec fn wide_step(cells: Seq<Seq<Space>>, robot: (int, int), d: Direction) -> (
    Seq<Seq<Space>>,
    (int, int),
) {
    if d == Direction::Left || d == Direction::Right {
        row_step(cells, robot, d)
    } else {
        column_step(cells, robot, d)
    }
}

/// The two halves of a box go along together.
pub proof fn lemma_carried_pair(
    cells: Seq<Seq<Space>>,
    robot: (int, int),
    d: Direction,
    t: int,
    c: int,
)
    requires
        all_paired(cells),
        t >= 1,
        carried(cells, robot, d, t, c),
    ensures
        carried(cells, robot, d, t, partner_col(cells, along(robot, d, t).0, c)),
        is_box(at(cells, along(robot, d, t).0, partner_col(cells, along(robot, d, t).0, c))),
        partner_col(cells, along(robot, d, t).0, partner_col(cells, along(robot, d, t).0, c)) == c,
{
    let r = along(robot, d, t).0;
    let p = partner_col(cells, r, c);
    assert(is_box(at(cells, r, c)));
    assert(pairs_up(cells, r, c));
    assert(pairs_up(cells, r, p));
}

/// A floor that holds in every cell what a push up or down leaves there is
/// the floor after the push.
pub proof fn lemma_is_column_push(
    cells: Seq<Seq<Space>>,
    now: Seq<Seq<Space>>,
    robot: (int, int),
    d: Direction,
)
    requires
        now.len() == cells.len(),
        forall|r: int| 0 <= r < cells.len() ==> (#[trigger] now[r]).len() == cells[r].len(),
        forall|r: int, c: int|
            0 <= r < cells.len() && 0 <= c < cells[r].len() ==> #[trigger] now[r][c]
                == lifted_cell(cells, robot, d, r, c),
    ensures
        now == column_push(cells, robot, d),
{
    assert(now =~~= column_push(cells, robot, d));
}

/// What a push up or down leaves in one cell, told apart by what happens
/// to the cell.
proof fn lemma_lifted_cell(cells: Seq<Seq<Space>>, robot: (int, int), d: Direction, r: int, c: int)
    requires
        well_shaped(cells),
        robot_alone(cells, robot),
        all_paired(cells),
        d == Direction::Up || d == Direction::Down,
        !is_blocked(cells, robot, d),
        at(cells, r, c) is Some,
    ensures
        at(column_push(cells, robot, d), r, c) == Some(lifted_cell(cells, robot, d, r, c)),
        ({
            let t = row_index(robot, d, r);
            let back = along(robot, d, t - 1).0;
            &&& r == along(robot, d, t).0
            &&& t >= 1 && carried(cells, robot, d, t - 1, c) ==> at(cells, back, c) == Some(
                lifted_cell(cells, robot, d, r, c),
            ) && (t == 1 || is_box(at(cells, back, c)))
            &&& t >= 1 && carried(cells, robot, d, t, c) ==> carried(cells, robot, d, t - 1, c)
                || carried(cells, robot, d, t - 1, partner_col(cells, r, c))
            &&& t >= 1 && carried(cells, robot, d, t - 1, c) && is_box(at(cells, r, c))
                ==> carried(cells, robot, d, t, c)
        }),
{
    let t = row_index(robot, d, r);
    if t >= 1 && carried(cells, robot, d, t - 1, c) {
        assert(gives_way(at(cells, along(robot, d, t - 1 + 1).0, c)));
        if t - 1 >= 1 {
            assert(is_box(at(cells, along(robot, d, t - 1).0, c)));
        } else {
            assert(at(cells, robot.0, robot.1) == Some(Space::Robot));
        }
    }
}

/// A push up or down leaves a well-formed warehouse of wide boxes.
pub proof fn lemma_column_push_keeps(cells: Seq<Seq<Space>>, robot: (int, int), d: Direction)
    requires
        well_shaped(cells),
        robot_alone(cells, robot),
        all_paired(cells),
        d == Direction::Up || d == Direction::Down,
        !is_blocked(cells, robot, d),
    ensures
        well_shaped(column_push(cells, robot, d)),
        all_paired(column_push(cells, robot, d)),
        robot_alone(column_push(cells, robot, d), along(robot, d, 1)),
{
    let after = column_push(cells, robot, d);
    assert forall|r: int, c: int| #[trigger] at(after, r, c) is Some implies at(cells, r, c)
        is Some by {}
    assert(carried(cells, robot, d, 0, robot.1));
    assert(gives_way(at(cells, along(robot, d, 0int + 1).0, robot.1)));
    assert(at(after, along(robot, d, 1).0, along(robot, d, 1).1) == Some(Space::Robot)) by {
        lemma_lifted_cell(cells, robot, d, along(robot, d, 1).0, robot.1);
    }
    assert forall|r: int, c: int| #[trigger]
        at(after, r, c) == Some(Space::Robot) implies (r, c) == along(robot, d, 1) by {
        lemma_lifted_cell(cells, robot, d, r, c);
        let t = row_index(robot, d, r);
        if t >= 1 && carried(cells, robot, d, t - 1, c) {
        } else if t >= 0 && carried(cells, robot, d, t, c) {
        } else {
            assert(at(cells, r, c) == Some(Space::Robot));
        }
    }
    assert forall|r: int, c: int| #[trigger] pairs_up(after, r, c) by {
        lemma_pair_lifted(cells, robot, d, r, c);
    }
}

/// After a push up or down every half of a box still has its other half
/// beside it.
proof fn lemma_pair_lifted(cells: Seq<Seq<Space>>, robot: (int, int), d: Direction, r: int, c: int)
    requires
        well_shaped(cells),
        robot_alone(cells, robot),
        all_paired(cells),
        d == Direction::Up || d == Direction::Down,
        !is_blocked(cells, robot, d),
    ensures
        pairs_up(column_push(cells, robot, d), r, c),
{
    let after = column_push(cells, robot, d);
    if at(after, r, c) == Some(Space::BoxLeft) || at(after, r, c) == Some(Space::BoxRight) {
        assert(at(cells, r, c) is Some);
        lemma_lifted_cell(cells, robot, d, r, c);
        let t = row_index(robot, d, r);
        let back = along(robot, d, t - 1).0;
        // The column in which the other half must stand.
        let p = if at(after, r, c) == Some(Space::BoxLeft) {
            c + 1
        } else {
            c - 1
        };
        if t >= 1 && carried(cells, robot, d, t - 1, c) {
            // The half came from the row before, and its other half with it.
            assert(t - 1 >= 1);
            lemma_carried_pair(cells, robot, d, t - 1, c);
            assert(at(cells, back, c) == at(after, r, c));
            assert(partner_col(cells, back, c) == p);
            assert(gives_way(at(cells, along(robot, d, t - 1 + 1).0, p)));
            lemma_lifted_cell(cells, robot, d, r, p);
            assert(pairs_up(cells, back, c));
            assert(pairs_up(cells, back, c));
        } else {
            // The half stood here before and stays, and so does its other half.
            assert(at(cells, r, c) == at(after, r, c));
            assert(pairs_up(cells, r, c));
            assert(pairs_up(cells, r, c));
            assert(partner_col(cells, r, c) == p);
            lemma_lifted_cell(cells, robot, d, r, p);
            if t >= 1 {
                assert(!carried(cells, robot, d, t, c));
                if carried(cells, robot, d, t, p) {
                    lemma_carried_pair(cells, robot, d, t, p);
                }
                if carried(cells, robot, d, t - 1, p) {
                    assert(carried(cells, robot, d, t, p));
                }
            } else if t == 0 {
                assert(c != robot.1);
                assert(at(cells, robot.0, robot.1) == Some(Space::Robot));
            }
        }
    }
}

/// `moving` lists the cell at row `r` and column `c`.
pub open spec fn holds(moving: Seq<(usize, usize, Space)>, r: int, c: int) -> bool {
    exists|j: int| 0 <= j < moving.len() && (#[trigger] moving[j]).0 == r && moving[j].1 == c
}

/// Every cell that `moving` lists goes along with the robot, stands at most
/// `upto` rows from it, and held what the list says.
spec fn moving_sound(
    cells: Seq<Seq<Space>>,
    robot: (int, int),
    d: Direction,
    moving: Seq<(usize, usize, Space)>,
    upto: int,
) -> bool {
    forall|j: int|
        0 <= j < moving.len() ==> {
            let e = #[trigger] moving[j];
            let s = row_index(robot, d, e.0 as int);
            &&& 1 <= s <= upto
            &&& carried(cells, robot, d, s, e.1 as int)
            &&& at(cells, e.0 as int, e.1 as int) == Some(e.2)
        }
}

/// `moving` lists every cell that goes along and stands at most `upto` rows
/// from the robot.
spec fn moving_complete(
    cells: Seq<Seq<Space>>,
    robot: (int, int),
    d: Direction,
    moving: Seq<(usize, usize, Space)>,
    upto: int,
) -> bool {
    forall|s: int, c: int|
        1 <= s <= upto && #[trigger] carried(cells, robot, d, s, c) ==> holds(
            moving,
            along(robot, d, s).0,
            c,
        )
}

/// `moving` lists all that goes along with the robot, and nothing else.
spec fn lists_carried(
    cells: Seq<Seq<Space>>,
    robot: (int, int),
    d: Direction,
    moving: Seq<(usize, usize, Space)>,
) -> bool {
    &&& exists|upto: int| moving_sound(cells, robot, d, moving, upto)
    &&& forall|upto: int| moving_complete(cells, robot, d, moving, upto)
}

/// Nothing that goes along and stands fewer than `upto` rows from the robot
/// is blocked.
spec fn clear_below(cells: Seq<Seq<Space>>, robot: (int, int), d: Direction, upto: int) -> bool {
    forall|s: int, c: int|
        0 <= s < upto && #[trigger] carried(cells, robot, d, s, c) ==> gives_way(
            at(cells, along(robot, d, s + 1).0, c),
        )
}

/// Where no cell of one row goes along, none does further on.
proof fn lemma_nothing_beyond(
    cells: Seq<Seq<Space>>,
    robot: (int, int),
    d: Direction,
    t: int,
    s: int,
    c: int,
)
    requires
        t >= 1,
        forall|x: int| !#[trigger] carried(cells, robot, d, t, x),
        s >= t,
    ensures
        !carried(cells, robot, d, s, c),
    decreases s - t,
{
    if s > t {
        lemma_nothing_beyond(cells, robot, d, t, s - 1, c);
        lemma_nothing_beyond(cells, robot, d, t, s - 1, partner_col(cells, along(robot, d, s).0, c));
    }
}

/// `v` holds `x`.
fn contains_col(v: &Vec<usize>, x: usize) -> (r: bool)
    ensures
        r == v@.contains(x),
{
    let mut i: usize = 0;
    while i < v.len()
        invariant
            i <= v.len(),
            forall|j: int| 0 <= j < i ==> v[j] != x,
        decreases v.len() - i,
    {
        if v[i] == x {
            return true;
        }
        i += 1;
    }
    false
}

/// Notes that the half of a box at row `row` and column `c` goes along,
/// unless it is noted already.
fn take_along(
    next: &mut Vec<usize>,
    moving: &mut Vec<(usize, usize, Space)>,
    row: usize,
    c: usize,
    space: Space,
)
    requires
        forall|x: usize| old(next)@.contains(x) ==> holds(old(moving)@, row as int, x as int),
    ensures
        forall|x: usize| #[trigger] final(next)@.contains(x) <==> old(next)@.contains(x) || x == c,
        forall|x: usize| final(next)@.contains(x) ==> holds(final(moving)@, row as int, x as int),
        final(moving)@ == old(moving)@ || final(moving)@ == old(moving)@.push((row, c, space)),
        forall|r: int, x: int| holds(old(moving)@, r, x) ==> holds(final(moving)@, r, x),
{
    if !contains_col(next, c) {
        proof {
            lemma_push_contains(next@, c);
        }
        next.push(c);
        moving.push((row, c, space));
        proof {
            let m0 = old(moving)@;
            let m1 = moving@;
            assert(m1[m0.len() as int] == (row, c, space));
            assert forall|r: int, x: int| holds(m0, r, x) implies holds(m1, r, x) by {
                let j = choose|j: int|
                    0 <= j < m0.len() && (#[trigger] m0[j]).0 == r && m0[j].1 == x;
                assert(m1[j] == m0[j]);
            }
        }
    }
}

/// `cur` holds the columns of the cells that go along `t` rows from the
/// robot, and `moving` all that goes along up to there, none of it blocked.
#[verifier::opaque]
spec fn collected(
    cells: Seq<Seq<Space>>,
    robot: (int, int),
    d: Direction,
    t: int,
    cur: Seq<usize>,
    moving: Seq<(usize, usize, Space)>,
) -> bool {
    &&& is_layer(cells, robot, d, t, cur)
    &&& moving_sound(cells, robot, d, moving, t)
    &&& moving_complete(cells, robot, d, moving, t)
}

/// `cur` holds the columns of the cells that go along `t` rows from the
/// robot, and nothing that goes along nearer to the robot is blocked.
#[verifier::opaque]
spec fn is_layer(cells: Seq<Seq<Space>>, robot: (int, int), d: Direction, t: int, cur: Seq<usize>) -> bool {
    &&& forall|c: usize| cur.contains(c) <==> #[trigger] carried(cells, robot, d, t, c as int)
    &&& forall|c: int| #[trigger] carried(cells, robot, d, t, c) ==> 0 <= c < cells[0].len()
    &&& clear_below(cells, robot, d, t)
}

/// The state of reading the row `t + 1` rows from the robot, where the
/// cells before the first `i` columns of `cur` have been looked at: `next`
/// holds columns of that row that go along, among them those of the boxes
/// found so far, and `moving` lists them.
#[verifier::opaque]
spec fn reading(
    cells: Seq<Seq<Space>>,
    robot: (int, int),
    d: Direction,
    t: int,
    cur: Seq<usize>,
    i: int,
    next: Seq<usize>,
    moving: Seq<(usize, usize, Space)>,
) -> bool {
    let row = along(robot, d, t + 1).0;
    &&& forall|x: usize| #[trigger]
        next.contains(x) ==> x < cells[0].len() && carried(cells, robot, d, t + 1, x as int)
    &&& forall|j: int|
        0 <= j < i && is_box(at(cells, row, (#[trigger] cur[j]) as int)) ==> next.contains(cur[j])
            && next.contains(partner_col(cells, row, cur[j] as int) as usize)
    &&& forall|j: int| 0 <= j < i ==> gives_way(at(cells, row, (#[trigger] cur[j]) as int))
    &&& forall|x: usize| #[trigger] next.contains(x) ==> holds(moving, row, x as int)
    &&& moving_sound(cells, robot, d, moving, t + 1)
    &&& moving_complete(cells, robot, d, moving, t)
}

/// At the outset the robot's own cell goes along, and nothing else is known.
proof fn lemma_collected_start(cells: Seq<Seq<Space>>, robot: (int, int), d: Direction, cur: Seq<usize>)
    requires
        well_shaped(cells),
        robot_alone(cells, robot),
        cur == seq![robot.1 as usize],
        robot.1 <= usize::MAX,
    ensures
        collected(cells, robot, d, 0, cur, Seq::empty()),
{
    reveal(collected);
    reveal(is_layer);
    assert(cur[0] == robot.1 as usize);
    assert(at(cells, robot.0, robot.1) is Some);
}

/// A column of the current row goes along and lies on the floor.
proof fn lemma_collected_member(
    cells: Seq<Seq<Space>>,
    robot: (int, int),
    d: Direction,
    t: int,
    cur: Seq<usize>,
    moving: Seq<(usize, usize, Space)>,
    j: int,
)
    requires
        collected(cells, robot, d, t, cur, moving),
        0 <= j < cur.len(),
    ensures
        carried(cells, robot, d, t, cur[j] as int),
        cur[j] < cells[0].len(),
{
    reveal(collected);
    reveal(is_layer);
    assert(cur.contains(cur[j]));
    assert(cur.contains(cur[j]) <==> carried(cells, robot, d, t, cur[j] as int));
}

/// Something that goes along and stands before a cell that does not give
/// way blocks the move.
proof fn lemma_blocked_here(cells: Seq<Seq<Space>>, robot: (int, int), d: Direction, t: int, c: int)
    requires
        t >= 0,
        carried(cells, robot, d, t, c),
        !gives_way(at(cells, along(robot, d, t + 1).0, c)),
    ensures
        is_blocked(cells, robot, d),
{
}

/// Reading a row begins with nothing found.
proof fn lemma_reading_start(
    cells: Seq<Seq<Space>>,
    robot: (int, int),
    d: Direction,
    t: int,
    cur: Seq<usize>,
    moving: Seq<(usize, usize, Space)>,
)
    requires
        collected(cells, robot, d, t, cur, moving),
    ensures
        reading(cells, robot, d, t, cur, 0, Seq::empty(), moving),
        is_layer(cells, robot, d, t, cur),
{
    reveal(collected);
    reveal(reading);
}

/// Reading goes on past a cell that is empty.
proof fn lemma_reading_empty(
    cells: Seq<Seq<Space>>,
    robot: (int, int),
    d: Direction,
    t: int,
    cur: Seq<usize>,
    i: int,
    next: Seq<usize>,
    moving: Seq<(usize, usize, Space)>,
)
    requires
        reading(cells, robot, d, t, cur, i, next, moving),
        0 <= i < cur.len(),
        at(cells, along(robot, d, t + 1).0, cur[i] as int) == Some(Space::Empty),
    ensures
        reading(cells, robot, d, t, cur, i + 1, next, moving),
{
    reveal(reading);
}

/// Reading goes on past a cell that holds half a box, once both halves of
/// the box are noted.
proof fn lemma_reading_box(
    cells: Seq<Seq<Space>>,
    robot: (int, int),
    d: Direction,
    t: int,
    cur: Seq<usize>,
    i: int,
    next0: Seq<usize>,
    next1: Seq<usize>,
    next2: Seq<usize>,
    m0: Seq<(usize, usize, Space)>,
    m1: Seq<(usize, usize, Space)>,
    m2: Seq<(usize, usize, Space)>,
    p: usize,
)
    requires
        well_shaped(cells),
        all_paired(cells),
        d == Direction::Up || d == Direction::Down,
        t >= 0,
        0 <= i < cur.len(),
        reading(cells, robot, d, t, cur, i, next0, m0),
        carried(cells, robot, d, t, cur[i] as int),
        is_box(at(cells, along(robot, d, t + 1).0, cur[i] as int)),
        p == partner_col(cells, along(robot, d, t + 1).0, cur[i] as int),
        along(robot, d, t + 1).0 <= usize::MAX,
        forall|x: usize| #[trigger] next1.contains(x) <==> next0.contains(x) || x == cur[i],
        forall|x: usize| #[trigger] next2.contains(x) <==> next1.contains(x) || x == p,
        forall|x: usize| #[trigger]
            next1.contains(x) ==> holds(m1, along(robot, d, t + 1).0, x as int),
        forall|x: usize| #[trigger]
            next2.contains(x) ==> holds(m2, along(robot, d, t + 1).0, x as int),
        m1 == m0 || m1 == m0.push(
            (
                along(robot, d, t + 1).0 as usize,
                cur[i],
                cells[along(robot, d, t + 1).0][cur[i] as int],
            ),
        ),
        m2 == m1 || m2 == m1.push(
            (along(robot, d, t + 1).0 as usize, p, cells[along(robot, d, t + 1).0][p as int]),
        ),
        forall|r: int, x: int| holds(m0, r, x) ==> holds(m1, r, x),
        forall|r: int, x: int| holds(m1, r, x) ==> holds(m2, r, x),
    ensures
        reading(cells, robot, d, t, cur, i + 1, next2, m2),
{
    reveal(reading);
    let row = along(robot, d, t + 1).0;
    let c = cur[i];
    lemma_box_goes_along(cells, robot, d, t, c as int);
    assert(at(cells, row, p as int) is Some);
    lemma_moving_grows(cells, robot, d, m0, m1, (row as usize, c, cells[row][c as int]), t);
    lemma_moving_grows(cells, robot, d, m1, m2, (row as usize, p, cells[row][p as int]), t);
    assert forall|x: usize| #[trigger] next2.contains(x) implies x < cells[0].len() && carried(
        cells,
        robot,
        d,
        t + 1,
        x as int,
    ) by {
        assert(next1.contains(x) || x == p);
        if next1.contains(x) {
            assert(next0.contains(x) || x == c);
        }
        assert(cells[row].len() == cells[0].len());
    }
    assert forall|j: int|
        0 <= j < i + 1 && is_box(at(cells, row, (#[trigger] cur[j]) as int)) implies next2.contains(
        cur[j],
    ) && next2.contains(partner_col(cells, row, cur[j] as int) as usize) by {
        if j < i {
            let q = partner_col(cells, row, cur[j] as int) as usize;
            assert(next0.contains(cur[j]) && next0.contains(q));
            assert(next1.contains(cur[j]) && next1.contains(q));
        } else {
            assert(next1.contains(c));
        }
    }
}

/// When a row is read to its end, what was found goes along further on.
proof fn lemma_reading_done(
    cells: Seq<Seq<Space>>,
    robot: (int, int),
    d: Direction,
    t: int,
    cur: Seq<usize>,
    next: Seq<usize>,
    moving: Seq<(usize, usize, Space)>,
)
    requires
        well_shaped(cells),
        all_paired(cells),
        d == Direction::Up || d == Direction::Down,
        t >= 0,
        0 <= along(robot, d, t + 1).0 < cells.len(),
        cells[0].len() <= usize::MAX,
        is_layer(cells, robot, d, t, cur),
        reading(cells, robot, d, t, cur, cur.len() as int, next, moving),
    ensures
        collected(cells, robot, d, t + 1, next, moving),
{
    reveal(collected);
    reveal(is_layer);
    reveal(reading);
    let row = along(robot, d, t + 1).0;
    assert(cells[row].len() == cells[0].len());
    assert forall|c: int| #[trigger] carried(cells, robot, d, t + 1, c) implies 0 <= c
        < cells[0].len() by {
        assert(is_box(at(cells, row, c)));
    }
    assert forall|x: usize| #[trigger]
        carried(cells, robot, d, t + 1, x as int) implies next.contains(x) by {
        let p = partner_col(cells, row, x as int);
        if carried(cells, robot, d, t, x as int) {
            let j = choose|j: int| 0 <= j < cur.len() && cur[j] == x;
            assert(is_box(at(cells, row, cur[j] as int)));
        } else {
            assert(carried(cells, robot, d, t, p));
            assert(cur.contains(p as usize));
            let j = choose|j: int| 0 <= j < cur.len() && cur[j] == p as usize;
            lemma_carried_pair(cells, robot, d, t + 1, x as int);
            assert(is_box(at(cells, row, cur[j] as int)));
        }
    }
    assert forall|s: int, c: int|
        0 <= s < t + 1 && #[trigger] carried(cells, robot, d, s, c) implies gives_way(
        at(cells, along(robot, d, s + 1).0, c),
    ) by {
        if s == t {
            assert(cur.contains(c as usize));
            let j = choose|j: int| 0 <= j < cur.len() && cur[j] == c as usize;
            assert(gives_way(at(cells, row, cur[j] as int)));
        }
    }
    assert forall|s: int, c: int|
        1 <= s <= t + 1 && #[trigger] carried(cells, robot, d, s, c) implies holds(
        moving,
        along(robot, d, s).0,
        c,
    ) by {
        if s == t + 1 {
            assert(is_box(at(cells, row, c)));
            assert(next.contains(c as usize));
        }
    }
}

/// When a row holds nothing that goes along, all is found and nothing is
/// blocked.
proof fn lemma_collection_done(
    cells: Seq<Seq<Space>>,
    robot: (int, int),
    d: Direction,
    t: int,
    cur: Seq<usize>,
    moving: Seq<(usize, usize, Space)>,
)
    requires
        collected(cells, robot, d, t, cur, moving),
        cur.len() == 0,
        0 <= robot.1 <= usize::MAX,
        t >= 0,
    ensures
        !is_blocked(cells, robot, d),
        lists_carried(cells, robot, d, moving),
{
    reveal(collected);
    reveal(is_layer);
    if t == 0 {
        assert(carried(cells, robot, d, t, (robot.1 as usize) as int));
        assert(cur.contains(robot.1 as usize));
    }
    assert forall|x: int| !#[trigger] carried(cells, robot, d, t, x) by {
        if carried(cells, robot, d, t, x) {
            assert(cur.contains(x as usize));
        }
    }
    assert forall|s: int, c: int|
        0 <= s && #[trigger] carried(cells, robot, d, s, c) implies gives_way(
        at(cells, along(robot, d, s + 1).0, c),
    ) by {
        if s >= t {
            lemma_nothing_beyond(cells, robot, d, t, s, c);
        }
    }
    assert(moving_sound(cells, robot, d, moving, t));
    assert forall|upto: int| moving_complete(cells, robot, d, moving, upto) by {
        assert forall|s: int, c: int|
            1 <= s <= upto && #[trigger] carried(cells, robot, d, s, c) implies holds(
            moving,
            along(robot, d, s).0,
            c,
        ) by {
            if s >= t {
                lemma_nothing_beyond(cells, robot, d, t, s, c);
            }
        }
    }
}

/// A half of a box that stands before a cell that goes along goes along,
/// and its other half with it.
proof fn lemma_box_goes_along(
    cells: Seq<Seq<Space>>,
    robot: (int, int),
    d: Direction,
    t: int,
    c: int,
)
    requires
        well_shaped(cells),
        all_paired(cells),
        t >= 0,
        carried(cells, robot, d, t, c),
        is_box(at(cells, along(robot, d, t + 1).0, c)),
    ensures
        carried(cells, robot, d, t + 1, c),
        carried(cells, robot, d, t + 1, partner_col(cells, along(robot, d, t + 1).0, c)),
        pairs_up(cells, along(robot, d, t + 1).0, c),
{
    assert(carried(cells, robot, d, t + 1, c));
    lemma_carried_pair(cells, robot, d, t + 1, c);
}

/// The list of what goes along stays sound and complete when a cell that
/// goes along is noted.
proof fn lemma_moving_grows(
    cells: Seq<Seq<Space>>,
    robot: (int, int),
    d: Direction,
    before: Seq<(usize, usize, Space)>,
    after: Seq<(usize, usize, Space)>,
    e: (usize, usize, Space),
    t: int,
)
    requires
        d == Direction::Up || d == Direction::Down,
        t >= 0,
        moving_sound(cells, robot, d, before, t + 1),
        moving_complete(cells, robot, d, before, t),
        after == before || after == before.push(e),
        e.0 == along(robot, d, t + 1).0,
        carried(cells, robot, d, t + 1, e.1 as int),
        at(cells, e.0 as int, e.1 as int) == Some(e.2),
        forall|r: int, x: int| holds(before, r, x) ==> holds(after, r, x),
    ensures
        moving_sound(cells, robot, d, after, t + 1),
        moving_complete(cells, robot, d, after, t),
{
    assert forall|j: int| 0 <= j < after.len() implies {
        let e = #[trigger] after[j];
        let s = row_index(robot, d, e.0 as int);
        &&& 1 <= s <= t + 1
        &&& carried(cells, robot, d, s, e.1 as int)
        &&& at(cells, e.0 as int, e.1 as int) == Some(e.2)
    } by {
        if j < before.len() {
            assert(after[j] == before[j]);
        }
    }
}

impl Grid {
    /// Finds, row by row, all that goes along when the robot moves up or
    /// down: the halves of boxes with where they stand. `None` says that
    /// something is blocked. Nothing is moved yet.
    fn collect_carried(&self, direction: Direction) -> (r: Option<Vec<(usize, usize, Space)>>)
        requires
            self.is_wide(),
            direction == Direction::Up || direction == Direction::Down,
        ensures
            match r {
                None => is_blocked(self.cells(), self.place(), direction),
                Some(moving) => !is_blocked(self.cells(), self.place(), direction)
                    && lists_carried(self.cells(), self.place(), direction, moving@),
            },
    {
        let ghost cells = self.cells();
        let ghost from = self.place();
        let (m, n) = self.boundary();
        let (rr, rc) = self.robot;
        assert(cells[rr as int].len() == n);
        let mut cur: Vec<usize> = Vec::new();
        cur.push(rc);
        let mut row = rr;
        let ghost mut t: int = 0;
        let mut moving: Vec<(usize, usize, Space)> = Vec::new();
        proof {
            assert(cur@ =~= seq![rc]);
            lemma_collected_start(cells, from, direction, cur@);
        }
        loop
            invariant
                self.cells() == cells,
                self.place() == from,
                self.is_wide(),
                direction == Direction::Up || direction == Direction::Down,
                m == cells.len(),
                n == cells[0].len(),
                0 <= t < m + n,
                row < m,
                from.0 < m,
                row == along(from, direction, t).0,
                collected(cells, from, direction, t, cur@, moving@),
            ensures
                cur.len() == 0,
                collected(cells, from, direction, t, cur@, moving@),
            decreases m + n - t,
        {
            if cur.len() == 0 {
                break ;
            }
            let first = cur[0];
            proof {
                lemma_collected_member(cells, from, direction, t, cur@, moving@, 0);
            }
            assert(cells[row as int].len() == n);
            let next_row = match self.next_space((row, first), direction) {
                None => {
                    proof {
                        assert(along(from, direction, t + 1).0 == along(
                            (row as int, first as int),
                            direction,
                            1,
                        ).0);
                        lemma_blocked_here(cells, from, direction, t, first as int);
                    }
                    return None;
                },
                Some(q) => q.0,
            };
            assert(next_row == along(from, direction, t + 1).0);
            assert(cells[next_row as int].len() == n);
            let mut next: Vec<usize> = Vec::new();
            let mut i: usize = 0;
            proof {
                lemma_reading_start(cells, from, direction, t, cur@, moving@);
                assert forall|j: int| 0 <= j < cur@.len() implies carried(
                    cells,
                    from,
                    direction,
                    t,
                    (#[trigger] cur@[j]) as int,
                ) && cur@[j] < n by {
                    lemma_collected_member(cells, from, direction, t, cur@, moving@, j);
                }
            }
            while i < cur.len()
                invariant
                    self.cells() == cells,
                    self.place() == from,
                    self.is_wide(),
                    direction == Direction::Up || direction == Direction::Down,
                    m == cells.len(),
                    n == cells[0].len(),
                    0 <= t,
                    i <= cur.len(),
                    next_row < m,
                    cells[next_row as int].len() == n,
                    next_row == along(from, direction, t + 1).0,
                    forall|j: int|
                        0 <= j < cur@.len() ==> carried(
                            cells,
                            from,
                            direction,
                            t,
                            (#[trigger] cur@[j]) as int,
                        ) && cur@[j] < n,
                    is_layer(cells, from, direction, t, cur@),
                    reading(cells, from, direction, t, cur@, i as int, next@, moving@),
                    forall|x: usize| #[trigger]
                        next@.contains(x) ==> holds(moving@, next_row as int, x as int),
                decreases cur.len() - i,
            {
                let c = cur[i];
                let cell = self.get(next_row, c);
                let ghost next0 = next@;
                let ghost m0 = moving@;
                match cell {
                    Space::Empty => {
                        proof {
                            lemma_reading_empty(
                                cells,
                                from,
                                direction,
                                t,
                                cur@,
                                i as int,
                                next@,
                                moving@,
                            );
                        }
                    },
                    Space::BoxLeft => {
                        proof {
                            lemma_box_goes_along(cells, from, direction, t, c as int);
                        }
                        take_along(&mut next, &mut moving, next_row, c, Space::BoxLeft);
                        let ghost next1 = next@;
                        let ghost m1 = moving@;
                        take_along(&mut next, &mut moving, next_row, c + 1, Space::BoxRight);
                        proof {
                            lemma_reading_box(
                                cells,
                                from,
                                direction,
                                t,
                                cur@,
                                i as int,
                                next0,
                                next1,
                                next@,
                                m0,
                                m1,
                                moving@,
                                (c + 1) as usize,
                            );
                        }
                    },
                    Space::BoxRight => {
                        proof {
                            lemma_box_goes_along(cells, from, direction, t, c as int);
                        }
                        take_along(&mut next, &mut moving, next_row, c, Space::BoxRight);
                        let ghost next1 = next@;
                        let ghost m1 = moving@;
                        take_along(&mut next, &mut moving, next_row, c - 1, Space::BoxLeft);
                        proof {
                            lemma_reading_box(
                                cells,
                                from,
                                direction,
                                t,
                                cur@,
                                i as int,
                                next0,
                                next1,
                                next@,
                                m0,
                                m1,
                                moving@,
                                (c - 1) as usize,
                            );
                        }
                    },
                    _ => {
                        proof {
                            lemma_blocked_here(cells, from, direction, t, c as int);
                        }
                        return None;
                    },
                }
                i += 1;
            }
            proof {
                lemma_reading_done(cells, from, direction, t, cur@, next@, moving@);
                t = t + 1;
            }
            cur = next;
            row = next_row;
        }
        proof {
            lemma_collection_done(cells, from, direction, t, cur@, moving@);
        }
        Some(moving)
    }
}

/// A list holds after one entry more what it held before, and that entry.
proof fn lemma_holds_step(moving: Seq<(usize, usize, Space)>, i: int, r: int, c: int)
    requires
        0 <= i < moving.len(),
    ensures
        holds(moving.take(i + 1), r, c) <==> holds(moving.take(i), r, c) || (moving[i].0 == r
            && moving[i].1 == c),
{
    let a = moving.take(i);
    let b = moving.take(i + 1);
    if holds(b, r, c) {
        let j = choose|j: int| 0 <= j < b.len() && (#[trigger] b[j]).0 == r && b[j].1 == c;
        if j < i {
            assert(a[j] == b[j]);
        }
    }
    if holds(a, r, c) {
        let j = choose|j: int| 0 <= j < a.len() && (#[trigger] a[j]).0 == r && a[j].1 == c;
        assert(b[j] == a[j]);
    }
    if moving[i].0 == r && moving[i].1 == c {
        assert(b[i] == moving[i]);
    }
}

/// The row from which something moves into row `r`.
pub open spec fn behind(d: Direction, r: int) -> int {
    if d == Direction::Up {
        r + 1
    } else {
        r - 1
    }
}

/// What stands at row `r` and column `c` once the first `i` cells of
/// `moving` have been emptied.
spec fn cleared_cell(
    cells: Seq<Seq<Space>>,
    moving: Seq<(usize, usize, Space)>,
    i: int,
    r: int,
    c: int,
) -> Space {
    if holds(moving.take(i), r, c) {
        Space::Empty
    } else {
        cells[r][c]
    }
}

/// What stands at row `r` and column `c` once all cells of `moving` have
/// been emptied and the first `i` of them set down one row on.
spec fn dropped_cell(
    cells: Seq<Seq<Space>>,
    d: Direction,
    moving: Seq<(usize, usize, Space)>,
    i: int,
    r: int,
    c: int,
) -> Space {
    if holds(moving.take(i), behind(d, r), c) {
        cells[behind(d, r)][c]
    } else if holds(moving, r, c) {
        Space::Empty
    } else {
        cells[r][c]
    }
}

/// `now` has the shape of `cells`, and holds in every cell what `f` says.
spec fn shows(cells: Seq<Seq<Space>>, now: Seq<Seq<Space>>, f: spec_fn(int, int) -> Space) -> bool {
    &&& now.len() == cells.len()
    &&& forall|r: int| 0 <= r < cells.len() ==> (#[trigger] now[r]).len() == cells[r].len()
    &&& forall|r: int, c: int|
        0 <= r < cells.len() && 0 <= c < cells[r].len() ==> #[trigger] now[r][c] == f(r, c)
}

/// Putting into one cell what `g` says, where `g` agrees with `f` on all
/// other cells, turns a floor that shows `f` into one that shows `g`.
proof fn lemma_shows_put(
    cells: Seq<Seq<Space>>,
    now: Seq<Seq<Space>>,
    f: spec_fn(int, int) -> Space,
    g: spec_fn(int, int) -> Space,
    r: int,
    c: int,
)
    requires
        shows(cells, now, f),
        0 <= r < cells.len(),
        0 <= c < cells[r].len(),
        forall|x: int, y: int|
            0 <= x < cells.len() && 0 <= y < cells[x].len() && (x != r || y != c) ==> #[trigger] g(
                x,
                y,
            ) == f(x, y),
    ensures
        shows(cells, put(now, r, c, g(r, c)), g),
{
    let after = put(now, r, c, g(r, c));
    assert forall|x: int, y: int|
        0 <= x < cells.len() && 0 <= y < cells[x].len() implies #[trigger] after[x][y] == g(
        x,
        y,
    ) by {
        if x != r || y != c {
            assert(now[x][y] == f(x, y));
        }
    }
}

/// Once everything that goes along has been set down one row on, and the
/// robot after it, every cell holds what the push leaves there.
proof fn lemma_committed(
    cells: Seq<Seq<Space>>,
    robot: (int, int),
    d: Direction,
    moving: Seq<(usize, usize, Space)>,
    r: int,
    c: int,
)
    requires
        well_shaped(cells),
        robot_alone(cells, robot),
        all_paired(cells),
        d == Direction::Up || d == Direction::Down,
        !is_blocked(cells, robot, d),
        lists_carried(cells, robot, d, moving),
        at(cells, r, c) is Some,
    ensures
        lifted_cell(cells, robot, d, r, c) == (if (r, c) == along(robot, d, 1) {
            Space::Robot
        } else if (r, c) == robot {
            Space::Empty
        } else {
            dropped_cell(cells, d, moving, moving.len() as int, r, c)
        }),
{
    let t = row_index(robot, d, r);
    let upto = choose|upto: int| moving_sound(cells, robot, d, moving, upto);
    assert(moving.take(moving.len() as int) =~= moving);
    assert(moving_complete(cells, robot, d, moving, t));
    assert(moving_complete(cells, robot, d, moving, t - 1));
    assert(carried(cells, robot, d, 0, robot.1));
    assert(at(cells, robot.0, robot.1) == Some(Space::Robot));
    assert(along(robot, d, t).0 == r);
    assert(along(robot, d, t - 1).0 == behind(d, r));
    if holds(moving, behind(d, r), c) {
        let j = choose|j: int|
            0 <= j < moving.len() && (#[trigger] moving[j]).0 == behind(d, r) && moving[j].1 == c;
        assert(carried(cells, robot, d, t - 1, c) && t - 1 >= 1);
    }
    if holds(moving, r, c) {
        let j = choose|j: int| 0 <= j < moving.len() && (#[trigger] moving[j]).0 == r && moving[j].1
            == c;
        assert(carried(cells, robot, d, t, c) && t >= 1);
    }
    if t >= 2 && carried(cells, robot, d, t - 1, c) {
        assert(holds(moving, along(robot, d, t - 1).0, c));
    }
    if t >= 1 && carried(cells, robot, d, t, c) {
        assert(holds(moving, along(robot, d, t).0, c));
    }
}

impl Grid {
    /// Empties the cells that `moving` lists.
    fn clear_carried(&mut self, moving: &Vec<(usize, usize, Space)>)
        requires
            forall|j: int|
                0 <= j < moving.len() ==> at(
                    old(self).cells(),
                    (#[trigger] moving[j]).0 as int,
                    moving[j].1 as int,
                ) is Some,
        ensures
            final(self).robot == old(self).robot,
            shows(
                old(self).cells(),
                final(self).cells(),
                |r: int, c: int| cleared_cell(old(self).cells(), moving@, moving.len() as int, r, c),
            ),
    {
        let ghost cells = self.cells();
        let mut i: usize = 0;
        while i < moving.len()
            invariant
                i <= moving.len(),
                self.robot == old(self).robot,
                forall|j: int|
                    0 <= j < moving.len() ==> at(
                        cells,
                        (#[trigger] moving[j]).0 as int,
                        moving[j].1 as int,
                    ) is Some,
                shows(
                    cells,
                    self.cells(),
                    |r: int, c: int| cleared_cell(cells, moving@, i as int, r, c),
                ),
            decreases moving.len() - i,
        {
            let (r, c, _) = moving[i];
            proof {
                let f = |x: int, y: int| cleared_cell(cells, moving@, i as int, x, y);
                let g = |x: int, y: int| cleared_cell(cells, moving@, i + 1, x, y);
                assert forall|x: int, y: int|
                    0 <= x < cells.len() && 0 <= y < cells[x].len() && (x != r || y
                        != c) implies #[trigger] g(x, y) == f(x, y) by {
                    lemma_holds_step(moving@, i as int, x, y);
                }
                lemma_holds_step(moving@, i as int, r as int, c as int);
                lemma_shows_put(cells, self.cells(), f, g, r as int, c as int);
                assert(self.cells()[r as int].len() == cells[r as int].len());
            }
            self.set(r, c, Space::Empty);
            i += 1;
        }
    }

    /// Sets down, one row on in the direction `direction`, what stood in
    /// the cells that `moving` lists.
    fn drop_carried(
        &mut self,
        direction: Direction,
        moving: &Vec<(usize, usize, Space)>,
        Ghost(cells): Ghost<Seq<Seq<Space>>>,
    )
        requires
            direction == Direction::Up || direction == Direction::Down,
            forall|j: int|
                0 <= j < moving.len() ==> at(
                    cells,
                    (#[trigger] moving[j]).0 as int,
                    moving[j].1 as int,
                ) == Some(moving[j].2) && at(
                    cells,
                    along((moving[j].0 as int, moving[j].1 as int), direction, 1).0,
                    moving[j].1 as int,
                ) is Some,
            shows(
                cells,
                old(self).cells(),
                |r: int, c: int| dropped_cell(cells, direction, moving@, 0, r, c),
            ),
        ensures
            final(self).robot == old(self).robot,
            shows(
                cells,
                final(self).cells(),
                |r: int, c: int| dropped_cell(cells, direction, moving@, moving.len() as int, r, c),
            ),
    {
        let mut i: usize = 0;
        while i < moving.len()
            invariant
                i <= moving.len(),
                self.robot == old(self).robot,
                direction == Direction::Up || direction == Direction::Down,
                forall|j: int|
                    0 <= j < moving.len() ==> at(
                        cells,
                        (#[trigger] moving[j]).0 as int,
                        moving[j].1 as int,
                    ) == Some(moving[j].2) && at(
                        cells,
                        along((moving[j].0 as int, moving[j].1 as int), direction, 1).0,
                        moving[j].1 as int,
                    ) is Some,
                shows(
                    cells,
                    self.cells(),
                    |r: int, c: int| dropped_cell(cells, direction, moving@, i as int, r, c),
                ),
            decreases moving.len() - i,
        {
            let (r, c, space) = moving[i];
            let to = match direction {
                Direction::Up => r - 1,
                _ => r + 1,
            };
            proof {
                let f = |x: int, y: int| dropped_cell(cells, direction, moving@, i as int, x, y);
                let g = |x: int, y: int| dropped_cell(cells, direction, moving@, i + 1, x, y);
                assert forall|x: int, y: int|
                    0 <= x < cells.len() && 0 <= y < cells[x].len() && (x != to || y
                        != c) implies #[trigger] g(x, y) == f(x, y) by {
                    lemma_holds_step(moving@, i as int, behind(direction, x), y);
                }
                lemma_holds_step(moving@, i as int, behind(direction, to as int), c as int);
                lemma_shows_put(cells, self.cells(), f, g, to as int, c as int);
                assert(self.cells()[to as int].len() == cells[to as int].len());
            }
            self.set(to, c, space);
            i += 1;
        }
    }

    /// Moves the robot one row up or down in a warehouse of wide boxes, and
    /// with it all boxes that stand in its way, or in theirs: all of them if
    /// none of them is blocked, and else nothing.
    pub fn move_boxes_vertical(&mut self, direction: Direction)
        requires
            old(self).is_wide(),
            direction == Direction::Up || direction == Direction::Down,
        ensures
            final(self).is_wide(),
            (final(self).cells(), final(self).place()) == column_step(
                old(self).cells(),
                old(self).place(),
                direction,
            ),
    {
        let ghost cells = self.cells();
        let ghost from = self.place();
        let moving = match self.collect_carried(direction) {
            None => {
                return ;
            },
            Some(moving) => moving,
        };
        let (rr, rc) = self.robot;
        proof {
            let upto = choose|upto: int| moving_sound(cells, from, direction, moving@, upto);
            assert forall|j: int| 0 <= j < moving.len() implies at(
                cells,
                (#[trigger] moving[j]).0 as int,
                moving[j].1 as int,
            ) == Some(moving[j].2) && at(
                cells,
                along((moving[j].0 as int, moving[j].1 as int), direction, 1).0,
                moving[j].1 as int,
            ) is Some by {
                let e = moving[j];
                let s = row_index(from, direction, e.0 as int);
                assert(carried(cells, from, direction, s, e.1 as int));
                assert(gives_way(at(cells, along(from, direction, s + 1).0, e.1 as int)));
            }
            assert(carried(cells, from, direction, 0, from.1));
            assert(gives_way(at(cells, along(from, direction, 0int + 1).0, from.1)));
        }
        self.clear_carried(&moving);
        proof {
            let now = self.cells();
            assert(moving@.take(0) =~= Seq::<(usize, usize, Space)>::empty());
            assert(moving@.take(moving.len() as int) =~= moving@);
            assert(shows(
                cells,
                now,
                |r: int, c: int| dropped_cell(cells, direction, moving@, 0, r, c),
            ));
        }
        self.drop_carried(direction, &moving, Ghost(cells));
        let to = match direction {
            Direction::Up => rr - 1,
            _ => rr + 1,
        };
        proof {
            assert(self.cells()[rr as int].len() == cells[rr as int].len());
            assert(self.cells()[to as int].len() == cells[to as int].len());
            assert(cells[to as int].len() == cells[rr as int].len());
        }
        let ghost dropped = self.cells();
        self.set(rr, rc, Space::Empty);
        self.set(to, rc, Space::Robot);
        self.robot = (to, rc);
        proof {
            let now = self.cells();
            assert forall|r: int| 0 <= r < cells.len() implies (#[trigger] now[r]).len()
                == cells[r].len() by {
                assert(dropped[r].len() == cells[r].len());
            }
            assert forall|r: int, c: int|
                0 <= r < cells.len() && 0 <= c < cells[r].len() implies #[trigger] now[r][c]
                == lifted_cell(cells, from, direction, r, c) by {
                lemma_committed(cells, from, direction, moving@, r, c);
                assert(dropped[r].len() == cells[r].len());
                assert(dropped[r][c] == dropped_cell(
                    cells,
                    direction,
                    moving@,
                    moving.len() as int,
                    r,
                    c,
                ));
            }
            lemma_is_column_push(cells, now, from, direction);
            lemma_column_push_keeps(cells, from, direction);
        }
    }

    /// Moves the robot one row up, with the boxes in its way.
    pub fn move_boxes_up(&mut self)
        requires
            old(self).is_wide(),
        ensures
            final(self).is_wide(),
            (final(self).cells(), final(self).place()) == column_step(
                old(self).cells(),
                old(self).place(),
                Direction::Up,
            ),
    {
        self.move_boxes_vertical(Direction::Up)
    }

    /// Moves the robot one row down, with the boxes in its way.
    pub fn move_boxes_down(&mut self)
        requires
            old(self).is_wide(),
        ensures
            final(self).is_wide(),
            (final(self).cells(), final(self).place()) == column_step(
                old(self).cells(),
                old(self).place(),
                Direction::Down,
            ),
    {
        self.move_boxes_vertical(Direction::Down)
    }

    /// Moves the robot one cell in a warehouse of wide boxes. To the left
    /// and right it pushes the row of boxes before it, if there is room
    /// behind the row. Up and down it pushes all boxes that stand in its way
    /// or in the way of a box that is pushed, all of them or none.
    pub fn move_robot_2(&mut self, direction: Direction)
        requires
            old(self).is_wide(),
        ensures
            final(self).is_wide(),
            (final(self).cells(), final(self).place()) == wide_step(
                old(self).cells(),
                old(self).place(),
                direction,
            ),
    {
        match direction {
            Direction::Left => self.move_boxes_left(),
            Direction::Right => self.move_boxes_right(),
            Direction::Up => self.move_boxes_up(),
            Direction::Down => self.move_boxes_down(),
        }
    }
}

} // verus!
