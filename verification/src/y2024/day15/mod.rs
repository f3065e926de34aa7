//! The warehouse: a robot that pushes boxes around a walled room.

use crate::table::rows;
use crate::text::{chars_of_lines, parse_error};
use crate::{lines_view, wrapped, AdventError, AdventProblem};
use vstd::arithmetic::div_mod::lemma_add_mod_noop;
use vstd::prelude::*;

pub mod grid;
pub mod wide;

use grid::{
    all_narrow, all_paired, at, narrow_step, pairs_up, robot_alone, well_shaped, Direction, Grid,
    Space,
};
use wide::wide_step;

verus! {

pub struct Day15;

/// The floor plan takes the first `k` lines: they hold something, and the
/// line after them, if there is one, holds nothing.
pub open spec fn is_plan_len(lines: Seq<Seq<char>>, k: int) -> bool {
    &&& 0 <= k <= lines.len()
    &&& forall|i: int| 0 <= i < k ==> (#[trigger] lines[i]).len() > 0
    &&& k < lines.len() ==> lines[k].len() == 0
}

/// Every character of the first `k` lines stands for something.
pub open spec fn all_known(lines: Seq<Seq<char>>, k: int) -> bool {
    forall|r: int, c: int|
        0 <= r < k && 0 <= c < lines[r].len() ==> Space::of_char(#[trigger] lines[r][c]) is Some
}

/// The floor of narrow boxes that the first `k` lines show.
pub open spec fn narrow_cells(lines: Seq<Seq<char>>, k: int) -> Seq<Seq<Space>> {
    Seq::new(
        k as nat,
        |r: int| Seq::new(lines[r].len(), |c: int| Space::of_char(lines[r][c])->0),
    )
}

/// One half of what `s` becomes when the floor is drawn twice as wide.
pub open spec fn widened(s: Space, left: bool) -> Space {
    match s {
        Space::BoxLeft => if left {
            Space::BoxLeft
        } else {
            Space::BoxRight
        },
        Space::Robot => if left {
            Space::Robot
        } else {
            Space::Empty
        },
        other => other,
    }
}

/// The floor of wide boxes that the first `k` lines show: every cell twice.
pub open spec fn wide_cells(lines: Seq<Seq<char>>, k: int) -> Seq<Seq<Space>> {
    Seq::new(
        k as nat,
        |r: int|
            Seq::new(
                2 * lines[r].len(),
                |c: int| widened(Space::of_char(lines[r][c / 2])->0, c % 2 == 0),
            ),
    )
}

/// A rectangular floor with exactly one robot on it.
pub open spec fn is_floor(cells: Seq<Seq<Space>>) -> bool {
    well_shaped(cells) && exists|robot: (int, int)| robot_alone(cells, robot)
}

/// The floor plan has one length.
pub proof fn lemma_plan_len_unique(lines: Seq<Seq<char>>, a: int, b: int)
    requires
        is_plan_len(lines, a),
        is_plan_len(lines, b),
    ensures
        a == b,
{
    if a < b {
        assert(lines[a].len() > 0);
    } else if b < a {
        assert(lines[b].len() > 0);
    }
}

/// The number of lines that the floor plan takes.
pub fn plan_rows(lines: &Vec<Vec<char>>) -> (k: usize)
    ensures
        is_plan_len(rows(*lines), k as int),
{
    let mut i: usize = 0;
    while i < lines.len() && lines[i].len() > 0
        invariant
            i <= lines.len(),
            forall|j: int| 0 <= j < i ==> (#[trigger] rows(*lines)[j]).len() > 0,
        decreases lines.len() - i,
    {
        i += 1;
    }
    assert(i < lines.len() ==> rows(*lines)[i as int].len() == 0);
    i
}

/// Reads a warehouse of narrow boxes from the lines before the first empty
/// one, and says how many lines those are. A plan with a character that
/// stands for nothing, or that is no rectangle with one robot, is refused.
pub fn parse_grid(lines: &Vec<Vec<char>>) -> (r: Result<(Grid, usize), AdventError>)
    ensures
        match r {
            Ok((grid, k)) => {
                &&& is_plan_len(rows(*lines), k as int)
                &&& all_known(rows(*lines), k as int)
                &&& grid.cells() == narrow_cells(rows(*lines), k as int)
                &&& grid.is_narrow()
            },
            Err(e) => e is InputParseError && forall|k: int|
                is_plan_len(rows(*lines), k) ==> !(all_known(rows(*lines), k) && is_floor(
                    narrow_cells(rows(*lines), k),
                )),
        },
{
    let ghost text = rows(*lines);
    let k = plan_rows(lines);
    let ghost model = narrow_cells(text, k as int);
    let mut spaces: Vec<Vec<Space>> = Vec::new();
    let mut i: usize = 0;
    while i < k
        invariant
            i <= k <= lines.len(),
            text == rows(*lines),
            model == narrow_cells(text, k as int),
            is_plan_len(text, k as int),
            spaces.len() == i,
            forall|r: int| 0 <= r < i ==> (#[trigger] spaces[r])@ == model[r],
            all_known(text, i as int),
        decreases k - i,
    {
        let line = &lines[i];
        let mut row: Vec<Space> = Vec::new();
        let mut j: usize = 0;
        while j < line.len()
            invariant
                i < k <= lines.len(),
                j <= line.len(),
                line == lines[i as int],
                text == rows(*lines),
                model == narrow_cells(text, k as int),
                is_plan_len(text, k as int),
                row.len() == j,
                forall|c: int| 0 <= c < j ==> (#[trigger] row[c]) == model[i as int][c],
                forall|c: int| 0 <= c < j ==> Space::of_char(#[trigger] text[i as int][c]) is Some,
            decreases line.len() - j,
        {
            match Space::from_char(line[j]) {
                None => {
                    proof {
                        assert forall|n: int| is_plan_len(text, n) implies !all_known(text, n) by {
                            lemma_plan_len_unique(text, n, k as int);
                            assert(Space::of_char(text[i as int][j as int]) is None);
                        }
                    }
                    return Err(parse_error("the floor plan holds a character that stands for nothing"));
                },
                Some(space) => {
                    row.push(space);
                },
            }
            j += 1;
        }
        assert(row@ =~= model[i as int]);
        spaces.push(row);
        i += 1;
    }
    assert(rows(spaces) =~= model);
    match Grid::new(spaces) {
        Err(_) => {
            proof {
                assert forall|n: int| is_plan_len(text, n) implies !is_floor(
                    narrow_cells(text, n),
                ) by {
                    lemma_plan_len_unique(text, n, k as int);
                }
            }
            Err(parse_error("the floor is no rectangle with one robot on it"))
        },
        Ok(grid) => {
            proof {
                assert forall|r: int, c: int| #[trigger]
                    at(model, r, c) != Some(Space::BoxRight) by {
                    if at(model, r, c) is Some {
                        assert(Space::of_char(text[r][c]) is Some);
                    }
                }
            }
            Ok((grid, k))
        },
    }
}

/// Reads a warehouse of wide boxes from the lines before the first empty
/// one, drawing every cell of the plan twice, and says how many lines those
/// are. A plan with a character that stands for nothing, or that is no
/// rectangle with one robot, is refused.
pub fn parse_wide_grid(lines: &Vec<Vec<char>>) -> (r: Result<(Grid, usize), AdventError>)
    ensures
        match r {
            Ok((grid, k)) => {
                &&& is_plan_len(rows(*lines), k as int)
                &&& all_known(rows(*lines), k as int)
                &&& grid.cells() == wide_cells(rows(*lines), k as int)
                &&& grid.is_wide()
            },
            Err(e) => e is InputParseError && forall|k: int|
                is_plan_len(rows(*lines), k) ==> !(all_known(rows(*lines), k) && is_floor(
                    wide_cells(rows(*lines), k),
                )),
        },
{
    let ghost text = rows(*lines);
    let k = plan_rows(lines);
    let ghost model = wide_cells(text, k as int);
    let mut spaces: Vec<Vec<Space>> = Vec::new();
    let mut i: usize = 0;
    while i < k
        invariant
            i <= k <= lines.len(),
            text == rows(*lines),
            model == wide_cells(text, k as int),
            is_plan_len(text, k as int),
            spaces.len() == i,
            forall|r: int| 0 <= r < i ==> (#[trigger] spaces[r])@ == model[r],
            all_known(text, i as int),
        decreases k - i,
    {
        let line = &lines[i];
        let mut row: Vec<Space> = Vec::new();
        let mut j: usize = 0;
        while j < line.len()
            invariant
                i < k <= lines.len(),
                j <= line.len(),
                line == lines[i as int],
                text == rows(*lines),
                model == wide_cells(text, k as int),
                is_plan_len(text, k as int),
                row.len() == 2 * j,
                forall|c: int| 0 <= c < 2 * j ==> (#[trigger] row[c]) == model[i as int][c],
                forall|c: int| 0 <= c < j ==> Space::of_char(#[trigger] text[i as int][c]) is Some,
            decreases line.len() - j,
        {
            match Space::from_char(line[j]) {
                None => {
                    proof {
                        assert forall|n: int| is_plan_len(text, n) implies !all_known(text, n) by {
                            lemma_plan_len_unique(text, n, k as int);
                            assert(Space::of_char(text[i as int][j as int]) is None);
                        }
                    }
                    return Err(parse_error("the floor plan holds a character that stands for nothing"));
                },
                Some(space) => {
                    let (left, right) = match space {
                        Space::BoxLeft => (Space::BoxLeft, Space::BoxRight),
                        Space::Robot => (Space::Robot, Space::Empty),
                        other => (other, other),
                    };
                    assert(left == widened(space, true) && right == widened(space, false));
                    row.push(left);
                    row.push(right);
                },
            }
            j += 1;
        }
        assert(row@ =~= model[i as int]);
        spaces.push(row);
        i += 1;
    }
    assert(rows(spaces) =~= model);
    match Grid::new(spaces) {
        Err(_) => {
            proof {
                assert forall|n: int| is_plan_len(text, n) implies !is_floor(wide_cells(text, n)) by {
                    lemma_plan_len_unique(text, n, k as int);
                }
            }
            Err(parse_error("the floor is no rectangle with one robot on it"))
        },
        Ok(grid) => {
            proof {
                assert forall|r: int, c: int| #[trigger] pairs_up(model, r, c) by {
                    if at(model, r, c) is Some {
                        assert(Space::of_char(text[r][c / 2]) is Some);
                        if c % 2 == 0 {
                            assert((c + 1) / 2 == c / 2);
                        } else {
                            assert((c - 1) / 2 == c / 2);
                        }
                    }
                }
            }
            Ok((grid, k))
        },
    }
}

/// What the characters of the lines from `start` up to `upto` say of the
/// way to go, one after another; `None` for a character that says nothing.
pub open spec fn moves_upto(lines: Seq<Seq<char>>, start: int, upto: int) -> Seq<Option<Direction>>
    decreases upto - start,
{
    if upto <= start {
        Seq::empty()
    } else {
        moves_upto(lines, start, upto - 1) + lines[upto - 1].map_values(
            |c: char| Direction::of_char(c),
        )
    }
}

/// Reads the moves from the lines that begin with line `start`. A
/// character that stands for no move is refused.
pub fn parse_directions(lines: &Vec<Vec<char>>, start: usize) -> (r: Result<
    Vec<Direction>,
    AdventError,
>)
    ensures
        match r {
            Ok(moves) => moves@.map_values(|d: Direction| Some(d)) == moves_upto(
                rows(*lines),
                start as int,
                lines.len() as int,
            ),
            Err(e) => e is InputParseError && exists|i: int|
                0 <= i < moves_upto(rows(*lines), start as int, lines.len() as int).len()
                    && moves_upto(rows(*lines), start as int, lines.len() as int)[i] is None,
        },
{
    let ghost text = rows(*lines);
    let mut directions: Vec<Direction> = Vec::new();
    let mut i = start;
    while i < lines.len()
        invariant
            text == rows(*lines),
            start <= i <= lines.len() || (lines.len() < start && i == start),
            directions@.map_values(|d: Direction| Some(d)) == moves_upto(
                text,
                start as int,
                i as int,
            ),
        decreases lines.len() - i,
    {
        let line = &lines[i];
        let ghost before = directions@;
        let ghost said = line@.map_values(|c: char| Direction::of_char(c));
        let mut j: usize = 0;
        while j < line.len()
            invariant
                j <= line.len(),
                start <= i < lines.len(),
                text == rows(*lines),
                line == lines[i as int],
                said == line@.map_values(|c: char| Direction::of_char(c)),
                before.map_values(|d: Direction| Some(d)) == moves_upto(
                    text,
                    start as int,
                    i as int,
                ),
                directions@.map_values(|d: Direction| Some(d)) == before.map_values(
                    |d: Direction| Some(d),
                ) + said.take(j as int),
            decreases line.len() - j,
        {
            match Direction::from_char(line[j]) {
                None => {
                    proof {
                        let all = moves_upto(text, start as int, lines.len() as int);
                        lemma_moves_grow(text, start as int, i as int + 1, lines.len() as int);
                        let at = moves_upto(text, start as int, i as int).len() + j;
                        assert(moves_upto(text, start as int, i as int + 1)[at] == said[j as int]);
                        assert(all[at] is None);
                    }
                    return Err(parse_error("the moves hold a character that stands for none"));
                },
                Some(d) => {
                    let ghost prev = directions@;
                    directions.push(d);
                    proof {
                        let f = |d: Direction| Some(d);
                        assert(said[j as int] == Some(d));
                        assert(said.take(j + 1) =~= said.take(j as int).push(said[j as int]));
                        assert(directions@.map_values(f) =~= prev.map_values(f).push(Some(d)));
                        assert(directions@.map_values(f) =~= before.map_values(f) + said.take(
                            j + 1,
                        ));
                    }
                },
            }
            j += 1;
        }
        assert(said.take(line.len() as int) =~= said);
        i += 1;
    }
    proof {
        if lines.len() < start {
            assert(moves_upto(text, start as int, lines.len() as int) =~= Seq::empty());
            assert(moves_upto(text, start as int, start as int) =~= Seq::empty());
        }
    }
    Ok(directions)
}

/// What the lines up to `mid` say is the beginning of what the lines up to
/// `upto` say.
proof fn lemma_moves_grow(lines: Seq<Seq<char>>, start: int, mid: int, upto: int)
    requires
        start <= mid <= upto,
    ensures
        moves_upto(lines, start, mid).len() <= moves_upto(lines, start, upto).len(),
        forall|i: int|
            0 <= i < moves_upto(lines, start, mid).len() ==> #[trigger] moves_upto(
                lines,
                start,
                upto,
            )[i] == moves_upto(lines, start, mid)[i],
    decreases upto - mid,
{
    if mid < upto {
        lemma_moves_grow(lines, start, mid, upto - 1);
    }
}

/// The floor and the robot's place after the moves `moves`, one after
/// another, among wide boxes if `wide` says so and else among narrow ones.
pub open spec fn after_moves(
    cells: Seq<Seq<Space>>,
    robot: (int, int),
    moves: Seq<Direction>,
    wide: bool,
) -> (Seq<Seq<Space>>, (int, int))
    decreases moves.len(),
{
    if moves.len() == 0 {
        (cells, robot)
    } else {
        let before = after_moves(cells, robot, moves.drop_last(), wide);
        if wide {
            wide_step(before.0, before.1, moves.last())
        } else {
            narrow_step(before.0, before.1, moves.last())
        }
    }
}

/// What the box that begins at row `r` and column `c` counts: a hundred
/// times its row and its column; nothing where no box begins.
pub open spec fn gps_of(cells: Seq<Seq<Space>>, r: int, c: int) -> nat {
    if cells[r][c] == Space::BoxLeft {
        (100 * r + c) as nat
    } else {
        0
    }
}

/// What the boxes that begin in the first `upto` cells of row `r` count.
pub open spec fn row_gps(cells: Seq<Seq<Space>>, r: int, upto: int) -> nat
    decreases upto,
{
    if upto <= 0 {
        0
    } else {
        row_gps(cells, r, upto - 1) + gps_of(cells, r, upto - 1)
    }
}

/// What the boxes in the first `upto` rows count.
pub open spec fn gps_sum(cells: Seq<Seq<Space>>, upto: int) -> nat
    decreases upto,
{
    if upto <= 0 {
        0
    } else {
        gps_sum(cells, upto - 1) + row_gps(cells, upto - 1, cells[upto - 1].len() as int)
    }
}

/// What all boxes of the warehouse count, reduced modulo 2^32.
pub fn gps_total(grid: &Grid) -> (r: u32)
    ensures
        r == wrapped(gps_sum(grid.cells(), grid.cells().len() as int)),
{
    let ghost cells = grid.cells();
    let mut total: u64 = 0;
    let mut i: usize = 0;
    while i < grid.spaces.len()
        invariant
            i <= grid.spaces.len(),
            cells == grid.cells(),
            total < 0x1_0000_0000,
            total == gps_sum(cells, i as int) % 0x1_0000_0000,
        decreases grid.spaces.len() - i,
    {
        let mut j: usize = 0;
        let row = &grid.spaces[i];
        assert(row@ == cells[i as int]);
        while j < row.len()
            invariant
                i < grid.spaces.len(),
                j <= row.len(),
                row@ == cells[i as int],
                total < 0x1_0000_0000,
                total == (gps_sum(cells, i as int) + row_gps(cells, i as int, j as int))
                    % 0x1_0000_0000,
            decreases row.len() - j,
        {
            if row[j] == Space::BoxLeft {
                let worth: u128 = 100 * (i as u128) + (j as u128);
                let low: u64 = (worth % 0x1_0000_0000) as u64;
                proof {
                    let so_far = (gps_sum(cells, i as int) + row_gps(cells, i as int, j as int)) as int;
                    lemma_add_mod_noop(so_far, worth as int, 0x1_0000_0000);
                    assert(gps_of(cells, i as int, j as int) == worth);
                }
                total = (total + low) % 0x1_0000_0000;
            }
            j += 1;
        }
        i += 1;
    }
    total as u32
}

/// The floor that the first `k` lines show, among wide boxes if `wide` says
/// so and else among narrow ones.
pub open spec fn plan_cells(lines: Seq<Seq<char>>, k: int, wide: bool) -> Seq<Seq<Space>> {
    if wide {
        wide_cells(lines, k)
    } else {
        narrow_cells(lines, k)
    }
}

/// The line with which the moves begin: the one after the empty line that
/// ends the floor plan.
pub open spec fn moves_start(lines: Seq<Seq<char>>, k: int) -> int {
    if k < lines.len() {
        k + 1
    } else {
        k
    }
}

/// What the lines after the floor plan say of the way to go.
pub open spec fn moves_said(lines: Seq<Seq<char>>, k: int) -> Seq<Option<Direction>> {
    moves_upto(lines, moves_start(lines, k), lines.len() as int)
}

/// The lines hold a warehouse whose floor plan takes `k` lines, and moves
/// for its robot.
pub open spec fn is_warehouse(lines: Seq<Seq<char>>, wide: bool, k: int) -> bool {
    &&& is_plan_len(lines, k)
    &&& all_known(lines, k)
    &&& is_floor(plan_cells(lines, k, wide))
    &&& forall|i: int| 0 <= i < moves_said(lines, k).len() ==> (#[trigger] moves_said(lines, k)[i]) is Some
}

/// What the boxes count after the robot has made all its moves; `None`
/// where the lines hold no warehouse.
pub open spec fn warehouse_answer(lines: Seq<Seq<char>>, wide: bool) -> Option<u32> {
    if exists|k: int| is_warehouse(lines, wide, k) {
        let k = choose|k: int| is_warehouse(lines, wide, k);
        let cells = plan_cells(lines, k, wide);
        let robot = choose|robot: (int, int)| robot_alone(cells, robot);
        let moves = moves_said(lines, k).map_values(|d: Option<Direction>| d->0);
        let end = after_moves(cells, robot, moves, wide);
        Some(wrapped(gps_sum(end.0, end.0.len() as int)))
    } else {
        None
    }
}

/// Lets the robot make the moves that follow the floor plan, and says what
/// the boxes count then.
pub fn run_warehouse(lines: &Vec<Vec<char>>, wide: bool) -> (r: Result<u32, AdventError>)
    ensures
        crate::is_outcome(r, warehouse_answer(rows(*lines), wide)),
{
    let ghost text = rows(*lines);
    let parsed = if wide {
        parse_wide_grid(lines)
    } else {
        parse_grid(lines)
    };
    let (mut grid, k) = match parsed {
        Err(e) => {
            return Err(e);
        },
        Ok(found) => found,
    };
    let start = if k < lines.len() {
        k + 1
    } else {
        k
    };
    let moves = match parse_directions(lines, start) {
        Err(e) => {
            proof {
                assert forall|n: int| !is_warehouse(text, wide, n) by {
                    if is_plan_len(text, n) {
                        lemma_plan_len_unique(text, n, k as int);
                    }
                }
            }
            return Err(e);
        },
        Ok(moves) => moves,
    };
    let ghost cells = grid.cells();
    let ghost robot = grid.place();
    let ghost said = moves_said(text, k as int);
    proof {
        assert forall|i: int| 0 <= i < said.len() implies (#[trigger] said[i]) is Some by {
            assert(moves@.map_values(|d: Direction| Some(d))[i] == said[i]);
        }
        assert(is_warehouse(text, wide, k as int));
        let n = choose|n: int| is_warehouse(text, wide, n);
        lemma_plan_len_unique(text, n, k as int);
        let p = choose|p: (int, int)| robot_alone(cells, p);
        assert(at(cells, p.0, p.1) == Some(Space::Robot));
        assert(p == robot);
        assert(said.map_values(|d: Option<Direction>| d->0) =~= moves@) by {
            assert forall|i: int| 0 <= i < said.len() implies said[i]->0 == moves@[i] by {
                assert(moves@.map_values(|d: Direction| Some(d))[i] == said[i]);
            }
        }
    }
    let mut i: usize = 0;
    while i < moves.len()
        invariant
            i <= moves.len(),
            wide ==> grid.is_wide(),
            !wide ==> grid.is_narrow(),
            (grid.cells(), grid.place()) == after_moves(cells, robot, moves@.take(i as int), wide),
        decreases moves.len() - i,
    {
        proof {
            assert(moves@.take(i + 1).drop_last() =~= moves@.take(i as int));
        }
        if wide {
            grid.move_robot_2(moves[i]);
        } else {
            grid.move_robot_1(moves[i]);
        }
        i += 1;
    }
    assert(moves@.take(moves.len() as int) =~= moves@);
    Ok(gps_total(&grid))
}

impl AdventProblem for Day15 {
    open spec fn accepts_part_1(&self, lines: Seq<Seq<char>>) -> bool {
        true
    }

    open spec fn accepts_part_2(&self, lines: Seq<Seq<char>>) -> bool {
        true
    }

    open spec fn answer_part_1(&self, lines: Seq<Seq<char>>) -> Option<u32> {
        warehouse_answer(lines, false)
    }

    open spec fn answer_part_2(&self, lines: Seq<Seq<char>>) -> Option<u32> {
        warehouse_answer(lines, true)
    }

    fn run_part_1(&self, lines: Vec<String>) -> (r: Result<u32, AdventError>) {
        let text = chars_of_lines(&lines);
        run_warehouse(&text, false)
    }

    fn run_part_2(&self, lines: Vec<String>) -> (r: Result<u32, AdventError>) {
        let text = chars_of_lines(&lines);
        run_warehouse(&text, true)
    }
}

} // verus!
