//! The puzzles of 2023.

use crate::text::parse_error;
use crate::{is_outcome, lines_view, AdventError, AdventProblem};
use vstd::prelude::*;

pub mod day1;
pub mod day2;
pub mod day3;
pub mod day4;
pub mod day5;

verus! {

/// The puzzles that have a solver, by their day.
#[derive(Debug, Copy, Clone, PartialEq, Eq, Structural)]
pub enum Puzzle {
    Day1,
    Day2,
    Day3,
    Day4,
}

impl Puzzle {
    /// The puzzle of the day `date`, if that day has a solver.
    pub open spec fn of_date(date: u8) -> Option<Puzzle> {
        if date == 1 {
            Some(Puzzle::Day1)
        } else if date == 2 {
            Some(Puzzle::Day2)
        } else if date == 3 {
            Some(Puzzle::Day3)
        } else if date == 4 {
            Some(Puzzle::Day4)
        } else {
            None
        }
    }
}

impl AdventProblem for Puzzle {
    open spec fn accepts_part_1(&self, lines: Seq<Seq<char>>) -> bool {
        match self {
            Puzzle::Day1 => day1::Day1.accepts_part_1(lines),
            Puzzle::Day2 => day2::Day2.accepts_part_1(lines),
            Puzzle::Day3 => day3::Day3.accepts_part_1(lines),
            Puzzle::Day4 => day4::Day4.accepts_part_1(lines),
        }
    }

    open spec fn accepts_part_2(&self, lines: Seq<Seq<char>>) -> bool {
        match self {
            Puzzle::Day1 => day1::Day1.accepts_part_2(lines),
            Puzzle::Day2 => day2::Day2.accepts_part_2(lines),
            Puzzle::Day3 => day3::Day3.accepts_part_2(lines),
            Puzzle::Day4 => day4::Day4.accepts_part_2(lines),
        }
    }

    open spec fn answer_part_1(&self, lines: Seq<Seq<char>>) -> Option<u32> {
        match self {
            Puzzle::Day1 => day1::Day1.answer_part_1(lines),
            Puzzle::Day2 => day2::Day2.answer_part_1(lines),
            Puzzle::Day3 => day3::Day3.answer_part_1(lines),
            Puzzle::Day4 => day4::Day4.answer_part_1(lines),
        }
    }

    open spec fn answer_part_2(&self, lines: Seq<Seq<char>>) -> Option<u32> {
        match self {
            Puzzle::Day1 => day1::Day1.answer_part_2(lines),
            Puzzle::Day2 => day2::Day2.answer_part_2(lines),
            Puzzle::Day3 => day3::Day3.answer_part_2(lines),
            Puzzle::Day4 => day4::Day4.answer_part_2(lines),
        }
    }

    fn run_part_1(&self, lines: Vec<String>) -> (r: Result<u32, AdventError>) {
        match self {
            Puzzle::Day1 => day1::Day1.run_part_1(lines),
            Puzzle::Day2 => day2::Day2.run_part_1(lines),
            Puzzle::Day3 => day3::Day3.run_part_1(lines),
            Puzzle::Day4 => day4::Day4.run_part_1(lines),
        }
    }

    fn run_part_2(&self, lines: Vec<String>) -> (r: Result<u32, AdventError>) {
        match self {
            Puzzle::Day1 => day1::Day1.run_part_2(lines),
            Puzzle::Day2 => day2::Day2.run_part_2(lines),
            Puzzle::Day3 => day3::Day3.run_part_2(lines),
            Puzzle::Day4 => day4::Day4.run_part_2(lines),
        }
    }
}

/// The solver of the day `date`; `None` for a day that has none.
pub fn factory(date: u8) -> (r: Option<Puzzle>)
    ensures
        r == Puzzle::of_date(date),
{
    if date == 1 {
        Some(Puzzle::Day1)
    } else if date == 2 {
        Some(Puzzle::Day2)
    } else if date == 3 {
        Some(Puzzle::Day3)
    } else if date == 4 {
        Some(Puzzle::Day4)
    } else {
        None
    }
}

/// What solving the part `part` of the day `date` gives on `lines`: the
/// answer, or `None` where the day has no solver, the part is neither 1 nor
/// 2, or the lines do not parse.
pub open spec fn answer(lines: Seq<Seq<char>>, date: u8, part: u8) -> Option<u32> {
    match Puzzle::of_date(date) {
        Some(puzzle) => if part == 1 {
            puzzle.answer_part_1(lines)
        } else if part == 2 {
            puzzle.answer_part_2(lines)
        } else {
            None
        },
        None => None,
    }
}

/// The lines are such as the part `part` of the day `date` is defined for.
pub open spec fn accepts(lines: Seq<Seq<char>>, date: u8, part: u8) -> bool {
    match Puzzle::of_date(date) {
        Some(puzzle) => (part == 1 ==> puzzle.accepts_part_1(lines)) && (part == 2
            ==> puzzle.accepts_part_2(lines)),
        None => true,
    }
}

/// Solves the part `part` of the day `date` on the lines of its input. A
/// day without a solver, and a part that is neither 1 nor 2, are refused.
pub fn run_with_lines(lines: Vec<String>, date: u8, part: u8) -> (r: Result<u32, AdventError>)
    requires
        accepts(lines_view(lines), date, part),
    ensures
        is_outcome(r, answer(lines_view(lines), date, part)),
{
    match factory(date) {
        Some(puzzle) => if part == 1 || part == 2 {
            puzzle.run(lines, part)
        } else {
            Err(parse_error("a puzzle has the parts 1 and 2"))
        },
        None => Err(parse_error("no solver for this day")),
    }
}

/// Solves the part `part` of the day `date` on the lines of its input.
pub fn run(lines: Vec<String>, date: u8, part: u8) -> (r: Result<u32, AdventError>)
    requires
        accepts(lines_view(lines), date, part),
    ensures
        is_outcome(r, answer(lines_view(lines), date, part)),
{
    run_with_lines(lines, date, part)
}

} // verus!
