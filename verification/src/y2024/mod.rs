//! The puzzles of 2024.

use crate::text::parse_error;
use crate::{is_outcome, lines_view, AdventError, AdventProblem};
use vstd::prelude::*;

pub mod day1;
pub mod day10;
pub mod day11;
pub mod day12;
pub mod day13;
pub mod day14;
pub mod day15;
pub mod day16;
pub mod day17;
pub mod day18;
pub mod day19;
pub mod day2;
pub mod day20;
pub mod day21;
pub mod day22;
pub mod day23;
pub mod day3;
pub mod day4;
pub mod day5;
pub mod day6;
pub mod day7;
pub mod day8;
pub mod day9;

verus! {

/// The puzzles that have a solver, by their day.
#[derive(Debug, Copy, Clone, PartialEq, Eq, Structural)]
pub enum Puzzle {
    Day1,
    Day2,
    Day3,
    Day4,
    Day5,
    Day6,
    Day7,
    Day8,
    Day9,
    Day10,
    Day11,
    Day12,
    Day13,
    Day14,
    Day15,
    Day16,
    Day17,
    Day18,
    Day19,
    Day20,
    Day21,
    Day22,
    Day23,
}

impl Puzzle {
    /// The puzzle of the day `date`, if that day has a solver.
    pub open spec fn of_date(date: u8) -> Option<Puzzle> {
        if date == 1 {
            Some(Puzzle::Day1)
        } else if date == 2 {
            Some(Puzzle::Day2)
        } else if date == 3 {
            Some(Puzzle::Day3)
        } else if date == 4 {
            Some(Puzzle::Day4)
        } else if date == 5 {
            Some(Puzzle::Day5)
        } else if date == 6 {
            Some(Puzzle::Day6)
        } else if date == 7 {
            Some(Puzzle::Day7)
        } else if date == 8 {
            Some(Puzzle::Day8)
        } else if date == 9 {
            Some(Puzzle::Day9)
        } else if date == 10 {
            Some(Puzzle::Day10)
        } else if date == 11 {
            Some(Puzzle::Day11)
        } else if date == 12 {
            Some(Puzzle::Day12)
        } else if date == 13 {
            Some(Puzzle::Day13)
        } else if date == 14 {
            Some(Puzzle::Day14)
        } else if date == 15 {
            Some(Puzzle::Day15)
        } else if date == 16 {
            Some(Puzzle::Day16)
        } else if date == 17 {
            Some(Puzzle::Day17)
        } else if date == 18 {
            Some(Puzzle::Day18)
        } else if date == 19 {
            Some(Puzzle::Day19)
        } else if date == 20 {
            Some(Puzzle::Day20)
        } else if date == 21 {
            Some(Puzzle::Day21)
        } else if date == 22 {
            Some(Puzzle::Day22)
        } else if date == 23 {
            Some(Puzzle::Day23)
        } else {
            None
        }
    }
}

impl AdventProblem for Puzzle {
    open spec fn accepts_part_1(&self, lines: Seq<Seq<char>>) -> bool {
        match self {
            Puzzle::Day1 => day1::Day1.accepts_part_1(lines),
            Puzzle::Day2 => day2::Day2.accepts_part_1(lines),
            Puzzle::Day3 => day3::Day3.accepts_part_1(lines),
            Puzzle::Day4 => day4::Day4.accepts_part_1(lines),
            Puzzle::Day5 => day5::Day5.accepts_part_1(lines),
            Puzzle::Day6 => day6::Day6.accepts_part_1(lines),
            Puzzle::Day7 => day7::Day7.accepts_part_1(lines),
            Puzzle::Day8 => day8::Day8.accepts_part_1(lines),
            Puzzle::Day9 => day9::Day9.accepts_part_1(lines),
            Puzzle::Day10 => day10::Day10.accepts_part_1(lines),
            Puzzle::Day11 => day11::Day11.accepts_part_1(lines),
            Puzzle::Day12 => day12::Day12.accepts_part_1(lines),
            Puzzle::Day13 => day13::Day13.accepts_part_1(lines),
            Puzzle::Day14 => day14::Day14.accepts_part_1(lines),
            Puzzle::Day15 => day15::Day15.accepts_part_1(lines),
            Puzzle::Day16 => day16::Day16.accepts_part_1(lines),
            Puzzle::Day17 => day17::Day17.accepts_part_1(lines),
            Puzzle::Day18 => day18::Day18.accepts_part_1(lines),
            Puzzle::Day19 => day19::Day19.accepts_part_1(lines),
            Puzzle::Day20 => day20::Day20.accepts_part_1(lines),
            Puzzle::Day21 => day21::Day21.accepts_part_1(lines),
            Puzzle::Day22 => day22::Day22.accepts_part_1(lines),
            Puzzle::Day23 => day23::Day23.accepts_part_1(lines),
        }
    }

    open spec fn accepts_part_2(&self, lines: Seq<Seq<char>>) -> bool {
        match self {
            Puzzle::Day1 => day1::Day1.accepts_part_2(lines),
            Puzzle::Day2 => day2::Day2.accepts_part_2(lines),
            Puzzle::Day3 => day3::Day3.accepts_part_2(lines),
            Puzzle::Day4 => day4::Day4.accepts_part_2(lines),
            Puzzle::Day5 => day5::Day5.accepts_part_2(lines),
            Puzzle::Day6 => day6::Day6.accepts_part_2(lines),
            Puzzle::Day7 => day7::Day7.accepts_part_2(lines),
            Puzzle::Day8 => day8::Day8.accepts_part_2(lines),
            Puzzle::Day9 => day9::Day9.accepts_part_2(lines),
            Puzzle::Day10 => day10::Day10.accepts_part_2(lines),
            Puzzle::Day11 => day11::Day11.accepts_part_2(lines),
            Puzzle::Day12 => day12::Day12.accepts_part_2(lines),
            Puzzle::Day13 => day13::Day13.accepts_part_2(lines),
            Puzzle::Day14 => day14::Day14.accepts_part_2(lines),
            Puzzle::Day15 => day15::Day15.accepts_part_2(lines),
            Puzzle::Day16 => day16::Day16.accepts_part_2(lines),
            Puzzle::Day17 => day17::Day17.accepts_part_2(lines),
            Puzzle::Day18 => day18::Day18.accepts_part_2(lines),
            Puzzle::Day19 => day19::Day19.accepts_part_2(lines),
            Puzzle::Day20 => day20::Day20.accepts_part_2(lines),
            Puzzle::Day21 => day21::Day21.accepts_part_2(lines),
            Puzzle::Day22 => day22::Day22.accepts_part_2(lines),
            Puzzle::Day23 => day23::Day23.accepts_part_2(lines),
        }
    }

    open spec fn answer_part_1(&self, lines: Seq<Seq<char>>) -> Option<u32> {
        match self {
            Puzzle::Day1 => day1::Day1.answer_part_1(lines),
            Puzzle::Day2 => day2::Day2.answer_part_1(lines),
            Puzzle::Day3 => day3::Day3.answer_part_1(lines),
            Puzzle::Day4 => day4::Day4.answer_part_1(lines),
            Puzzle::Day5 => day5::Day5.answer_part_1(lines),
            Puzzle::Day6 => day6::Day6.answer_part_1(lines),
            Puzzle::Day7 => day7::Day7.answer_part_1(lines),
            Puzzle::Day8 => day8::Day8.answer_part_1(lines),
            Puzzle::Day9 => day9::Day9.answer_part_1(lines),
            Puzzle::Day10 => day10::Day10.answer_part_1(lines),
            Puzzle::Day11 => day11::Day11.answer_part_1(lines),
            Puzzle::Day12 => day12::Day12.answer_part_1(lines),
            Puzzle::Day13 => day13::Day13.answer_part_1(lines),
            Puzzle::Day14 => day14::Day14.answer_part_1(lines),
            Puzzle::Day15 => day15::Day15.answer_part_1(lines),
            Puzzle::Day16 => day16::Day16.answer_part_1(lines),
            Puzzle::Day17 => day17::Day17.answer_part_1(lines),
            Puzzle::Day18 => day18::Day18.answer_part_1(lines),
            Puzzle::Day19 => day19::Day19.answer_part_1(lines),
            Puzzle::Day20 => day20::Day20.answer_part_1(lines),
            Puzzle::Day21 => day21::Day21.answer_part_1(lines),
            Puzzle::Day22 => day22::Day22.answer_part_1(lines),
            Puzzle::Day23 => day23::Day23.answer_part_1(lines),
        }
    }

    open spec fn answer_part_2(&self, lines: Seq<Seq<char>>) -> Option<u32> {
        match self {
            Puzzle::Day1 => day1::Day1.answer_part_2(lines),
            Puzzle::Day2 => day2::Day2.answer_part_2(lines),
            Puzzle::Day3 => day3::Day3.answer_part_2(lines),
            Puzzle::Day4 => day4::Day4.answer_part_2(lines),
            Puzzle::Day5 => day5::Day5.answer_part_2(lines),
            Puzzle::Day6 => day6::Day6.answer_part_2(lines),
            Puzzle::Day7 => day7::Day7.answer_part_2(lines),
            Puzzle::Day8 => day8::Day8.answer_part_2(lines),
            Puzzle::Day9 => day9::Day9.answer_part_2(lines),
            Puzzle::Day10 => day10::Day10.answer_part_2(lines),
            Puzzle::Day11 => day11::Day11.answer_part_2(lines),
            Puzzle::Day12 => day12::Day12.answer_part_2(lines),
            Puzzle::Day13 => day13::Day13.answer_part_2(lines),
            Puzzle::Day14 => day14::Day14.answer_part_2(lines),
            Puzzle::Day15 => day15::Day15.answer_part_2(lines),
            Puzzle::Day16 => day16::Day16.answer_part_2(lines),
            Puzzle::Day17 => day17::Day17.answer_part_2(lines),
            Puzzle::Day18 => day18::Day18.answer_part_2(lines),
            Puzzle::Day19 => day19::Day19.answer_part_2(lines),
            Puzzle::Day20 => day20::Day20.answer_part_2(lines),
            Puzzle::Day21 => day21::Day21.answer_part_2(lines),
            Puzzle::Day22 => day22::Day22.answer_part_2(lines),
            Puzzle::Day23 => day23::Day23.answer_part_2(lines),
        }
    }

    fn run_part_1(&self, lines: Vec<String>) -> (r: Result<u32, AdventError>) {
        match self {
            Puzzle::Day1 => day1::Day1.run_part_1(lines),
            Puzzle::Day2 => day2::Day2.run_part_1(lines),
            Puzzle::Day3 => day3::Day3.run_part_1(lines),
            Puzzle::Day4 => day4::Day4.run_part_1(lines),
            Puzzle::Day5 => day5::Day5.run_part_1(lines),
            Puzzle::Day6 => day6::Day6.run_part_1(lines),
            Puzzle::Day7 => day7::Day7.run_part_1(lines),
            Puzzle::Day8 => day8::Day8.run_part_1(lines),
            Puzzle::Day9 => day9::Day9.run_part_1(lines),
            Puzzle::Day10 => day10::Day10.run_part_1(lines),
            Puzzle::Day11 => day11::Day11.run_part_1(lines),
            Puzzle::Day12 => day12::Day12.run_part_1(lines),
            Puzzle::Day13 => day13::Day13.run_part_1(lines),
            Puzzle::Day14 => day14::Day14.run_part_1(lines),
            Puzzle::Day15 => day15::Day15.run_part_1(lines),
            Puzzle::Day16 => day16::Day16.run_part_1(lines),
            Puzzle::Day17 => day17::Day17.run_part_1(lines),
            Puzzle::Day18 => day18::Day18.run_part_1(lines),
            Puzzle::Day19 => day19::Day19.run_part_1(lines),
            Puzzle::Day20 => day20::Day20.run_part_1(lines),
            Puzzle::Day21 => day21::Day21.run_part_1(lines),
            Puzzle::Day22 => day22::Day22.run_part_1(lines),
            Puzzle::Day23 => day23::Day23.run_part_1(lines),
        }
    }

    fn run_part_2(&self, lines: Vec<String>) -> (r: Result<u32, AdventError>) {
        match self {
            Puzzle::Day1 => day1::Day1.run_part_2(lines),
            Puzzle::Day2 => day2::Day2.run_part_2(lines),
            Puzzle::Day3 => day3::Day3.run_part_2(lines),
            Puzzle::Day4 => day4::Day4.run_part_2(lines),
            Puzzle::Day5 => day5::Day5.run_part_2(lines),
            Puzzle::Day6 => day6::Day6.run_part_2(lines),
            Puzzle::Day7 => day7::Day7.run_part_2(lines),
            Puzzle::Day8 => day8::Day8.run_part_2(lines),
            Puzzle::Day9 => day9::Day9.run_part_2(lines),
            Puzzle::Day10 => day10::Day10.run_part_2(lines),
            Puzzle::Day11 => day11::Day11.run_part_2(lines),
            Puzzle::Day12 => day12::Day12.run_part_2(lines),
            Puzzle::Day13 => day13::Day13.run_part_2(lines),
            Puzzle::Day14 => day14::Day14.run_part_2(lines),
            Puzzle::Day15 => day15::Day15.run_part_2(lines),
            Puzzle::Day16 => day16::Day16.run_part_2(lines),
            Puzzle::Day17 => day17::Day17.run_part_2(lines),
            Puzzle::Day18 => day18::Day18.run_part_2(lines),
            Puzzle::Day19 => day19::Day19.run_part_2(lines),
            Puzzle::Day20 => day20::Day20.run_part_2(lines),
            Puzzle::Day21 => day21::Day21.run_part_2(lines),
            Puzzle::Day22 => day22::Day22.run_part_2(lines),
            Puzzle::Day23 => day23::Day23.run_part_2(lines),
        }
    }
}

/// The solver of the day `date`; `None` for a day that has none.
pub fn factory(date: u8) -> (r: Option<Puzzle>)
    ensures
        r == Puzzle::of_date(date),
{
    if date == 1 {
        Some(Puzzle::Day1)
    } else if date == 2 {
        Some(Puzzle::Day2)
    } else if date == 3 {
        Some(Puzzle::Day3)
    } else if date == 4 {
        Some(Puzzle::Day4)
    } else if date == 5 {
        Some(Puzzle::Day5)
    } else if date == 6 {
        Some(Puzzle::Day6)
    } else if date == 7 {
        Some(Puzzle::Day7)
    } else if date == 8 {
        Some(Puzzle::Day8)
    } else if date == 9 {
        Some(Puzzle::Day9)
    } else if date == 10 {
        Some(Puzzle::Day10)
    } else if date == 11 {
        Some(Puzzle::Day11)
    } else if date == 12 {
        Some(Puzzle::Day12)
    } else if date == 13 {
        Some(Puzzle::Day13)
    } else if date == 14 {
        Some(Puzzle::Day14)
    } else if date == 15 {
        Some(Puzzle::Day15)
    } else if date == 16 {
        Some(Puzzle::Day16)
    } else if date == 17 {
        Some(Puzzle::Day17)
    } else if date == 18 {
        Some(Puzzle::Day18)
    } else if date == 19 {
        Some(Puzzle::Day19)
    } else if date == 20 {
        Some(Puzzle::Day20)
    } else if date == 21 {
        Some(Puzzle::Day21)
    } else if date == 22 {
        Some(Puzzle::Day22)
    } else if date == 23 {
        Some(Puzzle::Day23)
    } else {
        None
    }
}

/// What solving the part `part` of the day `date` gives on `lines`: the
/// answer, or `None` where the day has no solver, the part is neither 1 nor
/// 2, or the lines do not parse.
pub open spec fn answer(lines: Seq<Seq<char>>, date: u8, part: u8) -> Option<u32> {
    match Puzzle::of_date(date) {
        Some(puzzle) => if part == 1 {
            puzzle.answer_part_1(lines)
        } else if part == 2 {
            puzzle.answer_part_2(lines)
        } else {
            None
        },
        None => None,
    }
}

/// The lines are such as the part `part` of the day `date` is defined for.
pub open spec fn accepts(lines: Seq<Seq<char>>, date: u8, part: u8) -> bool {
    match Puzzle::of_date(date) {
        Some(puzzle) => (part == 1 ==> puzzle.accepts_part_1(lines)) && (part == 2
            ==> puzzle.accepts_part_2(lines)),
        None => true,
    }
}

/// Solves the part `part` of the day `date` on the lines of its input. A
/// day without a solver, and a part that is neither 1 nor 2, are refused.
pub fn run_with_lines(lines: Vec<String>, date: u8, part: u8) -> (r: Result<u32, AdventError>)
    requires
        accepts(lines_view(lines), date, part),
    ensures
        is_outcome(r, answer(lines_view(lines), date, part)),
{
    match factory(date) {
        Some(puzzle) => if part == 1 || part == 2 {
            puzzle.run(lines, part)
        } else {
            Err(parse_error("a puzzle has the parts 1 and 2"))
        },
        None => Err(parse_error("no solver for this day")),
    }
}

} // verus!
