//! Solvers for a collection of independent text puzzles.
//!
//! Every solver is a function from the lines of a puzzle input to a number.
//! The solvers of one year live in one module and are reached by day through
//! that module's `factory`.

use vstd::prelude::*;

pub mod y2023;
pub mod y2024;
pub mod pattern;
pub mod table;
pub mod text;

verus! {

/// Why a solver gave no answer.
#[derive(Debug)]
pub enum AdventError {
    /// The input could not be read; the payload is the reader's message.
    IoError(String),
    /// The input does not have the shape the puzzle prescribes.
    InputParseError(String),
}

/// `r` reports `answer`: the number, or a failure to parse where there is none.
pub open spec fn is_outcome(r: Result<u32, AdventError>, answer: Option<u32>) -> bool {
    match r {
        Ok(v) => answer == Some(v),
        Err(e) => answer is None && e is InputParseError,
    }
}

/// One day's puzzle, in its two parts.
pub trait AdventProblem {
    /// The inputs for which part one is defined.
    spec fn accepts_part_1(&self, lines: Seq<Seq<char>>) -> bool;

    /// The inputs for which part two is defined.
    spec fn accepts_part_2(&self, lines: Seq<Seq<char>>) -> bool;

    /// The answer of part one; `None` for an input that does not parse.
    spec fn answer_part_1(&self, lines: Seq<Seq<char>>) -> Option<u32>;

    /// The answer of part two; `None` for an input that does not parse.
    spec fn answer_part_2(&self, lines: Seq<Seq<char>>) -> Option<u32>;

    fn run_part_1(&self, lines: Vec<String>) -> (r: Result<u32, AdventError>)
        requires
            self.accepts_part_1(lines_view(lines)),
        ensures
            is_outcome(r, self.answer_part_1(lines_view(lines))),
    ;

    fn run_part_2(&self, lines: Vec<String>) -> (r: Result<u32, AdventError>)
        requires
            self.accepts_part_2(lines_view(lines)),
        ensures
            is_outcome(r, self.answer_part_2(lines_view(lines))),
    ;

    /// Runs the part with the number `part`, which is 1 or 2.
    fn run(&self, lines: Vec<String>, part: u8) -> (r: Result<u32, AdventError>)
        requires
            part == 1 || part == 2,
            part == 1 ==> self.accepts_part_1(lines_view(lines)),
            part == 2 ==> self.accepts_part_2(lines_view(lines)),
        ensures
            part == 1 ==> is_outcome(r, self.answer_part_1(lines_view(lines))),
            part == 2 ==> is_outcome(r, self.answer_part_2(lines_view(lines))),
    {
        if part == 1 {
            self.run_part_1(lines)
        } else {
            self.run_part_2(lines)
        }
    }
}

/// `n` as a `u32`, reduced modulo 2^32.
pub open spec fn wrapped(n: nat) -> u32 {
    (n % 0x1_0000_0000) as u32
}

/// The text of a list of lines, each line as its sequence of characters.
pub open spec fn lines_view(lines: Vec<String>) -> Seq<Seq<char>> {
    Seq::new(lines.len() as nat, |i: int| lines[i]@)
}

} // verus!
