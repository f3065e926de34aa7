//! The three-bit computer.

use crate::table::rows;
use crate::text::{chars_of_lines, parse_error, parse_u64, parse_u8, split, split_spec, unsigned_value};
use crate::{lines_view, AdventError, AdventProblem};
use vstd::prelude::*;

pub mod computer;

use computer::Computer;

verus! {

pub struct Day17;

/// What stands behind the first colon and blank of `line`, if they occur.
pub open spec fn field_of(line: Seq<char>) -> Option<Seq<char>> {
    let parts = split_spec(line, seq![':', ' ']);
    if parts.len() >= 2 {
        Some(parts[1])
    } else {
        None
    }
}

/// The number that stands behind the first colon and blank of `line`.
pub open spec fn register_of(line: Seq<char>) -> Option<u64> {
    match field_of(line) {
        Some(field) => match unsigned_value(field, u64::MAX as nat) {
            Some(v) => Some(v as u64),
            None => None,
        },
        None => None,
    }
}

/// The numbers that `fields` write, if each writes one that a `u8` holds.
pub open spec fn codes_of(fields: Seq<Seq<char>>) -> Option<Seq<u8>>
    decreases fields.len(),
{
    if fields.len() == 0 {
        Some(Seq::empty())
    } else {
        match (codes_of(fields.drop_last()), unsigned_value(fields.last(), u8::MAX as nat)) {
            (Some(codes), Some(v)) => Some(codes.push(v as u8)),
            _ => None,
        }
    }
}

/// The program that stands behind the first colon and blank of `line`:
/// numbers with commas between them.
pub open spec fn program_of(line: Seq<char>) -> Option<Seq<u8>> {
    match field_of(line) {
        Some(field) => codes_of(split_spec(field, seq![','])),
        None => None,
    }
}

/// What stands behind the first colon and blank of `line`.
pub fn field(line: &Vec<char>) -> (r: Option<Vec<char>>)
    ensures
        match r {
            Some(f) => field_of(line@) == Some(f@),
            None => field_of(line@) is None,
        },
{
    let sep = vec![':', ' '];
    assert(sep@ =~= seq![':', ' ']);
    let mut parts = split(line, &sep);
    if parts.len() >= 2 {
        assert(rows(parts)[1] == parts[1]@);
        Some(parts.swap_remove(1))
    } else {
        None
    }
}

/// The number that stands behind the first colon and blank of `line`.
pub fn register(line: &Vec<char>) -> (r: Option<u64>)
    ensures
        r == register_of(line@),
{
    match field(line) {
        Some(f) => parse_u64(&f),
        None => None,
    }
}

/// The program that stands behind the first colon and blank of `line`.
pub fn program(line: &Vec<char>) -> (r: Option<Vec<u8>>)
    ensures
        match r {
            Some(p) => program_of(line@) == Some(p@),
            None => program_of(line@) is None,
        },
{
    let f = match field(line) {
        Some(f) => f,
        None => {
            return None;
        },
    };
    let sep = vec![','];
    assert(sep@ =~= seq![',']);
    let fields = split(&f, &sep);
    let mut codes: Vec<u8> = Vec::new();
    let mut i: usize = 0;
    while i < fields.len()
        invariant
            i <= fields.len(),
            field_of(line@) == Some(f@),
            rows(fields) == split_spec(f@, seq![',']),
            codes_of(rows(fields).take(i as int)) == Some(codes@),
        decreases fields.len() - i,
    {
        proof {
            assert(rows(fields).take(i + 1).drop_last() =~= rows(fields).take(i as int));
            assert(rows(fields).take(i + 1).last() == fields[i as int]@);
        }
        match parse_u8(&fields[i]) {
            Some(code) => {
                codes.push(code);
            },
            None => {
                proof {
                    assert(codes_of(rows(fields).take(i + 1)) is None);
                    lemma_codes_prefix(rows(fields), i + 1);
                    assert(program_of(line@) is None);
                }
                return None;
            },
        }
        i += 1;
    }
    assert(rows(fields).take(fields.len() as int) =~= rows(fields));
    Some(codes)
}

/// Where the first fields write no program, all of them write none.
proof fn lemma_codes_prefix(fields: Seq<Seq<char>>, k: int)
    requires
        0 <= k <= fields.len(),
        codes_of(fields.take(k)) is None,
    ensures
        codes_of(fields) is None,
    decreases fields.len() - k,
{
    if k < fields.len() {
        assert(fields.take(k + 1).drop_last() =~= fields.take(k));
        lemma_codes_prefix(fields, k + 1);
    } else {
        assert(fields.take(k) =~= fields);
    }
}

/// The computer that `lines` describe: the three registers in the first
/// three lines and the program in the fifth.
pub open spec fn computer_of(lines: Seq<Seq<char>>) -> Option<(Seq<u8>, u64, u64, u64)> {
    if lines.len() < 5 {
        None
    } else {
        match (
            register_of(lines[0]),
            register_of(lines[1]),
            register_of(lines[2]),
            program_of(lines[4]),
        ) {
            (Some(a), Some(b), Some(c), Some(instructions)) => Some((instructions, a, b, c)),
            _ => None,
        }
    }
}

/// Reads a computer: its registers from the first three lines, its program
/// from the fifth.
pub fn parse_lines(lines: &Vec<Vec<char>>) -> (r: Result<Computer, AdventError>)
    ensures
        match r {
            Ok(computer) => computer_of(rows(*lines)) == Some(
                (
                    computer.instructions@,
                    computer.registers.a,
                    computer.registers.b,
                    computer.registers.c,
                ),
            ) && computer.pointer == 0 && computer.outputs@ == Seq::<u64>::empty(),
            Err(e) => computer_of(rows(*lines)) is None && e is InputParseError,
        },
{
    if lines.len() < 5 {
        return Err(parse_error("a computer takes five lines"));
    }
    assert(rows(*lines)[0] == lines[0]@ && rows(*lines)[1] == lines[1]@ && rows(*lines)[2]
        == lines[2]@ && rows(*lines)[4] == lines[4]@);
    match (register(&lines[0]), register(&lines[1]), register(&lines[2]), program(&lines[4])) {
        (Some(a), Some(b), Some(c), Some(instructions)) => Ok(Computer::new(instructions, a, b, c)),
        _ => Err(parse_error("a register or the program is not written in numbers")),
    }
}

/// What the computer that `lines` describe puts out when it runs, the
/// numbers written one after another, and how the run ended.
pub fn program_output(lines: &Vec<Vec<char>>) -> (r: Result<(String, computer::Halt), AdventError>)
    ensures
        match r {
            Ok((text, halt)) => computer_of(rows(*lines)) matches Some(given) && exists|n: nat|
                computer::ran(
                    given.0,
                    computer::Machine {
                        a: given.1,
                        b: given.2,
                        c: given.3,
                        pointer: 0,
                        outputs: Seq::empty(),
                    },
                    n,
                    halt,
                ) && text@ == computer::joined(
                    computer::after(
                        given.0,
                        computer::Machine {
                            a: given.1,
                            b: given.2,
                            c: given.3,
                            pointer: 0,
                            outputs: Seq::empty(),
                        },
                        n,
                    ).outputs,
                ),
            Err(e) => computer_of(rows(*lines)) is None && e is InputParseError,
        },
{
    let mut computer = match parse_lines(lines) {
        Ok(computer) => computer,
        Err(e) => {
            return Err(e);
        },
    };
    let ghost given = computer_of(rows(*lines))->0;
    let ghost start = computer@;
    let halt = computer.run();
    let text = computer.concat_output();
    proof {
        let n = choose|n: nat|
            computer::ran(given.0, start, n, halt) && computer@ == #[trigger] computer::after(
                given.0,
                start,
                n,
            );
        assert(computer::ran(given.0, start, n, halt) && text@ == computer::joined(
            computer::after(given.0, start, n).outputs,
        ));
    }
    Ok((text, halt))
}

impl AdventProblem for Day17 {
    open spec fn accepts_part_1(&self, lines: Seq<Seq<char>>) -> bool {
        true
    }

    open spec fn accepts_part_2(&self, lines: Seq<Seq<char>>) -> bool {
        true
    }

    open spec fn answer_part_1(&self, lines: Seq<Seq<char>>) -> Option<u32> {
        if computer_of(lines) is Some {
            Some(0)
        } else {
            None
        }
    }

    open spec fn answer_part_2(&self, lines: Seq<Seq<char>>) -> Option<u32> {
        Some(0)
    }

    /// The answer of this part is a text, which `program_output` gives; the
    /// number is 0 for every computer.
    fn run_part_1(&self, lines: Vec<String>) -> (r: Result<u32, AdventError>) {
        let text = chars_of_lines(&lines);
        match parse_lines(&text) {
            Ok(_) => Ok(0),
            Err(e) => Err(e),
        }
    }

    fn run_part_2(&self, lines: Vec<String>) -> (r: Result<u32, AdventError>) {
        Ok(0)
    }
}

} // verus!
