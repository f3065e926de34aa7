//! Games of coloured cubes drawn from a bag.

use crate::pattern::{captures, groups_view, regex_captures, regex_compiles};
use crate::table::rows;
use crate::text::{
    chars_of, occurs_at, parse_error, parse_u32, split, split_spec, stands_at, trim, trimmed,
    unsigned_value,
};
use crate::{lines_view, AdventError, AdventProblem};
use vstd::prelude::*;

verus! {

pub struct Day2;

/// The colours of the cubes.
#[derive(Debug, Copy, Clone, PartialEq, Eq, Structural)]
pub enum Color {
    Red,
    Green,
    Blue,
}

/// The most cubes of each colour that were seen at one time.
#[derive(Debug, Copy, Clone, PartialEq, Eq, Structural)]
pub struct Bound {
    pub red: u32,
    pub green: u32,
    pub blue: u32,
}

/// The cubes of one draw.
#[derive(Debug, Copy, Clone, PartialEq, Eq, Structural)]
pub struct Sample {
    pub red: u32,
    pub blue: u32,
    pub green: u32,
}

/// A game: its number, and the most cubes of each colour seen in it.
#[derive(Debug)]
pub struct Game {
    pub id: u32,
    pub bound: Bound,
}

/// The colour that `word` names.
pub open spec fn color_of(word: Seq<char>) -> Option<Color> {
    if word == seq!['r', 'e', 'd'] {
        Some(Color::Red)
    } else if word == seq!['g', 'r', 'e', 'e', 'n'] {
        Some(Color::Green)
    } else if word == seq!['b', 'l', 'u', 'e'] {
        Some(Color::Blue)
    } else {
        None
    }
}

/// The colour that `word` names.
pub fn parse_color(word: &Vec<char>) -> (r: Option<Color>)
    ensures
        r == color_of(word@),
{
    let red = vec!['r', 'e', 'd'];
    let green = vec!['g', 'r', 'e', 'e', 'n'];
    let blue = vec!['b', 'l', 'u', 'e'];
    assert(red@ =~= seq!['r', 'e', 'd'] && green@ =~= seq!['g', 'r', 'e', 'e', 'n'] && blue@
        =~= seq!['b', 'l', 'u', 'e']);
    proof {
        assert(word@.subrange(0, word.len() as int) =~= word@);
    }
    if word.len() == red.len() && stands_at(word, &red, 0) {
        Some(Color::Red)
    } else if word.len() == green.len() && stands_at(word, &green, 0) {
        Some(Color::Green)
    } else if word.len() == blue.len() && stands_at(word, &blue, 0) {
        Some(Color::Blue)
    } else {
        None
    }
}

/// The number of cubes and their colour that `pick` writes, white space
/// around it apart: a number, a blank, and the name of a colour.
pub open spec fn pick_of(pick: Seq<char>) -> Option<(u32, Color)> {
    let tokens = split_spec(trimmed(pick), seq![' ']);
    if tokens.len() < 2 {
        None
    } else {
        match (unsigned_value(tokens[0], u32::MAX as nat), color_of(tokens[1])) {
            (Some(n), Some(color)) => Some((n as u32, color)),
            _ => None,
        }
    }
}

/// The number of cubes and their colour that `pick` writes.
pub fn parse_pick(pick: &Vec<char>) -> (r: Option<(u32, Color)>)
    ensures
        r == pick_of(pick@),
{
    let blank = vec![' '];
    assert(blank@ =~= seq![' ']);
    let tokens = split(&trim(pick), &blank);
    if tokens.len() < 2 {
        return None;
    }
    assert(rows(tokens)[0] == tokens[0]@ && rows(tokens)[1] == tokens[1]@);
    match (parse_u32(&tokens[0]), parse_color(&tokens[1])) {
        (Some(n), Some(color)) => Some((n, color)),
        _ => None,
    }
}

impl Bound {
    /// The bound with `n` cubes of the colour `color` taken in.
    pub open spec fn with(self, n: u32, color: Color) -> Bound {
        match color {
            Color::Red => Bound {
                red: if n > self.red {
                    n
                } else {
                    self.red
                },
                ..self
            },
            Color::Green => Bound {
                green: if n > self.green {
                    n
                } else {
                    self.green
                },
                ..self
            },
            Color::Blue => Bound {
                blue: if n > self.blue {
                    n
                } else {
                    self.blue
                },
                ..self
            },
        }
    }

    /// No more cubes than the bag holds: 12 red, 13 green and 14 blue.
    pub fn is_valid(&self) -> (r: bool)
        ensures
            r == (self.red <= 12 && self.green <= 13 && self.blue <= 14),
    {
        self.red <= 12 && self.green <= 13 && self.blue <= 14
    }

    /// The product of the three numbers, reduced modulo 2^32.
    pub fn power(&self) -> (r: u32)
        ensures
            r == (self.red * self.green * self.blue) % 0x1_0000_0000,
    {
        assert(self.red * self.green <= 0xffff_ffff * 0xffff_ffff) by (nonlinear_arith)
            requires
                self.red <= 0xffff_ffff,
                self.green <= 0xffff_ffff,
        ;
        let rg: u128 = (self.red as u128) * (self.green as u128);
        assert(rg * self.blue <= 0xffff_ffff * 0xffff_ffff * 0xffff_ffff) by (nonlinear_arith)
            requires
                rg <= 0xffff_ffff * 0xffff_ffff,
                self.blue <= 0xffff_ffff,
        ;
        ((rg * (self.blue as u128)) % 0x1_0000_0000) as u32
    }

    /// Reads the draws of a game, with semicolons between the draws and
    /// commas between the picks of a draw, and gives the most cubes of each
    /// colour. A pick that is not a number and a colour is refused.
    pub fn try_from(s: &str) -> (r: Result<Bound, AdventError>)
        ensures
            match r {
                Ok(bound) => bound_of(s@) == Some(bound),
                Err(e) => bound_of(s@) is None && e is InputParseError,
            },
    {
        match parse_bound(&chars_of(s)) {
            Some(bound) => Ok(bound),
            None => Err(parse_error("a pick is not a number and a colour")),
        }
    }
}

/// The bound `start` with the first `upto` picks of `picks` taken in;
/// `None` where one of them is not a number and a colour.
pub open spec fn picks_bound(picks: Seq<Seq<char>>, start: Bound, upto: int) -> Option<Bound>
    decreases upto,
{
    if upto <= 0 {
        Some(start)
    } else {
        match (picks_bound(picks, start, upto - 1), pick_of(picks[upto - 1])) {
            (Some(bound), Some((n, color))) => Some(bound.with(n, color)),
            _ => None,
        }
    }
}

/// The bound `start` with the picks of the first `upto` draws taken in.
pub open spec fn draws_bound(draws: Seq<Seq<char>>, start: Bound, upto: int) -> Option<Bound>
    decreases upto,
{
    if upto <= 0 {
        Some(start)
    } else {
        match draws_bound(draws, start, upto - 1) {
            Some(bound) => {
                let picks = split_spec(draws[upto - 1], seq![',']);
                picks_bound(picks, bound, picks.len() as int)
            },
            None => None,
        }
    }
}

/// The most cubes of each colour in the draws that `s` writes.
pub open spec fn bound_of(s: Seq<char>) -> Option<Bound> {
    let draws = split_spec(s, seq![';']);
    draws_bound(draws, Bound { red: 0, green: 0, blue: 0 }, draws.len() as int)
}

/// The most cubes of each colour in the draws that `s` writes.
pub fn parse_bound(s: &Vec<char>) -> (r: Option<Bound>)
    ensures
        r == bound_of(s@),
{
    let semicolon = vec![';'];
    let comma = vec![','];
    assert(semicolon@ =~= seq![';'] && comma@ =~= seq![',']);
    let draws = split(s, &semicolon);
    let ghost zero = Bound { red: 0, green: 0, blue: 0 };
    let mut bound = Bound { red: 0, green: 0, blue: 0 };
    let mut i: usize = 0;
    while i < draws.len()
        invariant
            i <= draws.len(),
            comma@ == seq![','],
            zero == (Bound { red: 0, green: 0, blue: 0 }),
            rows(draws) == split_spec(s@, seq![';']),
            draws_bound(rows(draws), zero, i as int) == Some(bound),
        decreases draws.len() - i,
    {
        assert(rows(draws)[i as int] == draws[i as int]@);
        let picks = split(&draws[i], &comma);
        let ghost before = bound;
        let mut k: usize = 0;
        while k < picks.len()
            invariant
                k <= picks.len(),
                i < draws.len(),
                zero == (Bound { red: 0, green: 0, blue: 0 }),
                rows(draws) == split_spec(s@, seq![';']),
                rows(picks) == split_spec(rows(draws)[i as int], seq![',']),
                draws_bound(rows(draws), zero, i as int) == Some(before),
                picks_bound(rows(picks), before, k as int) == Some(bound),
            decreases picks.len() - k,
        {
            assert(rows(picks)[k as int] == picks[k as int]@);
            match parse_pick(&picks[k]) {
                Some((n, color)) => {
                    match color {
                        Color::Red => {
                            if n > bound.red {
                                bound.red = n;
                            }
                        },
                        Color::Green => {
                            if n > bound.green {
                                bound.green = n;
                            }
                        },
                        Color::Blue => {
                            if n > bound.blue {
                                bound.blue = n;
                            }
                        },
                    }
                },
                None => {
                    proof {
                        lemma_picks_stay_none(rows(picks), before, k + 1, picks.len() as int);
                        lemma_draws_stay_none(rows(draws), zero, i + 1, draws.len() as int);
                    }
                    return None;
                },
            }
            k += 1;
        }
        i += 1;
    }
    Some(bound)
}

/// Once a pick is refused, no bound is left.
proof fn lemma_picks_stay_none(picks: Seq<Seq<char>>, start: Bound, at: int, upto: int)
    requires
        at <= upto,
        picks_bound(picks, start, at) is None,
    ensures
        picks_bound(picks, start, upto) is None,
    decreases upto - at,
{
    if at < upto {
        lemma_picks_stay_none(picks, start, at, upto - 1);
    }
}

/// Once a draw is refused, no bound is left.
proof fn lemma_draws_stay_none(draws: Seq<Seq<char>>, start: Bound, at: int, upto: int)
    requires
        at <= upto,
        draws_bound(draws, start, at) is None,
    ensures
        draws_bound(draws, start, upto) is None,
    decreases upto - at,
{
    if at < upto {
        lemma_draws_stay_none(draws, start, at, upto - 1);
    }
}

impl Sample {
    /// The sample with `n` cubes of the colour `color` put in place of what
    /// it had of that colour.
    pub open spec fn with(self, n: u32, color: Color) -> Sample {
        match color {
            Color::Red => Sample { red: n, ..self },
            Color::Green => Sample { green: n, ..self },
            Color::Blue => Sample { blue: n, ..self },
        }
    }

    /// No more cubes than the bag holds: 12 red, 13 green and 14 blue.
    pub fn is_valid(&self) -> (r: bool)
        ensures
            r == (self.red <= 12 && self.green <= 13 && self.blue <= 14),
    {
        self.red <= 12 && self.green <= 13 && self.blue <= 14
    }

    /// Reads one draw: picks with commas between them.
    pub fn try_from(s: &str) -> (r: Result<Sample, AdventError>)
        ensures
            match r {
                Ok(sample) => sample_of(s@) == Some(sample),
                Err(e) => sample_of(s@) is None && e is InputParseError,
            },
    {
        let comma = vec![','];
        assert(comma@ =~= seq![',']);
        let picks = split(&trim(&chars_of(s)), &comma);
        let ghost zero = Sample { red: 0, blue: 0, green: 0 };
        let mut sample = Sample { red: 0, blue: 0, green: 0 };
        let mut k: usize = 0;
        while k < picks.len()
            invariant
                k <= picks.len(),
                zero == (Sample { red: 0, blue: 0, green: 0 }),
                rows(picks) == split_spec(trimmed(s@), seq![',']),
                picks_sample(rows(picks), zero, k as int) == Some(sample),
            decreases picks.len() - k,
        {
            assert(rows(picks)[k as int] == picks[k as int]@);
            match parse_pick(&picks[k]) {
                Some((n, color)) => {
                    match color {
                        Color::Red => {
                            sample.red = n;
                        },
                        Color::Green => {
                            sample.green = n;
                        },
                        Color::Blue => {
                            sample.blue = n;
                        },
                    }
                },
                None => {
                    proof {
                        lemma_sample_stays_none(rows(picks), zero, k + 1, picks.len() as int);
                    }
                    return Err(parse_error("a pick is not a number and a colour"));
                },
            }
            k += 1;
        }
        Ok(sample)
    }
}

/// The sample `start` with the first `upto` picks put in.
pub open spec fn picks_sample(picks: Seq<Seq<char>>, start: Sample, upto: int) -> Option<Sample>
    decreases upto,
{
    if upto <= 0 {
        Some(start)
    } else {
        match (picks_sample(picks, start, upto - 1), pick_of(picks[upto - 1])) {
            (Some(sample), Some((n, color))) => Some(sample.with(n, color)),
            _ => None,
        }
    }
}

/// The draw that `s` writes, white space around it apart.
pub open spec fn sample_of(s: Seq<char>) -> Option<Sample> {
    let picks = split_spec(trimmed(s), seq![',']);
    picks_sample(picks, Sample { red: 0, blue: 0, green: 0 }, picks.len() as int)
}

/// Once a pick is refused, no sample is left.
proof fn lemma_sample_stays_none(picks: Seq<Seq<char>>, start: Sample, at: int, upto: int)
    requires
        at <= upto,
        picks_sample(picks, start, at) is None,
    ensures
        picks_sample(picks, start, upto) is None,
    decreases upto - at,
{
    if at < upto {
        lemma_sample_stays_none(picks, start, at, upto - 1);
    }
}

/// The pattern of a line that records a game.
pub open spec fn game_pattern() -> Seq<char> {
    "Game (?<id>\\d+): (?<remainder>.*)"@
}

/// The game whose number and draws the groups 1 and 2 of a match write.
pub open spec fn game_in(groups: Seq<Option<Seq<char>>>) -> Option<(u32, Bound)> {
    if groups.len() < 3 {
        None
    } else {
        match (groups[1], groups[2]) {
            (Some(id), Some(rest)) => match (unsigned_value(id, u32::MAX as nat), bound_of(rest)) {
                (Some(n), Some(bound)) => Some((n as u32, bound)),
                _ => None,
            },
            _ => None,
        }
    }
}

/// The game whose number and draws the groups 1 and 2 of a match write;
/// `None` where a group is missing, the number is none that 32 bits hold,
/// or a pick is refused.
pub fn game_from(groups: &Vec<Option<String>>) -> (r: Option<Game>)
    ensures
        match r {
            Some(game) => game_in(groups_view(Some(*groups))->0) == Some((game.id, game.bound)),
            None => game_in(groups_view(Some(*groups))->0) is None,
        },
{
    if groups.len() < 3 {
        return None;
    }
    match (&groups[1], &groups[2]) {
        (Some(id), Some(rest)) => {
            match (parse_u32(&chars_of(id.as_str())), parse_bound(&chars_of(rest.as_str()))) {
                (Some(id), Some(bound)) => Some(Game { id, bound }),
                _ => None,
            }
        },
        _ => None,
    }
}

/// `s` begins with the word `Game`.
pub open spec fn has_header(s: Seq<char>) -> bool {
    occurs_at(s, seq!['G', 'a', 'm', 'e'], 0)
}

/// The game that the line `s` records.
pub open spec fn game_of(s: Seq<char>) -> Option<(u32, Bound)> {
    if has_header(s) && regex_compiles(game_pattern()) {
        match regex_captures(game_pattern(), s) {
            Some(groups) => game_in(groups),
            None => None,
        }
    } else {
        None
    }
}

impl Game {
    /// Reads a game from a line such as `Game 4: 1 green, 3 red; 3 green`.
    pub fn try_from(s: &str) -> (r: Result<Game, AdventError>)
        ensures
            match r {
                Ok(game) => game_of(s@) == Some((game.id, game.bound)),
                Err(e) => game_of(s@) is None && e is InputParseError,
            },
    {
        let header = vec!['G', 'a', 'm', 'e'];
        assert(header@ =~= seq!['G', 'a', 'm', 'e']);
        if !stands_at(&chars_of(s), &header, 0) {
            return Err(parse_error("missing game header"));
        }
        match captures("Game (?<id>\\d+): (?<remainder>.*)", s) {
            Ok(Some(groups)) => match game_from(&groups) {
                Some(game) => Ok(game),
                None => Err(parse_error("a game has a number and draws of cubes")),
            },
            Ok(None) => Err(parse_error("unable to find game record")),
            Err(_) => Err(parse_error("the pattern of a game does not compile")),
        }
    }
}

/// What the first `upto` lines add up to, reduced modulo 2^32: the
/// numbers of the games whose bound is valid, or, if `powers`, the powers
/// of the bounds of all games. `None` where a line records no game.
pub open spec fn games_sum(lines: Seq<Seq<char>>, powers: bool, upto: int) -> Option<u32>
    decreases upto,
{
    if upto <= 0 {
        Some(0)
    } else {
        match (games_sum(lines, powers, upto - 1), game_of(lines[upto - 1])) {
            (Some(total), Some((id, bound))) => Some(
                ((total + if powers {
                    (bound.red * bound.green * bound.blue) % 0x1_0000_0000
                } else if bound.red <= 12 && bound.green <= 13 && bound.blue <= 14 {
                    id as int
                } else {
                    0
                }) % 0x1_0000_0000) as u32,
            ),
            _ => None,
        }
    }
}

/// Once a line records no game, no sum is left.
proof fn lemma_games_stay_none(lines: Seq<Seq<char>>, powers: bool, at: int, upto: int)
    requires
        at <= upto,
        games_sum(lines, powers, at) is None,
    ensures
        games_sum(lines, powers, upto) is None,
    decreases upto - at,
{
    if at < upto {
        lemma_games_stay_none(lines, powers, at, upto - 1);
    }
}

/// Adds up the games that the lines record.
pub fn sum_games(lines: &Vec<String>, powers: bool) -> (r: Result<u32, AdventError>)
    ensures
        crate::is_outcome(r, games_sum(lines_view(*lines), powers, lines.len() as int)),
{
    let mut total: u32 = 0;
    let mut i: usize = 0;
    while i < lines.len()
        invariant
            i <= lines.len(),
            games_sum(lines_view(*lines), powers, i as int) == Some(total),
        decreases lines.len() - i,
    {
        assert(lines_view(*lines)[i as int] == lines[i as int]@);
        match Game::try_from(lines[i].as_str()) {
            Ok(game) => {
                let more = if powers {
                    game.bound.power()
                } else if game.bound.is_valid() {
                    game.id
                } else {
                    0
                };
                total = ((total as u64 + more as u64) % 0x1_0000_0000) as u32;
            },
            Err(e) => {
                proof {
                    lemma_games_stay_none(lines_view(*lines), powers, i + 1, lines.len() as int);
                }
                return Err(e);
            },
        }
        i += 1;
    }
    Ok(total)
}

impl AdventProblem for Day2 {
    open spec fn accepts_part_1(&self, lines: Seq<Seq<char>>) -> bool {
        true
    }

    open spec fn accepts_part_2(&self, lines: Seq<Seq<char>>) -> bool {
        true
    }

    open spec fn answer_part_1(&self, lines: Seq<Seq<char>>) -> Option<u32> {
        games_sum(lines, false, lines.len() as int)
    }

    open spec fn answer_part_2(&self, lines: Seq<Seq<char>>) -> Option<u32> {
        games_sum(lines, true, lines.len() as int)
    }

    fn run_part_1(&self, lines: Vec<String>) -> (r: Result<u32, AdventError>) {
        sum_games(&lines, false)
    }

    fn run_part_2(&self, lines: Vec<String>) -> (r: Result<u32, AdventError>) {
        sum_games(&lines, true)
    }
}

} // verus!
