//! Scratchcards: the numbers that win, the numbers drawn, and the cards
//! that a card wins.

use crate::pattern::{captures, groups_view, regex_captures, regex_compiles};
use crate::table::{lemma_push_contains, rows};
use crate::text::{chars_of, parse_error, parse_u32, split, split_spec, trim, trimmed, unsigned_value};
use crate::{lines_view, wrapped, AdventError, AdventProblem};
use vstd::prelude::*;

verus! {

pub struct Day4;

/// A scratchcard: its number, the numbers that win and the numbers drawn,
/// each of them once.
pub struct ScratchCard {
    pub id: u32,
    pub winning_nums: Vec<u32>,
    pub draw: Vec<u32>,
}

/// The numbers that the first `upto` of `parts` write, each once, in their
/// order; what writes no number is passed over.
pub open spec fn numbers_in(parts: Seq<Seq<char>>, upto: int) -> Seq<u32>
    decreases upto,
{
    if upto <= 0 {
        Seq::empty()
    } else {
        let before = numbers_in(parts, upto - 1);
        match unsigned_value(parts[upto - 1], u32::MAX as nat) {
            Some(v) => if before.contains(v as u32) {
                before
            } else {
                before.push(v as u32)
            },
            None => before,
        }
    }
}

/// The numbers that `s` writes between blanks, each once.
pub open spec fn numbers_of(s: Seq<char>) -> Seq<u32> {
    let parts = split_spec(trimmed(s), seq![' ']);
    numbers_in(parts, parts.len() as int)
}

/// Whether `nums` holds `num`.
fn holds_number(nums: &Vec<u32>, num: u32) -> (r: bool)
    ensures
        r == nums@.contains(num),
{
    let mut k: usize = 0;
    while k < nums.len()
        invariant
            k <= nums.len(),
            forall|a: int| 0 <= a < k ==> nums[a] != num,
        decreases nums.len() - k,
    {
        if nums[k] == num {
            return true;
        }
        k += 1;
    }
    false
}

/// The numbers that `s` writes between blanks, each once.
pub fn parse_numeric_sequence(s: &Vec<char>) -> (r: Vec<u32>)
    ensures
        r@ == numbers_of(s@),
{
    let blank = vec![' '];
    assert(blank@ =~= seq![' ']);
    let parts = split(&trim(s), &blank);
    let mut nums: Vec<u32> = Vec::new();
    let mut i: usize = 0;
    while i < parts.len()
        invariant
            i <= parts.len(),
            nums@ == numbers_in(rows(parts), i as int),
        decreases parts.len() - i,
    {
        assert(rows(parts)[i as int] == parts[i as int]@);
        match parse_u32(&parts[i]) {
            Some(num) => {
                if !holds_number(&nums, num) {
                    nums.push(num);
                }
            },
            None => {},
        }
        i += 1;
    }
    nums
}

/// How many of the first `upto` numbers drawn are among those that win,
/// reduced modulo 2^32.
pub open spec fn common(draw: Seq<u32>, winning: Seq<u32>, upto: int) -> u32
    decreases upto,
{
    if upto <= 0 {
        0
    } else if winning.contains(draw[upto - 1]) {
        wrapped((common(draw, winning, upto - 1) + 1) as nat)
    } else {
        common(draw, winning, upto - 1)
    }
}

/// Two to the power `k`, reduced modulo 2^32.
pub open spec fn doubled(k: nat) -> u32
    decreases k,
{
    if k == 0 {
        1
    } else {
        wrapped((2 * doubled((k - 1) as nat)) as nat)
    }
}

/// Once a power of two has left the 32 bits, so have all the later ones.
proof fn lemma_doubled_gone(k: nat, j: nat)
    requires
        k <= j,
        doubled(k) == 0,
    ensures
        doubled(j) == 0,
    decreases j - k,
{
    if k < j {
        lemma_doubled_gone(k, (j - 1) as nat);
    }
}

/// What a card with `matches` winning numbers is worth: nothing without
/// any, one point for the first, and twice as much for each one more.
pub open spec fn points(matches: u32) -> u32 {
    if matches == 0 {
        0
    } else {
        doubled((matches - 1) as nat)
    }
}

impl ScratchCard {
    /// How many of the numbers drawn win.
    pub open spec fn spec_matches(&self) -> u32 {
        common(self.draw@, self.winning_nums@, self.draw@.len() as int)
    }

    /// How many of the numbers drawn win.
    pub fn matches(&self) -> (r: u32)
        ensures
            r == self.spec_matches(),
    {
        let mut matches: u32 = 0;
        let mut i: usize = 0;
        while i < self.draw.len()
            invariant
                i <= self.draw.len(),
                matches == common(self.draw@, self.winning_nums@, i as int),
            decreases self.draw.len() - i,
        {
            if holds_number(&self.winning_nums, self.draw[i]) {
                matches = ((matches as u64 + 1) % 0x1_0000_0000) as u32;
            }
            i += 1;
        }
        matches
    }

    /// What the card is worth.
    pub fn score(&self) -> (r: u32)
        ensures
            r == points(self.spec_matches()),
    {
        let num_matches = self.matches();
        if num_matches == 0 {
            return 0;
        }
        let mut worth: u32 = 1;
        let mut k: u32 = 0;
        while k < num_matches - 1 && worth != 0
            invariant
                k <= num_matches - 1,
                worth == doubled(k as nat),
            decreases num_matches - 1 - k,
        {
            worth = ((2 * (worth as u64)) % 0x1_0000_0000) as u32;
            k += 1;
        }
        proof {
            if worth == 0 {
                lemma_doubled_gone(k as nat, (num_matches - 1) as nat);
            }
        }
        worth
    }
}

/// The pattern of a line that describes a scratchcard.
pub open spec fn card_pattern() -> Seq<char> {
    "Card\\s+(\\d+): (?<winning>[\\d\\s]+) \\| (?<draw>[\\d\\s]+)"@
}

/// The number of the card and its two lists of numbers, as the groups 1 to
/// 3 of a match write them.
pub open spec fn card_in(groups: Seq<Option<Seq<char>>>) -> Option<(u32, Seq<u32>, Seq<u32>)> {
    if groups.len() < 4 {
        None
    } else {
        match (groups[1], groups[2], groups[3]) {
            (Some(id), Some(winning), Some(draw)) => match unsigned_value(id, u32::MAX as nat) {
                Some(v) => Some((v as u32, numbers_of(winning), numbers_of(draw))),
                None => None,
            },
            _ => None,
        }
    }
}

/// The card that `line` describes, as in `Card 1: 41 48 | 83 86`.
pub open spec fn card_of(line: Seq<char>) -> Option<(u32, Seq<u32>, Seq<u32>)> {
    if regex_compiles(card_pattern()) {
        match regex_captures(card_pattern(), line) {
            Some(groups) => card_in(groups),
            None => None,
        }
    } else {
        None
    }
}

impl ScratchCard {
    /// The card as its number and its two lists of numbers.
    pub open spec fn view(&self) -> (u32, Seq<u32>, Seq<u32>) {
        (self.id, self.winning_nums@, self.draw@)
    }

    /// The card whose number and numbers the groups 1 to 3 of a match write.
    pub fn from_groups(groups: &Vec<Option<String>>) -> (r: Option<ScratchCard>)
        ensures
            match r {
                Some(card) => card_in(groups_view(Some(*groups))->0) == Some(card@),
                None => card_in(groups_view(Some(*groups))->0) is None,
            },
    {
        if groups.len() < 4 {
            return None;
        }
        match (&groups[1], &groups[2], &groups[3]) {
            (Some(id), Some(winning), Some(draw)) => match parse_u32(&chars_of(id.as_str())) {
                Some(id) => Some(
                    ScratchCard {
                        id,
                        winning_nums: parse_numeric_sequence(&chars_of(winning.as_str())),
                        draw: parse_numeric_sequence(&chars_of(draw.as_str())),
                    },
                ),
                None => None,
            },
            _ => None,
        }
    }

    /// Reads a card from a line such as `Card 1: 41 48 | 83 86`. A line
    /// that does not look so, or whose number is too large, is refused.
    pub fn read(line: &str) -> (r: Option<ScratchCard>)
        ensures
            match r {
                Some(card) => card_of(line@) == Some(card@),
                None => card_of(line@) is None,
            },
    {
        match captures("Card\\s+(\\d+): (?<winning>[\\d\\s]+) \\| (?<draw>[\\d\\s]+)", line) {
            Ok(Some(groups)) => ScratchCard::from_groups(&groups),
            Ok(None) => None,
            Err(_) => None,
        }
    }
}

/// The cards that the first `upto` lines describe; `None` where one of
/// them describes none.
pub open spec fn cards_of(lines: Seq<Seq<char>>, upto: int) -> Option<Seq<(u32, Seq<u32>, Seq<u32>)>>
    decreases upto,
{
    if upto <= 0 {
        Some(Seq::empty())
    } else {
        match (cards_of(lines, upto - 1), card_of(lines[upto - 1])) {
            (Some(before), Some(card)) => Some(before.push(card)),
            _ => None,
        }
    }
}

/// Cards that cannot be read stay so with more lines.
proof fn lemma_cards_stay_none(lines: Seq<Seq<char>>, from: int, upto: int)
    requires
        from <= upto,
        cards_of(lines, from) is None,
    ensures
        cards_of(lines, upto) is None,
    decreases upto - from,
{
    if from < upto {
        lemma_cards_stay_none(lines, from, upto - 1);
    }
}

/// The cards as their numbers and lists of numbers.
pub open spec fn cards_view(cards: Vec<ScratchCard>) -> Seq<(u32, Seq<u32>, Seq<u32>)> {
    Seq::new(cards.len() as nat, |i: int| cards[i]@)
}

/// Reads the cards, a line each.
pub fn read_cards(lines: &Vec<String>) -> (r: Option<Vec<ScratchCard>>)
    ensures
        match r {
            Some(cards) => cards_of(lines_view(*lines), lines.len() as int) == Some(
                cards_view(cards),
            ),
            None => cards_of(lines_view(*lines), lines.len() as int) is None,
        },
{
    let mut cards: Vec<ScratchCard> = Vec::new();
    let mut i: usize = 0;
    assert(cards_view(cards) =~= Seq::empty());
    while i < lines.len()
        invariant
            i <= lines.len(),
            cards_of(lines_view(*lines), i as int) == Some(cards_view(cards)),
        decreases lines.len() - i,
    {
        assert(lines_view(*lines)[i as int] == lines[i as int]@);
        let ghost before = cards_view(cards);
        match ScratchCard::read(lines[i].as_str()) {
            Some(card) => {
                let ghost c = card@;
                cards.push(card);
                assert(cards_view(cards) =~= before.push(c));
            },
            None => {
                proof {
                    lemma_cards_stay_none(lines_view(*lines), i + 1, lines.len() as int);
                }
                return None;
            },
        }
        i += 1;
    }
    Some(cards)
}

/// The sum of the points of the first `upto` cards, reduced modulo 2^32.
pub open spec fn points_sum(cards: Seq<(u32, Seq<u32>, Seq<u32>)>, upto: int) -> u32
    decreases upto,
{
    if upto <= 0 {
        0
    } else {
        let card = cards[upto - 1];
        wrapped(
            (points_sum(cards, upto - 1) + points(common(card.2, card.1, card.2.len() as int))) as nat,
        )
    }
}

/// The sum of the points of the cards.
pub fn total_points(cards: &Vec<ScratchCard>) -> (r: u32)
    ensures
        r == points_sum(cards_view(*cards), cards.len() as int),
{
    let mut total: u32 = 0;
    let mut i: usize = 0;
    while i < cards.len()
        invariant
            i <= cards.len(),
            total == points_sum(cards_view(*cards), i as int),
        decreases cards.len() - i,
    {
        let score = cards[i].score();
        total = ((total as u64 + score as u64) % 0x1_0000_0000) as u32;
        i += 1;
    }
    total
}

/// How many cards there are of each number.
pub struct Counts {
    pub entries: Vec<(u32, u32)>,
}

/// The counts that the entries hold, a later entry for a number before an
/// earlier one.
pub open spec fn counts_in(entries: Seq<(u32, u32)>) -> Map<u32, u32>
    decreases entries.len(),
{
    if entries.len() == 0 {
        Map::empty()
    } else {
        counts_in(entries.drop_last()).insert(entries.last().0, entries.last().1)
    }
}

/// No number has two entries.
pub open spec fn distinct_keys(entries: Seq<(u32, u32)>) -> bool {
    forall|a: int, b: int| 0 <= a < b < entries.len() ==> entries[a].0 != entries[b].0
}

/// The counts hold what the entries say.
proof fn lemma_counts_in(entries: Seq<(u32, u32)>)
    requires
        distinct_keys(entries),
    ensures
        forall|k: int|
            0 <= k < entries.len() ==> counts_in(entries).contains_key((#[trigger] entries[k]).0)
                && counts_in(entries)[entries[k].0] == entries[k].1,
        forall|key: u32|
            counts_in(entries).contains_key(key) ==> exists|k: int|
                0 <= k < entries.len() && (#[trigger] entries[k]).0 == key,
    decreases entries.len(),
{
    if entries.len() > 0 {
        let front = entries.drop_last();
        lemma_counts_in(front);
        assert forall|k: int| 0 <= k < entries.len() implies counts_in(entries).contains_key(
            (#[trigger] entries[k]).0,
        ) && counts_in(entries)[entries[k].0] == entries[k].1 by {
            if k < entries.len() - 1 {
                assert(front[k] == entries[k]);
            }
        }
        assert forall|key: u32| counts_in(entries).contains_key(key) implies exists|k: int|
            0 <= k < entries.len() && (#[trigger] entries[k]).0 == key by {
            if key == entries.last().0 {
                assert(entries[entries.len() - 1].0 == key);
            } else {
                assert(counts_in(front).contains_key(key));
                let k = choose|k: int| 0 <= k < front.len() && (#[trigger] front[k]).0 == key;
                assert(entries[k] == front[k]);
            }
        }
    }
}

/// A new count in place of an old one.
proof fn lemma_counts_update(entries: Seq<(u32, u32)>, k: int, count: u32)
    requires
        distinct_keys(entries),
        0 <= k < entries.len(),
    ensures
        distinct_keys(entries.update(k, (entries[k].0, count))),
        counts_in(entries.update(k, (entries[k].0, count))) == counts_in(entries).insert(
            entries[k].0,
            count,
        ),
    decreases entries.len(),
{
    let key = entries[k].0;
    let changed = entries.update(k, (key, count));
    let front = entries.drop_last();
    if k == entries.len() - 1 {
        assert(changed.drop_last() =~= front);
        assert(counts_in(changed) =~= counts_in(entries).insert(key, count));
    } else {
        lemma_counts_update(front, k, count);
        assert(changed.drop_last() =~= front.update(k, (key, count)));
        assert(changed.last() == entries.last());
        assert(entries.last().0 != key);
        assert(counts_in(changed) =~= counts_in(entries).insert(key, count));
    }
}

impl Counts {
    /// The counts by the numbers of the cards.
    pub open spec fn view(&self) -> Map<u32, u32> {
        counts_in(self.entries@)
    }

    /// No number has two entries.
    pub open spec fn well_formed(&self) -> bool {
        distinct_keys(self.entries@)
    }

    /// No counts.
    pub fn new() -> (r: Counts)
        ensures
            r.well_formed(),
            r@ == Map::<u32, u32>::empty(),
    {
        Counts { entries: Vec::new() }
    }

    /// The place of the entry for `key`.
    fn place(&self, key: u32) -> (r: Option<usize>)
        requires
            self.well_formed(),
        ensures
            match r {
                Some(k) => k < self.entries.len() && self.entries[k as int].0 == key
                    && self@.contains_key(key) && self@[key] == self.entries[k as int].1,
                None => !self@.contains_key(key),
            },
    {
        let mut k: usize = 0;
        while k < self.entries.len()
            invariant
                k <= self.entries.len(),
                self.well_formed(),
                forall|a: int| 0 <= a < k ==> (#[trigger] self.entries[a]).0 != key,
            decreases self.entries.len() - k,
        {
            if self.entries[k].0 == key {
                proof {
                    lemma_counts_in(self.entries@);
                    assert(self.entries@[k as int].0 == key);
                }
                return Some(k);
            }
            k += 1;
        }
        proof {
            lemma_counts_in(self.entries@);
        }
        None
    }

    /// The count for `key`, if there is one.
    pub fn get(&self, key: u32) -> (r: Option<u32>)
        requires
            self.well_formed(),
        ensures
            r == (if self@.contains_key(key) {
                Some(self@[key])
            } else {
                None
            }),
    {
        match self.place(key) {
            Some(k) => Some(self.entries[k].1),
            None => None,
        }
    }

    /// Sets the count for `key`.
    pub fn insert(&mut self, key: u32, count: u32)
        requires
            old(self).well_formed(),
        ensures
            final(self).well_formed(),
            final(self)@ == old(self)@.insert(key, count),
    {
        match self.place(key) {
            Some(k) => {
                proof {
                    lemma_counts_update(self.entries@, k as int, count);
                }
                self.entries[k] = (key, count);
            },
            None => {
                proof {
                    lemma_counts_in(self.entries@);
                    assert(self.entries@.push((key, count)).drop_last() =~= self.entries@);
                }
                self.entries.push((key, count));
            },
        }
    }
}

/// One card of each of the numbers from 1 to `n`, each number reduced
/// modulo 2^32.
pub open spec fn one_each(n: nat) -> Map<u32, u32>
    decreases n,
{
    if n == 0 {
        Map::empty()
    } else {
        one_each((n - 1) as nat).insert(wrapped(n), 1)
    }
}

/// The counts after a card of the number `id`, of which there are `copies`,
/// has won the first `upto` of the cards that follow it: `copies` more of
/// each that is counted already, and two of each that is not. Numbers and
/// counts are reduced modulo 2^32.
pub open spec fn handed(counts: Map<u32, u32>, id: u32, copies: u32, upto: nat) -> Map<u32, u32>
    decreases upto,
{
    if upto == 0 {
        counts
    } else {
        let before = handed(counts, id, copies, (upto - 1) as nat);
        let key = wrapped((id + upto) as nat);
        if before.contains_key(key) {
            before.insert(key, wrapped((before[key] + copies) as nat))
        } else {
            before.insert(key, 2)
        }
    }
}

/// How many copies there are of the card `id`.
pub open spec fn copies_of(counts: Map<u32, u32>, id: u32) -> u32 {
    if counts.contains_key(id) {
        counts[id]
    } else {
        0
    }
}

/// The number of cards counted and the counts, after the first `upto`
/// cards have been played, one after the other.
pub open spec fn played(cards: Seq<(u32, Seq<u32>, Seq<u32>)>, upto: int) -> (u32, Map<u32, u32>)
    decreases upto,
{
    if upto <= 0 {
        (0, one_each(cards.len()))
    } else {
        let (total, counts) = played(cards, upto - 1);
        let card = cards[upto - 1];
        let copies = copies_of(counts, card.0);
        (
            wrapped((total + copies) as nat),
            handed(counts, card.0, copies, common(card.2, card.1, card.2.len() as int) as nat),
        )
    }
}

/// Plays the cards, each with its copies, and counts them.
pub fn count_cards(cards: &Vec<ScratchCard>) -> (r: u32)
    ensures
        r == played(cards_view(*cards), cards.len() as int).0,
{
    let mut buffer = Counts::new();
    let mut n: usize = 0;
    while n < cards.len()
        invariant
            n <= cards.len(),
            buffer.well_formed(),
            buffer@ == one_each(n as nat),
        decreases cards.len() - n,
    {
        n += 1;
        buffer.insert(((n as u64) % 0x1_0000_0000) as u32, 1);
    }
    let mut total: u32 = 0;
    let mut k: usize = 0;
    while k < cards.len()
        invariant
            k <= cards.len(),
            buffer.well_formed(),
            (total, buffer@) == played(cards_view(*cards), k as int),
        decreases cards.len() - k,
    {
        let card = &cards[k];
        let num_cards = match buffer.get(card.id) {
            Some(count) => count,
            None => 0,
        };
        total = ((total as u64 + num_cards as u64) % 0x1_0000_0000) as u32;
        let matches = card.matches();
        let ghost begun = buffer@;
        let mut i: u32 = 0;
        while i < matches
            invariant
                i <= matches,
                buffer.well_formed(),
                buffer@ == handed(begun, card.id, num_cards, i as nat),
            decreases matches - i,
        {
            i += 1;
            let key = ((card.id as u64 + i as u64) % 0x1_0000_0000) as u32;
            match buffer.get(key) {
                Some(count) => {
                    buffer.insert(key, ((count as u64 + num_cards as u64) % 0x1_0000_0000) as u32);
                },
                None => {
                    buffer.insert(key, 2);
                },
            }
        }
        k += 1;
    }
    total
}

/// The sum of the points of the cards that `lines` describe.
pub open spec fn points_total(lines: Seq<Seq<char>>) -> Option<u32> {
    match cards_of(lines, lines.len() as int) {
        Some(cards) => Some(points_sum(cards, cards.len() as int)),
        None => None,
    }
}

/// The number of cards, copies included, that the cards of `lines` come to.
pub open spec fn cards_total(lines: Seq<Seq<char>>) -> Option<u32> {
    match cards_of(lines, lines.len() as int) {
        Some(cards) => Some(played(cards, cards.len() as int).0),
        None => None,
    }
}

impl AdventProblem for Day4 {
    open spec fn accepts_part_1(&self, lines: Seq<Seq<char>>) -> bool {
        true
    }

    open spec fn accepts_part_2(&self, lines: Seq<Seq<char>>) -> bool {
        true
    }

    open spec fn answer_part_1(&self, lines: Seq<Seq<char>>) -> Option<u32> {
        points_total(lines)
    }

    open spec fn answer_part_2(&self, lines: Seq<Seq<char>>) -> Option<u32> {
        cards_total(lines)
    }

    fn run_part_1(&self, lines: Vec<String>) -> (r: Result<u32, AdventError>) {
        match read_cards(&lines) {
            Some(cards) => Ok(total_points(&cards)),
            None => Err(parse_error("no scratchcard")),
        }
    }

    fn run_part_2(&self, lines: Vec<String>) -> (r: Result<u32, AdventError>) {
        match read_cards(&lines) {
            Some(cards) => Ok(count_cards(&cards)),
            None => Err(parse_error("no scratchcard")),
        }
    }
}

} // verus!
