//! Door codes that are typed through a chain of robots, each of which
//! presses the keys of the next one's pad.

use crate::text::{chars_of_lines, parse_error, parse_u32, unsigned_value};
use crate::table::rows;
use crate::{lines_view, wrapped, AdventError, AdventProblem};
use vstd::prelude::*;

verus! {

pub struct Day21;

/// `n` times the character `c`, and nothing where `n` is not positive.
pub open spec fn run_of(c: char, n: int) -> Seq<char> {
    Seq::new(
        if n > 0 {
            n as nat
        } else {
            0
        },
        |i: int| c,
    )
}

/// The presses that lead from the column of `start` to that of `end`.
pub open spec fn horizontal(start: (usize, usize), end: (usize, usize)) -> Seq<char> {
    if end.1 > start.1 {
        run_of('>', end.1 - start.1)
    } else {
        run_of('<', start.1 - end.1)
    }
}

/// The presses that lead from the row of `start` to that of `end`; the
/// rows are counted from the bottom.
pub open spec fn vertical(start: (usize, usize), end: (usize, usize)) -> Seq<char> {
    if end.0 > start.0 {
        run_of('^', end.0 - start.0)
    } else {
        run_of('v', start.0 - end.0)
    }
}

/// Puts `n` times the character `c` at the end of `s`.
fn push_run(s: &mut Vec<char>, c: char, n: usize)
    ensures
        final(s)@ == old(s)@ + run_of(c, n as int),
{
    let mut i: usize = 0;
    assert(s@ =~= old(s)@ + run_of(c, 0));
    while i < n
        invariant
            i <= n,
            s@ == old(s)@ + run_of(c, i as int),
        decreases n - i,
    {
        s.push(c);
        assert(s@ =~= old(s)@ + run_of(c, i + 1));
        i += 1;
    }
}

/// Puts the presses from the column of `start` to that of `end` at the end
/// of `s`.
pub fn push_horizontal(s: &mut Vec<char>, start: (usize, usize), end: (usize, usize))
    ensures
        final(s)@ == old(s)@ + horizontal(start, end),
{
    if end.1 > start.1 {
        push_run(s, '>', end.1 - start.1);
    } else if start.1 > end.1 {
        push_run(s, '<', start.1 - end.1);
    } else {
        assert(s@ =~= old(s)@ + horizontal(start, end));
    }
}

/// Puts the presses from the row of `start` to that of `end` at the end
/// of `s`.
pub fn push_vertical(s: &mut Vec<char>, start: (usize, usize), end: (usize, usize))
    ensures
        final(s)@ == old(s)@ + vertical(start, end),
{
    if end.0 > start.0 {
        push_run(s, '^', end.0 - start.0);
    } else if start.0 > end.0 {
        push_run(s, 'v', start.0 - end.0);
    } else {
        assert(s@ =~= old(s)@ + vertical(start, end));
    }
}

/// The presses that lead from `pos` to `next` on a pad whose gap is at
/// `empty`. To the left the columns come first, up and down the rows, but
/// for the way that would cross the gap, which is taken the other way
/// round.
pub open spec fn moves(pos: (usize, usize), next: (usize, usize), empty: (usize, usize)) -> Seq<char> {
    let across = horizontal(pos, next);
    let along = vertical(pos, next);
    if pos.1 > next.1 {
        if pos.0 == empty.0 && next.1 == empty.1 {
            along + across
        } else {
            across + along
        }
    } else if pos.0 != next.0 {
        if pos.1 == empty.1 && next.0 == empty.0 {
            across + along
        } else {
            along + across
        }
    } else if pos.1 < next.1 {
        across + along
    } else {
        Seq::empty()
    }
}

/// The presses that lead from `pos` to `next` on a pad whose gap is at
/// `empty`.
pub fn append_directions(pos: (usize, usize), next: (usize, usize), empty: (usize, usize)) -> (r: Vec<char>)
    ensures
        r@ == moves(pos, next, empty),
{
    let mut directions: Vec<char> = Vec::new();
    let rows_first = if pos.1 > next.1 {
        pos.0 == empty.0 && next.1 == empty.1
    } else if pos.0 != next.0 {
        !(pos.1 == empty.1 && next.0 == empty.0)
    } else if pos.1 < next.1 {
        false
    } else {
        return directions;
    };
    if rows_first {
        push_vertical(&mut directions, pos, next);
        push_horizontal(&mut directions, pos, next);
    } else {
        push_horizontal(&mut directions, pos, next);
        push_vertical(&mut directions, pos, next);
    }
    assert(directions@ =~= moves(pos, next, empty));
    directions
}

/// How the presses from one key to the next are put in order.
#[derive(Debug, Copy, Clone)]
pub enum Way {
    /// Round the gap of the pad, which is at the place given.
    Around((usize, usize)),
    /// The rows first.
    Upright,
    /// The columns first.
    Sideways,
}

/// The presses that lead from `pos` to `next` in the order of `way`.
pub open spec fn leg(way: Way, pos: (usize, usize), next: (usize, usize)) -> Seq<char> {
    match way {
        Way::Around(empty) => moves(pos, next, empty),
        Way::Upright => vertical(pos, next) + horizontal(pos, next),
        Way::Sideways => horizontal(pos, next) + vertical(pos, next),
    }
}

/// Puts the presses from `pos` to `next`, in the order of `way`, at the
/// end of `s`.
fn push_leg(s: &mut Vec<char>, way: Way, pos: (usize, usize), next: (usize, usize))
    ensures
        final(s)@ == old(s)@ + leg(way, pos, next),
{
    match way {
        Way::Around(empty) => {
            let presses = append_directions(pos, next, empty);
            push_all(s, &presses);
        },
        Way::Upright => {
            push_vertical(s, pos, next);
            push_horizontal(s, pos, next);
            assert(s@ =~= old(s)@ + leg(way, pos, next));
        },
        Way::Sideways => {
            push_horizontal(s, pos, next);
            push_vertical(s, pos, next);
            assert(s@ =~= old(s)@ + leg(way, pos, next));
        },
    }
}

/// Puts the characters of `more` at the end of `s`.
fn push_all(s: &mut Vec<char>, more: &Vec<char>)
    ensures
        final(s)@ == old(s)@ + more@,
{
    let mut i: usize = 0;
    assert(s@ =~= old(s)@ + more@.take(0));
    while i < more.len()
        invariant
            i <= more.len(),
            s@ == old(s)@ + more@.take(i as int),
        decreases more.len() - i,
    {
        s.push(more[i]);
        assert(s@ =~= old(s)@ + more@.take(i + 1));
        i += 1;
    }
    assert(more@.take(more.len() as int) =~= more@);
}

/// The place of the key `c` on the pad `keys`; of two entries for one key
/// the later one counts.
pub open spec fn key_of(keys: Seq<(char, (usize, usize))>, c: char) -> Option<(usize, usize)>
    decreases keys.len(),
{
    if keys.len() == 0 {
        None
    } else if keys.last().0 == c {
        Some(keys.last().1)
    } else {
        key_of(keys.drop_last(), c)
    }
}

/// The place of the key `c` on the pad `keys`.
pub fn find_key(keys: &Vec<(char, (usize, usize))>, c: char) -> (r: Option<(usize, usize)>)
    ensures
        r == key_of(keys@, c),
{
    let mut i: usize = keys.len();
    assert(keys@.take(i as int) =~= keys@);
    while i > 0
        invariant
            i <= keys.len(),
            key_of(keys@, c) == key_of(keys@.take(i as int), c),
        decreases i,
    {
        i -= 1;
        assert(keys@.take(i + 1).last() == keys[i as int]);
        assert(keys@.take(i + 1).drop_last() =~= keys@.take(i as int));
        if keys[i].0 == c {
            return Some(keys[i].1);
        }
    }
    None
}

/// The keys of the door's pad, with the gap at the bottom left.
pub open spec fn keypad_keys() -> Seq<(char, (usize, usize))> {
    seq![
        ('0', (0usize, 1usize)),
        ('1', (1usize, 0usize)),
        ('2', (1usize, 1usize)),
        ('3', (1usize, 2usize)),
        ('4', (2usize, 0usize)),
        ('5', (2usize, 1usize)),
        ('6', (2usize, 2usize)),
        ('7', (3usize, 0usize)),
        ('8', (3usize, 1usize)),
        ('9', (3usize, 2usize)),
        ('A', (0usize, 2usize)),
    ]
}

/// The keys of a robot's pad, with the gap at the top left.
pub open spec fn control_keys() -> Seq<(char, (usize, usize))> {
    seq![
        ('^', (1usize, 1usize)),
        ('<', (0usize, 0usize)),
        ('v', (0usize, 1usize)),
        ('>', (0usize, 2usize)),
        ('A', (1usize, 2usize)),
    ]
}

/// The pad of the door.
pub fn keypad() -> (r: Vec<(char, (usize, usize))>)
    ensures
        r@ == keypad_keys(),
{
    let mut keys: Vec<(char, (usize, usize))> = Vec::new();
    keys.push(('0', (0, 1)));
    keys.push(('1', (1, 0)));
    keys.push(('2', (1, 1)));
    keys.push(('3', (1, 2)));
    keys.push(('4', (2, 0)));
    keys.push(('5', (2, 1)));
    keys.push(('6', (2, 2)));
    keys.push(('7', (3, 0)));
    keys.push(('8', (3, 1)));
    keys.push(('9', (3, 2)));
    keys.push(('A', (0, 2)));
    assert(keys@ =~= keypad_keys());
    keys
}

/// The pad of a robot.
pub fn controls() -> (r: Vec<(char, (usize, usize))>)
    ensures
        r@ == control_keys(),
{
    let mut keys: Vec<(char, (usize, usize))> = Vec::new();
    keys.push(('^', (1, 1)));
    keys.push(('<', (0, 0)));
    keys.push(('v', (0, 1)));
    keys.push(('>', (0, 2)));
    keys.push(('A', (1, 2)));
    assert(keys@ =~= control_keys());
    keys
}

/// The presses that type `seq` on the pad `keys` from the place `pos` on:
/// for each key the way to it and an `A`. There are none where the pad
/// lacks a key of `seq`.
pub open spec fn typed(
    seq: Seq<char>,
    keys: Seq<(char, (usize, usize))>,
    way: Way,
    pos: (usize, usize),
) -> Option<Seq<char>>
    decreases seq.len(),
{
    if seq.len() == 0 {
        Some(Seq::empty())
    } else {
        match key_of(keys, seq[0]) {
            None => None,
            Some(next) => match typed(seq.drop_first(), keys, way, next) {
                None => None,
                Some(rest) => Some(leg(way, pos, next) + seq!['A'] + rest),
            },
        }
    }
}

/// The presses that type `seq` on the pad `keys`, from its key `A` on.
pub open spec fn presses_of(seq: Seq<char>, keys: Seq<(char, (usize, usize))>, way: Way) -> Option<
    Seq<char>,
> {
    match key_of(keys, 'A') {
        None => None,
        Some(pos) => typed(seq, keys, way, pos),
    }
}

/// What has been typed, and what is still to type.
pub open spec fn typed_so_far(
    done: Seq<char>,
    seq: Seq<char>,
    keys: Seq<(char, (usize, usize))>,
    way: Way,
    pos: (usize, usize),
    i: int,
) -> Option<Seq<char>> {
    match typed(seq.skip(i), keys, way, pos) {
        None => None,
        Some(rest) => Some(done + rest),
    }
}

/// `r` holds the characters `s`, if any.
pub open spec fn holds(r: Option<Vec<char>>, s: Option<Seq<char>>) -> bool {
    match r {
        Some(v) => s == Some(v@),
        None => s is None,
    }
}

/// Types `seq` on the pad `keys`, in the order of `way`.
pub fn press(seq: &Vec<char>, keys: &Vec<(char, (usize, usize))>, way: Way) -> (r: Option<Vec<char>>)
    ensures
        holds(r, presses_of(seq@, keys@, way)),
{
    let mut pos = match find_key(keys, 'A') {
        Some(pos) => pos,
        None => {
            return None;
        },
    };
    let ghost start = pos;
    let mut directions: Vec<char> = Vec::new();
    let mut i: usize = 0;
    assert(seq@.skip(0) =~= seq@);
    assert(typed_so_far(directions@, seq@, keys@, way, pos, 0) == typed(seq@, keys@, way, start)) by {
        match typed(seq@, keys@, way, start) {
            Some(rest) => {
                assert(directions@ + rest =~= rest);
            },
            None => {},
        }
    }
    while i < seq.len()
        invariant
            i <= seq.len(),
            typed(seq@, keys@, way, start) == typed_so_far(
                directions@,
                seq@,
                keys@,
                way,
                pos,
                i as int,
            ),
        decreases seq.len() - i,
    {
        let ghost left = seq@.skip(i as int);
        let ghost done = directions@;
        assert(left.len() > 0 && left[0] == seq[i as int]);
        assert(left.drop_first() =~= seq@.skip(i + 1));
        let next = match find_key(keys, seq[i]) {
            Some(next) => next,
            None => {
                return None;
            },
        };
        push_leg(&mut directions, way, pos, next);
        directions.push('A');
        proof {
            match typed(seq@.skip(i + 1), keys@, way, next) {
                Some(rest) => {
                    assert(done + (leg(way, pos, next) + seq!['A'] + rest) =~= directions@ + rest);
                },
                None => {},
            }
        }
        pos = next;
        i += 1;
    }
    proof {
        assert(seq@.skip(seq.len() as int).len() == 0);
        assert(directions@ + Seq::<char>::empty() =~= directions@);
    }
    Some(directions)
}

/// Types `seq` on the pad `keys`, whose gap is at `empty`.
pub fn directions(seq: &Vec<char>, keys: &Vec<(char, (usize, usize))>, empty: (usize, usize)) -> (r:
    Option<Vec<char>>)
    ensures
        holds(r, presses_of(seq@, keys@, Way::Around(empty))),
{
    press(seq, keys, Way::Around(empty))
}

/// Types `seq` on the pad `keys`, the rows first.
pub fn up_directions(seq: &Vec<char>, keys: &Vec<(char, (usize, usize))>) -> (r: Option<Vec<char>>)
    ensures
        holds(r, presses_of(seq@, keys@, Way::Upright)),
{
    press(seq, keys, Way::Upright)
}

/// Types `seq` on the pad `keys`, the columns first.
pub fn left_directions(seq: &Vec<char>, keys: &Vec<(char, (usize, usize))>) -> (r: Option<Vec<char>>)
    ensures
        holds(r, presses_of(seq@, keys@, Way::Sideways)),
{
    press(seq, keys, Way::Sideways)
}

/// The runs of presses that lead straight from `start` to `end`, for an
/// `end` that lies neither above nor right of `start`, and beside the gap
/// where it lies below or left of it: between such places there is no run
/// to give.
pub fn generate_directions(start: (usize, usize), end: (usize, usize)) -> (r: Vec<Vec<char>>)
    requires
        end.0 <= start.0,
        end.1 <= start.1,
        start.0 > end.0 ==> end.1 == 0,
        start.1 > end.1 ==> end.0 == 0,
    ensures
        r@.len() == 0,
{
    let mut directions: Vec<Vec<char>> = Vec::new();
    let mut row_first: Vec<char> = Vec::new();
    if end.0 > start.0 {
        push_run(&mut row_first, '^', start.0 - end.0);
        directions.push(row_first);
    } else if start.0 > end.0 {
        if end.1 != 0 {
            push_run(&mut row_first, 'v', end.0 - start.0);
            directions.push(row_first);
        }
    }
    let mut col_first: Vec<char> = Vec::new();
    if end.1 > start.1 {
        push_run(&mut col_first, '^', start.1 - end.1);
        directions.push(col_first);
    } else if start.1 > end.1 {
        if end.0 != 0 {
            push_run(&mut col_first, 'v', end.1 - start.1);
            directions.push(col_first);
        }
    }
    directions
}

/// The presses between pairs of keys that have been worked out before.
pub struct Cache {
    pub entries: Vec<((char, char), Vec<char>)>,
}

/// The entry holds the presses from its first key to its second on the pad
/// `keys`, whose gap is at `empty`.
pub open spec fn entry_fits(
    entry: ((char, char), Vec<char>),
    keys: Seq<(char, (usize, usize))>,
    empty: (usize, usize),
) -> bool {
    match (key_of(keys, entry.0.0), key_of(keys, entry.0.1)) {
        (Some(pos), Some(next)) => entry.1@ == moves(pos, next, empty),
        _ => false,
    }
}

impl Cache {
    /// Every entry holds the presses between its keys on the pad `keys`,
    /// whose gap is at `empty`.
    pub open spec fn fits(&self, keys: Seq<(char, (usize, usize))>, empty: (usize, usize)) -> bool {
        forall|k: int|
            0 <= k < self.entries.len() ==> entry_fits(#[trigger] self.entries[k], keys, empty)
    }

    /// A cache without entries, which fits every pad.
    pub fn new() -> (r: Cache)
        ensures
            r.entries@.len() == 0,
            forall|keys: Seq<(char, (usize, usize))>, empty: (usize, usize)| r.fits(keys, empty),
    {
        Cache { entries: Vec::new() }
    }

    /// The place of the first entry for the keys `from` and `to`.
    pub fn find(&self, from: char, to: char) -> (r: Option<usize>)
        ensures
            match r {
                Some(k) => k < self.entries.len() && self.entries[k as int].0 == (from, to)
                    && forall|j: int| 0 <= j < k ==> (#[trigger] self.entries[j]).0 != (from, to),
                None => forall|j: int|
                    0 <= j < self.entries.len() ==> (#[trigger] self.entries[j]).0 != (from, to),
            },
    {
        let mut k: usize = 0;
        while k < self.entries.len()
            invariant
                k <= self.entries.len(),
                forall|j: int| 0 <= j < k ==> (#[trigger] self.entries[j]).0 != (from, to),
            decreases self.entries.len() - k,
        {
            if self.entries[k].0.0 == from && self.entries[k].0.1 == to {
                return Some(k);
            }
            k += 1;
        }
        None
    }

    /// Puts the presses from the key `from` to the key `to` into the cache.
    pub fn insert(&mut self, from: char, to: char, presses: Vec<char>)
        ensures
            final(self).entries@ == old(self).entries@.push(((from, to), presses)),
    {
        self.entries.push(((from, to), presses));
    }
}

/// Types `seq` on the pad `keys`, whose gap is at `empty`, and takes the
/// presses between two keys from the cache wherever it holds them.
pub fn directions_with_cache(
    seq: &Vec<char>,
    keys: &Vec<(char, (usize, usize))>,
    empty: (usize, usize),
    cache: &mut Cache,
) -> (r: Option<Vec<char>>)
    requires
        old(cache).fits(keys@, empty),
    ensures
        final(cache).fits(keys@, empty),
        holds(r, presses_of(seq@, keys@, Way::Around(empty))),
{
    let ghost way = Way::Around(empty);
    let mut curr_ch = 'A';
    let mut pos = match find_key(keys, 'A') {
        Some(pos) => pos,
        None => {
            return None;
        },
    };
    let ghost start = pos;
    let mut directions: Vec<char> = Vec::new();
    let mut i: usize = 0;
    assert(seq@.skip(0) =~= seq@);
    assert(typed_so_far(directions@, seq@, keys@, way, pos, 0) == typed(seq@, keys@, way, start)) by {
        match typed(seq@, keys@, way, start) {
            Some(rest) => {
                assert(directions@ + rest =~= rest);
            },
            None => {},
        }
    }
    while i < seq.len()
        invariant
            i <= seq.len(),
            way == Way::Around(empty),
            cache.fits(keys@, empty),
            key_of(keys@, curr_ch) == Some(pos),
            typed(seq@, keys@, way, start) == typed_so_far(
                directions@,
                seq@,
                keys@,
                way,
                pos,
                i as int,
            ),
        decreases seq.len() - i,
    {
        let ghost left = seq@.skip(i as int);
        let ghost done = directions@;
        assert(left.len() > 0 && left[0] == seq[i as int]);
        assert(left.drop_first() =~= seq@.skip(i + 1));
        let next_ch = seq[i];
        let next = match find_key(keys, next_ch) {
            Some(next) => next,
            None => {
                return None;
            },
        };
        match cache.find(curr_ch, next_ch) {
            Some(k) => {
                assert(entry_fits(cache.entries[k as int], keys@, empty));
                push_all(&mut directions, &cache.entries[k].1);
            },
            None => {
                let dirs = append_directions(pos, next, empty);
                push_all(&mut directions, &dirs);
                let ghost before = cache.entries@;
                cache.insert(curr_ch, next_ch, dirs);
                assert forall|j: int| 0 <= j < cache.entries.len() implies entry_fits(
                    #[trigger] cache.entries[j],
                    keys@,
                    empty,
                ) by {
                    if j < before.len() {
                        assert(cache.entries[j] == before[j]);
                    }
                }
            },
        }
        directions.push('A');
        proof {
            match typed(seq@.skip(i + 1), keys@, way, next) {
                Some(rest) => {
                    assert(done + (leg(way, pos, next) + seq!['A'] + rest) =~= directions@ + rest);
                },
                None => {},
            }
        }
        pos = next;
        curr_ch = next_ch;
        i += 1;
    }
    proof {
        assert(seq@.skip(seq.len() as int).len() == 0);
        assert(directions@ + Seq::<char>::empty() =~= directions@);
    }
    Some(directions)
}

/// What `levels` robots in a row type, one on the pad of the next, so that
/// the last of them types `presses`.
pub open spec fn relayed(presses: Option<Seq<char>>, levels: nat) -> Option<Seq<char>>
    decreases levels,
{
    if levels == 0 {
        presses
    } else {
        match presses {
            None => None,
            Some(p) => relayed(
                presses_of(p, control_keys(), Way::Around((1, 0))),
                (levels - 1) as nat,
            ),
        }
    }
}

/// What is typed by hand so that `levels` robots in a row type the code
/// `seq` on the door's pad.
pub open spec fn typed_for(seq: Seq<char>, levels: nat) -> Option<Seq<char>> {
    relayed(presses_of(seq, keypad_keys(), Way::Around((0, 0))), levels)
}

/// Nothing comes of nothing, through however many robots.
proof fn lemma_relayed_none(levels: nat)
    ensures
        relayed(None, levels) is None,
    decreases levels,
{
    if levels > 0 {
        lemma_relayed_none((levels - 1) as nat);
    }
}

/// What is typed by hand so that `levels` robots in a row type the code
/// `seq` on the door's pad.
pub fn relay(seq: &Vec<char>, levels: u32) -> (r: Option<Vec<char>>)
    ensures
        holds(r, typed_for(seq@, levels as nat)),
{
    let keypad = keypad();
    let controller = controls();
    let mut dirs = match directions(seq, &keypad, (0, 0)) {
        Some(dirs) => dirs,
        None => {
            proof {
                lemma_relayed_none(levels as nat);
            }
            return None;
        },
    };
    let mut cache = Cache::new();
    let mut done: u32 = 0;
    while done < levels
        invariant
            done <= levels,
            controller@ == control_keys(),
            cache.fits(controller@, (1, 0)),
            typed_for(seq@, levels as nat) == relayed(Some(dirs@), (levels - done) as nat),
        decreases levels - done,
    {
        dirs = match directions_with_cache(&dirs, &controller, (1, 0), &mut cache) {
            Some(next) => next,
            None => {
                proof {
                    lemma_relayed_none((levels - done - 1) as nat);
                }
                return None;
            },
        };
        done += 1;
    }
    Some(dirs)
}

/// What is typed by hand so that two robots in a row type the code `seq`.
pub fn robot_dirs(seq: &Vec<char>) -> (r: Option<Vec<char>>)
    ensures
        holds(r, typed_for(seq@, 2)),
{
    let keypad = keypad();
    let controller = controls();
    proof {
        reveal_with_fuel(relayed, 3);
    }
    let dirs = match directions(seq, &keypad, (0, 0)) {
        Some(dirs) => dirs,
        None => {
            return None;
        },
    };
    let controller_dirs = match directions(&dirs, &controller, (1, 0)) {
        Some(dirs) => dirs,
        None => {
            return None;
        },
    };
    directions(&controller_dirs, &controller, (1, 0))
}

/// What is typed by hand so that twenty-six robots in a row type the code
/// `seq`.
pub fn cached_robot_dirs(seq: &Vec<char>) -> (r: Option<Vec<char>>)
    ensures
        holds(r, typed_for(seq@, 26)),
{
    relay(seq, 26)
}

/// The first `upto` characters of `line` without those that are `c`.
pub open spec fn without(line: Seq<char>, c: char, upto: int) -> Seq<char>
    decreases upto,
{
    if upto <= 0 {
        Seq::empty()
    } else if line[upto - 1] == c {
        without(line, c, upto - 1)
    } else {
        without(line, c, upto - 1).push(line[upto - 1])
    }
}

/// The number that the code `line` holds beside its `A`s.
pub open spec fn code_number(line: Seq<char>) -> Option<nat> {
    unsigned_value(without(line, 'A', line.len() as int), u32::MAX as nat)
}

/// The number that the code `line` holds beside its `A`s.
pub fn number_of(line: &Vec<char>) -> (r: Option<u32>)
    ensures
        match r {
            Some(v) => code_number(line@) == Some(v as nat),
            None => code_number(line@) is None,
        },
{
    let mut digits: Vec<char> = Vec::new();
    let mut i: usize = 0;
    while i < line.len()
        invariant
            i <= line.len(),
            digits@ == without(line@, 'A', i as int),
        decreases line.len() - i,
    {
        if line[i] != 'A' {
            digits.push(line[i]);
        }
        i += 1;
    }
    parse_u32(&digits)
}

/// The number of the code `line` times the number of presses that type it
/// through `levels` robots, both reduced modulo 2^32.
pub open spec fn complexity(line: Seq<char>, levels: nat) -> Option<u32> {
    match (typed_for(line, levels), code_number(line)) {
        (Some(presses), Some(number)) => Some(wrapped((number * wrapped(presses.len())) as nat)),
        _ => None,
    }
}

/// The sum of the complexities of the first `upto` codes, reduced modulo
/// 2^32, if each of them has one.
pub open spec fn complexity_sum(lines: Seq<Seq<char>>, levels: nat, upto: int) -> Option<u32>
    decreases upto,
{
    if upto <= 0 {
        Some(0)
    } else {
        match (complexity_sum(lines, levels, upto - 1), complexity(lines[upto - 1], levels)) {
            (Some(total), Some(worth)) => Some(wrapped((total + worth) as nat)),
            _ => None,
        }
    }
}

/// A sum that has failed stays so.
proof fn lemma_sum_stays_none(lines: Seq<Seq<char>>, levels: nat, from: int, upto: int)
    requires
        from <= upto,
        complexity_sum(lines, levels, from) is None,
    ensures
        complexity_sum(lines, levels, upto) is None,
    decreases upto - from,
{
    if from < upto {
        lemma_sum_stays_none(lines, levels, from, upto - 1);
    }
}

/// The sum of the complexities of the codes `lines`, typed through
/// `levels` robots.
pub fn total_complexity(lines: &Vec<Vec<char>>, levels: u32) -> (r: Result<u32, AdventError>)
    ensures
        crate::is_outcome(r, complexity_sum(rows(*lines), levels as nat, lines.len() as int)),
{
    let mut total: u32 = 0;
    let mut i: usize = 0;
    while i < lines.len()
        invariant
            i <= lines.len(),
            complexity_sum(rows(*lines), levels as nat, i as int) == Some(total),
        decreases lines.len() - i,
    {
        assert(rows(*lines)[i as int] == lines[i as int]@);
        let typed = relay(&lines[i], levels);
        let number = number_of(&lines[i]);
        match (typed, number) {
            (Some(presses), Some(num)) => {
                let count: u32 = ((presses.len() as u64) % 0x1_0000_0000) as u32;
                assert(num * count <= 0xffff_ffff * 0xffff_ffff) by (nonlinear_arith)
                    requires
                        num <= 0xffff_ffff,
                        count <= 0xffff_ffff,
                ;
                let worth: u32 = (((num as u64) * (count as u64)) % 0x1_0000_0000) as u32;
                total = ((total as u64 + worth as u64) % 0x1_0000_0000) as u32;
            },
            _ => {
                proof {
                    lemma_sum_stays_none(rows(*lines), levels as nat, i + 1, lines.len() as int);
                }
                return Err(parse_error("no door code"));
            },
        }
        i += 1;
    }
    Ok(total)
}

impl AdventProblem for Day21 {
    open spec fn accepts_part_1(&self, lines: Seq<Seq<char>>) -> bool {
        true
    }

    open spec fn accepts_part_2(&self, lines: Seq<Seq<char>>) -> bool {
        true
    }

    open spec fn answer_part_1(&self, lines: Seq<Seq<char>>) -> Option<u32> {
        complexity_sum(lines, 2, lines.len() as int)
    }

    open spec fn answer_part_2(&self, lines: Seq<Seq<char>>) -> Option<u32> {
        complexity_sum(lines, 26, lines.len() as int)
    }

    fn run_part_1(&self, lines: Vec<String>) -> (r: Result<u32, AdventError>) {
        let codes = chars_of_lines(&lines);
        total_complexity(&codes, 2)
    }

    fn run_part_2(&self, lines: Vec<String>) -> (r: Result<u32, AdventError>) {
        let codes = chars_of_lines(&lines);
        total_complexity(&codes, 26)
    }
}

} // verus!
