//! A disk map: files and free space, and two ways to compact them.

use crate::table::rows;
use crate::text::{chars_of_lines, digit_value, parse_error, to_digit};
use crate::{lines_view, AdventError, AdventProblem};
use vstd::prelude::*;

verus! {

pub struct Day9;

/// A disk, block by block: the number of the file that a block belongs to,
/// or `None` for a free block.
pub struct DiskMap {
    pub data: Vec<Option<u32>>,
}

/// A disk, run by run: the number of the file that the blocks of a run
/// belong to, or `None` for free blocks, and the length of the run.
pub struct CompressedDiskMap {
    pub data: Vec<(Option<u32>, u32)>,
}

/// What the run that the digit at `i` of a disk map writes holds: a file,
/// numbered in the order in which the files are written, at the even
/// places, and free space at the odd ones.
pub open spec fn part_at(i: int) -> Option<u32> {
    if i % 2 == 0 {
        Some(((i / 2) % 0x1_0000_0000) as u32)
    } else {
        None
    }
}

/// The blocks that the first `upto` digits of `text` write.
pub open spec fn blocks_of(text: Seq<char>, upto: int) -> Seq<Option<u32>>
    decreases upto,
{
    if upto <= 0 {
        Seq::empty()
    } else {
        blocks_of(text, upto - 1) + Seq::new(
            digit_value(text[upto - 1])->0 as nat,
            |k: int| part_at(upto - 1),
        )
    }
}

/// The runs that the first `upto` digits of `text` write.
pub open spec fn runs_of(text: Seq<char>, upto: int) -> Seq<(Option<u32>, u32)>
    decreases upto,
{
    if upto <= 0 {
        Seq::empty()
    } else {
        runs_of(text, upto - 1).push((part_at(upto - 1), digit_value(text[upto - 1])->0))
    }
}

/// Every character of `text` is a digit.
pub open spec fn is_disk_map(text: Seq<char>) -> bool {
    forall|i: int| 0 <= i < text.len() ==> digit_value(#[trigger] text[i]) is Some
}

/// What the run that the digit at `i` writes holds.
fn part(i: usize) -> (r: Option<u32>)
    ensures
        r == part_at(i as int),
{
    if i % 2 == 0 {
        Some((((i / 2) as u64) % 0x1_0000_0000) as u32)
    } else {
        None
    }
}

impl DiskMap {
    /// Reads a disk from its map: digits that write in turn how long a
    /// file is and how much free space follows it. `None` for a map with a
    /// character that is no digit.
    pub fn from(value: &Vec<char>) -> (r: Option<DiskMap>)
        ensures
            match r {
                Some(disk) => is_disk_map(value@) && disk.data@ == blocks_of(
                    value@,
                    value.len() as int,
                ),
                None => !is_disk_map(value@),
            },
    {
        let mut data: Vec<Option<u32>> = Vec::new();
        let mut i: usize = 0;
        while i < value.len()
            invariant
                i <= value.len(),
                forall|k: int| 0 <= k < i ==> digit_value(#[trigger] value[k]) is Some,
                data@ == blocks_of(value@, i as int),
            decreases value.len() - i,
        {
            let here = part(i);
            let n = match to_digit(value[i]) {
                Some(n) => n,
                None => {
                    return None;
                },
            };
            let ghost before = data@;
            let mut k: u32 = 0;
            while k < n
                invariant
                    k <= n,
                    data@ == before + Seq::new(k as nat, |t: int| here),
                decreases n - k,
            {
                data.push(here);
                assert(data@ =~= before + Seq::new((k + 1) as nat, |t: int| here));
                k += 1;
            }
            assert(Seq::new(n as nat, |t: int| here) =~= Seq::new(
                n as nat,
                |t: int| part_at(i as int),
            ));
            i += 1;
        }
        Some(DiskMap { data })
    }

    /// Moves the blocks of files from the end of the disk into the free
    /// blocks at its beginning, one by one, until no free block lies before
    /// a block of a file.
    pub fn move_blocks(&mut self)
        ensures
            final(self).data@ == compacted(old(self).data@),
    {
        let ghost orig = self.data@;
        let mut i: usize = 0;
        let mut hi: usize = self.data.len();
        proof {
            assert(orig.subrange(0, orig.len() as int) =~= orig);
            assert(self.data@.subrange(0, 0) + compacted(orig) + self.data@.subrange(
                hi as int,
                hi as int,
            ) =~= compacted(orig));
        }
        while hi - i > 1
            invariant
                i <= hi <= self.data.len(),
                self.data.len() == orig.len(),
                self.data@.subrange(i as int, hi as int) == orig.subrange(i as int, hi as int),
                self.data@.subrange(0, i as int) + compacted(orig.subrange(i as int, hi as int))
                    + self.data@.subrange(hi as int, orig.len() as int) == compacted(orig),
            decreases hi - i,
        {
            let ghost seg = orig.subrange(i as int, hi as int);
            let ghost before = self.data@;
            proof {
                assert(seg[0] == self.data@.subrange(i as int, hi as int)[0]);
                assert(seg.last() == self.data@.subrange(i as int, hi as int)[hi - i - 1]);
                lemma_compacted_len(seg.drop_first());
                lemma_compacted_len(seg.drop_last());
                lemma_compacted_len(seg.subrange(1, seg.len() - 1));
            }
            if self.data[i].is_some() {
                proof {
                    assert(seg.drop_first() =~= orig.subrange(i + 1, hi as int));
                    assert(before.subrange(0, i + 1) =~= before.subrange(0, i as int) + seq![seg[0]]);
                    assert(before.subrange(i + 1, hi as int) =~= orig.subrange(i + 1, hi as int));
                    assert(before.subrange(0, i + 1) + compacted(orig.subrange(i + 1, hi as int))
                        + before.subrange(hi as int, orig.len() as int) =~= before.subrange(
                        0,
                        i as int,
                    ) + compacted(seg) + before.subrange(hi as int, orig.len() as int));
                }
                i += 1;
            } else if self.data[hi - 1].is_none() {
                proof {
                    assert(seg.drop_last() =~= orig.subrange(i as int, hi - 1));
                    assert(before.subrange(hi - 1, orig.len() as int) =~= seq![seg.last()]
                        + before.subrange(hi as int, orig.len() as int));
                    assert(before.subrange(i as int, hi - 1) =~= orig.subrange(i as int, hi - 1));
                    assert(before.subrange(0, i as int) + compacted(orig.subrange(i as int, hi - 1))
                        + before.subrange(hi - 1, orig.len() as int) =~= before.subrange(
                        0,
                        i as int,
                    ) + compacted(seg) + before.subrange(hi as int, orig.len() as int));
                }
                hi -= 1;
            } else {
                let moved = self.data[hi - 1];
                self.data[i] = moved;
                self.data[hi - 1] = None;
                proof {
                    let now = self.data@;
                    assert(seg.subrange(1, seg.len() - 1) =~= orig.subrange(i + 1, hi - 1));
                    assert(now.subrange(i + 1, hi - 1) =~= orig.subrange(i + 1, hi - 1));
                    assert(now.subrange(0, i + 1) =~= before.subrange(0, i as int) + seq![
                        seg.last(),
                    ]);
                    assert(now.subrange(hi - 1, orig.len() as int) =~= seq![None::<u32>]
                        + before.subrange(hi as int, orig.len() as int));
                    assert(now.subrange(0, i + 1) + compacted(orig.subrange(i + 1, hi - 1))
                        + now.subrange(hi - 1, orig.len() as int) =~= before.subrange(0, i as int)
                        + compacted(seg) + before.subrange(hi as int, orig.len() as int));
                }
                i += 1;
                hi -= 1;
            }
        }
        proof {
            let seg = orig.subrange(i as int, hi as int);
            if seg.len() == 1 {
                let none = Seq::<Option<u32>>::empty();
                assert(seg.drop_first() =~= none);
                assert(seg.drop_last() =~= none);
                assert(compacted(none) =~= none);
                assert(seg =~= seq![seg[0]]);
                assert(compacted(seg) =~= seg);
            }
            assert(self.data@ =~= self.data@.subrange(0, i as int) + self.data@.subrange(
                i as int,
                hi as int,
            ) + self.data@.subrange(hi as int, orig.len() as int));
        }
    }

    /// The sum, over the blocks before the first free one, of the place of
    /// the block times the number of its file, reduced modulo 2^64.
    pub fn checksum(&self) -> (r: u64)
        ensures
            r == block_sum(self.data@, used_len(self.data@, 0)),
    {
        let mut total: u64 = 0;
        let mut i: usize = 0;
        while i < self.data.len()
            invariant
                i <= self.data.len(),
                used_len(self.data@, 0) == used_len(self.data@, i as int),
                total == block_sum(self.data@, i as int),
            decreases self.data.len() - i,
        {
            match self.data[i] {
                Some(v) => {
                    assert((i as u128) * (v as u128) <= 0xffff_ffff_ffff_ffff * 0xffff_ffff)
                        by (nonlinear_arith)
                        requires
                            i <= 0xffff_ffff_ffff_ffff,
                            v <= 0xffff_ffff,
                    ;
                    total = ((total as u128 + (i as u128) * (v as u128))
                        % 0x1_0000_0000_0000_0000) as u64;
                },
                None => {
                    return total;
                },
            }
            i += 1;
        }
        total
    }
}

/// The disk after its blocks are moved: blocks of files at the beginning
/// stay, free blocks at the end stay, and a block of a file at the end
/// changes places with a free block at the beginning.
pub open spec fn compacted(s: Seq<Option<u32>>) -> Seq<Option<u32>>
    decreases s.len(),
{
    if s.len() == 0 {
        s
    } else if s[0] is Some {
        seq![s[0]] + compacted(s.drop_first())
    } else if s.last() is None {
        compacted(s.drop_last()) + seq![s.last()]
    } else {
        seq![s.last()] + compacted(s.subrange(1, s.len() - 1)) + seq![None]
    }
}

/// Moving blocks keeps the length of the disk.
pub proof fn lemma_compacted_len(s: Seq<Option<u32>>)
    ensures
        compacted(s).len() == s.len(),
    decreases s.len(),
{
    if s.len() == 0 {
    } else if s[0] is Some {
        lemma_compacted_len(s.drop_first());
    } else if s.last() is None {
        lemma_compacted_len(s.drop_last());
    } else {
        lemma_compacted_len(s.subrange(1, s.len() - 1));
    }
}

/// The place of the first free block at or behind `from`, or the length
/// of the disk if there is none.
pub open spec fn used_len(s: Seq<Option<u32>>, from: int) -> int
    decreases s.len() - from,
{
    if from < 0 || from >= s.len() || s[from] is None {
        if from < s.len() {
            from
        } else {
            s.len() as int
        }
    } else {
        used_len(s, from + 1)
    }
}

/// The sum, over the first `upto` blocks, of the place of the block times
/// the number of its file, reduced modulo 2^64; a free block counts nothing.
pub open spec fn block_sum(s: Seq<Option<u32>>, upto: int) -> u64
    decreases upto,
{
    if upto <= 0 {
        0
    } else {
        ((block_sum(s, upto - 1) + match s[upto - 1] {
            Some(v) => (upto - 1) * v,
            None => 0,
        }) % 0x1_0000_0000_0000_0000) as u64
    }
}

/// The place of the first run of free space at or behind `from` and
/// before `upto` that is at least `need` long.
pub open spec fn first_fit(data: Seq<(Option<u32>, u32)>, upto: int, need: u32, from: int) -> Option<int>
    decreases upto - from,
{
    if from < 0 || from >= upto || from >= data.len() {
        None
    } else if data[from].0 is None && need <= data[from].1 {
        Some(from)
    } else {
        first_fit(data, upto, need, from + 1)
    }
}

/// The disk after the file at `i` has moved into the free space at `j`:
/// the two change places, and what the file leaves of the free space stays
/// free behind it, joined to the run that follows if that is free too, its
/// length then reduced modulo 2^32, and else as a run of its own.
pub open spec fn placed(data: Seq<(Option<u32>, u32)>, i: int, j: int) -> Seq<(Option<u32>, u32)> {
    let n = data[i].1;
    let size = data[j].1;
    let d1 = data.update(j, data[i]).update(i, (None, n));
    if n < size {
        if d1[j + 1].0 is None {
            d1.update(j + 1, (None, ((d1[j + 1].1 + (size - n)) % 0x1_0000_0000) as u32))
        } else {
            d1.insert(j + 1, (None, (size - n) as u32))
        }
    } else {
        d1
    }
}

/// The disk after the runs at `i` and before it, down to the third, have
/// been looked at in turn, with `fuel` looks left: a file moves into the
/// first free space before it that holds it, if there is one.
pub open spec fn moved_files(data: Seq<(Option<u32>, u32)>, i: int, fuel: nat) -> Seq<(Option<u32>, u32)>
    decreases fuel,
{
    if i <= 1 || i >= data.len() || fuel == 0 {
        data
    } else if data[i].0 is Some {
        match first_fit(data, i, data[i].1, 0) {
            Some(j) => {
                let after = placed(data, i, j);
                moved_files(
                    after,
                    if after.len() > data.len() {
                        i
                    } else {
                        i - 1
                    },
                    (fuel - 1) as nat,
                )
            },
            None => moved_files(data, i - 1, (fuel - 1) as nat),
        }
    } else {
        moved_files(data, i - 1, (fuel - 1) as nat)
    }
}

/// The number of blocks in the first `upto` runs.
pub open spec fn blocks_before(data: Seq<(Option<u32>, u32)>, upto: int) -> nat
    decreases upto,
{
    if upto <= 0 {
        0
    } else {
        blocks_before(data, upto - 1) + data[upto - 1].1 as nat
    }
}

/// The sum of the places `from` up to `from + count`, each times `v`,
/// added to `total` and reduced modulo 2^64.
pub open spec fn span_sum(total: u64, from: nat, count: nat, v: u32) -> u64
    decreases count,
{
    if count == 0 {
        total
    } else {
        ((span_sum(total, from, (count - 1) as nat, v) + (from + count - 1) * v)
            % 0x1_0000_0000_0000_0000) as u64
    }
}

/// The sum, over the blocks of the files in the first `upto` runs, of the
/// place of the block times the number of its file, reduced modulo 2^64.
pub open spec fn run_sum(data: Seq<(Option<u32>, u32)>, upto: int) -> u64
    decreases upto,
{
    if upto <= 0 {
        0
    } else {
        match data[upto - 1].0 {
            Some(v) => span_sum(
                run_sum(data, upto - 1),
                blocks_before(data, upto - 1),
                data[upto - 1].1 as nat,
                v,
            ),
            None => run_sum(data, upto - 1),
        }
    }
}

impl CompressedDiskMap {
    /// Reads a disk from its map, run by run; `None` for a map with a
    /// character that is no digit.
    pub fn from(value: &Vec<char>) -> (r: Option<CompressedDiskMap>)
        ensures
            match r {
                Some(disk) => is_disk_map(value@) && disk.data@ == runs_of(
                    value@,
                    value.len() as int,
                ),
                None => !is_disk_map(value@),
            },
    {
        let mut data: Vec<(Option<u32>, u32)> = Vec::new();
        let mut i: usize = 0;
        while i < value.len()
            invariant
                i <= value.len(),
                forall|k: int| 0 <= k < i ==> digit_value(#[trigger] value[k]) is Some,
                data@ == runs_of(value@, i as int),
            decreases value.len() - i,
        {
            match to_digit(value[i]) {
                Some(n) => {
                    data.push((part(i), n));
                },
                None => {
                    return None;
                },
            }
            i += 1;
        }
        Some(CompressedDiskMap { data })
    }

    /// The place of the first run of free space before `upto` that is at
    /// least `need` long.
    fn find_fit(&self, upto: usize, need: u32) -> (r: Option<usize>)
        requires
            upto <= self.data.len(),
        ensures
            match r {
                Some(j) => first_fit(self.data@, upto as int, need, 0) == Some(j as int) && j < upto
                    && self.data[j as int].0 is None && need <= self.data[j as int].1,
                None => first_fit(self.data@, upto as int, need, 0) is None,
            },
    {
        let mut j: usize = 0;
        while j < upto
            invariant
                j <= upto <= self.data.len(),
                first_fit(self.data@, upto as int, need, 0) == first_fit(
                    self.data@,
                    upto as int,
                    need,
                    j as int,
                ),
            decreases upto - j,
        {
            let (space, size) = self.data[j];
            if space.is_none() && need <= size {
                return Some(j);
            }
            j += 1;
        }
        None
    }

    /// Moves whole files, from the end of the disk on, each into the first
    /// free space before it that holds it. The first two runs are not
    /// looked at, and no more runs than twice as many as there are at the
    /// outset, and two.
    pub fn move_blocks(&mut self)
        ensures
            final(self).data@ == moved_files(
                old(self).data@,
                old(self).data@.len() - 1,
                (2 * old(self).data@.len() + 2) as nat,
            ),
    {
        let n = self.data.len();
        if n == 0 {
            return ;
        }
        let mut i = n - 1;
        let mut fuel: u128 = 2 * (n as u128) + 2;
        let ghost goal = moved_files(self.data@, i as int, fuel as nat);
        while i > 1 && fuel > 0
            invariant
                i < self.data.len(),
                moved_files(self.data@, i as int, fuel as nat) == goal,
            decreases fuel,
        {
            fuel = fuel - 1;
            let (file, len) = self.data[i];
            let ghost before = self.data@;
            if file.is_some() {
                match self.find_fit(i, len) {
                    Some(j) => {
                        let size = self.data[j].1;
                        self.data[j] = (file, len);
                        self.data[i] = (None, len);
                        if len < size {
                            if self.data[j + 1].0.is_none() {
                                let joined = ((self.data[j + 1].1 as u64 + (size - len) as u64)
                                    % 0x1_0000_0000) as u32;
                                self.data[j + 1] = (None, joined);
                                assert(self.data@ =~= placed(before, i as int, j as int));
                                i -= 1;
                            } else {
                                self.data.insert(j + 1, (None, size - len));
                                assert(self.data@ =~= placed(before, i as int, j as int));
                            }
                        } else {
                            assert(self.data@ =~= placed(before, i as int, j as int));
                            i -= 1;
                        }
                    },
                    None => {
                        i -= 1;
                    },
                }
            } else {
                i -= 1;
            }
        }
    }

    /// The sum, over the blocks of all files, of the place of the block
    /// times the number of its file, reduced modulo 2^64.
    pub fn checksum(&self) -> (r: u64)
        ensures
            r == run_sum(self.data@, self.data@.len() as int),
    {
        let mut total: u64 = 0;
        let mut at: u128 = 0;
        let mut k: usize = 0;
        while k < self.data.len()
            invariant
                k <= self.data.len(),
                at == blocks_before(self.data@, k as int),
                at <= k * 0xffff_ffff,
                total == run_sum(self.data@, k as int),
            decreases self.data.len() - k,
        {
            let (v, n) = self.data[k];
            if let Some(v) = v {
                let ghost start = total;
                let mut t: u32 = 0;
                while t < n
                    invariant
                        t <= n,
                        at <= 0xffff_ffff_ffff_ffff * 0xffff_ffff,
                        total == span_sum(start, at as nat, t as nat, v),
                    decreases n - t,
                {
                    let place: u128 = at + t as u128;
                    assert(place * (v as u128) <= 0x1_0000_0000_0000_0000_0000_0000 * 0xffff_ffff)
                        by (nonlinear_arith)
                        requires
                            place <= 0x1_0000_0000_0000_0000_0000_0000,
                            v <= 0xffff_ffff,
                    ;
                    total = ((total as u128 + place * (v as u128)) % 0x1_0000_0000_0000_0000)
                        as u64;
                    t += 1;
                }
            }
            at = at + n as u128;
            k += 1;
        }
        total
    }
}

/// The disk map that the lines hold: the first line.
pub open spec fn disk_of(lines: Seq<Seq<char>>) -> Option<Seq<char>> {
    if lines.len() > 0 && is_disk_map(lines[0]) {
        Some(lines[0])
    } else {
        None
    }
}

/// The checksum of the disk that the first line maps, after its blocks
/// are moved one by one.
pub fn block_checksum(lines: &Vec<Vec<char>>) -> (r: Result<u64, AdventError>)
    ensures
        match r {
            Ok(sum) => disk_of(rows(*lines)) matches Some(text) && sum == block_sum(
                compacted(blocks_of(text, text.len() as int)),
                used_len(compacted(blocks_of(text, text.len() as int)), 0),
            ),
            Err(e) => disk_of(rows(*lines)) is None && e is InputParseError,
        },
{
    if lines.len() == 0 {
        return Err(parse_error("the disk map stands in the first line"));
    }
    assert(rows(*lines)[0] == lines[0]@);
    match DiskMap::from(&lines[0]) {
        Some(mut d) => {
            d.move_blocks();
            Ok(d.checksum())
        },
        None => Err(parse_error("a disk map is written in digits")),
    }
}

/// The checksum of the disk that the first line maps, after its files are
/// moved whole.
pub fn file_checksum(lines: &Vec<Vec<char>>) -> (r: Result<u64, AdventError>)
    ensures
        match r {
            Ok(sum) => disk_of(rows(*lines)) matches Some(text) && ({
                let given = runs_of(text, text.len() as int);
                let after = moved_files(given, given.len() - 1, (2 * given.len() + 2) as nat);
                sum == run_sum(after, after.len() as int)
            }),
            Err(e) => disk_of(rows(*lines)) is None && e is InputParseError,
        },
{
    if lines.len() == 0 {
        return Err(parse_error("the disk map stands in the first line"));
    }
    assert(rows(*lines)[0] == lines[0]@);
    match CompressedDiskMap::from(&lines[0]) {
        Some(mut d) => {
            d.move_blocks();
            Ok(d.checksum())
        },
        None => Err(parse_error("a disk map is written in digits")),
    }
}

impl AdventProblem for Day9 {
    open spec fn accepts_part_1(&self, lines: Seq<Seq<char>>) -> bool {
        true
    }

    open spec fn accepts_part_2(&self, lines: Seq<Seq<char>>) -> bool {
        true
    }

    open spec fn answer_part_1(&self, lines: Seq<Seq<char>>) -> Option<u32> {
        if disk_of(lines) is Some {
            Some(0)
        } else {
            None
        }
    }

    open spec fn answer_part_2(&self, lines: Seq<Seq<char>>) -> Option<u32> {
        if disk_of(lines) is Some {
            Some(0)
        } else {
            None
        }
    }

    /// The answer of this part is wider than the number returned, and
    /// `block_checksum` gives it; the number is 0 for every disk map.
    fn run_part_1(&self, lines: Vec<String>) -> (r: Result<u32, AdventError>) {
        let text = chars_of_lines(&lines);
        match block_checksum(&text) {
            Ok(_) => Ok(0),
            Err(e) => Err(e),
        }
    }

    /// The answer of this part is wider than the number returned, and
    /// `file_checksum` gives it; the number is 0 for every disk map.
    fn run_part_2(&self, lines: Vec<String>) -> (r: Result<u32, AdventError>) {
        let text = chars_of_lines(&lines);
        match file_checksum(&text) {
            Ok(_) => Ok(0),
            Err(e) => Err(e),
        }
    }
}

} // verus!
