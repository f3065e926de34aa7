//! Tables: vectors of rows.

use vstd::prelude::*;

verus! {

/// The rows of `table`, each as the sequence of its entries.
pub open spec fn rows<T>(table: Vec<Vec<T>>) -> Seq<Seq<T>> {
    Seq::new(table.len() as nat, |i: int| table[i]@)
}

/// The sum of `f` over the entries of `s`.
pub open spec fn tally<T>(s: Seq<T>, f: spec_fn(T) -> nat) -> nat
    decreases s.len(),
{
    if s.len() == 0 {
        0
    } else {
        tally(s.drop_last(), f) + f(s.last())
    }
}

/// Replacing one entry changes the tally by the difference of the two.
pub proof fn lemma_tally_update<T>(s: Seq<T>, j: int, x: T, f: spec_fn(T) -> nat)
    requires
        0 <= j < s.len(),
    ensures
        tally(s.update(j, x), f) + f(s[j]) == tally(s, f) + f(x),
    decreases s.len(),
{
    let u = s.update(j, x);
    if j == s.len() - 1 {
        assert(u.drop_last() =~= s.drop_last());
    } else {
        assert(u.drop_last() =~= s.drop_last().update(j, x));
        lemma_tally_update(s.drop_last(), j, x, f);
    }
}

/// What a sequence holds after a push: what it held, and the new entry.
pub proof fn lemma_push_contains<T>(s: Seq<T>, x: T)
    ensures
        forall|y: T| #[trigger] s.push(x).contains(y) <==> s.contains(y) || y == x,
{
    assert forall|y: T| #[trigger] s.push(x).contains(y) <==> s.contains(y) || y == x by {
        if s.push(x).contains(y) {
            let k = choose|k: int| 0 <= k < s.push(x).len() && s.push(x)[k] == y;
            if k < s.len() {
                assert(s[k] == y);
            }
        }
        if s.contains(y) {
            let k = choose|k: int| 0 <= k < s.len() && s[k] == y;
            assert(s.push(x)[k] == y);
        }
        if y == x {
            assert(s.push(x)[s.len() as int] == y);
        }
    }
}

/// A sequence without repeats stays so when something new is pushed.
pub proof fn lemma_push_no_duplicates<T>(s: Seq<T>, x: T)
    requires
        s.no_duplicates(),
        !s.contains(x),
    ensures
        s.push(x).no_duplicates(),
{
    let t = s.push(x);
    assert forall|i: int, j: int| 0 <= i < t.len() && 0 <= j < t.len() && i != j implies t[i]
        != t[j] by {
        if i < s.len() && j < s.len() {
            assert(s[i] != s[j]);
        } else if i < s.len() {
            assert(s.contains(s[i]));
        } else {
            assert(s.contains(s[j]));
        }
    }
}

/// `cells` with the entry in row `r` and column `c` replaced by `x`.
pub open spec fn put<T>(cells: Seq<Seq<T>>, r: int, c: int, x: T) -> Seq<Seq<T>> {
    cells.update(r, cells[r].update(c, x))
}

/// The sum of `f` over all entries of all rows of `cells`.
pub open spec fn tally_all<T>(cells: Seq<Seq<T>>, f: spec_fn(T) -> nat) -> nat {
    tally(cells, |row: Seq<T>| tally(row, f))
}

/// Replacing one entry of a table changes the tally by the difference of the two.
pub proof fn lemma_tally_put<T>(cells: Seq<Seq<T>>, r: int, c: int, x: T, f: spec_fn(T) -> nat)
    requires
        0 <= r < cells.len(),
        0 <= c < cells[r].len(),
    ensures
        tally_all(put(cells, r, c, x), f) + f(cells[r][c]) == tally_all(cells, f) + f(x),
{
    lemma_tally_update(cells[r], c, x, f);
    lemma_tally_update(cells, r, cells[r].update(c, x), |row: Seq<T>| tally(row, f));
}

/// `s` is in ascending order.
pub open spec fn ascending(s: Seq<u32>) -> bool {
    forall|i: int, j: int| 0 <= i < j < s.len() ==> s[i] <= s[j]
}

/// `slice::sort` of the standard library on numbers: what it leaves is in
/// ascending order and holds what was there before, each number as often.
#[verifier::external_body]
pub(crate) fn sort(v: &mut Vec<u32>)
    ensures
        ascending(final(v)@),
        final(v)@.to_multiset() == old(v)@.to_multiset(),
{
    v.sort();
}

/// Puts `x` at the end of `v` unless `v` holds it already.
pub fn insert_unique(v: &mut Vec<(usize, usize)>, x: (usize, usize))
    requires
        old(v)@.no_duplicates(),
    ensures
        final(v)@.no_duplicates(),
        forall|y: (usize, usize)| #[trigger] final(v)@.contains(y) <==> old(v)@.contains(y) || y == x,
        final(v)@ == old(v)@ || final(v)@ == old(v)@.push(x),
{
    let mut i: usize = 0;
    while i < v.len()
        invariant
            i <= v.len(),
            v@ == old(v)@,
            v@.no_duplicates(),
            forall|j: int| 0 <= j < i ==> v[j] != x,
        decreases v.len() - i,
    {
        if v[i].0 == x.0 && v[i].1 == x.1 {
            assert(v@.contains(x));
            return ;
        }
        i += 1;
    }
    proof {
        lemma_push_contains(v@, x);
        lemma_push_no_duplicates(v@, x);
    }
    v.push(x);
}

/// The places among the first `upto` of the row `row`, which is the row
/// `r` of a table, that hold `c`, from left to right.
pub open spec fn row_positions(row: Seq<char>, r: usize, c: char, upto: int) -> Seq<(usize, usize)>
    decreases upto,
{
    if upto <= 0 {
        Seq::empty()
    } else if row[upto - 1] == c {
        row_positions(row, r, c, upto - 1).push((r, (upto - 1) as usize))
    } else {
        row_positions(row, r, c, upto - 1)
    }
}

/// The places in the first `upto` rows of `grid` that hold `c`, row by row.
pub open spec fn positions_of(grid: Seq<Seq<char>>, c: char, upto: int) -> Seq<(usize, usize)>
    decreases upto,
{
    if upto <= 0 {
        Seq::empty()
    } else {
        positions_of(grid, c, upto - 1) + row_positions(
            grid[upto - 1],
            (upto - 1) as usize,
            c,
            grid[upto - 1].len() as int,
        )
    }
}

/// The places of `grid` that hold `c`, row by row.
pub fn find_all(grid: &Vec<Vec<char>>, c: char) -> (r: Vec<(usize, usize)>)
    ensures
        r@ == positions_of(rows(*grid), c, grid.len() as int),
{
    let mut out: Vec<(usize, usize)> = Vec::new();
    let mut i: usize = 0;
    while i < grid.len()
        invariant
            i <= grid.len(),
            out@ == positions_of(rows(*grid), c, i as int),
        decreases grid.len() - i,
    {
        let row = &grid[i];
        let ghost before = out@;
        let mut j: usize = 0;
        assert(rows(*grid)[i as int] == row@);
        while j < row.len()
            invariant
                j <= row.len(),
                out@ == before + row_positions(row@, i, c, j as int),
            decreases row.len() - j,
        {
            if row[j] == c {
                out.push((i, j));
                assert(out@ =~= before + row_positions(row@, i, c, j + 1));
            }
            j += 1;
        }
        i += 1;
    }
    out
}

/// The place of the first empty line at or behind `from`, or the number
/// of lines if there is none.
pub open spec fn first_empty(lines: Seq<Seq<char>>, from: int) -> int
    decreases lines.len() - from,
{
    if from < 0 || from >= lines.len() {
        lines.len() as int
    } else if lines[from].len() == 0 {
        from
    } else {
        first_empty(lines, from + 1)
    }
}

/// The lines from `from` up to `to` hold something, and `to` is an empty
/// line or the end: so `to` is the first empty line behind `from`.
pub proof fn lemma_first_empty(lines: Seq<Seq<char>>, from: int, to: int)
    requires
        0 <= from <= to <= lines.len(),
        forall|i: int| from <= i < to ==> (#[trigger] lines[i]).len() > 0,
        to < lines.len() ==> lines[to].len() == 0,
    ensures
        first_empty(lines, from) == to,
    decreases to - from,
{
    if from < to {
        lemma_first_empty(lines, from + 1, to);
    }
}

/// The sum of `f` over the numbers from `lo` up to `hi`.
pub open spec fn sum_over(lo: int, hi: int, f: spec_fn(int) -> nat) -> nat
    decreases hi - lo,
{
    if hi <= lo {
        0
    } else {
        sum_over(lo, hi - 1, f) + f(hi - 1)
    }
}

} // verus!
