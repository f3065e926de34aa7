//! An engine schematic: numbers, and the symbols that they stand next to.

use crate::table::rows;
use crate::text::{chars_of_lines, digit_value, is_numeric, is_numeric_char, parse_error, to_digit};
use crate::{lines_view, wrapped, AdventError, AdventProblem};
use vstd::prelude::*;

verus! {

pub struct Day3;

/// A place of the schematic.
#[derive(Debug, Eq, PartialEq, Hash, Clone, Copy, Structural)]
pub struct Coordinate {
    pub row: usize,
    pub col: usize,
}

/// A symbol and the place at which it stands.
#[derive(Debug, Clone, Copy)]
pub struct Symbol {
    pub location: Coordinate,
    pub value: char,
}

/// A symbol is anything but a number and the dot.
pub open spec fn symbol_char(c: char) -> bool {
    !is_numeric_char(c) && c != '.'
}

/// Whether `c` is a symbol.
pub fn is_symbol(c: char) -> (r: bool)
    ensures
        r == symbol_char(c),
{
    !is_numeric(c) && c != '.'
}

/// A schematic has a line, lines of one length, and no symbol in its first
/// line or at the beginning of a line.
pub open spec fn is_schematic(grid: Seq<Seq<char>>) -> bool {
    &&& grid.len() > 0
    &&& forall|r: int| 0 <= r < grid.len() ==> (#[trigger] grid[r]).len() == grid[0].len()
    &&& forall|r: int, c: int|
        0 <= r < grid.len() && 0 <= c < grid[0].len() && (r == 0 || c == 0) ==> !symbol_char(
            #[trigger] grid[r][c],
        )
}

/// The `k`th of the nine places round the place in row `row` and column
/// `col`, counted line by line, as far as it lies in the schematic.
pub open spec fn place_near(grid: Seq<Seq<char>>, row: int, col: int, k: int) -> Option<(int, int)> {
    let r = row - 1 + k / 3;
    let c = col - 1 + k % 3;
    if 0 <= r < grid.len() && 0 <= c < grid[r].len() {
        Some((r, c))
    } else {
        None
    }
}

/// The `k`th of the nine places round a place holds a symbol.
pub open spec fn symbol_near(grid: Seq<Seq<char>>, row: int, col: int, k: int) -> bool {
    match place_near(grid, row, col, k) {
        Some(p) => symbol_char(grid[p.0][p.1]),
        None => false,
    }
}

/// The first symbol, line by line, among the `k`th to the last of the
/// nine places round the place in row `row` and column `col`.
pub open spec fn first_near(grid: Seq<Seq<char>>, row: int, col: int, k: int) -> Option<Symbol>
    decreases 9 - k,
{
    if k < 0 || k >= 9 {
        None
    } else if symbol_near(grid, row, col, k) {
        let p = place_near(grid, row, col, k).unwrap();
        Some(
            Symbol {
                location: Coordinate { row: p.0 as usize, col: p.1 as usize },
                value: grid[p.0][p.1],
            },
        )
    } else {
        first_near(grid, row, col, k + 1)
    }
}

/// The symbol that the place in row `row` and column `col` stands next to:
/// the first, line by line, of those round it.
pub open spec fn near(grid: Seq<Seq<char>>, row: int, col: int) -> Option<Symbol> {
    first_near(grid, row, col, 0)
}

/// The number `x - 1 + d`, if it is one that the machine holds.
fn beside(x: usize, d: usize) -> (r: Option<usize>)
    ensures
        match r {
            Some(y) => y == x - 1 + d,
            None => x - 1 + d < 0 || x - 1 + d > usize::MAX,
        },
{
    if d == 0 {
        if x >= 1 {
            Some(x - 1)
        } else {
            None
        }
    } else if x <= usize::MAX - (d - 1) {
        Some(x + (d - 1))
    } else {
        None
    }
}

/// The symbol that the place in row `row` and column `col` stands next to.
pub fn symbol_beside(grid: &Vec<Vec<char>>, row: usize, col: usize) -> (r: Option<Symbol>)
    ensures
        r == near(rows(*grid), row as int, col as int),
{
    let mut k: usize = 0;
    while k < 9
        invariant
            k <= 9,
            near(rows(*grid), row as int, col as int) == first_near(
                rows(*grid),
                row as int,
                col as int,
                k as int,
            ),
        decreases 9 - k,
    {
        match (beside(row, k / 3), beside(col, k % 3)) {
            (Some(r), Some(c)) => {
                if r < grid.len() {
                    assert(rows(*grid)[r as int] == grid[r as int]@);
                    if c < grid[r].len() {
                        if is_symbol(grid[r][c]) {
                            return Some(
                                Symbol {
                                    location: Coordinate { row: r, col: c },
                                    value: grid[r][c],
                                },
                            );
                        }
                    }
                }
            },
            _ => {
                assert(place_near(rows(*grid), row as int, col as int, k as int) is None) by {
                    let r = row - 1 + (k as int) / 3;
                    let c = col - 1 + (k as int) % 3;
                    assert(r == row - 1 + k / 3);
                    assert(c == col - 1 + k % 3);
                    if 0 <= r < grid.len() {
                        assert(rows(*grid)[r] == grid[r]@);
                        assert(grid[r].len() == grid[r]@.len());
                    }
                }
            },
        }
        k += 1;
    }
    None
}

/// Whether `grid` is a schematic.
pub fn check_schematic(grid: &Vec<Vec<char>>) -> (r: bool)
    ensures
        r == is_schematic(rows(*grid)),
{
    if grid.len() == 0 {
        return false;
    }
    let n = grid[0].len();
    assert(rows(*grid)[0] == grid[0]@);
    let mut r: usize = 0;
    while r < grid.len()
        invariant
            r <= grid.len(),
            n == grid[0].len(),
            rows(*grid)[0] == grid[0]@,
            forall|a: int| 0 <= a < r ==> (#[trigger] rows(*grid)[a]).len() == n,
            forall|a: int, c: int|
                0 <= a < r && 0 <= c < n && (a == 0 || c == 0) ==> !symbol_char(
                    #[trigger] rows(*grid)[a][c],
                ),
        decreases grid.len() - r,
    {
        assert(rows(*grid)[r as int] == grid[r as int]@);
        if grid[r].len() != n {
            return false;
        }
        let mut c: usize = 0;
        while c < n
            invariant
                c <= n,
                r < grid.len(),
                grid[r as int].len() == n,
                rows(*grid)[r as int] == grid[r as int]@,
                forall|b: int|
                    0 <= b < c && (r == 0 || b == 0) ==> !symbol_char(
                        #[trigger] rows(*grid)[r as int][b],
                    ),
            decreases n - c,
        {
            if (r == 0 || c == 0) && is_symbol(grid[r][c]) {
                assert(symbol_char(rows(*grid)[r as int][c as int]));
                return false;
            }
            c += 1;
        }
        r += 1;
    }
    true
}

/// For every place of a schematic the symbol that it stands next to.
pub fn compute_adj_coords(grid: &Vec<Vec<char>>) -> (r: Option<Vec<Vec<Option<Symbol>>>>)
    ensures
        match r {
            Some(table) => is_schematic(rows(*grid)) && table.len() == grid.len() && forall|
                a: int,
                b: int,
            |
                0 <= a < grid.len() && 0 <= b < grid[0].len() ==> (#[trigger] table[a]).len()
                    == grid[0].len() && #[trigger] table[a][b] == near(rows(*grid), a, b),
            None => !is_schematic(rows(*grid)),
        },
{
    if !check_schematic(grid) {
        return None;
    }
    let n = grid[0].len();
    let mut table: Vec<Vec<Option<Symbol>>> = Vec::new();
    let mut r: usize = 0;
    while r < grid.len()
        invariant
            r <= grid.len(),
            grid.len() > 0,
            n == grid[0].len(),
            table.len() == r,
            forall|a: int| 0 <= a < r ==> (#[trigger] table[a]).len() == n,
            forall|a: int, b: int|
                0 <= a < r && 0 <= b < n ==> #[trigger] table[a][b] == near(rows(*grid), a, b),
        decreases grid.len() - r,
    {
        let mut line: Vec<Option<Symbol>> = Vec::new();
        let mut c: usize = 0;
        while c < n
            invariant
                c <= n,
                line.len() == c,
                forall|b: int| 0 <= b < c ==> #[trigger] line[b] == near(rows(*grid), r as int, b),
            decreases n - c,
        {
            line.push(symbol_beside(grid, r, c));
            c += 1;
        }
        table.push(line);
        r += 1;
    }
    Some(table)
}

/// The end of the digits that begin at `i`.
pub open spec fn span_end(row: Seq<char>, i: int) -> int
    decreases row.len() - i,
{
    if 0 <= i < row.len() && digit_value(row[i]) is Some {
        span_end(row, i + 1)
    } else {
        i
    }
}

/// The number that the digits from `i` up to `j` write, reduced modulo 2^32.
pub open spec fn span_value(row: Seq<char>, i: int, j: int) -> u32
    decreases j - i,
{
    if j <= i {
        0
    } else {
        wrapped((10 * span_value(row, i, j - 1) + digit_value(row[j - 1]).unwrap()) as nat)
    }
}

/// The end of the digits lies at or behind their beginning, and in the row.
pub proof fn lemma_span_end(row: Seq<char>, i: int)
    requires
        0 <= i <= row.len(),
    ensures
        i <= span_end(row, i) <= row.len(),
        forall|k: int| i <= k < span_end(row, i) ==> digit_value(#[trigger] row[k]) is Some,
        span_end(row, i) < row.len() ==> digit_value(row[span_end(row, i)]) is None,
    decreases row.len() - i,
{
    if i < row.len() && digit_value(row[i]) is Some {
        lemma_span_end(row, i + 1);
    }
}

/// Digits that end where others begin end where those end.
proof fn lemma_span_joins(row: Seq<char>, i: int, j: int)
    requires
        0 <= i <= j <= row.len(),
        forall|k: int| i <= k < j ==> digit_value(#[trigger] row[k]) is Some,
    ensures
        span_end(row, i) == span_end(row, j),
    decreases j - i,
{
    if i < j {
        lemma_span_joins(row, i + 1, j);
    }
}

/// The number that begins at `i` in `row`, with its end.
pub fn read_span(row: &Vec<char>, i: usize) -> (r: (u32, usize))
    requires
        i <= row.len(),
    ensures
        r.1 == span_end(row@, i as int),
        r.0 == span_value(row@, i as int, r.1 as int),
        i <= r.1 <= row.len(),
{
    let mut num: u32 = 0;
    let mut j: usize = i;
    proof {
        lemma_span_end(row@, i as int);
    }
    while j < row.len()
        invariant
            i <= j <= row.len(),
            num == span_value(row@, i as int, j as int),
            forall|k: int| i <= k < j ==> digit_value(#[trigger] row[k]) is Some,
        decreases row.len() - j,
    {
        match to_digit(row[j]) {
            Some(d) => {
                num = ((10 * (num as u64) + d as u64) % 0x1_0000_0000) as u32;
                j += 1;
            },
            None => {
                proof {
                    lemma_span_joins(row@, i as int, j as int);
                }
                return (num, j);
            },
        }
    }
    proof {
        lemma_span_joins(row@, i as int, j as int);
    }
    (num, j)
}

/// One of the places from `i` up to `j` in row `row` stands next to a symbol.
pub open spec fn touches_symbol(grid: Seq<Seq<char>>, row: int, i: int, j: int) -> bool {
    exists|col: int| i <= col < j && #[trigger] near(grid, row, col) is Some
}

/// Whether one of the places from `i` up to `j` in row `row` stands next
/// to a symbol.
fn beside_symbol(grid: &Vec<Vec<char>>, row: usize, i: usize, j: usize) -> (r: bool)
    ensures
        r == touches_symbol(rows(*grid), row as int, i as int, j as int),
{
    let mut col: usize = i;
    while col < j
        invariant
            i <= col,
            forall|k: int| i <= k < col ==> #[trigger] near(rows(*grid), row as int, k) is None,
        decreases j - col,
    {
        if symbol_beside(grid, row, col).is_some() {
            return true;
        }
        col += 1;
    }
    false
}

/// The sum `total` with the numbers of row `row` from `i` on that stand
/// next to a symbol, reduced modulo 2^32. A number of the value 0 does not
/// count.
pub open spec fn row_parts(grid: Seq<Seq<char>>, row: int, i: int, total: u32) -> u32
    decreases grid[row].len() - i,
{
    if i < 0 || i >= grid[row].len() {
        total
    } else {
        let j = span_end(grid[row], i);
        let num = span_value(grid[row], i, j);
        let sum = if num > 0 && touches_symbol(grid, row, i, j) {
            wrapped((total + num) as nat)
        } else {
            total
        };
        if i <= j < grid[row].len() {
            row_parts(grid, row, j + 1, sum)
        } else {
            sum
        }
    }
}

/// The sum `total` with the numbers from row `row` on that stand next to a
/// symbol.
pub open spec fn parts_from(grid: Seq<Seq<char>>, row: int, total: u32) -> u32
    decreases grid.len() - row,
{
    if row < 0 || row >= grid.len() {
        total
    } else {
        parts_from(grid, row + 1, row_parts(grid, row, 0, total))
    }
}

/// The sum of the numbers of a schematic that stand next to a symbol.
pub open spec fn parts_sum(grid: Seq<Seq<char>>) -> Option<u32> {
    if is_schematic(grid) {
        Some(parts_from(grid, 0, 0))
    } else {
        None
    }
}

/// The sum of the numbers of a schematic that stand next to a symbol.
pub fn sum_parts(grid: &Vec<Vec<char>>) -> (r: Result<u32, AdventError>)
    ensures
        crate::is_outcome(r, parts_sum(rows(*grid))),
{
    if !check_schematic(grid) {
        return Err(parse_error("no schematic"));
    }
    let mut total: u32 = 0;
    let mut row: usize = 0;
    while row < grid.len()
        invariant
            row <= grid.len(),
            parts_from(rows(*grid), 0, 0) == parts_from(rows(*grid), row as int, total),
        decreases grid.len() - row,
    {
        let chars = &grid[row];
        assert(rows(*grid)[row as int] == chars@);
        let ghost begun = total;
        let mut i: usize = 0;
        while i < chars.len()
            invariant
                i <= chars.len(),
                row < grid.len(),
                rows(*grid)[row as int] == chars@,
                row_parts(rows(*grid), row as int, 0, begun) == row_parts(
                    rows(*grid),
                    row as int,
                    i as int,
                    total,
                ),
            decreases chars.len() - i,
        {
            let (num, j) = read_span(chars, i);
            if num > 0 && beside_symbol(grid, row, i, j) {
                total = ((total as u64 + num as u64) % 0x1_0000_0000) as u32;
            }
            i = if j < chars.len() {
                j + 1
            } else {
                j
            };
        }
        row += 1;
    }
    Ok(total)
}

/// One of the places from `i` up to `j` in row `row` stands next to the
/// gear at `gear`: its symbol is a star at that place.
pub open spec fn touches_gear(grid: Seq<Seq<char>>, row: int, i: int, j: int, gear: Coordinate) -> bool {
    exists|col: int| i <= col < j && #[trigger] is_gear_near(grid, row, col, gear)
}

/// The place in row `row` and column `col` stands next to the gear at `gear`.
pub open spec fn is_gear_near(grid: Seq<Seq<char>>, row: int, col: int, gear: Coordinate) -> bool {
    match near(grid, row, col) {
        Some(symbol) => symbol.value == '*' && symbol.location == gear,
        None => false,
    }
}

/// Whether one of the places from `i` up to `j` in row `row` stands next
/// to the gear at `gear`.
fn beside_gear(grid: &Vec<Vec<char>>, row: usize, i: usize, j: usize, gear: Coordinate) -> (r: bool)
    ensures
        r == touches_gear(rows(*grid), row as int, i as int, j as int, gear),
{
    let mut col: usize = i;
    while col < j
        invariant
            i <= col,
            forall|k: int| i <= k < col ==> !#[trigger] is_gear_near(rows(*grid), row as int, k, gear),
        decreases j - col,
    {
        match symbol_beside(grid, row, col) {
            Some(symbol) => {
                if symbol.value == '*' && symbol.location.row == gear.row && symbol.location.col
                    == gear.col {
                    assert(is_gear_near(rows(*grid), row as int, col as int, gear));
                    return true;
                }
            },
            None => {},
        }
        col += 1;
    }
    false
}

/// The numbers `parts` with those of row `row` from `i` on that stand next
/// to the gear at `gear`, each value once. A number of the value 0 does not
/// count.
pub open spec fn gear_row(grid: Seq<Seq<char>>, gear: Coordinate, row: int, i: int, parts: Seq<u32>) -> Seq<
    u32,
>
    decreases grid[row].len() - i,
{
    if i < 0 || i >= grid[row].len() {
        parts
    } else {
        let j = span_end(grid[row], i);
        let num = span_value(grid[row], i, j);
        let more = if num > 0 && touches_gear(grid, row, i, j, gear) && !parts.contains(num) {
            parts.push(num)
        } else {
            parts
        };
        if i <= j < grid[row].len() {
            gear_row(grid, gear, row, j + 1, more)
        } else {
            more
        }
    }
}

/// The numbers `parts` with those from row `row` on that stand next to the
/// gear at `gear`; they stand in its row, the one above or the one below.
pub open spec fn gear_rows(grid: Seq<Seq<char>>, gear: Coordinate, row: int, parts: Seq<u32>) -> Seq<
    u32,
>
    decreases gear.row + 2 - row,
{
    if row < 0 || row > gear.row + 1 || row >= grid.len() {
        parts
    } else {
        gear_rows(grid, gear, row + 1, gear_row(grid, gear, row, 0, parts))
    }
}

/// The numbers that stand next to the gear at `gear`, each value once, in
/// the order of reading.
pub open spec fn gear_parts(grid: Seq<Seq<char>>, gear: Coordinate) -> Seq<u32> {
    gear_rows(
        grid,
        gear,
        if gear.row >= 1 {
            gear.row - 1
        } else {
            0
        },
        Seq::empty(),
    )
}

/// Whether `parts` holds `num`.
fn has_part(parts: &Vec<u32>, num: u32) -> (r: bool)
    ensures
        r == parts@.contains(num),
{
    let mut k: usize = 0;
    while k < parts.len()
        invariant
            k <= parts.len(),
            forall|a: int| 0 <= a < k ==> parts[a] != num,
        decreases parts.len() - k,
    {
        if parts[k] == num {
            return true;
        }
        k += 1;
    }
    false
}

/// The numbers that stand next to the gear at `gear`.
pub fn parts_of_gear(grid: &Vec<Vec<char>>, gear: Coordinate) -> (r: Vec<u32>)
    ensures
        r@ == gear_parts(rows(*grid), gear),
{
    let mut parts: Vec<u32> = Vec::new();
    let mut row: usize = if gear.row >= 1 {
        gear.row - 1
    } else {
        0
    };
    while row < grid.len() && (row == 0 || row - 1 <= gear.row)
        invariant
            gear_parts(rows(*grid), gear) == gear_rows(rows(*grid), gear, row as int, parts@),
        decreases grid.len() - row,
    {
        let chars = &grid[row];
        assert(rows(*grid)[row as int] == chars@);
        let ghost begun = parts@;
        let mut i: usize = 0;
        while i < chars.len()
            invariant
                i <= chars.len(),
                row < grid.len(),
                rows(*grid)[row as int] == chars@,
                gear_row(rows(*grid), gear, row as int, 0, begun) == gear_row(
                    rows(*grid),
                    gear,
                    row as int,
                    i as int,
                    parts@,
                ),
            decreases chars.len() - i,
        {
            let (num, j) = read_span(chars, i);
            if num > 0 && beside_gear(grid, row, i, j, gear) && !has_part(&parts, num) {
                parts.push(num);
            }
            i = if j < chars.len() {
                j + 1
            } else {
                j
            };
        }
        row += 1;
    }
    parts
}

/// What a gear with the numbers `parts` next to it is worth: with two
/// numbers their product, reduced modulo 2^32, and else nothing.
pub open spec fn gear_ratio(parts: Seq<u32>) -> u32 {
    if parts.len() == 2 {
        wrapped((parts[0] * parts[1]) as nat)
    } else {
        0
    }
}

/// The sum `total` with the worth of the gears from the place in row `row`
/// and column `col` on, reduced modulo 2^32.
pub open spec fn gears_from(grid: Seq<Seq<char>>, row: int, col: int, total: u32) -> u32
    decreases grid.len() - row, grid[row].len() - col,
{
    if row < 0 || row >= grid.len() {
        total
    } else if col < 0 || col >= grid[row].len() {
        gears_from(grid, row + 1, 0, total)
    } else if grid[row][col] == '*' {
        gears_from(
            grid,
            row,
            col + 1,
            wrapped(
                (total + gear_ratio(
                    gear_parts(grid, Coordinate { row: row as usize, col: col as usize }),
                )) as nat,
            ),
        )
    } else {
        gears_from(grid, row, col + 1, total)
    }
}

/// The sum of what the gears of a schematic are worth.
pub open spec fn gears_sum(grid: Seq<Seq<char>>) -> Option<u32> {
    if is_schematic(grid) {
        Some(gears_from(grid, 0, 0, 0))
    } else {
        None
    }
}

/// The sum of what the gears of a schematic are worth.
pub fn sum_gears(grid: &Vec<Vec<char>>) -> (r: Result<u32, AdventError>)
    ensures
        crate::is_outcome(r, gears_sum(rows(*grid))),
{
    if !check_schematic(grid) {
        return Err(parse_error("no schematic"));
    }
    let mut total: u32 = 0;
    let mut row: usize = 0;
    while row < grid.len()
        invariant
            row <= grid.len(),
            gears_from(rows(*grid), 0, 0, 0) == gears_from(rows(*grid), row as int, 0, total),
        decreases grid.len() - row,
    {
        let chars = &grid[row];
        assert(rows(*grid)[row as int] == chars@);
        let mut col: usize = 0;
        while col < chars.len()
            invariant
                col <= chars.len(),
                row < grid.len(),
                rows(*grid)[row as int] == chars@,
                gears_from(rows(*grid), 0, 0, 0) == gears_from(
                    rows(*grid),
                    row as int,
                    col as int,
                    total,
                ),
            decreases chars.len() - col,
        {
            if chars[col] == '*' {
                let parts = parts_of_gear(grid, Coordinate { row, col });
                if parts.len() == 2 {
                    assert(parts[0] * parts[1] <= 0xffff_ffff * 0xffff_ffff) by (nonlinear_arith)
                        requires
                            parts[0] <= 0xffff_ffff,
                            parts[1] <= 0xffff_ffff,
                    ;
                    let ratio: u32 = (((parts[0] as u64) * (parts[1] as u64)) % 0x1_0000_0000) as u32;
                    total = ((total as u64 + ratio as u64) % 0x1_0000_0000) as u32;
                } else {
                    assert(wrapped(total as nat) == total);
                }
            }
            col += 1;
        }
        row += 1;
    }
    Ok(total)
}

impl AdventProblem for Day3 {
    open spec fn accepts_part_1(&self, lines: Seq<Seq<char>>) -> bool {
        true
    }

    open spec fn accepts_part_2(&self, lines: Seq<Seq<char>>) -> bool {
        true
    }

    open spec fn answer_part_1(&self, lines: Seq<Seq<char>>) -> Option<u32> {
        parts_sum(lines)
    }

    open spec fn answer_part_2(&self, lines: Seq<Seq<char>>) -> Option<u32> {
        gears_sum(lines)
    }

    fn run_part_1(&self, lines: Vec<String>) -> (r: Result<u32, AdventError>) {
        let grid = chars_of_lines(&lines);
        sum_parts(&grid)
    }

    fn run_part_2(&self, lines: Vec<String>) -> (r: Result<u32, AdventError>) {
        let grid = chars_of_lines(&lines);
        sum_gears(&grid)
    }
}

} // verus!
