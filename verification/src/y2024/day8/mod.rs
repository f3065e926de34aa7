//! Antennas and the antinodes that pairs of them make.

use crate::table::{
    find_all, insert_unique, lemma_push_contains, lemma_push_no_duplicates, positions_of,
    row_positions, rows,
};
use crate::text::{chars_of_lines, is_numeric, is_numeric_char, parse_error};
use crate::{lines_view, wrapped, AdventError, AdventProblem};
use vstd::prelude::*;

verus! {

pub struct Day8;

/// The four ways from an antenna to an antinode.
#[derive(Debug, Copy, Clone, PartialEq, Eq, Structural)]
pub enum Direction {
    NorthWest,
    NorthEast,
    SouthWest,
    SouthEast,
}

/// How far `x` and `y` lie apart.
pub open spec fn spec_abs_diff(x: usize, y: usize) -> nat {
    if x >= y {
        (x - y) as nat
    } else {
        (y - x) as nat
    }
}

/// How far `x` and `y` lie apart.
pub fn abs_diff(x: usize, y: usize) -> (r: usize)
    ensures
        r == spec_abs_diff(x, y),
{
    if x >= y {
        x - y
    } else {
        y - x
    }
}

/// The place `dr` rows and `dc` columns from an antenna in the direction
/// `direction`, if it lies on a floor of `m` rows and `n` columns: to the
/// north from `first`, to the south from `second`.
pub open spec fn antinode(
    first: (usize, usize),
    second: (usize, usize),
    dr: usize,
    dc: usize,
    m: usize,
    n: usize,
    direction: Direction,
) -> Option<(usize, usize)> {
    match direction {
        Direction::NorthWest => if first.0 >= dr && first.1 >= dc {
            Some(((first.0 - dr) as usize, (first.1 - dc) as usize))
        } else {
            None
        },
        Direction::SouthEast => if second.0 + dr < m && second.1 + dc < n {
            Some(((second.0 + dr) as usize, (second.1 + dc) as usize))
        } else {
            None
        },
        Direction::NorthEast => if first.0 >= dr && first.1 + dc < n {
            Some(((first.0 - dr) as usize, (first.1 + dc) as usize))
        } else {
            None
        },
        Direction::SouthWest => if second.0 + dr < m && second.1 >= dc {
            Some(((second.0 + dr) as usize, (second.1 - dc) as usize))
        } else {
            None
        },
    }
}

/// The next antinode in the direction `direction`, if it lies on the floor.
pub fn next_antinode(
    first: (usize, usize),
    second: (usize, usize),
    dr: usize,
    dc: usize,
    m: usize,
    n: usize,
    direction: Direction,
) -> (r: Option<(usize, usize)>)
    ensures
        r == antinode(first, second, dr, dc, m, n, direction),
{
    match direction {
        Direction::NorthWest => {
            if first.0 >= dr && first.1 >= dc {
                return Some((first.0 - dr, first.1 - dc));
            }
        },
        Direction::SouthEast => {
            if dr < m && second.0 < m - dr && dc < n && second.1 < n - dc {
                return Some((second.0 + dr, second.1 + dc));
            }
        },
        Direction::NorthEast => {
            if first.0 >= dr && dc < n && first.1 < n - dc {
                return Some((first.0 - dr, first.1 + dc));
            }
        },
        Direction::SouthWest => {
            if dr < m && second.0 < m - dr && second.1 >= dc {
                return Some((second.0 + dr, second.1 - dc));
            }
        },
    }
    None
}

/// `p` is an antinode of the antennas at `first` and `second`, of which
/// `first` lies in no later row: it lies as far from one of them as they
/// lie apart, on their line and outside of them.
pub open spec fn is_antinode_of(
    first: (usize, usize),
    second: (usize, usize),
    m: usize,
    n: usize,
    p: (usize, usize),
) -> bool {
    let dr = spec_abs_diff(first.0, second.0) as usize;
    let dc = spec_abs_diff(first.1, second.1) as usize;
    if first.1 < second.1 {
        antinode(first, second, dr, dc, m, n, Direction::NorthWest) == Some(p) || antinode(
            first,
            second,
            dr,
            dc,
            m,
            n,
            Direction::SouthEast,
        ) == Some(p)
    } else {
        antinode(first, second, dr, dc, m, n, Direction::NorthEast) == Some(p) || antinode(
            first,
            second,
            dr,
            dc,
            m,
            n,
            Direction::SouthWest,
        ) == Some(p)
    }
}

/// The pair of `a` and `b` comes before the pair of `i` and `j`.
pub open spec fn comes_before(a: int, b: int, i: int, j: int) -> bool {
    a < i || (a == i && b < j)
}

/// `p` is an antinode of two of the antennas at `coords`, the first of
/// them before `i`, or at `i` with the second before `j`.
pub open spec fn is_antinode_upto(
    coords: Seq<(usize, usize)>,
    m: usize,
    n: usize,
    i: int,
    j: int,
    p: (usize, usize),
) -> bool {
    exists|a: int, b: int|
        0 <= a < b < coords.len() && comes_before(a, b, i, j) && #[trigger] is_antinode_of(
            coords[a],
            coords[b],
            m,
            n,
            p,
        )
}

/// `p` is an antinode of two of the antennas at `coords`.
pub open spec fn is_antinode(coords: Seq<(usize, usize)>, m: usize, n: usize, p: (usize, usize)) -> bool {
    is_antinode_upto(coords, m, n, coords.len() as int, 0, p)
}

/// Notes the antinodes of the antennas at `first` and `second`.
fn note_antinodes(
    antinodes: &mut Vec<(usize, usize)>,
    first: (usize, usize),
    second: (usize, usize),
    m: usize,
    n: usize,
)
    requires
        old(antinodes)@.no_duplicates(),
    ensures
        final(antinodes)@.no_duplicates(),
        forall|p: (usize, usize)| #[trigger]
            final(antinodes)@.contains(p) <==> old(antinodes)@.contains(p) || is_antinode_of(
                first,
                second,
                m,
                n,
                p,
            ),
{
    let (dr, dc) = (abs_diff(first.0, second.0), abs_diff(first.1, second.1));
    let (one, other) = if first.1 < second.1 {
        (Direction::NorthWest, Direction::SouthEast)
    } else {
        (Direction::NorthEast, Direction::SouthWest)
    };
    if let Some(coord) = next_antinode(first, second, dr, dc, m, n, one) {
        insert_unique(antinodes, coord);
    }
    if let Some(coord) = next_antinode(first, second, dr, dc, m, n, other) {
        insert_unique(antinodes, coord);
    }
}

/// The antinodes of the antennas at `coords` on a floor of `m` rows and
/// `n` columns, each once.
pub fn antinode_coords(coords: &Vec<(usize, usize)>, m: usize, n: usize) -> (r: Vec<(usize, usize)>)
    ensures
        r@.no_duplicates(),
        forall|p: (usize, usize)| r@.contains(p) <==> is_antinode(coords@, m, n, p),
{
    let num_antennas = coords.len();
    let mut antinodes: Vec<(usize, usize)> = Vec::new();
    let mut i: usize = 0;
    while i < num_antennas
        invariant
            i <= num_antennas,
            num_antennas == coords.len(),
            antinodes@.no_duplicates(),
            forall|p: (usize, usize)|
                antinodes@.contains(p) <==> is_antinode_upto(coords@, m, n, i as int, 0, p),
        decreases num_antennas - i,
    {
        let first = coords[i];
        let mut j = i + 1;
        proof {
            assert forall|p: (usize, usize)|
                is_antinode_upto(coords@, m, n, i as int, 0, p) <==> is_antinode_upto(
                    coords@,
                    m,
                    n,
                    i as int,
                    j as int,
                    p,
                ) by {
                lemma_upto_same(coords@, m, n, i as int, 0, i as int, j as int, p);
            }
        }
        while j < num_antennas
            invariant
                i < j <= num_antennas,
                num_antennas == coords.len(),
                first == coords[i as int],
                antinodes@.no_duplicates(),
                forall|p: (usize, usize)|
                    antinodes@.contains(p) <==> is_antinode_upto(
                        coords@,
                        m,
                        n,
                        i as int,
                        j as int,
                        p,
                    ),
            decreases num_antennas - j,
        {
            let second = coords[j];
            let ghost before = antinodes@;
            note_antinodes(&mut antinodes, first, second, m, n);
            proof {
                assert forall|p: (usize, usize)|
                    antinodes@.contains(p) <==> is_antinode_upto(
                        coords@,
                        m,
                        n,
                        i as int,
                        j + 1,
                        p,
                    ) by {
                    lemma_upto_step(coords@, m, n, i as int, j as int, p);
                }
            }
            j += 1;
        }
        proof {
            assert forall|p: (usize, usize)|
                is_antinode_upto(coords@, m, n, i as int, j as int, p) <==> is_antinode_upto(
                    coords@,
                    m,
                    n,
                    i + 1,
                    0,
                    p,
                ) by {
                lemma_upto_same(coords@, m, n, i as int, j as int, i + 1, 0, p);
            }
        }
        i += 1;
    }
    antinodes
}

/// Two bounds that take in the same pairs give the same antinodes.
proof fn lemma_upto_same(
    coords: Seq<(usize, usize)>,
    m: usize,
    n: usize,
    i: int,
    j: int,
    i2: int,
    j2: int,
    p: (usize, usize),
)
    requires
        forall|a: int, b: int|
            0 <= a < b < coords.len() ==> (#[trigger] comes_before(a, b, i, j) <==> comes_before(
                a,
                b,
                i2,
                j2,
            )),
    ensures
        is_antinode_upto(coords, m, n, i, j, p) <==> is_antinode_upto(coords, m, n, i2, j2, p),
{
    if is_antinode_upto(coords, m, n, i, j, p) {
        let (a, b) = choose|a: int, b: int|
            0 <= a < b < coords.len() && comes_before(a, b, i, j) && #[trigger] is_antinode_of(
                coords[a],
                coords[b],
                m,
                n,
                p,
            );
        assert(comes_before(a, b, i2, j2));
    }
    if is_antinode_upto(coords, m, n, i2, j2, p) {
        let (a, b) = choose|a: int, b: int|
            0 <= a < b < coords.len() && comes_before(a, b, i2, j2) && #[trigger] is_antinode_of(
                coords[a],
                coords[b],
                m,
                n,
                p,
            );
        assert(comes_before(a, b, i, j));
    }
}

/// One pair more gives its antinodes more.
proof fn lemma_upto_step(
    coords: Seq<(usize, usize)>,
    m: usize,
    n: usize,
    i: int,
    j: int,
    p: (usize, usize),
)
    requires
        0 <= i < j < coords.len(),
    ensures
        is_antinode_upto(coords, m, n, i, j + 1, p) <==> is_antinode_upto(coords, m, n, i, j, p)
            || is_antinode_of(coords[i], coords[j], m, n, p),
{
    if is_antinode_upto(coords, m, n, i, j + 1, p) {
        let (a, b) = choose|a: int, b: int|
            0 <= a < b < coords.len() && comes_before(a, b, i, j + 1) && #[trigger] is_antinode_of(
                coords[a],
                coords[b],
                m,
                n,
                p,
            );
        if !(a == i && b == j) {
            assert(comes_before(a, b, i, j));
        }
    }
    if is_antinode_upto(coords, m, n, i, j, p) {
        let (a, b) = choose|a: int, b: int|
            0 <= a < b < coords.len() && comes_before(a, b, i, j) && #[trigger] is_antinode_of(
                coords[a],
                coords[b],
                m,
                n,
                p,
            );
        assert(comes_before(a, b, i, j + 1));
    }
    if is_antinode_of(coords[i], coords[j], m, n, p) {
        assert(comes_before(i, j, i, j + 1));
    }
}

/// The place `k` steps of `step` from `from`.
pub open spec fn stepped(from: (usize, usize), step: (int, int), k: int) -> (int, int) {
    (from.0 + k * step.0, from.1 + k * step.1)
}

/// The place `p` lies on a floor of `m` rows and `n` columns.
pub open spec fn on_floor(p: (int, int), m: usize, n: usize) -> bool {
    0 <= p.0 < m && 0 <= p.1 < n
}

/// `p` lies some steps of `step` from `from`, on the floor.
pub open spec fn on_ray(from: (usize, usize), step: (int, int), m: usize, n: usize, p: (usize, usize)) -> bool {
    exists|k: int|
        0 <= k && #[trigger] stepped(from, step, k) == (p.0 as int, p.1 as int) && on_floor(
            (p.0 as int, p.1 as int),
            m,
            n,
        )
}

/// `p` is a resonant antinode of the antennas at `first` and `second`: it
/// lies on the floor, and from one of the two as many times as far as the
/// two lie apart, away from the other, or at one of the two. Where the
/// first antenna stands left of the second, the ways lead up and left from
/// the first and down and right from the second; else up and right from
/// the second and down and left from it. Two antennas at one place have no
/// antinodes but that place.
pub open spec fn is_resonant_of(
    first: (usize, usize),
    second: (usize, usize),
    m: usize,
    n: usize,
    p: (usize, usize),
) -> bool {
    let dr = spec_abs_diff(first.0, second.0) as int;
    let dc = spec_abs_diff(first.1, second.1) as int;
    ||| p == first
    ||| p == second
    ||| (dr != 0 || dc != 0) && on_floor((first.0 as int, first.1 as int), m, n) && first.1
        < second.1 && on_ray(first, (-dr, -dc), m, n, p)
    ||| (dr != 0 || dc != 0) && on_floor((second.0 as int, second.1 as int), m, n) && first.1
        < second.1 && on_ray(second, (dr, dc), m, n, p)
    ||| (dr != 0 || dc != 0) && on_floor((second.0 as int, second.1 as int), m, n) && first.1
        >= second.1 && on_ray(second, (-dr, dc), m, n, p)
    ||| (dr != 0 || dc != 0) && on_floor((second.0 as int, second.1 as int), m, n) && first.1
        >= second.1 && on_ray(second, (dr, -dc), m, n, p)
}

/// Behind a place off the floor a ray does not come back to the floor.
proof fn lemma_ray_leaves(from: (usize, usize), step: (int, int), m: usize, n: usize, k: int, j: int)
    requires
        0 <= k <= j,
        on_floor((from.0 as int, from.1 as int), m, n),
        !on_floor(stepped(from, step, k), m, n),
    ensures
        !on_floor(stepped(from, step, j), m, n),
{
    assert(k * step.0 <= j * step.0 || step.0 < 0) by (nonlinear_arith)
        requires
            0 <= k <= j,
    ;
    assert(k * step.0 >= j * step.0 || step.0 > 0) by (nonlinear_arith)
        requires
            0 <= k <= j,
    ;
    assert(k * step.1 <= j * step.1 || step.1 < 0) by (nonlinear_arith)
        requires
            0 <= k <= j,
    ;
    assert(k * step.1 >= j * step.1 || step.1 > 0) by (nonlinear_arith)
        requires
            0 <= k <= j,
    ;
    assert(step.0 >= 0 ==> k * step.0 >= 0) by (nonlinear_arith)
        requires
            0 <= k,
    ;
    assert(step.0 <= 0 ==> k * step.0 <= 0) by (nonlinear_arith)
        requires
            0 <= k,
    ;
    assert(step.1 >= 0 ==> k * step.1 >= 0) by (nonlinear_arith)
        requires
            0 <= k,
    ;
    assert(step.1 <= 0 ==> k * step.1 <= 0) by (nonlinear_arith)
        requires
            0 <= k,
    ;
}

/// A bound on the steps that a ray from row `r` and column `c` still takes
/// on the floor.
pub open spec fn ray_left(dr: int, dc: int, m: int, n: int, r: int, c: int) -> nat {
    let left = if dr > 0 {
        m - r
    } else if dr < 0 {
        r + 1
    } else if dc > 0 {
        n - c
    } else {
        c + 1
    };
    if left < 0 {
        0
    } else {
        left as nat
    }
}

/// Notes the places of the floor that lie some steps of `step` from `from`.
fn note_ray(antinodes: &mut Vec<(usize, usize)>, from: (usize, usize), step: (i128, i128), m: usize, n: usize)
    requires
        old(antinodes)@.no_duplicates(),
        on_floor((from.0 as int, from.1 as int), m, n),
        step.0 != 0 || step.1 != 0,
        -0x1_0000_0000_0000_0000 < step.0 < 0x1_0000_0000_0000_0000,
        -0x1_0000_0000_0000_0000 < step.1 < 0x1_0000_0000_0000_0000,
    ensures
        final(antinodes)@.no_duplicates(),
        forall|p: (usize, usize)| #[trigger]
            final(antinodes)@.contains(p) <==> old(antinodes)@.contains(p) || on_ray(
                from,
                (step.0 as int, step.1 as int),
                m,
                n,
                p,
            ),
{
    let ghost st = (step.0 as int, step.1 as int);
    let mut r: i128 = from.0 as i128;
    let mut c: i128 = from.1 as i128;
    let ghost mut k: int = 0;
    while 0 <= r && r < m as i128 && 0 <= c && c < n as i128
        invariant
            antinodes@.no_duplicates(),
            st == (step.0 as int, step.1 as int),
            step.0 != 0 || step.1 != 0,
            -0x1_0000_0000_0000_0000 < step.0 < 0x1_0000_0000_0000_0000,
            -0x1_0000_0000_0000_0000 < step.1 < 0x1_0000_0000_0000_0000,
            on_floor((from.0 as int, from.1 as int), m, n),
            0 <= k,
            (r as int, c as int) == stepped(from, st, k),
            -0x1_0000_0000_0000_0000 <= r <= 0x2_0000_0000_0000_0000,
            -0x1_0000_0000_0000_0000 <= c <= 0x2_0000_0000_0000_0000,
            forall|j: int| 0 <= j < k ==> on_floor(#[trigger] stepped(from, st, j), m, n),
            forall|p: (usize, usize)| #[trigger]
                antinodes@.contains(p) <==> old(antinodes)@.contains(p) || exists|j: int|
                    0 <= j < k && #[trigger] stepped(from, st, j) == (p.0 as int, p.1 as int),
        decreases ray_left(step.0 as int, step.1 as int, m as int, n as int, r as int, c as int),
    {
        let here = (r as usize, c as usize);
        let ghost before = antinodes@;
        insert_unique(antinodes, here);
        proof {
            assert(stepped(from, st, k + 1) == (r + st.0, c + st.1)) by (nonlinear_arith)
                requires
                    (r as int, c as int) == stepped(from, st, k),
            ;
            assert forall|p: (usize, usize)| #[trigger]
                antinodes@.contains(p) <==> old(antinodes)@.contains(p) || exists|j: int|
                    0 <= j < k + 1 && #[trigger] stepped(from, st, j) == (p.0 as int, p.1 as int) by {
                if before.contains(p) && !old(antinodes)@.contains(p) {
                    let j = choose|j: int|
                        0 <= j < k && #[trigger] stepped(from, st, j) == (p.0 as int, p.1 as int);
                    assert(0 <= j < k + 1);
                }
                if p == here {
                    assert(stepped(from, st, k) == (p.0 as int, p.1 as int));
                }
                if exists|j: int|
                    0 <= j < k + 1 && #[trigger] stepped(from, st, j) == (p.0 as int, p.1 as int) {
                    let j = choose|j: int|
                        0 <= j < k + 1 && #[trigger] stepped(from, st, j) == (
                            p.0 as int,
                            p.1 as int,
                        );
                    if j < k {
                        assert(before.contains(p));
                    } else {
                        assert(p == here);
                    }
                }
            }
            k = k + 1;
        }
        r = r + step.0;
        c = c + step.1;
    }
    proof {
        assert forall|p: (usize, usize)| #[trigger]
            antinodes@.contains(p) <==> old(antinodes)@.contains(p) || on_ray(from, st, m, n, p) by {
            if on_ray(from, st, m, n, p) {
                let j = choose|j: int|
                    0 <= j && #[trigger] stepped(from, st, j) == (p.0 as int, p.1 as int)
                        && on_floor((p.0 as int, p.1 as int), m, n);
                if j >= k {
                    lemma_ray_leaves(from, st, m, n, k, j);
                }
            }
            if antinodes@.contains(p) && !old(antinodes)@.contains(p) {
                let j = choose|j: int|
                    0 <= j < k && #[trigger] stepped(from, st, j) == (p.0 as int, p.1 as int);
                assert(on_floor(stepped(from, st, j), m, n));
            }
        }
    }
}

/// Notes the resonant antinodes of the antennas at `first` and `second`.
fn note_resonant(
    antinodes: &mut Vec<(usize, usize)>,
    first: (usize, usize),
    second: (usize, usize),
    m: usize,
    n: usize,
)
    requires
        old(antinodes)@.no_duplicates(),
    ensures
        final(antinodes)@.no_duplicates(),
        forall|p: (usize, usize)| #[trigger]
            final(antinodes)@.contains(p) <==> old(antinodes)@.contains(p) || is_resonant_of(
                first,
                second,
                m,
                n,
                p,
            ),
{
    let (dr, dc) = (abs_diff(first.0, second.0) as i128, abs_diff(first.1, second.1) as i128);
    insert_unique(antinodes, first);
    insert_unique(antinodes, second);
    if dr == 0 && dc == 0 {
        return ;
    }
    let first_on = first.0 < m && first.1 < n;
    let second_on = second.0 < m && second.1 < n;
    if first.1 < second.1 {
        if first_on {
            note_ray(antinodes, first, (-dr, -dc), m, n);
        }
        if second_on {
            note_ray(antinodes, second, (dr, dc), m, n);
        }
    } else {
        if second_on {
            note_ray(antinodes, second, (-dr, dc), m, n);
            note_ray(antinodes, second, (dr, -dc), m, n);
        }
    }
}

/// `p` is a resonant antinode of two of the antennas at `coords`, the
/// first of them before `i`, or at `i` with the second before `j`.
pub open spec fn is_resonant_upto(
    coords: Seq<(usize, usize)>,
    m: usize,
    n: usize,
    i: int,
    j: int,
    p: (usize, usize),
) -> bool {
    exists|a: int, b: int|
        0 <= a < b < coords.len() && comes_before(a, b, i, j) && #[trigger] is_resonant_of(
            coords[a],
            coords[b],
            m,
            n,
            p,
        )
}

/// `p` is a resonant antinode of two of the antennas at `coords`.
pub open spec fn is_resonant(coords: Seq<(usize, usize)>, m: usize, n: usize, p: (usize, usize)) -> bool {
    is_resonant_upto(coords, m, n, coords.len() as int, 0, p)
}

/// The resonant antinodes of the antennas at `coords` on a floor of `m`
/// rows and `n` columns, each once.
pub fn antinode_coords_v2(coords: &Vec<(usize, usize)>, m: usize, n: usize) -> (r: Vec<(usize, usize)>)
    ensures
        r@.no_duplicates(),
        forall|p: (usize, usize)| r@.contains(p) <==> is_resonant(coords@, m, n, p),
{
    let num_antennas = coords.len();
    let mut antinodes: Vec<(usize, usize)> = Vec::new();
    let mut i: usize = 0;
    while i < num_antennas
        invariant
            i <= num_antennas,
            num_antennas == coords.len(),
            antinodes@.no_duplicates(),
            forall|p: (usize, usize)|
                antinodes@.contains(p) <==> is_resonant_upto(coords@, m, n, i as int, 0, p),
        decreases num_antennas - i,
    {
        let first = coords[i];
        let mut j = i + 1;
        proof {
            assert forall|p: (usize, usize)|
                is_resonant_upto(coords@, m, n, i as int, 0, p) <==> is_resonant_upto(
                    coords@,
                    m,
                    n,
                    i as int,
                    j as int,
                    p,
                ) by {
                lemma_resonant_same(coords@, m, n, i as int, 0, i as int, j as int, p);
            }
        }
        while j < num_antennas
            invariant
                i < j <= num_antennas,
                num_antennas == coords.len(),
                first == coords[i as int],
                antinodes@.no_duplicates(),
                forall|p: (usize, usize)|
                    antinodes@.contains(p) <==> is_resonant_upto(
                        coords@,
                        m,
                        n,
                        i as int,
                        j as int,
                        p,
                    ),
            decreases num_antennas - j,
        {
            let second = coords[j];
            note_resonant(&mut antinodes, first, second, m, n);
            proof {
                assert forall|p: (usize, usize)|
                    antinodes@.contains(p) <==> is_resonant_upto(
                        coords@,
                        m,
                        n,
                        i as int,
                        j + 1,
                        p,
                    ) by {
                    lemma_resonant_step(coords@, m, n, i as int, j as int, p);
                }
            }
            j += 1;
        }
        proof {
            assert forall|p: (usize, usize)|
                is_resonant_upto(coords@, m, n, i as int, j as int, p) <==> is_resonant_upto(
                    coords@,
                    m,
                    n,
                    i + 1,
                    0,
                    p,
                ) by {
                lemma_resonant_same(coords@, m, n, i as int, j as int, i + 1, 0, p);
            }
        }
        i += 1;
    }
    antinodes
}

/// Two bounds that take in the same pairs give the same resonant antinodes.
proof fn lemma_resonant_same(
    coords: Seq<(usize, usize)>,
    m: usize,
    n: usize,
    i: int,
    j: int,
    i2: int,
    j2: int,
    p: (usize, usize),
)
    requires
        forall|a: int, b: int|
            0 <= a < b < coords.len() ==> (#[trigger] comes_before(a, b, i, j) <==> comes_before(
                a,
                b,
                i2,
                j2,
            )),
    ensures
        is_resonant_upto(coords, m, n, i, j, p) <==> is_resonant_upto(coords, m, n, i2, j2, p),
{
    if is_resonant_upto(coords, m, n, i, j, p) {
        let (a, b) = choose|a: int, b: int|
            0 <= a < b < coords.len() && comes_before(a, b, i, j) && #[trigger] is_resonant_of(
                coords[a],
                coords[b],
                m,
                n,
                p,
            );
        assert(comes_before(a, b, i2, j2));
    }
    if is_resonant_upto(coords, m, n, i2, j2, p) {
        let (a, b) = choose|a: int, b: int|
            0 <= a < b < coords.len() && comes_before(a, b, i2, j2) && #[trigger] is_resonant_of(
                coords[a],
                coords[b],
                m,
                n,
                p,
            );
        assert(comes_before(a, b, i, j));
    }
}

/// One pair more gives its resonant antinodes more.
proof fn lemma_resonant_step(
    coords: Seq<(usize, usize)>,
    m: usize,
    n: usize,
    i: int,
    j: int,
    p: (usize, usize),
)
    requires
        0 <= i < j < coords.len(),
    ensures
        is_resonant_upto(coords, m, n, i, j + 1, p) <==> is_resonant_upto(coords, m, n, i, j, p)
            || is_resonant_of(coords[i], coords[j], m, n, p),
{
    if is_resonant_upto(coords, m, n, i, j + 1, p) {
        let (a, b) = choose|a: int, b: int|
            0 <= a < b < coords.len() && comes_before(a, b, i, j + 1) && #[trigger] is_resonant_of(
                coords[a],
                coords[b],
                m,
                n,
                p,
            );
        if !(a == i && b == j) {
            assert(comes_before(a, b, i, j));
        }
    }
    if is_resonant_upto(coords, m, n, i, j, p) {
        let (a, b) = choose|a: int, b: int|
            0 <= a < b < coords.len() && comes_before(a, b, i, j) && #[trigger] is_resonant_of(
                coords[a],
                coords[b],
                m,
                n,
                p,
            );
        assert(comes_before(a, b, i, j + 1));
    }
    if is_resonant_of(coords[i], coords[j], m, n, p) {
        assert(comes_before(i, j, i, j + 1));
    }
}

/// An antenna is written as an ASCII letter or as a number.
pub open spec fn is_antenna(c: char) -> bool {
    'a' <= c <= 'z' || 'A' <= c <= 'Z' || is_numeric_char(c)
}

/// `c` stands in one of the first `upto` rows of `grid`.
pub open spec fn stands_in(grid: Seq<Seq<char>>, c: char, upto: int) -> bool {
    exists|i: int, j: int| 0 <= i < upto && 0 <= j < grid[i].len() && #[trigger] grid[i][j] == c
}

/// A row has places that hold `c` where `c` stands in it.
proof fn lemma_row_stands(row: Seq<char>, r: usize, c: char, upto: int)
    requires
        0 <= upto <= row.len(),
    ensures
        row_positions(row, r, c, upto).len() > 0 <==> exists|j: int|
            0 <= j < upto && #[trigger] row[j] == c,
    decreases upto,
{
    if upto > 0 {
        lemma_row_stands(row, r, c, upto - 1);
        if row[upto - 1] == c {
        } else if exists|j: int| 0 <= j < upto && #[trigger] row[j] == c {
            let j = choose|j: int| 0 <= j < upto && #[trigger] row[j] == c;
            assert(j < upto - 1);
        }
    }
}

/// A table has places that hold `c` where `c` stands in it.
proof fn lemma_stands(grid: Seq<Seq<char>>, c: char, upto: int)
    requires
        0 <= upto <= grid.len(),
    ensures
        positions_of(grid, c, upto).len() > 0 <==> stands_in(grid, c, upto),
    decreases upto,
{
    if upto > 0 {
        lemma_stands(grid, c, upto - 1);
        let row = grid[upto - 1];
        lemma_row_stands(row, (upto - 1) as usize, c, row.len() as int);
        if stands_in(grid, c, upto) {
            let (i, j) = choose|i: int, j: int|
                0 <= i < upto && 0 <= j < grid[i].len() && #[trigger] grid[i][j] == c;
            if i < upto - 1 {
                assert(stands_in(grid, c, upto - 1));
            } else {
                assert(row[j] == c);
            }
        }
        if stands_in(grid, c, upto - 1) {
            let (i, j) = choose|i: int, j: int|
                0 <= i < upto - 1 && 0 <= j < grid[i].len() && #[trigger] grid[i][j] == c;
            assert(0 <= i < upto);
        }
        if exists|j: int| 0 <= j < row.len() && #[trigger] row[j] == c {
            let j = choose|j: int| 0 <= j < row.len() && #[trigger] row[j] == c;
            assert(grid[upto - 1][j] == c);
        }
    }
}

/// Whether `c` is written as an antenna.
fn antenna(c: char) -> (r: bool)
    ensures
        r == is_antenna(c),
{
    ('a' <= c && c <= 'z') || ('A' <= c && c <= 'Z') || is_numeric(c)
}

/// Whether `c` is among `kinds`.
fn known(kinds: &Vec<char>, c: char) -> (r: bool)
    ensures
        r == kinds@.contains(c),
{
    let mut k: usize = 0;
    while k < kinds.len()
        invariant
            k <= kinds.len(),
            forall|a: int| 0 <= a < k ==> kinds[a] != c,
        decreases kinds.len() - k,
    {
        if kinds[k] == c {
            return true;
        }
        k += 1;
    }
    false
}

/// `c` is among the first `upto` characters of `row`.
pub open spec fn stands_before(row: Seq<char>, c: char, upto: int) -> bool {
    exists|b: int| 0 <= b < upto && #[trigger] row[b] == c
}

/// `c` is an antenna that stands in `grid` before the place in row `i` and
/// column `j`.
pub open spec fn antenna_before(grid: Seq<Seq<char>>, c: char, i: int, j: int) -> bool {
    is_antenna(c) && (stands_in(grid, c, i) || stands_before(grid[i], c, j))
}

/// What stands before the end of a row stands before the next row.
proof fn lemma_row_done(grid: Seq<Seq<char>>, c: char, i: int)
    requires
        0 <= i < grid.len(),
    ensures
        antenna_before(grid, c, i, grid[i].len() as int) <==> is_antenna(c) && stands_in(
            grid,
            c,
            i + 1,
        ),
{
    let row = grid[i];
    if stands_in(grid, c, i + 1) {
        let (a, b) = choose|a: int, b: int|
            0 <= a < i + 1 && 0 <= b < grid[a].len() && #[trigger] grid[a][b] == c;
        if a < i {
            assert(stands_in(grid, c, i));
        } else {
            assert(row[b] == c);
        }
    }
    if stands_in(grid, c, i) {
        let (a, b) = choose|a: int, b: int|
            0 <= a < i && 0 <= b < grid[a].len() && #[trigger] grid[a][b] == c;
        assert(0 <= a < i + 1);
    }
    if stands_before(row, c, row.len() as int) {
        let b = choose|b: int| 0 <= b < row.len() && #[trigger] row[b] == c;
        assert(grid[i][b] == c);
    }
}

/// One place more holds one character more.
proof fn lemma_place_done(row: Seq<char>, c: char, j: int)
    requires
        0 <= j < row.len(),
    ensures
        stands_before(row, c, j + 1) <==> stands_before(row, c, j) || row[j] == c,
{
    if stands_before(row, c, j + 1) {
        let b = choose|b: int| 0 <= b < j + 1 && #[trigger] row[b] == c;
        if b < j {
            assert(stands_before(row, c, j));
        }
    }
    if stands_before(row, c, j) {
        let b = choose|b: int| 0 <= b < j && #[trigger] row[b] == c;
        assert(0 <= b < j + 1);
    }
}

/// The kinds of antenna that stand in `grid`, each once.
fn antenna_kinds(grid: &Vec<Vec<char>>) -> (r: Vec<char>)
    ensures
        r@.no_duplicates(),
        forall|c: char| #[trigger]
            r@.contains(c) <==> is_antenna(c) && stands_in(rows(*grid), c, grid.len() as int),
{
    let mut kinds: Vec<char> = Vec::new();
    let mut i: usize = 0;
    assert forall|c: char| !stands_in(rows(*grid), c, 0) by {}
    while i < grid.len()
        invariant
            i <= grid.len(),
            kinds@.no_duplicates(),
            forall|c: char| #[trigger]
                kinds@.contains(c) <==> is_antenna(c) && stands_in(rows(*grid), c, i as int),
        decreases grid.len() - i,
    {
        let row = &grid[i];
        assert(rows(*grid)[i as int] == row@);
        let mut j: usize = 0;
        proof {
            assert forall|c: char| #[trigger]
                kinds@.contains(c) <==> antenna_before(rows(*grid), c, i as int, 0) by {
                assert(!stands_before(row@, c, 0));
            }
        }
        while j < row.len()
            invariant
                i < grid.len(),
                j <= row.len(),
                rows(*grid)[i as int] == row@,
                kinds@.no_duplicates(),
                forall|c: char| #[trigger]
                    kinds@.contains(c) <==> antenna_before(rows(*grid), c, i as int, j as int),
            decreases row.len() - j,
        {
            let c = row[j];
            let ghost before = kinds@;
            if antenna(c) && !known(&kinds, c) {
                proof {
                    lemma_push_contains(before, c);
                    lemma_push_no_duplicates(before, c);
                }
                kinds.push(c);
            }
            proof {
                assert forall|d: char| #[trigger]
                    kinds@.contains(d) <==> antenna_before(rows(*grid), d, i as int, j + 1) by {
                    lemma_place_done(row@, d, j as int);
                    assert(before.contains(d) <==> antenna_before(
                        rows(*grid),
                        d,
                        i as int,
                        j as int,
                    ));
                    assert(before.contains(c) <==> antenna_before(
                        rows(*grid),
                        c,
                        i as int,
                        j as int,
                    ));
                }
            }
            j += 1;
        }
        proof {
            assert forall|c: char| #[trigger]
                kinds@.contains(c) <==> is_antenna(c) && stands_in(rows(*grid), c, i + 1) by {
                lemma_row_done(rows(*grid), c, i as int);
            }
        }
        i += 1;
    }
    kinds
}

/// The antennas of `grid`: each kind that stands in it, once, with its
/// places row by row.
pub fn find_antennas(grid: &Vec<Vec<char>>) -> (r: Vec<(char, Vec<(usize, usize)>)>)
    ensures
        forall|k: int|
            0 <= k < r.len() ==> is_antenna((#[trigger] r[k]).0) && r[k].1@ == positions_of(
                rows(*grid),
                r[k].0,
                grid.len() as int,
            ) && r[k].1.len() > 0,
        forall|a: int, b: int| 0 <= a < b < r.len() ==> r[a].0 != r[b].0,
        forall|c: char|
            is_antenna(c) && positions_of(rows(*grid), c, grid.len() as int).len() > 0
                ==> exists|k: int| 0 <= k < r.len() && (#[trigger] r[k]).0 == c,
{
    let kinds = antenna_kinds(grid);
    let mut antennas: Vec<(char, Vec<(usize, usize)>)> = Vec::new();
    let mut k: usize = 0;
    while k < kinds.len()
        invariant
            k <= kinds.len(),
            antennas.len() == k,
            kinds@.no_duplicates(),
            forall|c: char| #[trigger]
                kinds@.contains(c) <==> is_antenna(c) && stands_in(rows(*grid), c, grid.len() as int),
            forall|a: int|
                0 <= a < k ==> (#[trigger] antennas[a]).0 == kinds[a] && antennas[a].1@
                    == positions_of(rows(*grid), kinds[a], grid.len() as int),
        decreases kinds.len() - k,
    {
        let places = find_all(grid, kinds[k]);
        antennas.push((kinds[k], places));
        k += 1;
    }
    proof {
        assert forall|a: int| 0 <= a < antennas.len() implies is_antenna((#[trigger] antennas[a]).0)
            && antennas[a].1@ == positions_of(rows(*grid), antennas[a].0, grid.len() as int)
            && antennas[a].1.len() > 0 by {
            assert(kinds@.contains(kinds[a]));
            lemma_stands(rows(*grid), kinds[a], grid.len() as int);
        }
        assert forall|c: char|
            is_antenna(c) && positions_of(rows(*grid), c, grid.len() as int).len()
                > 0 implies exists|a: int| 0 <= a < antennas.len() && (#[trigger] antennas[a]).0 == c by {
            lemma_stands(rows(*grid), c, grid.len() as int);
            assert(kinds@.contains(c));
            let a = choose|a: int| 0 <= a < kinds.len() && kinds[a] == c;
            assert(antennas[a].0 == c);
        }
    }
    antennas
}

/// The place `p` is an antinode on `grid`: one of two antennas of one
/// kind, resonant or not.
pub open spec fn is_antinode_on(grid: Seq<Seq<char>>, resonant: bool, p: (usize, usize)) -> bool {
    exists|c: char| #[trigger]
        is_antenna(c) && made_by(
            positions_of(grid, c, grid.len() as int),
            grid.len() as usize,
            grid[0].len() as usize,
            resonant,
            p,
        )
}

/// The place `p` is an antinode of two of the antennas at `coords`.
pub open spec fn made_by(
    coords: Seq<(usize, usize)>,
    m: usize,
    n: usize,
    resonant: bool,
    p: (usize, usize),
) -> bool {
    if resonant {
        is_resonant(coords, m, n, p)
    } else {
        is_antinode(coords, m, n, p)
    }
}

/// The antinodes on `grid`.
pub open spec fn antinodes_on(grid: Seq<Seq<char>>, resonant: bool) -> Set<(usize, usize)> {
    Set::new(|p: (usize, usize)| is_antinode_on(grid, resonant, p))
}

/// The number of antinodes on `lines`, which must hold a line.
pub open spec fn antinode_count(lines: Seq<Seq<char>>, resonant: bool) -> Option<u32> {
    if lines.len() > 0 {
        Some(wrapped(antinodes_on(lines, resonant).len()))
    } else {
        None
    }
}

/// Counts the antinodes on `grid`.
pub fn count_antinodes(grid: &Vec<Vec<char>>, resonant: bool) -> (r: Result<u32, AdventError>)
    ensures
        crate::is_outcome(r, antinode_count(rows(*grid), resonant)),
{
    if grid.len() == 0 {
        return Err(parse_error("no antenna map"));
    }
    let (m, n) = (grid.len(), grid[0].len());
    assert(rows(*grid)[0] == grid[0]@);
    let antennas = find_antennas(grid);
    let ghost text = rows(*grid);
    let mut all: Vec<(usize, usize)> = Vec::new();
    let mut k: usize = 0;
    while k < antennas.len()
        invariant
            k <= antennas.len(),
            all@.no_duplicates(),
            forall|p: (usize, usize)| #[trigger]
                all@.contains(p) <==> exists|a: int|
                    0 <= a < k && #[trigger] made_by(antennas[a].1@, m, n, resonant, p),
        decreases antennas.len() - k,
    {
        let found = if resonant {
            antinode_coords_v2(&antennas[k].1, m, n)
        } else {
            antinode_coords(&antennas[k].1, m, n)
        };
        let ghost before = all@;
        let mut i: usize = 0;
        while i < found.len()
            invariant
                i <= found.len(),
                all@.no_duplicates(),
                forall|p: (usize, usize)| #[trigger]
                    all@.contains(p) <==> before.contains(p) || found@.take(i as int).contains(p),
            decreases found.len() - i,
        {
            let ghost old_all = all@;
            insert_unique(&mut all, found[i]);
            proof {
                assert(found@.take(i + 1) =~= found@.take(i as int).push(found[i as int]));
                lemma_push_contains(found@.take(i as int), found[i as int]);
                assert forall|p: (usize, usize)| #[trigger]
                    all@.contains(p) <==> before.contains(p) || found@.take(i + 1).contains(p) by {
                    assert(old_all.contains(p) <==> before.contains(p) || found@.take(
                        i as int,
                    ).contains(p));
                }
            }
            i += 1;
        }
        proof {
            assert(found@.take(found.len() as int) =~= found@);
            assert forall|p: (usize, usize)| #[trigger]
                all@.contains(p) <==> exists|a: int|
                    0 <= a < k + 1 && #[trigger] made_by(antennas[a].1@, m, n, resonant, p) by {
                assert(all@.contains(p) <==> before.contains(p) || found@.contains(p));
                assert(found@.contains(p) <==> made_by(antennas[k as int].1@, m, n, resonant, p));
                if before.contains(p) {
                    let a = choose|a: int|
                        0 <= a < k && #[trigger] made_by(antennas[a].1@, m, n, resonant, p);
                    assert(0 <= a < k + 1);
                }
                if exists|a: int|
                    0 <= a < k + 1 && #[trigger] made_by(antennas[a].1@, m, n, resonant, p) {
                    let a = choose|a: int|
                        0 <= a < k + 1 && #[trigger] made_by(antennas[a].1@, m, n, resonant, p);
                    if a < k {
                        assert(before.contains(p));
                    }
                }
            }
        }
        k += 1;
    }
    proof {
        all@.unique_seq_to_set();
        assert forall|p: (usize, usize)| all@.contains(p) <==> is_antinode_on(text, resonant, p) by {
            if all@.contains(p) {
                let a = choose|a: int|
                    0 <= a < antennas.len() && #[trigger] made_by(antennas[a].1@, m, n, resonant, p);
                assert(is_antenna(antennas[a].0));
            }
            if is_antinode_on(text, resonant, p) {
                let c = choose|c: char| #[trigger]
                    is_antenna(c) && made_by(positions_of(text, c, text.len() as int), m, n, resonant, p);
                lemma_made_by_two(positions_of(text, c, text.len() as int), m, n, resonant, p);
                let a = choose|a: int| 0 <= a < antennas.len() && (#[trigger] antennas[a]).0 == c;
                assert(made_by(antennas[a].1@, m, n, resonant, p));
            }
        }
        assert(all@.to_set() =~= antinodes_on(text, resonant));
    }
    Ok(wrapped_len(all.len()))
}

/// It takes two antennas to make an antinode.
proof fn lemma_made_by_two(coords: Seq<(usize, usize)>, m: usize, n: usize, resonant: bool, p: (usize, usize))
    requires
        made_by(coords, m, n, resonant, p),
    ensures
        coords.len() >= 2,
{
}

/// A length, cut to 32 bits.
fn wrapped_len(n: usize) -> (r: u32)
    ensures
        r == wrapped(n as nat),
{
    ((n as u64) % 0x1_0000_0000) as u32
}

impl AdventProblem for Day8 {
    open spec fn accepts_part_1(&self, lines: Seq<Seq<char>>) -> bool {
        true
    }

    open spec fn accepts_part_2(&self, lines: Seq<Seq<char>>) -> bool {
        true
    }

    open spec fn answer_part_1(&self, lines: Seq<Seq<char>>) -> Option<u32> {
        antinode_count(lines, false)
    }

    open spec fn answer_part_2(&self, lines: Seq<Seq<char>>) -> Option<u32> {
        antinode_count(lines, true)
    }

    fn run_part_1(&self, lines: Vec<String>) -> (r: Result<u32, AdventError>) {
        let grid = chars_of_lines(&lines);
        count_antinodes(&grid, false)
    }

    fn run_part_2(&self, lines: Vec<String>) -> (r: Result<u32, AdventError>) {
        let grid = chars_of_lines(&lines);
        count_antinodes(&grid, true)
    }
}

} // verus!
