use super::grid::{ahead, in_bounds, passable, Cell, Direction, Position, SearchState};
use vstd::prelude::*;

verus! {

/// One move of the walker: a step onto the passable cell ahead, or a quarter
/// turn in place.
pub open spec fn is_step(cells: Seq<Seq<Cell>>, a: SearchState, b: SearchState) -> bool {
    ||| a.direction == b.direction && ahead(a.position, a.direction, b.position) && passable(
        cells,
        b.position,
    )
    ||| a.position == b.position && (b.direction == a.direction.clockwise() || b.direction
        == a.direction.counterclockwise())
}

/// What a move between `a` and `b` costs: 1 forwards, `turn_cost` for a turn.
pub open spec fn step_cost(a: SearchState, b: SearchState, turn_cost: u32) -> nat {
    if a.direction == b.direction {
        1
    } else {
        turn_cost as nat
    }
}

/// An edge of the search graph, or of its mirror image when `reverse` is set.
pub open spec fn is_link(cells: Seq<Seq<Cell>>, reverse: bool, a: SearchState, b: SearchState) -> bool {
    if reverse {
        is_step(cells, b, a)
    } else {
        is_step(cells, a, b)
    }
}

/// A non-empty sequence of states inside the grid, each linked to the next.
pub open spec fn is_walk(cells: Seq<Seq<Cell>>, reverse: bool, w: Seq<SearchState>) -> bool {
    &&& w.len() > 0
    &&& forall|i: int| 0 <= i < w.len() ==> in_bounds(cells, (#[trigger] w[i]).position)
    &&& forall|i: int|
        0 <= i < w.len() - 1 ==> is_link(cells, reverse, #[trigger] w[i], w[i + 1])
}

/// The summed cost of the moves of `w`.
pub open spec fn walk_cost(w: Seq<SearchState>, turn_cost: u32) -> nat
    decreases w.len(),
{
    if w.len() <= 1 {
        0
    } else {
        walk_cost(w.drop_last(), turn_cost) + step_cost(w[w.len() - 2], w[w.len() - 1], turn_cost)
    }
}

/// `w` is a walk from one of `sources` to `s`.
pub open spec fn reaches(
    cells: Seq<Seq<Cell>>,
    reverse: bool,
    sources: Seq<SearchState>,
    w: Seq<SearchState>,
    s: SearchState,
) -> bool {
    is_walk(cells, reverse, w) && sources.contains(w[0]) && w.last() == s
}

/// `d` is the cost of the cheapest walk from `sources` to `s`, where
/// `u32::MAX` stands for every cost that does not lie below it, and for none.
#[verifier::opaque]
pub open spec fn is_distance(
    cells: Seq<Seq<Cell>>,
    reverse: bool,
    sources: Seq<SearchState>,
    turn_cost: u32,
    s: SearchState,
    d: u32,
) -> bool {
    &&& d < u32::MAX ==> exists|w: Seq<SearchState>|
        reaches(cells, reverse, sources, w, s) && walk_cost(w, turn_cost) == d
    &&& forall|w: Seq<SearchState>| #[trigger]
        reaches(cells, reverse, sources, w, s) ==> walk_cost(w, turn_cost) >= d
}

/// A walk grows by one link at its end, and its cost by that link's.
pub proof fn lemma_walk_extend(
    cells: Seq<Seq<Cell>>,
    reverse: bool,
    w: Seq<SearchState>,
    t: SearchState,
    turn_cost: u32,
)
    requires
        is_walk(cells, reverse, w),
        is_link(cells, reverse, w.last(), t),
        in_bounds(cells, t.position),
    ensures
        is_walk(cells, reverse, w.push(t)),
        walk_cost(w.push(t), turn_cost) == walk_cost(w, turn_cost) + step_cost(
            w.last(),
            t,
            turn_cost,
        ),
        w.push(t)[0] == w[0],
        w.push(t).last() == t,
{
    let e = w.push(t);
    assert(e.drop_last() =~= w);
    assert forall|i: int| 0 <= i < e.len() - 1 implies is_link(
        cells,
        reverse,
        #[trigger] e[i],
        e[i + 1],
    ) by {
        if i < w.len() - 1 {
            assert(is_link(cells, reverse, w[i], w[i + 1]));
        }
    }
}

/// A walk without its last state is a walk, and costs no more.
pub proof fn lemma_walk_shrink(
    cells: Seq<Seq<Cell>>,
    reverse: bool,
    w: Seq<SearchState>,
    turn_cost: u32,
)
    requires
        is_walk(cells, reverse, w),
        w.len() > 1,
    ensures
        is_walk(cells, reverse, w.drop_last()),
        walk_cost(w, turn_cost) == walk_cost(w.drop_last(), turn_cost) + step_cost(
            w.drop_last().last(),
            w.last(),
            turn_cost,
        ),
        is_link(cells, reverse, w.drop_last().last(), w.last()),
        w.drop_last()[0] == w[0],
{
    let q = w.drop_last();
    assert forall|i: int| 0 <= i < q.len() - 1 implies is_link(
        cells,
        reverse,
        #[trigger] q[i],
        q[i + 1],
    ) by {
        assert(is_link(cells, reverse, w[i], w[i + 1]));
    }
    assert(is_link(cells, reverse, w[w.len() - 2], w[w.len() - 2 + 1]));
}

/// A single state inside the grid is a walk of cost 0.
pub proof fn lemma_walk_single(cells: Seq<Seq<Cell>>, reverse: bool, s: SearchState, turn_cost: u32)
    requires
        in_bounds(cells, s.position),
    ensures
        is_walk(cells, reverse, seq![s]),
        walk_cost(seq![s], turn_cost) == 0,
        seq![s][0] == s,
        seq![s].last() == s,
{
}

/// Two walks that meet, the first ending where the second begins, cost
/// together what they cost apart.
pub proof fn lemma_cost_concat(a: Seq<SearchState>, b: Seq<SearchState>, turn_cost: u32)
    requires
        a.len() > 0,
        b.len() > 0,
        a.last() == b[0],
    ensures
        walk_cost(a + b.drop_first(), turn_cost) == walk_cost(a, turn_cost) + walk_cost(
            b,
            turn_cost,
        ),
    decreases b.len(),
{
    let j = a + b.drop_first();
    if b.len() == 1 {
        assert(j =~= a);
    } else {
        let b1 = b.drop_last();
        assert(j.drop_last() =~= a + b1.drop_first());
        lemma_cost_concat(a, b1, turn_cost);
        assert(j[j.len() - 1] == b[b.len() - 1]);
        assert(j[j.len() - 2] == b[b.len() - 2]);
    }
}

/// Two walks that meet make one walk.
pub proof fn lemma_walk_concat(
    cells: Seq<Seq<Cell>>,
    reverse: bool,
    a: Seq<SearchState>,
    b: Seq<SearchState>,
)
    requires
        is_walk(cells, reverse, a),
        is_walk(cells, reverse, b),
        a.last() == b[0],
    ensures
        is_walk(cells, reverse, a + b.drop_first()),
        (a + b.drop_first())[0] == a[0],
        (a + b.drop_first()).last() == b.last(),
{
    let j = a + b.drop_first();
    assert forall|i: int| 0 <= i < j.len() implies in_bounds(cells, (#[trigger] j[i]).position) by {
        if i >= a.len() {
            assert(j[i] == b[i - a.len() + 1]);
        }
    }
    assert forall|i: int| 0 <= i < j.len() - 1 implies is_link(
        cells,
        reverse,
        #[trigger] j[i],
        j[i + 1],
    ) by {
        if i < a.len() - 1 {
            assert(is_link(cells, reverse, a[i], a[i + 1]));
        } else {
            let k = i - a.len() + 1;
            assert(is_link(cells, reverse, b[k], b[k + 1]));
        }
    }
}

/// A walk falls into the walk up to one of its states and the walk from there.
pub proof fn lemma_walk_split(
    cells: Seq<Seq<Cell>>,
    reverse: bool,
    w: Seq<SearchState>,
    k: int,
    turn_cost: u32,
)
    requires
        is_walk(cells, reverse, w),
        0 <= k < w.len(),
    ensures
        is_walk(cells, reverse, w.take(k + 1)),
        is_walk(cells, reverse, w.skip(k)),
        w.take(k + 1)[0] == w[0],
        w.take(k + 1).last() == w[k],
        w.skip(k)[0] == w[k],
        w.skip(k).last() == w.last(),
        walk_cost(w, turn_cost) == walk_cost(w.take(k + 1), turn_cost) + walk_cost(
            w.skip(k),
            turn_cost,
        ),
{
    let a = w.take(k + 1);
    let b = w.skip(k);
    assert forall|i: int| 0 <= i < a.len() - 1 implies is_link(
        cells,
        reverse,
        #[trigger] a[i],
        a[i + 1],
    ) by {
        assert(is_link(cells, reverse, w[i], w[i + 1]));
    }
    assert forall|i: int| 0 <= i < b.len() - 1 implies is_link(
        cells,
        reverse,
        #[trigger] b[i],
        b[i + 1],
    ) by {
        assert(is_link(cells, reverse, w[i + k], w[i + k + 1]));
    }
    assert(w =~= a + b.drop_first());
    lemma_cost_concat(a, b, turn_cost);
}

/// A walk costs the same read backwards.
pub proof fn lemma_cost_reverse(w: Seq<SearchState>, turn_cost: u32)
    requires
        w.len() > 0,
    ensures
        walk_cost(w.reverse(), turn_cost) == walk_cost(w, turn_cost),
    decreases w.len(),
{
    if w.len() == 1 {
        assert(w.reverse() =~= w);
    } else {
        let q = w.drop_last();
        let t = w.last();
        let u = q.last();
        let pair = seq![t, u];
        assert(w.reverse() =~= pair + q.reverse().drop_first());
        lemma_cost_concat(pair, q.reverse(), turn_cost);
        lemma_cost_reverse(q, turn_cost);
        assert(pair.drop_last() =~= seq![t]);
        assert(walk_cost(pair, turn_cost) == walk_cost(pair.drop_last(), turn_cost) + step_cost(
            t,
            u,
            turn_cost,
        ));
        assert(walk_cost(seq![t], turn_cost) == 0);
    }
}

/// A walk read backwards is a walk in the mirrored graph.
pub proof fn lemma_walk_reverse(cells: Seq<Seq<Cell>>, reverse: bool, w: Seq<SearchState>)
    requires
        is_walk(cells, reverse, w),
    ensures
        is_walk(cells, !reverse, w.reverse()),
        w.reverse()[0] == w.last(),
        w.reverse().last() == w[0],
{
    let r = w.reverse();
    assert forall|i: int| 0 <= i < r.len() - 1 implies is_link(
        cells,
        !reverse,
        #[trigger] r[i],
        r[i + 1],
    ) by {
        let k = w.len() - 2 - i;
        assert(is_link(cells, reverse, w[k], w[k + 1]));
    }
}

} // verus!
