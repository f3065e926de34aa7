use super::costs::{
    cost_at, lemma_open_count_settle, open_count, same_shape, with_cost, CellCosts, CostMap,
};
use super::frontier::{is_first_least, Entry, Frontier};
use super::grid::{
    ahead, in_bounds, next_space, passable, rectangular, Cell, Direction, Grid, Position,
    SearchState,
};
use super::route::{
    is_distance, is_link, is_step, is_walk, lemma_walk_extend, lemma_walk_shrink,
    lemma_walk_single, reaches, step_cost, walk_cost,
};
use vstd::prelude::*;

verus! {

/// `s` has its final cost in `costs`.
pub open spec fn settled(costs: Seq<Seq<CellCosts>>, s: SearchState) -> bool {
    cost_at(costs, s) != u32::MAX
}

/// Some walk from `sources` to `s` costs exactly `c`.
#[verifier::opaque]
pub open spec fn witnessed(
    cells: Seq<Seq<Cell>>,
    reverse: bool,
    sources: Seq<SearchState>,
    turn_cost: u32,
    s: SearchState,
    c: nat,
) -> bool {
    exists|w: Seq<SearchState>| #[trigger]
        reaches(cells, reverse, sources, w, s) && walk_cost(w, turn_cost) == c
}

/// No walk to a state costs less than the state's distance.
pub proof fn lemma_distance_bounds(
    cells: Seq<Seq<Cell>>,
    reverse: bool,
    sources: Seq<SearchState>,
    turn_cost: u32,
    s: SearchState,
    d: u32,
    w: Seq<SearchState>,
)
    requires
        is_distance(cells, reverse, sources, turn_cost, s, d),
        reaches(cells, reverse, sources, w, s),
    ensures
        walk_cost(w, turn_cost) >= d,
{
    reveal(is_distance);
}

/// A state has one distance.
pub proof fn lemma_distance_unique(
    cells: Seq<Seq<Cell>>,
    reverse: bool,
    sources: Seq<SearchState>,
    turn_cost: u32,
    s: SearchState,
    a: u32,
    b: u32,
)
    requires
        is_distance(cells, reverse, sources, turn_cost, s, a),
        is_distance(cells, reverse, sources, turn_cost, s, b),
    ensures
        a == b,
{
    reveal(is_distance);
    if a < b {
        let w = choose|w: Seq<SearchState>|
            reaches(cells, reverse, sources, w, s) && walk_cost(w, turn_cost) == a;
        assert(walk_cost(w, turn_cost) >= b);
    } else if b < a {
        let w = choose|w: Seq<SearchState>|
            reaches(cells, reverse, sources, w, s) && walk_cost(w, turn_cost) == b;
        assert(walk_cost(w, turn_cost) >= a);
    }
}

/// Some walk to a state costs exactly the state's distance, if that is
/// below `u32::MAX`.
pub proof fn lemma_distance_witnessed(
    cells: Seq<Seq<Cell>>,
    reverse: bool,
    sources: Seq<SearchState>,
    turn_cost: u32,
    s: SearchState,
    d: u32,
)
    requires
        is_distance(cells, reverse, sources, turn_cost, s, d),
        d < u32::MAX,
    ensures
        witnessed(cells, reverse, sources, turn_cost, s, d as nat),
{
    reveal(is_distance);
    reveal(witnessed);
}

/// `frontier` holds `t` at a cost of at most `bound`.
#[verifier::opaque]
pub open spec fn offers(frontier: Seq<Entry>, t: SearchState, bound: int) -> bool {
    exists|i: int|
        0 <= i < frontier.len() && (#[trigger] frontier[i]).state == t && frontier[i].cost <= bound
}

/// `d` is the cost of the cheapest walk from `sources` to any state at
/// `goal`, with `u32::MAX` for every cost that does not lie below it.
pub open spec fn is_arrival_cost(
    cells: Seq<Seq<Cell>>,
    reverse: bool,
    sources: Seq<SearchState>,
    turn_cost: u32,
    goal: Position,
    d: u32,
) -> bool {
    &&& d < u32::MAX ==> exists|w: Seq<SearchState>| #[trigger]
        reaches(cells, reverse, sources, w, w.last()) && w.last().position == goal && walk_cost(
            w,
            turn_cost,
        ) == d
    &&& forall|w: Seq<SearchState>| #[trigger]
        reaches(cells, reverse, sources, w, w.last()) && w.last().position == goal ==> walk_cost(
            w,
            turn_cost,
        ) >= d
}

spec fn entries_sound(
    cells: Seq<Seq<Cell>>,
    reverse: bool,
    sources: Seq<SearchState>,
    turn_cost: u32,
    frontier: Seq<Entry>,
) -> bool {
    forall|i: int|
        0 <= i < frontier.len() ==> {
            &&& in_bounds(cells, (#[trigger] frontier[i]).state.position)
            &&& frontier[i].cost < u32::MAX
            &&& witnessed(cells, reverse, sources, turn_cost, frontier[i].state, frontier[i].cost as nat)
        }
}

spec fn settled_exact(
    cells: Seq<Seq<Cell>>,
    reverse: bool,
    sources: Seq<SearchState>,
    turn_cost: u32,
    costs: Seq<Seq<CellCosts>>,
) -> bool {
    forall|s: SearchState|
        in_bounds(cells, s.position) && #[trigger] settled(costs, s) ==> is_distance(
            cells,
            reverse,
            sources,
            turn_cost,
            s,
            cost_at(costs, s),
        )
}

spec fn sources_covered(
    sources: Seq<SearchState>,
    costs: Seq<Seq<CellCosts>>,
    frontier: Seq<Entry>,
) -> bool {
    forall|k: int|
        0 <= k < sources.len() ==> settled(costs, #[trigger] sources[k]) || offers(
            frontier,
            sources[k],
            0,
        )
}

spec fn links_covered(
    cells: Seq<Seq<Cell>>,
    reverse: bool,
    turn_cost: u32,
    costs: Seq<Seq<CellCosts>>,
    frontier: Seq<Entry>,
) -> bool {
    forall|u: SearchState, t: SearchState|
        in_bounds(cells, u.position) && in_bounds(cells, t.position) && settled(costs, u)
            && !settled(costs, t) && #[trigger] is_link(cells, reverse, u, t) && cost_at(costs, u)
            + step_cost(u, t, turn_cost) < u32::MAX ==> offers(
            frontier,
            t,
            cost_at(costs, u) + step_cost(u, t, turn_cost),
        )
}

/// What holds between the iterations of the search.
spec fn search_inv(
    cells: Seq<Seq<Cell>>,
    reverse: bool,
    sources: Seq<SearchState>,
    turn_cost: u32,
    costs: Seq<Seq<CellCosts>>,
    frontier: Seq<Entry>,
) -> bool {
    &&& same_shape(costs, cells)
    &&& forall|k: int| 0 <= k < sources.len() ==> in_bounds(cells, (#[trigger] sources[k]).position)
    &&& entries_sound(cells, reverse, sources, turn_cost, frontier)
    &&& settled_exact(cells, reverse, sources, turn_cost, costs)
    &&& sources_covered(sources, costs, frontier)
    &&& links_covered(cells, reverse, turn_cost, costs, frontier)
}

/// Every walk of representable cost that ends in an unsettled state costs
/// at least as much as some waiting entry.
proof fn lemma_frontier_bounds(
    cells: Seq<Seq<Cell>>,
    reverse: bool,
    sources: Seq<SearchState>,
    turn_cost: u32,
    costs: Seq<Seq<CellCosts>>,
    frontier: Seq<Entry>,
    w: Seq<SearchState>,
)
    requires
        search_inv(cells, reverse, sources, turn_cost, costs, frontier),
        is_walk(cells, reverse, w),
        sources.contains(w[0]),
        !settled(costs, w.last()),
        walk_cost(w, turn_cost) < u32::MAX,
    ensures
        exists|i: int|
            0 <= i < frontier.len() && (#[trigger] frontier[i]).cost <= walk_cost(w, turn_cost),
    decreases w.len(),
{
    reveal(offers);
    reveal(is_distance);
    if w.len() == 1 {
        let k = choose|k: int| 0 <= k < sources.len() && sources[k] == w[0];
        assert(offers(frontier, sources[k], 0));
    } else {
        lemma_walk_shrink(cells, reverse, w, turn_cost);
        let q = w.drop_last();
        let u = q.last();
        let t = w.last();
        if settled(costs, u) {
            assert(reaches(cells, reverse, sources, q, u));
            assert(is_link(cells, reverse, u, t));
            assert(offers(frontier, t, cost_at(costs, u) + step_cost(u, t, turn_cost)));
        } else {
            lemma_frontier_bounds(cells, reverse, sources, turn_cost, costs, frontier, q);
        }
    }
}

/// How recording a cost changes what the map holds.
proof fn lemma_with_cost(
    costs: Seq<Seq<CellCosts>>,
    cells: Seq<Seq<Cell>>,
    s: SearchState,
    cost: u32,
)
    requires
        same_shape(costs, cells),
        in_bounds(cells, s.position),
    ensures
        same_shape(with_cost(costs, s, cost), cells),
        cost_at(with_cost(costs, s, cost), s) == cost,
        forall|t: SearchState|
            in_bounds(cells, t.position) && t != s ==> #[trigger] cost_at(
                with_cost(costs, s, cost),
                t,
            ) == cost_at(costs, t),
{
}

/// `r` is the one state, if any, that a link leads to from `s` without a turn.
spec fn is_advance(cells: Seq<Seq<Cell>>, reverse: bool, s: SearchState, r: Option<SearchState>) -> bool {
    forall|t: SearchState|
        (r == Some(t)) <==> (t.direction == s.direction && in_bounds(cells, t.position)
            && #[trigger] is_link(cells, reverse, s, t))
}

/// The state that a move along a link leads to from `s`, if the grid allows
/// one: the move ahead, or in the mirrored graph the move from behind.
fn advance(grid: &Grid, s: SearchState, reverse: bool) -> (r: Option<SearchState>)
    requires
        in_bounds(grid@, s.position),
    ensures
        is_advance(grid@, reverse, s, r),
{
    let boundary = grid.boundary();
    let r = if reverse {
        let back = s.direction.rotate_clockwise().rotate_clockwise();
        match next_space(s.position, boundary, back) {
            Some(q) => {
                if grid.cell(s.position) != Cell::Wall {
                    Some(SearchState { position: q, direction: s.direction })
                } else {
                    None
                }
            },
            None => None,
        }
    } else {
        match next_space(s.position, boundary, s.direction) {
            Some(q) => {
                if grid.cell(q) != Cell::Wall {
                    Some(SearchState { position: q, direction: s.direction })
                } else {
                    None
                }
            },
            None => None,
        }
    };
    assert forall|t: SearchState|
        (r == Some(t)) <==> (t.direction == s.direction && in_bounds(grid@, t.position)
            && #[trigger] is_link(grid@, reverse, s, t)) by {
        assert(in_bounds(grid@, t.position) <==> (t.position.row < boundary.0 && t.position.col
            < boundary.1));
        let d = s.direction;
        assert(d.clockwise() != d && d.counterclockwise() != d);
        if reverse {
            let back = d.clockwise().clockwise();
            assert(ahead(t.position, d, s.position) <==> ahead(s.position, back, t.position));
            if t.direction == d && ahead(s.position, back, t.position) {
                assert(t == SearchState { position: t.position, direction: d });
            }
        } else {
            if t.direction == d && ahead(s.position, d, t.position) {
                assert(t == SearchState { position: t.position, direction: d });
            }
        }
    }
    r
}

/// Offers `t` at the cost of `from` plus `step`, unless `t` is settled or
/// that cost cannot be represented.
fn relax(
    frontier: &mut Frontier,
    costs: &CostMap,
    from: Entry,
    t: SearchState,
    step: u32,
    Ghost(cells): Ghost<Seq<Seq<Cell>>>,
    Ghost(reverse): Ghost<bool>,
    Ghost(sources): Ghost<Seq<SearchState>>,
    Ghost(turn_cost): Ghost<u32>,
)
    requires
        same_shape(costs@, cells),
        in_bounds(cells, t.position),
        in_bounds(cells, from.state.position),
        entries_sound(cells, reverse, sources, turn_cost, old(frontier)@),
        witnessed(cells, reverse, sources, turn_cost, from.state, from.cost as nat),
        is_link(cells, reverse, from.state, t),
        step == step_cost(from.state, t, turn_cost),
    ensures
        entries_sound(cells, reverse, sources, turn_cost, final(frontier)@),
        forall|x: SearchState, b: int| #[trigger]
            offers(old(frontier)@, x, b) ==> offers(final(frontier)@, x, b),
        !settled(costs@, t) && from.cost + step < u32::MAX ==> offers(
            final(frontier)@,
            t,
            from.cost + step,
        ),
        final(frontier)@.len() <= old(frontier)@.len() + 1,
{
    if costs.get(t) == u32::MAX {
        match from.cost.checked_add(step) {
            Some(cost) => {
                if cost < u32::MAX {
                    let entry = Entry { cost, state: t };
                    frontier.push(entry);
                    proof {
                        reveal(offers);
                        reveal(witnessed);
                        let f = old(frontier)@;
                        let w = choose|w: Seq<SearchState>| #[trigger]
                            reaches(cells, reverse, sources, w, from.state) && walk_cost(
                                w,
                                turn_cost,
                            ) == from.cost as nat;
                        lemma_walk_extend(cells, reverse, w, t, turn_cost);
                        assert(reaches(cells, reverse, sources, w.push(t), t));
                        assert(witnessed(cells, reverse, sources, turn_cost, t, cost as nat));
                        assert(frontier@[f.len() as int] == entry);
                        assert forall|x: SearchState, b: int| #[trigger]
                            offers(f, x, b) implies offers(frontier@, x, b) by {
                            let i = choose|i: int|
                                0 <= i < f.len() && (#[trigger] f[i]).state == x && f[i].cost <= b;
                            assert(frontier@[i] == f[i]);
                        }
                    }
                }
            },
            None => {},
        }
    }
}

/// Dropping an entry for another state keeps what the frontier offers for `t`.
proof fn lemma_offers_after_remove(frontier: Seq<Entry>, i: int, t: SearchState, bound: int)
    requires
        0 <= i < frontier.len(),
        offers(frontier, t, bound),
        frontier[i].state != t,
    ensures
        offers(frontier.remove(i), t, bound),
{
    reveal(offers);
    let j = choose|j: int|
        0 <= j < frontier.len() && (#[trigger] frontier[j]).state == t && frontier[j].cost <= bound;
    if j < i {
        assert(frontier.remove(i)[j] == frontier[j]);
    } else {
        assert(frontier.remove(i)[j - 1] == frontier[j]);
    }
}

/// The state a quarter turn to the right of `s`.
spec fn turned_right(s: SearchState) -> SearchState {
    SearchState { position: s.position, direction: s.direction.clockwise() }
}

/// The state a quarter turn to the left of `s`.
spec fn turned_left(s: SearchState) -> SearchState {
    SearchState { position: s.position, direction: s.direction.counterclockwise() }
}

/// Both quarter turns are links, in the graph and in its mirror image.
proof fn lemma_turns_are_links(cells: Seq<Seq<Cell>>, reverse: bool, s: SearchState)
    ensures
        is_link(cells, reverse, s, turned_right(s)),
        is_link(cells, reverse, s, turned_left(s)),
{
    let d = s.direction;
    assert(d.clockwise().counterclockwise() == d && d.counterclockwise().clockwise() == d);
}

/// An entry whose state is settled already can go.
proof fn lemma_after_skip(
    cells: Seq<Seq<Cell>>,
    reverse: bool,
    sources: Seq<SearchState>,
    turn_cost: u32,
    costs: Seq<Seq<CellCosts>>,
    f: Seq<Entry>,
    i: int,
)
    requires
        search_inv(cells, reverse, sources, turn_cost, costs, f),
        0 <= i < f.len(),
        settled(costs, f[i].state),
    ensures
        search_inv(cells, reverse, sources, turn_cost, costs, f.remove(i)),
{
    let f0 = f.remove(i);
    assert forall|x: SearchState, b: int| #[trigger]
        offers(f, x, b) && x != f[i].state implies offers(f0, x, b) by {
        lemma_offers_after_remove(f, i, x, b);
    }
    assert(entries_sound(cells, reverse, sources, turn_cost, f0)) by {
        assert forall|j: int| 0 <= j < f0.len() implies {
            &&& in_bounds(cells, (#[trigger] f0[j]).state.position)
            &&& f0[j].cost < u32::MAX
            &&& witnessed(cells, reverse, sources, turn_cost, f0[j].state, f0[j].cost as nat)
        } by {
            if j < i {
                assert(f0[j] == f[j]);
            } else {
                assert(f0[j] == f[j + 1]);
            }
        }
    }
    assert(sources_covered(sources, costs, f0)) by {
        assert forall|k: int| 0 <= k < sources.len() implies settled(costs, #[trigger] sources[k])
            || offers(f0, sources[k], 0) by {
            if !settled(costs, sources[k]) {
                assert(offers(f, sources[k], 0));
            }
        }
    }
    assert(links_covered(cells, reverse, turn_cost, costs, f0)) by {
        assert forall|u: SearchState, t: SearchState|
            in_bounds(cells, u.position) && in_bounds(cells, t.position) && settled(costs, u)
                && !settled(costs, t) && #[trigger] is_link(cells, reverse, u, t) && cost_at(
                costs,
                u,
            ) + step_cost(u, t, turn_cost) < u32::MAX implies offers(
            f0,
            t,
            cost_at(costs, u) + step_cost(u, t, turn_cost),
        ) by {
            assert(offers(f, t, cost_at(costs, u) + step_cost(u, t, turn_cost)));
        }
    }
}

/// The cost of a least entry for an unsettled state is that state's distance.
proof fn lemma_least_is_distance(
    cells: Seq<Seq<Cell>>,
    reverse: bool,
    sources: Seq<SearchState>,
    turn_cost: u32,
    costs: Seq<Seq<CellCosts>>,
    f: Seq<Entry>,
    i: int,
)
    requires
        search_inv(cells, reverse, sources, turn_cost, costs, f),
        is_first_least(f, i),
        !settled(costs, f[i].state),
    ensures
        is_distance(cells, reverse, sources, turn_cost, f[i].state, f[i].cost),
{
    reveal(is_distance);
    reveal(witnessed);
    let s = f[i].state;
    assert forall|w: Seq<SearchState>| #[trigger]
        reaches(cells, reverse, sources, w, s) implies walk_cost(w, turn_cost) >= f[i].cost by {
        if walk_cost(w, turn_cost) < u32::MAX {
            lemma_frontier_bounds(cells, reverse, sources, turn_cost, costs, f, w);
        }
    }
    assert(witnessed(cells, reverse, sources, turn_cost, s, f[i].cost as nat));
}

/// While no state at `goal` is settled, the cost of a least entry for a
/// state at `goal` is the cheapest at which `goal` can be had.
proof fn lemma_least_is_arrival(
    cells: Seq<Seq<Cell>>,
    reverse: bool,
    sources: Seq<SearchState>,
    turn_cost: u32,
    costs: Seq<Seq<CellCosts>>,
    f: Seq<Entry>,
    i: int,
    goal: Position,
)
    requires
        search_inv(cells, reverse, sources, turn_cost, costs, f),
        is_first_least(f, i),
        f[i].state.position == goal,
        forall|s: SearchState|
            in_bounds(cells, s.position) && #[trigger] settled(costs, s) ==> s.position != goal,
    ensures
        is_arrival_cost(cells, reverse, sources, turn_cost, goal, f[i].cost),
{
    let s = f[i].state;
    assert forall|w: Seq<SearchState>| #[trigger]
        reaches(cells, reverse, sources, w, w.last()) && w.last().position
            == goal implies walk_cost(w, turn_cost) >= f[i].cost by {
        if walk_cost(w, turn_cost) < u32::MAX {
            assert(in_bounds(cells, w[w.len() - 1].position));
            lemma_frontier_bounds(cells, reverse, sources, turn_cost, costs, f, w);
        }
    }
    assert(witnessed(cells, reverse, sources, turn_cost, s, f[i].cost as nat));
    reveal(witnessed);
    let w = choose|w: Seq<SearchState>| #[trigger]
        reaches(cells, reverse, sources, w, s) && walk_cost(w, turn_cost) == f[i].cost as nat;
    assert(reaches(cells, reverse, sources, w, w.last()));
}

/// When nothing waits, every state's recorded cost is its distance.
proof fn lemma_exhausted_distance(
    cells: Seq<Seq<Cell>>,
    reverse: bool,
    sources: Seq<SearchState>,
    turn_cost: u32,
    costs: Seq<Seq<CellCosts>>,
    f: Seq<Entry>,
)
    requires
        search_inv(cells, reverse, sources, turn_cost, costs, f),
        f.len() == 0,
    ensures
        forall|s: SearchState|
            in_bounds(cells, s.position) ==> is_distance(
                cells,
                reverse,
                sources,
                turn_cost,
                s,
                #[trigger] cost_at(costs, s),
            ),
{
    assert forall|s: SearchState| in_bounds(cells, s.position) implies is_distance(
        cells,
        reverse,
        sources,
        turn_cost,
        s,
        #[trigger] cost_at(costs, s),
    ) by {
        reveal(is_distance);
        if settled(costs, s) {
        } else {
            assert forall|w: Seq<SearchState>| #[trigger]
                reaches(cells, reverse, sources, w, s) implies walk_cost(w, turn_cost)
                >= u32::MAX by {
                if walk_cost(w, turn_cost) < u32::MAX {
                    lemma_frontier_bounds(cells, reverse, sources, turn_cost, costs, f, w);
                }
            }
        }
    }
}

/// When nothing waits and no state at `goal` is settled, `goal` cannot be
/// had at a representable cost.
proof fn lemma_exhausted_arrival(
    cells: Seq<Seq<Cell>>,
    reverse: bool,
    sources: Seq<SearchState>,
    turn_cost: u32,
    costs: Seq<Seq<CellCosts>>,
    f: Seq<Entry>,
    goal: Position,
)
    requires
        search_inv(cells, reverse, sources, turn_cost, costs, f),
        f.len() == 0,
        forall|s: SearchState|
            in_bounds(cells, s.position) && #[trigger] settled(costs, s) ==> s.position != goal,
    ensures
        is_arrival_cost(cells, reverse, sources, turn_cost, goal, u32::MAX),
{
    assert forall|w: Seq<SearchState>| #[trigger]
        reaches(cells, reverse, sources, w, w.last()) && w.last().position
            == goal implies walk_cost(w, turn_cost) >= u32::MAX by {
        if walk_cost(w, turn_cost) < u32::MAX {
            assert(in_bounds(cells, w[w.len() - 1].position));
            lemma_frontier_bounds(cells, reverse, sources, turn_cost, costs, f, w);
        }
    }
}

/// Settling the state of a least entry, and offering what lies one link
/// further on, keeps the search in order.
proof fn lemma_after_settle(
    cells: Seq<Seq<Cell>>,
    reverse: bool,
    sources: Seq<SearchState>,
    turn_cost: u32,
    c0: Seq<Seq<CellCosts>>,
    f: Seq<Entry>,
    i: int,
    moved: Option<SearchState>,
    f3: Seq<Entry>,
)
    requires
        search_inv(cells, reverse, sources, turn_cost, c0, f),
        is_first_least(f, i),
        !settled(c0, f[i].state),
        is_advance(cells, reverse, f[i].state, moved),
        entries_sound(cells, reverse, sources, turn_cost, f3),
        forall|x: SearchState, b: int| #[trigger] offers(f.remove(i), x, b) ==> offers(f3, x, b),
        forall|t: SearchState|
            in_bounds(cells, t.position) && #[trigger] is_link(cells, reverse, f[i].state, t)
                && !settled(with_cost(c0, f[i].state, f[i].cost), t) && f[i].cost + step_cost(
                f[i].state,
                t,
                turn_cost,
            ) < u32::MAX && (moved == Some(t) || t == turned_right(f[i].state) || t == turned_left(
                f[i].state,
            )) ==> offers(f3, t, f[i].cost + step_cost(f[i].state, t, turn_cost)),
    ensures
        search_inv(cells, reverse, sources, turn_cost, with_cost(c0, f[i].state, f[i].cost), f3),
{
    let s = f[i].state;
    let c1 = with_cost(c0, s, f[i].cost);
    let f0 = f.remove(i);
    lemma_with_cost(c0, cells, s, f[i].cost);
    lemma_least_is_distance(cells, reverse, sources, turn_cost, c0, f, i);
    assert forall|x: SearchState, b: int| #[trigger] offers(f, x, b) && x != s implies offers(
        f3,
        x,
        b,
    ) by {
        lemma_offers_after_remove(f, i, x, b);
    }
    assert(settled_exact(cells, reverse, sources, turn_cost, c1)) by {
        assert forall|x: SearchState|
            in_bounds(cells, x.position) && #[trigger] settled(c1, x) implies is_distance(
            cells,
            reverse,
            sources,
            turn_cost,
            x,
            cost_at(c1, x),
        ) by {
            if x != s {
                assert(settled(c0, x));
            }
        }
    }
    assert(sources_covered(sources, c1, f3)) by {
        assert forall|k: int| 0 <= k < sources.len() implies settled(c1, #[trigger] sources[k])
            || offers(f3, sources[k], 0) by {
            let x = sources[k];
            if x != s {
                if !settled(c0, x) {
                    assert(offers(f, x, 0));
                }
            }
        }
    }
    assert(links_covered(cells, reverse, turn_cost, c1, f3)) by {
        assert forall|u: SearchState, t: SearchState|
            in_bounds(cells, u.position) && in_bounds(cells, t.position) && settled(c1, u)
                && !settled(c1, t) && #[trigger] is_link(cells, reverse, u, t) && cost_at(c1, u)
                + step_cost(u, t, turn_cost) < u32::MAX implies offers(
            f3,
            t,
            cost_at(c1, u) + step_cost(u, t, turn_cost),
        ) by {
            let bound = cost_at(c1, u) + step_cost(u, t, turn_cost);
            assert(t != s);
            assert(!settled(c0, t));
            if u != s {
                assert(settled(c0, u));
                assert(offers(f, t, bound));
            } else {
                if t.direction == s.direction {
                    assert(moved == Some(t));
                } else {
                    assert(t == turned_right(s) || t == turned_left(s));
                }
            }
        }
    }
}

/// The search proper. It settles states in the order of their cost, each at
/// the cost of the cheapest walk that leads to it from `sources`, and offers
/// the states one link further on. With a `target`, it stops as soon as a
/// state at that position is settled and returns its cost; without one it
/// runs until nothing waits and returns every state's cost.
pub fn explore(
    grid: &Grid,
    sources: &Vec<SearchState>,
    turn_cost: u32,
    reverse: bool,
    target: Option<Position>,
) -> (r: (CostMap, u32))
    requires
        forall|k: int| 0 <= k < sources.len() ==> in_bounds(grid@, (#[trigger] sources[k]).position),
    ensures
        same_shape(r.0@, grid@),
        target is None ==> forall|s: SearchState|
            in_bounds(grid@, s.position) ==> is_distance(
                grid@,
                reverse,
                sources@,
                turn_cost,
                s,
                #[trigger] cost_at(r.0@, s),
            ),
        target matches Some(goal) ==> is_arrival_cost(
            grid@,
            reverse,
            sources@,
            turn_cost,
            goal,
            r.1,
        ),
{
    let (m, n) = grid.boundary();
    let ghost cells = grid@;
    let mut costs = CostMap::new(m, n);
    let mut frontier = Frontier::new();
    let mut k: usize = 0;
    while k < sources.len()
        invariant
            k <= sources.len(),
            frontier@.len() == k,
            forall|j: int|
                0 <= j < k ==> (#[trigger] frontier@[j]) == (Entry { cost: 0, state: sources[j] }),
        decreases sources.len() - k,
    {
        frontier.push(Entry { cost: 0, state: sources[k] });
        k += 1;
    }
    proof {
        reveal(offers);
        reveal(witnessed);
        assert forall|i: int| 0 <= i < frontier@.len() implies witnessed(
            cells,
            reverse,
            sources@,
            turn_cost,
            (#[trigger] frontier@[i]).state,
            frontier@[i].cost as nat,
        ) by {
            let s = sources[i];
            lemma_walk_single(cells, reverse, s, turn_cost);
            assert(reaches(cells, reverse, sources@, seq![s], s));
        }
        assert forall|j: int| 0 <= j < sources.len() implies offers(
            frontier@,
            #[trigger] sources@[j],
            0,
        ) by {
            assert(frontier@[j].state == sources[j]);
        }
        assert forall|s: SearchState| in_bounds(cells, s.position) implies !#[trigger] settled(
            costs@,
            s,
        ) by {
            assert(costs@[s.position.row as int][s.position.col as int].up == u32::MAX);
        }
    }
    loop
        invariant
            cells == grid@,
            search_inv(cells, reverse, sources@, turn_cost, costs@, frontier@),
            target matches Some(goal) ==> forall|s: SearchState|
                in_bounds(cells, s.position) && #[trigger] settled(costs@, s) ==> s.position
                    != goal,
        decreases 4 * open_count(costs@) + frontier@.len(),
    {
        let ghost f = frontier@;
        let ghost c0 = costs@;
        let e = match frontier.pop() {
            None => {
                proof {
                    lemma_exhausted_distance(cells, reverse, sources@, turn_cost, c0, f);
                    if let Some(goal) = target {
                        lemma_exhausted_arrival(cells, reverse, sources@, turn_cost, c0, f, goal);
                    }
                }
                return (costs, u32::MAX);
            },
            Some(e) => e,
        };
        let ghost i = choose|i: int| is_first_least(f, i) && e == f[i] && frontier@ == f.remove(i);
        let s = e.state;
        if costs.get(s) != u32::MAX {
            proof {
                lemma_after_skip(cells, reverse, sources@, turn_cost, c0, f, i);
            }
            continue ;
        }
        match target {
            Some(goal) => {
                if s.position.row == goal.row && s.position.col == goal.col {
                    proof {
                        lemma_least_is_arrival(cells, reverse, sources@, turn_cost, c0, f, i, goal);
                    }
                    return (costs, e.cost);
                }
            },
            None => {},
        }
        proof {
            lemma_after_skip_sound(cells, reverse, sources@, turn_cost, f, i);
            lemma_least_is_distance(cells, reverse, sources@, turn_cost, c0, f, i);
            lemma_with_cost(c0, cells, s, e.cost);
            lemma_open_count_settle(c0, s, e.cost);
            lemma_turns_are_links(cells, reverse, s);
        }
        costs.set(s, e.cost);
        let ghost f0 = frontier@;
        let moved = advance(grid, s, reverse);
        match moved {
            Some(t) => {
                assert(is_link(cells, reverse, s, t));
                relax(
                    &mut frontier,
                    &costs,
                    e,
                    t,
                    1,
                    Ghost(cells),
                    Ghost(reverse),
                    Ghost(sources@),
                    Ghost(turn_cost),
                );
            },
            None => {},
        }
        let ghost f1 = frontier@;
        let right = SearchState { position: s.position, direction: s.direction.rotate_clockwise() };
        let left = SearchState {
            position: s.position,
            direction: s.direction.rotate_counterclockwise(),
        };
        relax(
            &mut frontier,
            &costs,
            e,
            right,
            turn_cost,
            Ghost(cells),
            Ghost(reverse),
            Ghost(sources@),
            Ghost(turn_cost),
        );
        let ghost f2 = frontier@;
        relax(
            &mut frontier,
            &costs,
            e,
            left,
            turn_cost,
            Ghost(cells),
            Ghost(reverse),
            Ghost(sources@),
            Ghost(turn_cost),
        );
        proof {
            let f3 = frontier@;
            assert forall|x: SearchState, b: int| #[trigger] offers(f0, x, b) implies offers(
                f3,
                x,
                b,
            ) by {
                assert(offers(f1, x, b));
                assert(offers(f2, x, b));
            }
            assert forall|t: SearchState|
                in_bounds(cells, t.position) && #[trigger] is_link(cells, reverse, s, t)
                    && !settled(costs@, t) && e.cost + step_cost(s, t, turn_cost) < u32::MAX && (
                moved == Some(t) || t == turned_right(s) || t == turned_left(s)) implies offers(
                f3,
                t,
                e.cost + step_cost(s, t, turn_cost),
            ) by {
                let bound = e.cost + step_cost(s, t, turn_cost);
                if moved == Some(t) {
                    assert(offers(f1, t, bound));
                    assert(offers(f2, t, bound));
                } else if t == right {
                    assert(offers(f2, t, bound));
                } else {
                    assert(t == left);
                }
            }
            lemma_after_settle(cells, reverse, sources@, turn_cost, c0, f, i, moved, f3);
            if let Some(goal) = target {
                assert forall|x: SearchState|
                    in_bounds(cells, x.position) && #[trigger] settled(
                        costs@,
                        x,
                    ) implies x.position != goal by {
                    if x != s {
                        assert(settled(c0, x));
                    }
                }
            }
        }
    }
}

/// Without one of its entries, what is left of the frontier is still sound.
proof fn lemma_after_skip_sound(
    cells: Seq<Seq<Cell>>,
    reverse: bool,
    sources: Seq<SearchState>,
    turn_cost: u32,
    f: Seq<Entry>,
    i: int,
)
    requires
        entries_sound(cells, reverse, sources, turn_cost, f),
        0 <= i < f.len(),
    ensures
        entries_sound(cells, reverse, sources, turn_cost, f.remove(i)),
        witnessed(cells, reverse, sources, turn_cost, f[i].state, f[i].cost as nat),
        in_bounds(cells, f[i].state.position),
{
    let f0 = f.remove(i);
    assert forall|j: int| 0 <= j < f0.len() implies {
        &&& in_bounds(cells, (#[trigger] f0[j]).state.position)
        &&& f0[j].cost < u32::MAX
        &&& witnessed(cells, reverse, sources, turn_cost, f0[j].state, f0[j].cost as nat)
    } by {
        if j < i {
            assert(f0[j] == f[j]);
        } else {
            assert(f0[j] == f[j + 1]);
        }
    }
}

} // verus!
