use vstd::prelude::*;
use crate::coord::{adjacent, diagonal, Coord};
use crate::level::{Land, Level};

verus! {

/// Cost of a move along one axis, in thousandths of a cell side.
pub const REGULAR_COST: u128 = 1000;

/// Cost of a diagonal move, in thousandths of a cell side.
pub const DIAGONAL_COST: u128 = 1414;

/// Cost of the move between two adjacent cells.
pub open spec fn step_cost(a: Coord, b: Coord) -> nat {
    if diagonal(a, b) {
        DIAGONAL_COST as nat
    } else {
        REGULAR_COST as nat
    }
}

/// A walk over passable cells of the level: at least one cell, each next to the
/// one before it.
pub open spec fn is_route(level: &Level, route: Seq<Coord>) -> bool {
    &&& route.len() >= 1
    &&& forall|i: int| 0 <= i < route.len() ==> level.passable(#[trigger] route[i])
    &&& forall|i: int| 0 <= i < route.len() - 1 ==> adjacent(#[trigger] route[i], route[i + 1])
}

/// A route of the level that begins at `start` and ends at `end`.
pub open spec fn connects(level: &Level, route: Seq<Coord>, start: Coord, end: Coord) -> bool {
    &&& is_route(level, route)
    &&& route[0] == start
    &&& route.last() == end
}

/// Sum of the costs of the moves along a sequence of cells.
pub open spec fn route_cost(route: Seq<Coord>) -> nat
    decreases route.len(),
{
    if route.len() <= 1 {
        0
    } else {
        route_cost(route.drop_last()) + step_cost(route[route.len() - 2], route.last())
    }
}

/// `start` and `end` are joined by a route of the level.
pub open spec fn reachable(level: &Level, start: Coord, end: Coord) -> bool {
    exists|route: Seq<Coord>| connects(level, route, start, end)
}

/// `route` joins `start` and `end` and no route that does so costs less.
pub open spec fn shortest(level: &Level, route: Seq<Coord>, start: Coord, end: Coord) -> bool {
    &&& connects(level, route, start, end)
    &&& forall|other: Seq<Coord>| #[trigger]
        connects(level, other, start, end) ==> route_cost(route) <= route_cost(other)
}

/// Every cell of the level is passable.
pub open spec fn open_field(level: &Level) -> bool {
    forall|c: Coord| level.inside(c) ==> #[trigger] level.land(c) == Land::Pass
}

/// No passable cell is next to `c`.
pub open spec fn enclosed(level: &Level, c: Coord) -> bool {
    forall|n: Coord| #[trigger] adjacent(c, n) ==> !level.passable(n)
}

/// Distance between two columns or two rows.
pub open spec fn gap(a: usize, b: usize) -> nat {
    if a >= b {
        (a - b) as nat
    } else {
        (b - a) as nat
    }
}

/// Cost of the cheapest walk between two cells when nothing is in the way:
/// diagonal moves while both the column and the row differ, then straight on.
pub open spec fn octile(a: Coord, b: Coord) -> nat {
    let dx = gap(a.x, b.x);
    let dy = gap(a.y, b.y);
    if dx <= dy {
        DIAGONAL_COST as nat * dx + REGULAR_COST as nat * (dy - dx) as nat
    } else {
        DIAGONAL_COST as nat * dy + REGULAR_COST as nat * (dx - dy) as nat
    }
}

/// The route keeps its cost when it is read up to its last cell but one, plus
/// the last move.
pub proof fn lemma_cost_push(route: Seq<Coord>, c: Coord)
    requires
        route.len() >= 1,
    ensures
        route_cost(route.push(c)) == route_cost(route) + step_cost(route.last(), c),
{
    assert(route.push(c).drop_last() =~= route);
}

/// Where a height changes along a walk by exactly the cost of each move, the
/// cost of the walk is the height gained from its first cell to its last.
pub proof fn lemma_cost_telescopes(route: Seq<Coord>, height: spec_fn(Coord) -> nat)
    requires
        route.len() >= 1,
        forall|i: int| 0 <= i < route.len() - 1 ==> #[trigger] height(route[i + 1]) == height(route[i]) + step_cost(route[i], route[i + 1]),
    ensures
        height(route.last()) == height(route[0]) + route_cost(route),
    decreases route.len(),
{
    if route.len() > 1 {
        let front = route.drop_last();
        lemma_cost_telescopes(front, height);
        let k = route.len() - 2;
        assert(height(route[k + 1]) == height(route[k]) + step_cost(route[k], route[k + 1]));
    }
}

/// Cells along which a height strictly grows are all different.
pub proof fn lemma_climb_distinct(route: Seq<Coord>, height: spec_fn(Coord) -> nat)
    requires
        forall|i: int| 0 <= i < route.len() - 1 ==> #[trigger] height(route[i]) < height(route[i + 1]),
    ensures
        route.no_duplicates(),
{
    assert forall|i: int, j: int| 0 <= i < j < route.len() implies height(route[i]) < height(route[j]) by {
        lemma_climb(route, height, i, j);
    }
}

proof fn lemma_climb(route: Seq<Coord>, height: spec_fn(Coord) -> nat, i: int, j: int)
    requires
        forall|k: int| 0 <= k < route.len() - 1 ==> #[trigger] height(route[k]) < height(route[k + 1]),
        0 <= i < j < route.len(),
    ensures
        height(route[i]) < height(route[j]),
    decreases j - i,
{
    if i + 1 < j {
        lemma_climb(route, height, i, j - 1);
    }
}

/// A walk read up to one of its cells is a walk again.
pub proof fn lemma_route_front(level: &Level, route: Seq<Coord>, n: int)
    requires
        is_route(level, route),
        1 <= n <= route.len(),
    ensures
        is_route(level, route.subrange(0, n)),
        route.subrange(0, n)[0] == route[0],
        route.subrange(0, n).last() == route[n - 1],
{
}

/// One move changes the octile cost to any goal by no more than the move costs.
pub proof fn lemma_octile_step(a: Coord, b: Coord, goal: Coord)
    requires
        adjacent(a, b),
    ensures
        octile(a, goal) <= step_cost(a, b) + octile(b, goal),
{
}

/// No walk costs less than the octile cost between its ends.
pub proof fn lemma_octile_bound(level: &Level, route: Seq<Coord>)
    requires
        is_route(level, route),
    ensures
        octile(route[0], route.last()) <= route_cost(route),
{
    lemma_octile_along(level, route, route.last());
}

proof fn lemma_octile_along(level: &Level, route: Seq<Coord>, goal: Coord)
    requires
        is_route(level, route),
    ensures
        octile(route[0], goal) <= route_cost(route) + octile(route.last(), goal),
    decreases route.len(),
{
    if route.len() > 1 {
        let n = route.len() - 1;
        let front = route.subrange(0, n);
        lemma_route_front(level, route, n);
        lemma_octile_along(level, front, goal);
        lemma_octile_step(route[n - 1], route[n], goal);
    }
}

/// One step from `a` towards `b` along one axis.
pub open spec fn toward(a: usize, b: usize) -> usize {
    if a < b {
        (a + 1) as usize
    } else if a > b {
        (a - 1) as usize
    } else {
        a
    }
}

/// The straightest walk from `a` to `b`: diagonally while both the column and
/// the row differ, then along the axis that is left.
pub open spec fn beeline(a: Coord, b: Coord) -> Seq<Coord>
    decreases gap(a.x, b.x) + gap(a.y, b.y),
{
    if a == b {
        seq![a]
    } else {
        beeline(a, Coord { x: toward(b.x, a.x), y: toward(b.y, a.y) }).push(b)
    }
}

/// Each column and row of `c` lies between those of `a` and `b`.
pub open spec fn between(c: Coord, a: Coord, b: Coord) -> bool {
    &&& (a.x <= c.x <= b.x || b.x <= c.x <= a.x)
    &&& (a.y <= c.y <= b.y || b.y <= c.y <= a.y)
}

/// The beeline goes from `a` to `b` by adjacent cells that lie between the two,
/// and costs the octile cost.
pub proof fn lemma_beeline(a: Coord, b: Coord)
    ensures
        beeline(a, b).len() >= 1,
        beeline(a, b)[0] == a,
        beeline(a, b).last() == b,
        forall|i: int| 0 <= i < beeline(a, b).len() ==> between(#[trigger] beeline(a, b)[i], a, b),
        forall|i: int| 0 <= i < beeline(a, b).len() - 1 ==> adjacent(#[trigger] beeline(a, b)[i], beeline(a, b)[i + 1]),
        route_cost(beeline(a, b)) == octile(a, b),
    decreases gap(a.x, b.x) + gap(a.y, b.y),
{
    if a != b {
        let back = Coord { x: toward(b.x, a.x), y: toward(b.y, a.y) };
        let front = beeline(a, back);
        lemma_beeline(a, back);
        lemma_cost_push(front, b);
    }
}

/// In a level without blocked cells the beeline between two of its cells is a
/// shortest route, so the cheapest route costs the octile cost.
pub proof fn lemma_open_field(level: &Level, a: Coord, b: Coord)
    requires
        open_field(level),
        level.inside(a),
        level.inside(b),
    ensures
        shortest(level, beeline(a, b), a, b),
        route_cost(beeline(a, b)) == octile(a, b),
{
    lemma_beeline(a, b);
    let line = beeline(a, b);
    assert forall|other: Seq<Coord>| #[trigger] connects(level, other, a, b) implies route_cost(line) <= route_cost(other) by {
        lemma_octile_bound(level, other);
    }
}

/// A route between two cells exists only where both are passable.
pub proof fn lemma_blocked(level: &Level, start: Coord, end: Coord)
    requires
        !level.passable(start) || !level.passable(end),
    ensures
        !reachable(level, start, end),
{
}

/// The shortest route from a cell to itself is that cell alone, at no cost.
pub proof fn lemma_same_cell(level: &Level, route: Seq<Coord>, c: Coord)
    requires
        shortest(level, route, c, c),
    ensures
        route == seq![c],
        route_cost(route) == 0,
{
    let alone = seq![c];
    assert(connects(level, alone, c, c));
}

/// A passable cell is joined to itself.
pub proof fn lemma_reachable_self(level: &Level, c: Coord)
    requires
        level.passable(c),
    ensures
        reachable(level, c, c),
{
    assert(connects(level, seq![c], c, c));
}

/// Where the goal is not the start and has no passable cell next to it, no
/// route joins the two.
pub proof fn lemma_enclosed(level: &Level, start: Coord, end: Coord)
    requires
        enclosed(level, end),
        start != end,
    ensures
        !reachable(level, start, end),
{
    assert forall|route: Seq<Coord>| !connects(level, route, start, end) by {
        if connects(level, route, start, end) {
            let n = route.len() - 2;
            assert(adjacent(end, route[n]));
        }
    }
}

} // verus!
