use vstd::prelude::*;
use vstd::multiset::Multiset;
use vstd::set_lib::{lemma_int_range, lemma_len_subset, set_int_range};
use crate::board::Board;
use crate::coord::{adjacent, Coord};
use crate::estimate::{estimate, guide, lemma_estimate_self, lemma_estimate_step};
use crate::frontier::{Candidate, Frontier};
use crate::level::{Land, Level};
use crate::path::Path;
use crate::route::{
    connects, enclosed, gap, is_route, lemma_blocked, lemma_climb_distinct,
    lemma_cost_telescopes, lemma_enclosed, lemma_octile_bound, lemma_open_field,
    lemma_reachable_self, lemma_route_front, lemma_same_cell, octile, open_field, reachable,
    route_cost, shortest, step_cost, DIAGONAL_COST, REGULAR_COST,
};

verus! {

/// How far the search has come with a cell.
#[derive(Copy, Clone, PartialEq, Eq, Structural)]
pub enum Mark {
    /// Not met yet.
    Unseen,
    /// Met and waiting in the frontier.
    Open,
    /// Taken from the frontier; its cost is final.
    Closed,
}

/// What the search keeps for a cell.
#[derive(Copy, Clone)]
pub struct Node {
    pub mark: Mark,
    /// Cost of the best walk found so far from the start to this cell.
    pub prefix: u128,
    /// `prefix` plus the estimate from this cell to the goal.
    pub whole: u128,
    /// The cell before this one on that walk.
    pub origin: Coord,
}

/// The candidate that a cell makes with the cost kept for it.
pub open spec fn candidate_of(nodes: Board<Node>, c: Coord) -> Candidate {
    Candidate { cost: nodes.at(c).whole, coord: c }
}

/// Number of cells of a level.
pub open spec fn area(level: &Level) -> nat {
    level.width() * level.height()
}

/// The most that a walk can cost whose cells were closed one after another.
pub open spec fn ceiling(closed: Set<int>) -> nat {
    DIAGONAL_COST as nat * closed.len()
}

pub open spec fn same_shape(level: &Level, nodes: Board<Node>) -> bool {
    &&& nodes.wf()
    &&& nodes.width() == level.width()
    &&& nodes.height() == level.height()
}

/// What holds of a cell that the search has met: it is passable, its costs
/// fit together, and unless it is the start it hangs on a closed neighbour.
pub open spec fn linked(level: &Level, nodes: Board<Node>, start: Coord, end: Coord, bound: nat, c: Coord) -> bool {
    let n = nodes.at(c);
    &&& level.passable(c)
    &&& n.whole == n.prefix + estimate(c, end)
    &&& n.prefix <= bound
    &&& if c == start {
        n.prefix == 0
    } else {
        &&& level.inside(n.origin)
        &&& nodes.at(n.origin).mark == Mark::Closed
        &&& adjacent(n.origin, c)
        &&& n.prefix == nodes.at(n.origin).prefix + step_cost(n.origin, c)
    }
}

/// The start has been met, and every met cell is linked.
pub open spec fn tidy(level: &Level, nodes: Board<Node>, start: Coord, end: Coord, bound: nat) -> bool {
    &&& same_shape(level, nodes)
    &&& level.inside(start)
    &&& level.inside(end)
    &&& nodes.at(start).mark != Mark::Unseen
    &&& forall|c: Coord| level.inside(c) && nodes.at(c).mark != Mark::Unseen ==> #[trigger] linked(level, nodes, start, end, bound, c)
}

/// No route from the start to a closed cell costs less than the cell's prefix.
pub open spec fn settled(level: &Level, nodes: Board<Node>, start: Coord) -> bool {
    forall|c: Coord, route: Seq<Coord>| #[trigger]
        connects(level, route, start, c) && nodes.at(c).mark == Mark::Closed ==> nodes.at(c).prefix <= route_cost(route)
}

/// `m` has been met, and while it waits its prefix is no more than the way over `p`.
pub open spec fn reached(nodes: Board<Node>, p: Coord, m: Coord) -> bool {
    &&& nodes.at(m).mark != Mark::Unseen
    &&& nodes.at(m).mark == Mark::Open ==> nodes.at(m).prefix <= nodes.at(p).prefix + step_cost(p, m)
}

/// Every passable neighbour of a closed cell, but for `skip`, is reached from it.
pub open spec fn relaxed(level: &Level, nodes: Board<Node>, skip: Option<Coord>) -> bool {
    forall|p: Coord, m: Coord| #[trigger]
        adjacent(p, m) && level.inside(p) && nodes.at(p).mark == Mark::Closed && Some(p) != skip && level.passable(m) ==> reached(nodes, p, m)
}

/// The frontier holds the open cells, each once and with the cost kept for it.
pub open spec fn queued(level: &Level, nodes: Board<Node>, frontier: Multiset<Candidate>) -> bool {
    &&& forall|c: Candidate| #[trigger] frontier.count(c) > 0 ==> {
        &&& level.inside(c.coord)
        &&& nodes.at(c.coord).mark == Mark::Open
        &&& c == candidate_of(nodes, c.coord)
        &&& frontier.count(c) == 1
    }
    &&& forall|c: Coord| level.inside(c) && (#[trigger] nodes.at(c)).mark == Mark::Open ==> frontier.count(candidate_of(nodes, c)) > 0
}

/// `closed` holds the slots of the closed cells.
pub open spec fn counted(level: &Level, nodes: Board<Node>, closed: Set<int>) -> bool {
    &&& closed.subset_of(set_int_range(0, area(level) as int))
    &&& closed.finite()
    &&& closed.len() <= area(level)
    &&& forall|c: Coord| level.inside(c) ==> ((#[trigger] nodes.at(c)).mark == Mark::Closed <==> closed.contains(nodes.slot(c)))
}

/// What holds each time the search is about to take a cell from the frontier.
pub open spec fn searching(level: &Level, nodes: Board<Node>, frontier: Multiset<Candidate>, closed: Set<int>, start: Coord, end: Coord) -> bool {
    &&& tidy(level, nodes, start, end, ceiling(closed))
    &&& nodes.at(end).mark != Mark::Closed
    &&& settled(level, nodes, start)
    &&& relaxed(level, nodes, None)
    &&& queued(level, nodes, frontier)
    &&& counted(level, nodes, closed)
}

/// What holds while the neighbours of the cell just closed are looked at.
pub open spec fn expanding(level: &Level, nodes: Board<Node>, frontier: Multiset<Candidate>, closed: Set<int>, start: Coord, end: Coord, current: Coord) -> bool {
    &&& tidy(level, nodes, start, end, ceiling(closed))
    &&& nodes.at(end).mark != Mark::Closed
    &&& settled(level, nodes, start)
    &&& relaxed(level, nodes, Some(current))
    &&& queued(level, nodes, frontier)
    &&& counted(level, nodes, closed)
    &&& level.inside(current)
    &&& nodes.at(current).mark == Mark::Closed
    &&& nodes.at(current).prefix + DIAGONAL_COST <= ceiling(closed)
}

/// Along a route from the start, either every cell is closed, or the first
/// cell that is not waits in the frontier with a prefix no more than the cost
/// of the route up to it. The result is that cell's position, or -1.
proof fn lemma_first_open(level: &Level, nodes: Board<Node>, start: Coord, end: Coord, bound: nat, route: Seq<Coord>) -> (j: int)
    requires
        tidy(level, nodes, start, end, bound),
        settled(level, nodes, start),
        relaxed(level, nodes, None),
        is_route(level, route),
        route[0] == start,
    ensures
        -1 <= j < route.len(),
        j == -1 ==> forall|i: int| 0 <= i < route.len() ==> nodes.at(#[trigger] route[i]).mark == Mark::Closed,
        j >= 0 ==> nodes.at(route[j]).mark == Mark::Open && nodes.at(route[j]).prefix <= route_cost(route.subrange(0, j + 1)),
    decreases route.len(),
{
    let n = route.len() - 1;
    if n == 0 {
        if nodes.at(start).mark == Mark::Closed {
            -1
        } else {
            assert(linked(level, nodes, start, end, bound, start));
            0
        }
    } else {
        let front = route.subrange(0, n);
        lemma_route_front(level, route, n);
        let j = lemma_first_open(level, nodes, start, end, bound, front);
        if j >= 0 {
            assert(front.subrange(0, j + 1) =~= route.subrange(0, j + 1));
            j
        } else {
            let p = route[n - 1];
            let m = route[n];
            if nodes.at(m).mark == Mark::Closed {
                assert forall|i: int| 0 <= i < route.len() implies nodes.at(#[trigger] route[i]).mark == Mark::Closed by {
                    if i < n {
                        assert(front[i] == route[i]);
                    }
                }
                -1
            } else {
                assert(connects(level, front, start, p));
                assert(route.subrange(0, n + 1) =~= route);
                n
            }
        }
    }
}

/// The estimate at a cell of a route is no more than the cost of the rest of
/// the route plus the estimate at its end.
proof fn lemma_estimate_along(level: &Level, route: Seq<Coord>, j: int, goal: Coord)
    requires
        is_route(level, route),
        0 <= j < route.len(),
    ensures
        estimate(route[j], goal) + route_cost(route.subrange(0, j + 1)) <= route_cost(route) + estimate(route.last(), goal),
    decreases route.len(),
{
    let n = route.len() - 1;
    if j == n {
        assert(route.subrange(0, j + 1) =~= route);
    } else {
        let front = route.subrange(0, n);
        lemma_route_front(level, route, n);
        lemma_estimate_along(level, front, j, goal);
        assert(front.subrange(0, j + 1) =~= route.subrange(0, j + 1));
        lemma_estimate_step(route[n - 1], route[n], goal);
    }
}

/// The open cell with the least total cost has its final prefix: no route
/// from the start to it costs less.
proof fn lemma_cheapest_settled(level: &Level, nodes: Board<Node>, start: Coord, end: Coord, bound: nat, t: Coord, route: Seq<Coord>)
    requires
        tidy(level, nodes, start, end, bound),
        settled(level, nodes, start),
        relaxed(level, nodes, None),
        level.inside(t),
        nodes.at(t).mark == Mark::Open,
        forall|c: Coord| level.inside(c) && (#[trigger] nodes.at(c)).mark == Mark::Open ==> nodes.at(t).whole <= nodes.at(c).whole,
        connects(level, route, start, t),
    ensures
        nodes.at(t).prefix <= route_cost(route),
{
    let j = lemma_first_open(level, nodes, start, end, bound, route);
    if j >= 0 {
        lemma_estimate_along(level, route, j, end);
        assert(linked(level, nodes, start, end, bound, route[j]));
        assert(linked(level, nodes, start, end, bound, t));
    }
}

/// Once no cell waits in the frontier, every route from the start ends in a
/// closed cell.
proof fn lemma_exhausted(level: &Level, nodes: Board<Node>, start: Coord, end: Coord, bound: nat, route: Seq<Coord>)
    requires
        tidy(level, nodes, start, end, bound),
        settled(level, nodes, start),
        relaxed(level, nodes, None),
        forall|c: Coord| level.inside(c) ==> (#[trigger] nodes.at(c)).mark != Mark::Open,
        is_route(level, route),
        route[0] == start,
    ensures
        nodes.at(route.last()).mark == Mark::Closed,
{
    lemma_first_open(level, nodes, start, end, bound, route);
}

/// Closing the cheapest open cell keeps the search in order, but for the
/// neighbours of that cell, which are still to be looked at.
proof fn lemma_close(
    level: &Level,
    before: Board<Node>,
    after: Board<Node>,
    waiting: Multiset<Candidate>,
    rest: Multiset<Candidate>,
    closed: Set<int>,
    start: Coord,
    end: Coord,
    t: Coord,
)
    requires
        level.wf(),
        searching(level, before, waiting, closed, start, end),
        level.inside(t),
        before.at(t).mark == Mark::Open,
        t != end,
        forall|c: Coord| level.inside(c) && (#[trigger] before.at(c)).mark == Mark::Open ==> before.at(t).whole <= before.at(c).whole,
        same_shape(level, after),
        after.at(t).mark == Mark::Closed,
        after.at(t).prefix == before.at(t).prefix,
        after.at(t).whole == before.at(t).whole,
        after.at(t).origin == before.at(t).origin,
        forall|d: Coord| level.inside(d) && d != t ==> #[trigger] after.at(d) == before.at(d),
        rest == waiting.remove(candidate_of(before, t)),
    ensures
        expanding(level, after, rest, closed.insert(after.slot(t)), start, end, t),
        closed.insert(after.slot(t)).len() == closed.len() + 1,
{
    let grown = closed.insert(after.slot(t));
    let whole = set_int_range(0, area(level) as int);
    before.lemma_slot_shared(&after, t);
    before.lemma_slot_bound(t);
    lemma_int_range(0, area(level) as int);
    lemma_len_subset(grown, whole);
    assert forall|c: Coord| level.inside(c) implies ((#[trigger] after.at(c)).mark == Mark::Closed <==> grown.contains(after.slot(c))) by {
        before.lemma_slot_shared(&after, c);
        if c != t {
            before.lemma_slot_distinct(c, t);
        }
    }
    assert forall|c: Coord| level.inside(c) && after.at(c).mark != Mark::Unseen implies #[trigger] linked(level, after, start, end, ceiling(grown), c) by {
        assert(linked(level, before, start, end, ceiling(closed), c));
    }
    assert forall|c: Coord, route: Seq<Coord>| #[trigger]
        connects(level, route, start, c) && after.at(c).mark == Mark::Closed implies after.at(c).prefix <= route_cost(route) by {
        if c == t {
            lemma_cheapest_settled(level, before, start, end, ceiling(closed), t, route);
        }
    }
    assert(linked(level, before, start, end, ceiling(closed), t));
}

/// Looking at a neighbour of the cell just closed keeps the search in order,
/// whether the neighbour joins the frontier or gets a lower cost in it.
proof fn lemma_relax(
    level: &Level,
    before: Board<Node>,
    after: Board<Node>,
    waiting: Multiset<Candidate>,
    rest: Multiset<Candidate>,
    closed: Set<int>,
    start: Coord,
    end: Coord,
    current: Coord,
    neighbour: Coord,
)
    requires
        level.wf(),
        expanding(level, before, waiting, closed, start, end, current),
        level.passable(neighbour),
        adjacent(current, neighbour),
        before.at(neighbour).mark != Mark::Closed,
        before.at(neighbour).mark == Mark::Open ==> after.at(neighbour).prefix < before.at(neighbour).prefix,
        same_shape(level, after),
        after.at(neighbour).mark == Mark::Open,
        after.at(neighbour).prefix == before.at(current).prefix + step_cost(current, neighbour),
        after.at(neighbour).whole == after.at(neighbour).prefix + estimate(neighbour, end),
        after.at(neighbour).origin == current,
        forall|d: Coord| level.inside(d) && d != neighbour ==> #[trigger] after.at(d) == before.at(d),
        rest == (if before.at(neighbour).mark == Mark::Open {
            waiting.remove(candidate_of(before, neighbour)).insert(candidate_of(after, neighbour))
        } else {
            waiting.insert(candidate_of(after, neighbour))
        }),
    ensures
        expanding(level, after, rest, closed, start, end, current),
        reached(after, current, neighbour),
        forall|m: Coord| level.inside(m) && #[trigger] reached(before, current, m) ==> reached(after, current, m),
{
    assert(before.at(neighbour).mark == Mark::Open ==> linked(level, before, start, end, ceiling(closed), neighbour));
    assert forall|c: Coord| level.inside(c) && after.at(c).mark != Mark::Unseen implies #[trigger] linked(level, after, start, end, ceiling(closed), c) by {
        if c != neighbour {
            assert(linked(level, before, start, end, ceiling(closed), c));
        }
    }
    assert forall|c: Coord| level.inside(c) implies ((#[trigger] after.at(c)).mark == Mark::Closed <==> closed.contains(after.slot(c))) by {
        before.lemma_slot_shared(&after, c);
    }
}

/// Looks at one passable neighbour of the cell just closed: a cell met for the
/// first time joins the frontier, and a waiting cell that is cheaper to reach
/// over the closed cell hangs on it from now on and waits at its new cost.
fn relax(
    level: &Level,
    nodes: &mut Board<Node>,
    frontier: &mut Frontier,
    current: Coord,
    neighbour: Coord,
    end: Coord,
    Ghost(start): Ghost<Coord>,
    Ghost(closed): Ghost<Set<int>>,
)
    requires
        level.wf(),
        expanding(level, *old(nodes), old(frontier)@, closed, start, end, current),
        level.passable(neighbour),
        adjacent(current, neighbour),
    ensures
        expanding(level, *final(nodes), final(frontier)@, closed, start, end, current),
        reached(*final(nodes), current, neighbour),
        forall|m: Coord| level.inside(m) && #[trigger] reached(*old(nodes), current, m) ==> reached(*final(nodes), current, m),
{
    let ghost before = *nodes;
    let ghost waiting = frontier@;
    proof {
        level.lemma_size();
    }
    let here: Node = *nodes.get(current);
    let there: Node = *nodes.get(neighbour);
    if there.mark == Mark::Closed {
        return ;
    }
    let is_diagonal = neighbour.x != current.x && neighbour.y != current.y;
    let transition_cost: u128 = if is_diagonal { DIAGONAL_COST } else { REGULAR_COST };
    let prefix: u128 = here.prefix + transition_cost;
    let whole: u128 = prefix + guide(&neighbour, &end);
    if there.mark == Mark::Unseen {
        frontier.push(Candidate { cost: whole, coord: neighbour });
    } else if prefix < there.prefix {
        frontier.reprioritize(Candidate { cost: there.whole, coord: neighbour }, whole);
    } else {
        return ;
    }
    nodes.set(neighbour, Node { mark: Mark::Open, prefix, whole, origin: current });
    proof {
        lemma_relax(level, before, *nodes, waiting, frontier@, closed, start, end, current, neighbour);
    }
}

/// Looks at every passable neighbour of the cell just closed.
fn expand(
    level: &Level,
    nodes: &mut Board<Node>,
    frontier: &mut Frontier,
    current: Coord,
    end: Coord,
    Ghost(start): Ghost<Coord>,
    Ghost(closed): Ghost<Set<int>>,
)
    requires
        level.wf(),
        expanding(level, *old(nodes), old(frontier)@, closed, start, end, current),
    ensures
        searching(level, *final(nodes), final(frontier)@, closed, start, end),
{
    let around = level.neighbours(&current);
    let mut i: usize = 0;
    while i < around.len()
        invariant
            0 <= i <= around@.len(),
            level.wf(),
            expanding(level, *nodes, frontier@, closed, start, end, current),
            forall|k: int| 0 <= k < around@.len() ==> level.passable(#[trigger] around@[k]) && adjacent(current, around@[k]),
            forall|k: int| 0 <= k < i ==> reached(*nodes, current, #[trigger] around@[k]),
        decreases around@.len() - i,
    {
        relax(level, nodes, frontier, current, around[i], end, Ghost(start), Ghost(closed));
        i += 1;
    }
}

/// Follows the origins back from the goal to the start and returns the cells
/// in the order in which the walk visits them.
fn trace(level: &Level, nodes: &Board<Node>, start: Coord, end: Coord, Ghost(bound): Ghost<nat>) -> (coords: Vec<Coord>)
    requires
        level.wf(),
        tidy(level, *nodes, start, end, bound),
        nodes.at(end).mark != Mark::Unseen,
    ensures
        connects(level, coords@, start, end),
        route_cost(coords@) == nodes.at(end).prefix,
        coords@.no_duplicates(),
{
    let mut back: Vec<Coord> = Vec::new();
    back.push(end);
    let mut cursor = end;
    while cursor != start
        invariant
            level.wf(),
            tidy(level, *nodes, start, end, bound),
            back@.len() >= 1,
            back@[0] == end,
            back@.last() == cursor,
            forall|i: int| 0 <= i < back@.len() ==> level.inside(#[trigger] back@[i]) && nodes.at(back@[i]).mark != Mark::Unseen,
            forall|i: int| 0 <= i < back@.len() - 1 ==> (#[trigger] back@[i]) != start && back@[i + 1] == nodes.at(back@[i]).origin,
        decreases nodes.at(cursor).prefix,
    {
        proof {
            assert(linked(level, *nodes, start, end, bound, cursor));
        }
        let from = nodes.get(cursor).origin;
        back.push(from);
        cursor = from;
    }
    let mut coords: Vec<Coord> = Vec::with_capacity(back.len());
    let mut i: usize = back.len();
    while i > 0
        invariant
            i <= back@.len(),
            coords@.len() == back@.len() - i,
            forall|j: int| 0 <= j < coords@.len() ==> #[trigger] coords@[j] == back@[back@.len() - 1 - j],
        decreases i,
    {
        i -= 1;
        coords.push(back[i]);
    }
    proof {
        let n = coords@.len() as int;
        let height = |c: Coord| nodes.at(c).prefix as nat;
        assert forall|j: int| 0 <= j < n implies level.passable(#[trigger] coords@[j]) by {
            let c = back@[n - 1 - j];
            assert(linked(level, *nodes, start, end, bound, c));
        }
        assert forall|j: int| 0 <= j < n - 1 implies adjacent(#[trigger] coords@[j], coords@[j + 1]) && height(coords@[j + 1]) == height(coords@[j]) + step_cost(coords@[j], coords@[j + 1]) by {
            let c = back@[n - 2 - j];
            assert(linked(level, *nodes, start, end, bound, c));
        }
        lemma_cost_telescopes(coords@, height);
        lemma_climb_distinct(coords@, height);
        assert(linked(level, *nodes, start, end, bound, start));
    }
    coords
}

/// What `find` owes: a route of the least cost there is, without a cell
/// twice and with its cost recorded, or nothing where no route exists.
pub open spec fn answers(level: &Level, start: Coord, end: Coord, found: Option<Path>) -> bool {
    match found {
        Some(path) => {
            &&& shortest(level, path@, start, end)
            &&& path.cost() == route_cost(path@)
            &&& path@.no_duplicates()
        },
        None => !reachable(level, start, end),
    }
}

/// Every path that `find` returns moves by at most one column and one row at a
/// time, visits no cell twice, and records the sum of the costs of its moves.
pub proof fn lemma_answer_walk(level: &Level, start: Coord, end: Coord, path: Path)
    requires
        answers(level, start, end, Some(path)),
    ensures
        forall|i: int| 0 <= i < path@.len() - 1 ==> gap((#[trigger] path@[i]).x, path@[i + 1].x) <= 1 && gap(path@[i].y, path@[i + 1].y) <= 1,
        forall|i: int, j: int| 0 <= i < j < path@.len() ==> path@[i] != path@[j],
        path.cost() == route_cost(path@),
        path@.first() == start,
        path@.last() == end,
{
}

/// What an answer is in four plain cases: a blocked end, one cell asked for
/// twice, a level without blocked cells, and a goal that is walled in.
pub proof fn lemma_answer(level: &Level, start: Coord, end: Coord, found: Option<Path>)
    requires
        level.inside(start),
        level.inside(end),
        answers(level, start, end, found),
    ensures
        level.land(start) == Land::Block || level.land(end) == Land::Block ==> found is None,
        start == end && level.passable(start) ==> found is Some && found.unwrap()@ == seq![start] && found.unwrap().cost() == 0,
        open_field(level) ==> found is Some && found.unwrap().cost() == octile(start, end),
        start != end && enclosed(level, end) ==> found is None,
{
    if level.land(start) == Land::Block || level.land(end) == Land::Block {
        lemma_blocked(level, start, end);
    }
    if start == end && level.passable(start) {
        lemma_reachable_self(level, start);
        lemma_same_cell(level, found.unwrap()@, start);
    }
    if open_field(level) {
        lemma_open_field(level, start, end);
        lemma_octile_bound(level, found.unwrap()@);
    }
    if start != end && enclosed(level, end) {
        lemma_enclosed(level, start, end);
    }
}

/// Searches the level for a cheapest walk from `start` to `end` over passable
/// cells, by moves to one of the eight cells around a cell. A move along an
/// axis costs 1000, a diagonal move 1414.
///
/// The result is a route of the least cost there is, with that cost, or `None`
/// where no route joins the two cells, as when one of them is blocked. Which
/// of several cheapest routes comes back is settled by the order in which
/// candidates leave the frontier.
pub fn find(level: &Level, start: Coord, end: Coord) -> (found: Option<Path>)
    requires
        level.wf(),
        level.inside(start),
        level.inside(end),
    ensures
        answers(level, start, end, found),
        level.land(start) == Land::Block || level.land(end) == Land::Block ==> found is None,
        start == end && level.passable(start) ==> found is Some && found.unwrap()@ == seq![start] && found.unwrap().cost() == 0,
        open_field(level) ==> found is Some && found.unwrap().cost() == octile(start, end),
        start != end && enclosed(level, end) ==> found is None,
{
    if *level.index(&start) == Land::Block || *level.index(&end) == Land::Block {
        proof {
            lemma_blocked(level, start, end);
            lemma_answer(level, start, end, None);
        }
        return None;
    }
    let blank = Node { mark: Mark::Unseen, prefix: 0, whole: 0, origin: start };
    let mut nodes: Board<Node> = Board::shaped_like(level.board(), blank);
    let init_estimate: u128 = guide(&start, &end);
    nodes.set(start, Node { mark: Mark::Open, prefix: 0, whole: init_estimate, origin: start });
    let mut frontier = Frontier::new();
    frontier.push(Candidate { cost: init_estimate, coord: start });
    let ghost mut closed: Set<int> = Set::empty();
    proof {
        level.lemma_size();
        lemma_int_range(0, area(level) as int);
    }
    loop
        invariant
            level.wf(),
            searching(level, nodes, frontier@, closed, start, end),
        decreases area(level) - closed.len(),
    {
        let ghost waiting = frontier@;
        let current = match frontier.pop() {
            Some(candidate) => candidate,
            None => {
                proof {
                    assert forall|route: Seq<Coord>| !connects(level, route, start, end) by {
                        if connects(level, route, start, end) {
                            lemma_exhausted(level, nodes, start, end, ceiling(closed), route);
                        }
                    }
                    lemma_answer(level, start, end, None);
                }
                return None;
            },
        };
        proof {
            assert forall|c: Coord| level.inside(c) && (#[trigger] nodes.at(c)).mark == Mark::Open implies current.cost <= nodes.at(c).whole by {
                assert(!candidate_of(nodes, c).spec_precedes(&current));
            }
        }
        if current.coord == end {
            let coords = trace(level, &nodes, start, end, Ghost(ceiling(closed)));
            proof {
                lemma_estimate_self(end);
                assert(linked(level, nodes, start, end, ceiling(closed), end));
                assert forall|other: Seq<Coord>| #[trigger] connects(level, other, start, end) implies route_cost(coords@) <= route_cost(other) by {
                    lemma_cheapest_settled(level, nodes, start, end, ceiling(closed), end, other);
                }
            }
            let path = Path::new(coords, current.cost);
            proof {
                lemma_answer(level, start, end, Some(path));
            }
            return Some(path);
        }
        let ghost before = nodes;
        let here: Node = *nodes.get(current.coord);
        nodes.set(current.coord, Node { mark: Mark::Closed, prefix: here.prefix, whole: here.whole, origin: here.origin });
        proof {
            lemma_close(level, before, nodes, waiting, frontier@, closed, start, end, current.coord);
            closed = closed.insert(nodes.slot(current.coord));
        }
        expand(level, &mut nodes, &mut frontier, current.coord, end, Ghost(start), Ghost(closed));
    }
}

} // verus!
