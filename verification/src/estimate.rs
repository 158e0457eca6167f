use vstd::prelude::*;
use crate::coord::{adjacent, diagonal, Coord};
use crate::route::{gap, step_cost, DIAGONAL_COST, REGULAR_COST};

verus! {

/// Square of the side of a cell, in thousandths of a side.
pub const SIDE_SQUARED: u128 = 1_000_000;

/// The most by which a diagonal move changes the straight-line distance to a
/// cell: the diagonal of a cell in thousandths of a side, rounded up.
pub const DIAGONAL_REACH: u128 = 1415;

/// Offsets along an axis count up to this many cells, which keeps the distance
/// within 128 bits. No level that fits in memory is this wide.
pub const FAR: u128 = 0x20_0000_0000_0000;

/// The largest number whose square does not exceed `n`.
pub open spec fn floor_sqrt(n: nat) -> nat
    decreases n,
{
    if n == 0 {
        0
    } else {
        let r = floor_sqrt((n - 1) as nat);
        if (r + 1) * (r + 1) <= n {
            r + 1
        } else {
            r
        }
    }
}

/// Offset between two columns or rows, counted up to `FAR`.
pub open spec fn span(a: usize, b: usize) -> nat {
    if gap(a, b) <= FAR {
        gap(a, b)
    } else {
        FAR as nat
    }
}

/// Length of the straight line between two cells in thousandths of a cell
/// side, rounded down: a thousand times the root of the sum of the squared
/// offsets.
pub open spec fn straight_line(from: Coord, to: Coord) -> nat {
    let dx = span(from.x, to.x);
    let dy = span(from.y, to.y);
    floor_sqrt(SIDE_SQUARED as nat * (dx * dx + dy * dy))
}

/// The most by which one move changes the straight-line distance to a cell.
pub open spec fn reach_of(a: Coord, b: Coord) -> nat {
    if diagonal(a, b) {
        DIAGONAL_REACH as nat
    } else {
        REGULAR_COST as nat
    }
}

/// What the search adds to the cost so far to rank a cell: the straight-line
/// distance to the goal, scaled by what a diagonal move costs over what it can
/// cover, and rounded down. Scaled so, no move lowers it by more than the move
/// costs, which the plain distance does not grant: a cell's diagonal is a
/// little longer than the 1414 that a diagonal move costs.
pub open spec fn estimate(from: Coord, to: Coord) -> nat {
    straight_line(from, to) * DIAGONAL_COST as nat / DIAGONAL_REACH as nat
}

/// `floor_sqrt(n)` squared is at most `n`, and the next number squared is more.
pub proof fn lemma_floor_sqrt(n: nat)
    ensures
        floor_sqrt(n) * floor_sqrt(n) <= n < (floor_sqrt(n) + 1) * (floor_sqrt(n) + 1),
    decreases n,
{
    if n > 0 {
        lemma_floor_sqrt((n - 1) as nat);
        let r = floor_sqrt((n - 1) as nat);
        let s = r + 1;
        let f = floor_sqrt(n);
        assert(f * f <= n < (f + 1) * (f + 1)) by (nonlinear_arith)
            requires
                r * r <= n - 1 < s * s,
                s == r + 1,
                f == (if s * s <= n { s } else { r }),
        ;
    } else {
        let f = floor_sqrt(n);
        assert(f * f <= n < (f + 1) * (f + 1)) by (nonlinear_arith)
            requires
                f == 0,
                n == 0,
        ;
    }
}

/// Only one number has its square at most `n` and its successor's square above.
pub proof fn lemma_floor_sqrt_unique(n: nat, r: nat)
    requires
        r * r <= n < (r + 1) * (r + 1),
    ensures
        r == floor_sqrt(n),
{
    lemma_floor_sqrt(n);
    let s = floor_sqrt(n);
    if r < s {
        assert((r + 1) * (r + 1) <= s * s) by (nonlinear_arith)
            requires
                r + 1 <= s,
        ;
    } else if s < r {
        assert((s + 1) * (s + 1) <= r * r) by (nonlinear_arith)
            requires
                s + 1 <= r,
        ;
    }
}

/// The largest number whose square does not exceed `n`, by bisection.
pub fn root(n: u128) -> (r: u128)
    ensures
        r == floor_sqrt(n as nat),
        r <= 0xFFFF_FFFF_FFFF_FFFF,
{
    let mut lo: u128 = 0;
    let mut hi: u128 = 0x1_0000_0000_0000_0000;
    assert(n < hi * hi) by (nonlinear_arith)
        requires
            hi == 0x1_0000_0000_0000_0000,
            n <= 0xFFFF_FFFF_FFFF_FFFF_FFFF_FFFF_FFFF_FFFF,
    ;
    while hi - lo > 1
        invariant
            lo < hi <= 0x1_0000_0000_0000_0000,
            lo * lo <= n < hi * hi,
        decreases hi - lo,
    {
        let mid: u128 = lo + (hi - lo) / 2;
        assert(mid * mid <= 0xFFFF_FFFF_FFFF_FFFF * 0xFFFF_FFFF_FFFF_FFFF) by (nonlinear_arith)
            requires
                0 <= mid <= 0xFFFF_FFFF_FFFF_FFFF,
        ;
        if mid * mid <= n {
            lo = mid;
        } else {
            hi = mid;
        }
    }
    proof {
        lemma_floor_sqrt_unique(n as nat, lo as nat);
    }
    lo
}

/// Offset between two columns or rows, counted up to `FAR`.
fn reach(a: usize, b: usize) -> (d: u128)
    ensures
        d == span(a, b),
        d <= FAR,
{
    let d: usize = if a >= b { a - b } else { b - a };
    let wide: u128 = d as u128;
    if wide <= FAR {
        wide
    } else {
        FAR
    }
}

/// Length of the straight line between two cells, in thousandths of a cell
/// side and rounded down.
pub fn distance(from: &Coord, to: &Coord) -> (d: u128)
    ensures
        d == straight_line(*from, *to),
        d <= 0xFFFF_FFFF_FFFF_FFFF,
{
    let dx: u128 = reach(from.x, to.x);
    let dy: u128 = reach(from.y, to.y);
    assert(dx * dx <= 0x400_0000_0000_0000_0000_0000_0000 && dy * dy <= 0x400_0000_0000_0000_0000_0000_0000)
        by (nonlinear_arith)
        requires
            0 <= dx <= 0x20_0000_0000_0000,
            0 <= dy <= 0x20_0000_0000_0000,
    ;
    let squares: u128 = dx * dx + dy * dy;
    assert(SIDE_SQUARED * squares <= 1_000_000 * 0x800_0000_0000_0000_0000_0000_0000) by (nonlinear_arith)
        requires
            SIDE_SQUARED == 1_000_000,
            0 <= squares <= 0x800_0000_0000_0000_0000_0000_0000,
    ;
    root(SIDE_SQUARED * squares)
}

/// What the search adds to the cost so far to rank a cell.
pub fn guide(from: &Coord, to: &Coord) -> (g: u128)
    ensures
        g == estimate(*from, *to),
        g <= 0xFFFF_FFFF_FFFF_FFFF,
{
    distance(from, to) * DIAGONAL_COST / DIAGONAL_REACH
}

/// A cell is at no distance from itself.
pub proof fn lemma_estimate_self(c: Coord)
    ensures
        straight_line(c, c) == 0,
        estimate(c, c) == 0,
{
    assert(SIDE_SQUARED as nat * (0 * 0 + 0 * 0) == 0);
}

/// The square of a dot product is at most the product of the squared lengths,
/// here for a vector of unit steps.
proof fn lemma_dot_bound(ex: int, ey: int, x: int, y: int)
    requires
        -1 <= ex <= 1,
        -1 <= ey <= 1,
    ensures
        (ex * x + ey * y) * (ex * x + ey * y) <= (x * x + y * y) * (ex * ex + ey * ey),
{
    let px = ex * x;
    let py = ey * y;
    let s = ex * ex + ey * ey;
    assert(px == (if ex == 0 { 0 } else if ex == 1 { x } else { -x })) by (nonlinear_arith)
        requires
            px == ex * x,
            -1 <= ex <= 1,
    ;
    assert(py == (if ey == 0 { 0 } else if ey == 1 { y } else { -y })) by (nonlinear_arith)
        requires
            py == ey * y,
            -1 <= ey <= 1,
    ;
    assert(s == (if ex == 0 { 0int } else { 1int }) + (if ey == 0 { 0int } else { 1int })) by (nonlinear_arith)
        requires
            s == ex * ex + ey * ey,
            -1 <= ex <= 1,
            -1 <= ey <= 1,
    ;
    assert((px + py) * (px + py) <= (x * x + y * y) * s) by (nonlinear_arith)
        requires
            px == 0 || px == x || px == -x,
            py == 0 || py == y || py == -y,
            s == (if px == 0 && ex == 0 { 0int } else { 1int }) + (if py == 0 && ey == 0 { 0int } else { 1int }),
    ;
}

/// One move lowers the estimate to any goal by no more than the move costs.
pub proof fn lemma_estimate_step(a: Coord, b: Coord, goal: Coord)
    requires
        adjacent(a, b),
    ensures
        estimate(a, goal) <= step_cost(a, b) + estimate(b, goal),
{
    lemma_line_step(a, b, goal);
}

/// One move lowers the straight-line distance to any goal by no more than a
/// thousand along an axis and 1415 diagonally.
pub proof fn lemma_line_step(a: Coord, b: Coord, goal: Coord)
    requires
        adjacent(a, b),
    ensures
        straight_line(a, goal) <= reach_of(a, b) + straight_line(b, goal),
{
    let k = SIDE_SQUARED as int;
    let c = reach_of(a, b) as int;
    let xa = span(a.x, goal.x) as int;
    let ya = span(a.y, goal.y) as int;
    let xb = span(b.x, goal.x) as int;
    let yb = span(b.y, goal.y) as int;
    let ex = xa - xb;
    let ey = ya - yb;
    let na = xa * xa + ya * ya;
    let nb = xb * xb + yb * yb;
    let s = ex * ex + ey * ey;
    let t = ex * xb + ey * yb;
    assert(k * s <= c * c) by {
        assert(ex * ex == (if ex == 0 { 0int } else { 1int })) by (nonlinear_arith)
            requires
                -1 <= ex <= 1,
        ;
        assert(ey * ey == (if ey == 0 { 0int } else { 1int })) by (nonlinear_arith)
            requires
                -1 <= ey <= 1,
        ;
        if c == 1000 {
            assert(k * s <= 1000 * 1000) by (nonlinear_arith)
                requires
                    k == 1_000_000,
                    0 <= s <= 1,
            ;
        } else {
            assert(k * s <= 1415 * 1415) by (nonlinear_arith)
                requires
                    k == 1_000_000,
                    0 <= s <= 2,
            ;
        }
    }
    assert(na == nb + 2 * t + s) by (nonlinear_arith)
        requires
            na == xa * xa + ya * ya,
            nb == xb * xb + yb * yb,
            s == ex * ex + ey * ey,
            t == ex * xb + ey * yb,
            ex == xa - xb,
            ey == ya - yb,
    ;
    lemma_dot_bound(ex, ey, xb, yb);
    assert(s >= 0) by (nonlinear_arith)
        requires
            s == ex * ex + ey * ey,
    ;
    assert(k * s >= 0) by (nonlinear_arith)
        requires
            k == 1_000_000,
            s >= 0,
    ;
    lemma_floor_sqrt((k * na) as nat);
    lemma_floor_sqrt((k * nb) as nat);
    assert(0 <= na && 0 <= nb) by (nonlinear_arith)
        requires
            na == xa * xa + ya * ya,
            nb == xb * xb + yb * yb,
    ;
    assert(0 <= k * na && 0 <= k * nb) by (nonlinear_arith)
        requires
            0 <= na,
            0 <= nb,
            k == 1_000_000,
    ;
    let ra = floor_sqrt((k * na) as nat) as int;
    let rb = floor_sqrt((k * nb) as nat) as int;
    if ra > rb + c {
        let big = rb + 1;
        assert((big + c) * (big + c) <= ra * ra) by (nonlinear_arith)
            requires
                0 <= big + c <= ra,
        ;
        assert(k * t > big * c) by (nonlinear_arith)
            requires
                (big + c) * (big + c) <= k * na,
                big * big > k * nb,
                na == nb + 2 * t + s,
                k * s <= c * c,
        ;
        assert(big * c >= 0) by (nonlinear_arith)
            requires
                big >= 0,
                c >= 0,
        ;
        assert((k * t) * (k * t) > (big * c) * (big * c)) by (nonlinear_arith)
            requires
                k * t > big * c,
                big * c >= 0,
        ;
        let bb = big * big;
        let cc = c * c;
        assert((big * c) * (big * c) == bb * cc) by (nonlinear_arith)
            requires
                bb == big * big,
                cc == c * c,
        ;
        assert(bb * cc >= (k * nb) * (k * s)) by (nonlinear_arith)
            requires
                bb > k * nb,
                cc >= k * s,
                k * nb >= 0,
                k * s >= 0,
        ;
        assert((k * t) * (k * t) == k * k * (t * t)) by (nonlinear_arith);
        assert((k * nb) * (k * s) == k * k * (nb * s)) by (nonlinear_arith);
        assert(k * k * (t * t) <= k * k * (nb * s)) by (nonlinear_arith)
            requires
                t * t <= nb * s,
        ;
    }
}

} // verus!
