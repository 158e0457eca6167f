use vstd::prelude::*;
use vstd::string::StringExecFns;
use crate::board::Board;
use crate::coord::Coord;
use crate::level::Level;
use crate::path::Path;

verus! {

/// `String::push` appends the character to the end of the string.
pub assume_specification[ String::push ](text: &mut String, ch: char)
    ensures
        final(text)@ == old(text)@.push(ch),
;

/// The character that marks a cell of a path in a picture.
pub const FOOTPRINT: char = 'o';

/// The rows one after another, each followed by a line feed.
pub open spec fn join_rows(rows: Seq<Seq<char>>) -> Seq<char>
    decreases rows.len(),
{
    if rows.len() == 0 {
        Seq::empty()
    } else {
        join_rows(rows.drop_last()) + rows.last() + seq!['\n']
    }
}

/// The picture of a level with the cells of a walk marked: a footprint where
/// the walk passes, the marker of the land elsewhere.
pub open spec fn drawing(level: &Level, walk: Seq<Coord>) -> Seq<Seq<char>> {
    Seq::new(level.height(), |y: int| Seq::new(level.width(), |x: int| glyph(level, walk, x, y)))
}

/// The character for column `x` of row `y` in such a picture.
pub open spec fn glyph(level: &Level, walk: Seq<Coord>, x: int, y: int) -> char {
    if walk.contains(Coord { x: x as usize, y: y as usize }) {
        FOOTPRINT
    } else {
        level.cell(x, y).spec_marker()
    }
}

/// The character that writes a digit.
pub open spec fn digit_char(d: nat) -> char {
    ('0' as int + d) as char
}

/// A number written in decimal digits, without leading zeros.
pub open spec fn decimal_of(n: nat) -> Seq<char>
    decreases n,
{
    if n < 10 {
        seq![digit_char(n)]
    } else {
        decimal_of(n / 10).push(digit_char(n % 10))
    }
}

/// What follows the whole cell sides when a cost is written: nothing where no
/// thousandth is left over, else a point and the thousandths without zeros at
/// the end.
pub open spec fn fraction_of(thousandths: nat) -> Seq<char> {
    let first = digit_char(thousandths / 100);
    let second = digit_char(thousandths / 10 % 10);
    let third = digit_char(thousandths % 10);
    if thousandths == 0 {
        Seq::empty()
    } else if thousandths % 10 != 0 {
        seq!['.', first, second, third]
    } else if thousandths / 10 % 10 != 0 {
        seq!['.', first, second]
    } else {
        seq!['.', first]
    }
}

/// A cost written in cell sides: 2828 as `2.828`, 3000 as `3`.
pub open spec fn cost_text(cost: nat) -> Seq<char> {
    decimal_of(cost / 1000) + fraction_of(cost % 1000)
}

/// The line that sums a path up: how many cells it has and what it costs.
pub open spec fn headline(count: nat, cost: nat) -> Seq<char> {
    "Path of "@ + decimal_of(count) + " coords travels distance of "@ + cost_text(cost) + " units.\n"@
}

/// The character that writes a digit.
fn digit(d: u128) -> (c: char)
    requires
        d < 10,
    ensures
        c == digit_char(d as nat),
{
    if d == 0 {
        '0'
    } else if d == 1 {
        '1'
    } else if d == 2 {
        '2'
    } else if d == 3 {
        '3'
    } else if d == 4 {
        '4'
    } else if d == 5 {
        '5'
    } else if d == 6 {
        '6'
    } else if d == 7 {
        '7'
    } else if d == 8 {
        '8'
    } else {
        '9'
    }
}

/// Writes a number in decimal digits after `text`.
fn push_decimal(text: &mut String, n: u128)
    ensures
        final(text)@ == old(text)@ + decimal_of(n as nat),
{
    let ghost base = text@;
    let mut low: Vec<char> = Vec::new();
    low.push(digit(n % 10));
    let mut rest: u128 = n / 10;
    while rest > 0
        invariant
            low@.len() >= 1,
            decimal_of(n as nat) == (if rest > 0 { decimal_of(rest as nat) } else { Seq::<char>::empty() }) + low@.reverse(),
        decreases rest,
    {
        let ghost before = low@;
        low.push(digit(rest % 10));
        proof {
            assert(low@.reverse() =~= seq![digit_char((rest % 10) as nat)] + before.reverse());
            let above = if rest / 10 > 0 { decimal_of((rest / 10) as nat) } else { Seq::<char>::empty() };
            assert(decimal_of(rest as nat) =~= above.push(digit_char((rest % 10) as nat)));
            assert(above + low@.reverse() =~= decimal_of(rest as nat) + before.reverse());
        }
        rest = rest / 10;
    }
    let mut i: usize = low.len();
    while i > 0
        invariant
            i <= low@.len(),
            text@ == base + low@.reverse().take(low@.len() - i),
        decreases i,
    {
        i -= 1;
        text.push(low[i]);
        proof {
            let whole = low@.reverse();
            let k = low@.len() - 1 - i;
            assert(whole[k] == low@[i as int]);
            assert(whole.take(k + 1) =~= whole.take(k).push(whole[k]));
        }
    }
    proof {
        assert(low@.reverse().take(low@.len() as int) =~= low@.reverse());
    }
}

/// Writes a cost in cell sides after `text`.
fn push_cost(text: &mut String, cost: u128)
    ensures
        final(text)@ == old(text)@ + cost_text(cost as nat),
{
    let ghost base = text@;
    push_decimal(text, cost / 1000);
    let thousandths: u128 = cost % 1000;
    if thousandths != 0 {
        text.push('.');
        text.push(digit(thousandths / 100));
        if thousandths % 100 != 0 {
            text.push(digit(thousandths / 10 % 10));
            if thousandths % 10 != 0 {
                text.push(digit(thousandths % 10));
            }
        }
    }
    proof {
        assert(text@ =~= base + cost_text(cost as nat));
    }
}

/// Writes the picture of a level after `text`, with a footprint on each cell
/// that `trodden` holds as true.
fn draw(level: &Level, trodden: &Board<bool>, text: &mut String, Ghost(walk): Ghost<Seq<Coord>>)
    requires
        level.wf(),
        trodden.wf(),
        trodden.width() == level.width(),
        trodden.height() == level.height(),
        forall|c: Coord| level.inside(c) ==> #[trigger] trodden.at(c) == walk.contains(c),
    ensures
        final(text)@ == old(text)@ + join_rows(drawing(level, walk)),
{
    let ghost base = text@;
    let ghost rows = drawing(level, walk);
    let (width, height) = level.dimensions();
    let mut y: usize = 0;
    while y < height
        invariant
            y <= height,
            level.wf(),
            trodden.wf(),
            trodden.width() == level.width(),
            trodden.height() == level.height(),
            forall|c: Coord| level.inside(c) ==> #[trigger] trodden.at(c) == walk.contains(c),
            width == level.width(),
            height == level.height(),
            rows == drawing(level, walk),
            text@ == base + join_rows(rows.take(y as int)),
        decreases height - y,
    {
        let ghost above = text@;
        let mut x: usize = 0;
        while x < width
            invariant
                x <= width,
                y < height,
                level.wf(),
                trodden.wf(),
                trodden.width() == level.width(),
                trodden.height() == level.height(),
                forall|c: Coord| level.inside(c) ==> #[trigger] trodden.at(c) == walk.contains(c),
                width == level.width(),
                height == level.height(),
                rows == drawing(level, walk),
                text@ == above + rows[y as int].take(x as int),
            decreases width - x,
        {
            let coord = Coord { x, y };
            let mark = if *trodden.get(coord) { FOOTPRINT } else { level.index(&coord).marker() };
            text.push(mark);
            x += 1;
        }
        text.push('\n');
        proof {
            assert(rows.take(y + 1).drop_last() =~= rows.take(y as int));
        }
        y += 1;
    }
    proof {
        assert(rows.take(height as int) =~= rows);
    }
}

impl Level {
    /// The level as text: an empty line, then one line for each row with the
    /// marker of each cell.
    pub fn render(&self) -> (text: String)
        requires
            self.wf(),
        ensures
            text@ == seq!['\n'] + join_rows(drawing(self, Seq::empty())),
    {
        let untrodden: Board<bool> = Board::shaped_like(self.board(), false);
        let mut text = String::new();
        text.push('\n');
        draw(self, &untrodden, &mut text, Ghost(Seq::empty()));
        text
    }
}

impl Path {
    /// The path as text: a line that says how many cells it has and what it
    /// costs in cell sides, then the picture of the level with a footprint on
    /// each cell of the path that lies within the level, one line for each row.
    pub fn render(&self, level: &Level) -> (text: String)
        requires
            level.wf(),
        ensures
            text@ == headline(self@.len(), self.cost()) + join_rows(drawing(level, self@)),
    {
        let coords = self.coords();
        let mut trodden: Board<bool> = Board::shaped_like(level.board(), false);
        let mut i: usize = 0;
        while i < coords.len()
            invariant
                i <= coords@.len(),
                level.wf(),
                trodden.wf(),
                trodden.width() == level.width(),
                trodden.height() == level.height(),
                forall|c: Coord| level.inside(c) ==> #[trigger] trodden.at(c) == coords@.take(i as int).contains(c),
            decreases coords@.len() - i,
        {
            let coord = coords[i];
            if coord.is_inside(level) {
                trodden.set(coord, true);
            }
            proof {
                let seen = coords@.take(i as int);
                let more = coords@.take(i + 1);
                assert(more =~= seen.push(coord));
                assert forall|c: Coord| level.inside(c) implies #[trigger] trodden.at(c) == more.contains(c) by {
                    if c == coord {
                        assert(more[i as int] == c);
                    }
                }
            }
            i += 1;
        }
        proof {
            assert(coords@.take(coords@.len() as int) =~= coords@);
        }
        let mut text = String::new();
        text.append("Path of ");
        push_decimal(&mut text, coords.len() as u128);
        text.append(" coords travels distance of ");
        push_cost(&mut text, self.distance());
        text.append(" units.\n");
        assert(text@ =~= headline(self@.len(), self.cost()));
        draw(level, &trodden, &mut text, Ghost(self@));
        text
    }
}

} // verus!
