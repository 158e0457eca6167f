use vstd::prelude::*;
use crate::board::Board;
use crate::args::ArgsError;
use crate::coord::{adjacent, Coord};
use crate::text::{chars_of, lines_of, split_lines};

verus! {

/// What a cell is made of.
#[derive(Debug, Copy, Clone, PartialEq, Eq, Structural)]
pub enum Land {
    Pass,
    Block,
}

impl Land {
    /// The character that stands for this kind of cell in a level's text.
    pub open spec fn spec_marker(&self) -> char {
        match self {
            Land::Block => '#',
            Land::Pass => '.',
        }
    }

    #[verifier::when_used_as_spec(spec_marker)]
    pub fn marker(&self) -> (c: char)
        ensures
            c == self.spec_marker(),
    {
        match self {
            Land::Block => '#',
            Land::Pass => '.',
        }
    }
}

/// The land that a character of a level's text stands for.
pub open spec fn land_of(c: char) -> Option<Land> {
    if c == '.' {
        Some(Land::Pass)
    } else if c == '#' {
        Some(Land::Block)
    } else {
        None
    }
}

/// The lines make a level: there is at least one, all are as long as the
/// first, and every character stands for a kind of land.
pub open spec fn well_formed_rows(rows: Seq<Seq<char>>) -> bool {
    &&& rows.len() >= 1
    &&& forall|y: int| 0 <= y < rows.len() ==> (#[trigger] rows[y]).len() == rows[0].len()
    &&& forall|y: int, x: int| 0 <= y < rows.len() && 0 <= x < rows[y].len() ==> (#[trigger] land_at(rows, x, y)) is Some
}

/// What stands in column `x` of line `y`.
pub open spec fn land_at(rows: Seq<Seq<char>>, x: int, y: int) -> Option<Land> {
    land_of(rows[y][x])
}

/// The cells that the lines of a well-formed text describe.
pub open spec fn grid_of(rows: Seq<Seq<char>>) -> Seq<Seq<Land>> {
    Seq::new(rows.len(), |y: int| Seq::new(rows[y].len(), |x: int| land_at(rows, x, y).unwrap()))
}

/// A rectangle of cells with at least one row. It never changes once built.
pub struct Level {
    grid: Board<Land>,
}

impl View for Level {
    type V = Seq<Seq<Land>>;

    /// The rows from top to bottom, each from left to right.
    open spec fn view(&self) -> Seq<Seq<Land>> {
        Seq::new(self.height(), |y: int| Seq::new(self.width(), |x: int| self.cell(x, y)))
    }
}

impl Level {
    /// Holds of every level that this library hands out.
    pub closed spec fn wf(&self) -> bool {
        self.grid.wf() && self.grid.height() >= 1
    }

    /// Number of columns.
    pub closed spec fn width(&self) -> nat {
        self.grid.width()
    }

    /// Number of rows.
    pub closed spec fn height(&self) -> nat {
        self.grid.height()
    }

    /// The land at a position.
    pub closed spec fn land(&self, c: Coord) -> Land {
        self.grid.at(c)
    }

    /// The land in column `x` of row `y`.
    pub open spec fn cell(&self, x: int, y: int) -> Land {
        self.land(Coord { x: x as usize, y: y as usize })
    }

    /// The position lies within the level.
    pub open spec fn inside(&self, c: Coord) -> bool {
        c.x < self.width() && c.y < self.height()
    }

    /// The position lies within the level and can be walked on.
    pub open spec fn passable(&self, c: Coord) -> bool {
        self.inside(c) && self.land(c) == Land::Pass
    }

    /// The view has one row for each row of the level, each as wide as the level.
    pub proof fn lemma_view(&self)
        ensures
            self@.len() == self.height(),
            forall|y: int| 0 <= y < self.height() ==> (#[trigger] self@[y]).len() == self.width(),
            forall|c: Coord| self.inside(c) ==> self@[c.y as int][c.x as int] == #[trigger] self.land(c),
    {
    }

    /// A well-formed level has a row, and its cells can be counted in a `usize`.
    pub proof fn lemma_size(&self)
        requires
            self.wf(),
        ensures
            self.height() >= 1,
            self.width() * self.height() <= usize::MAX,
            self.width() <= usize::MAX,
            self.height() <= usize::MAX,
    {
        self.grid.lemma_capacity();
    }

    /// The board that holds the cells.
    pub(crate) fn board(&self) -> (b: &Board<Land>)
        requires
            self.wf(),
        ensures
            b.wf(),
            b.width() == self.width(),
            b.height() == self.height(),
            forall|c: Coord| self.inside(c) ==> #[trigger] b.at(c) == self.land(c),
    {
        &self.grid
    }

    /// Reads a level from its text: one line for each row, a `.` for a passable
    /// cell and a `#` for a blocked one.
    pub fn from_text(text: &str) -> (made: Result<Level, ArgsError>)
        ensures
            match made {
                Ok(level) => {
                    &&& level.wf()
                    &&& well_formed_rows(lines_of(text@))
                    &&& level@ == grid_of(lines_of(text@))
                },
                Err(e) => e is InvalidLevel && !well_formed_rows(lines_of(text@)),
            },
    {
        let chars = chars_of(text);
        let lines = split_lines(&chars);
        let ghost rows = lines_of(text@);
        let height = lines.len();
        if height == 0 {
            return Err(ArgsError::InvalidLevel);
        }
        let width = lines[0].len();
        let mut cells: Vec<Land> = Vec::new();
        let mut y: usize = 0;
        while y < height
            invariant
                y <= height,
                height == lines@.len(),
                rows == lines_of(text@),
                lines@.len() == rows.len(),
                rows[0].len() == width,
                forall|k: int| 0 <= k < lines@.len() ==> (#[trigger] lines@[k])@ == rows[k],
                cells@.len() == y * width,
                forall|j: int| 0 <= j < y ==> (#[trigger] rows[j]).len() == width,
                forall|j: int, i: int| 0 <= j < y && 0 <= i < width ==> #[trigger] land_at(rows, i, j) == Some(cells@[j * width + i]),
            decreases height - y,
        {
            let line = &lines[y];
            if line.len() != width {
                return Err(ArgsError::InvalidLevel);
            }
            let mut x: usize = 0;
            while x < width
                invariant
                    x <= width,
                    y < height,
                    rows == lines_of(text@),
                    line@ == rows[y as int],
                    line@.len() == width,
                    height == rows.len(),
                    cells@.len() == y * width + x,
                    forall|j: int, i: int| 0 <= j < y && 0 <= i < width ==> #[trigger] land_at(rows, i, j) == Some(cells@[j * width + i]),
                    forall|i: int| 0 <= i < x ==> #[trigger] land_at(rows, i, y as int) == Some(cells@[y * width + i]),
                decreases width - x,
            {
                let c = line[x];
                if c == '.' {
                    cells.push(Land::Pass);
                } else if c == '#' {
                    cells.push(Land::Block);
                } else {
                    assert(land_at(rows, x as int, y as int) is None);
                    return Err(ArgsError::InvalidLevel);
                }
                proof {
                    assert forall|j: int, i: int| 0 <= j < y && 0 <= i < width implies #[trigger] land_at(rows, i, j) == Some(cells@[j * width + i]) by {
                        lemma_row_major(i, j, y as int, width as int);
                    }
                }
                x += 1;
            }
            proof {
                assert((y + 1) * width == y * width + width) by (nonlinear_arith);
            }
            y += 1;
        }
        proof {
            assert(height * width == width * height) by (nonlinear_arith);
        }
        let grid = Board::from_cells(cells, width, height);
        let level = Level { grid };
        proof {
            assert(forall|j: int| 0 <= j < height ==> #[trigger] level@[j] == grid_of(rows)[j]);
        }
        Ok(level)
    }

    /// Width and height, in this order.
    pub fn dimensions(&self) -> (d: (usize, usize))
        ensures
            d.0 == self.width(),
            d.1 == self.height(),
            self.wf() ==> d.1 >= 1,
    {
        (self.grid.columns(), self.grid.rows())
    }

    /// The last column.
    pub fn max_x(&self) -> (x: usize)
        requires
            self.width() >= 1,
        ensures
            x == self.width() - 1,
    {
        self.grid.columns() - 1
    }

    /// The last row.
    pub fn max_y(&self) -> (y: usize)
        requires
            self.height() >= 1,
        ensures
            y == self.height() - 1,
    {
        self.grid.rows() - 1
    }

    /// The land at a position inside the level.
    pub fn index(&self, coord: &Coord) -> (land: &Land)
        requires
            self.wf(),
            self.inside(*coord),
        ensures
            *land == self.land(*coord),
    {
        self.grid.get(*coord)
    }

    /// The passable cells next to `pos`, diagonals included, column by column
    /// and from top to bottom within a column.
    pub fn neighbours(&self, pos: &Coord) -> (found: Vec<Coord>)
        requires
            self.wf(),
            self.inside(*pos),
        ensures
            forall|i: int| 0 <= i < found@.len() ==> self.passable(#[trigger] found@[i]) && adjacent(*pos, found@[i]),
            forall|c: Coord| self.passable(c) && adjacent(*pos, c) ==> found@.contains(c),
            forall|i: int, j: int| 0 <= i < j < found@.len() ==> column_major(#[trigger] found@[i], #[trigger] found@[j]),
            found@.len() <= 8,
    {
        let here = *pos;
        let min_x: usize = if here.x == 0 { 0 } else { here.x - 1 };
        let min_y: usize = if here.y == 0 { 0 } else { here.y - 1 };
        let max_x: usize = if here.x == self.max_x() { here.x } else { here.x + 1 };
        let max_y: usize = if here.y == self.max_y() { here.y } else { here.y + 1 };
        let mut coords: Vec<Coord> = Vec::with_capacity(8);
        proof {
            self.lemma_size();
        }
        let mut x: usize = min_x;
        while x <= max_x
            invariant
                self.wf(),
                self.inside(here),
                min_x <= x <= max_x + 1,
                max_x < self.width(),
                max_y < self.height(),
                min_x == (if here.x == 0 { 0 } else { here.x - 1 }),
                min_y == (if here.y == 0 { 0 } else { here.y - 1 }),
                max_x == (if here.x == self.width() - 1 { here.x as int } else { here.x + 1 }),
                max_y == (if here.y == self.height() - 1 { here.y as int } else { here.y + 1 }),
                forall|i: int| 0 <= i < coords@.len() ==> self.passable(#[trigger] coords@[i]) && adjacent(here, coords@[i]) && coords@[i].x < x,
                forall|c: Coord| self.passable(c) && adjacent(here, c) && c.x < x ==> coords@.contains(c),
                forall|i: int, j: int| 0 <= i < j < coords@.len() ==> column_major(#[trigger] coords@[i], #[trigger] coords@[j]),
                coords@.len() + (if here.x < x { 1int } else { 0int }) <= 3 * (x - min_x),
                self.width() <= usize::MAX,
                self.height() <= usize::MAX,
            decreases max_x + 1 - x,
        {
            let mut y: usize = min_y;
            while y <= max_y
                invariant
                    self.wf(),
                    self.inside(here),
                    min_x <= x <= max_x,
                    min_y <= y <= max_y + 1,
                    max_x < self.width(),
                    max_y < self.height(),
                    min_x == (if here.x == 0 { 0 } else { here.x - 1 }),
                    min_y == (if here.y == 0 { 0 } else { here.y - 1 }),
                    max_x == (if here.x == self.width() - 1 { here.x as int } else { here.x + 1 }),
                    max_y == (if here.y == self.height() - 1 { here.y as int } else { here.y + 1 }),
                    forall|i: int| 0 <= i < coords@.len() ==> self.passable(#[trigger] coords@[i]) && adjacent(here, coords@[i]) && (coords@[i].x < x || (coords@[i].x == x && coords@[i].y < y)),
                    forall|c: Coord| self.passable(c) && adjacent(here, c) && (c.x < x || (c.x == x && c.y < y)) ==> coords@.contains(c),
                    forall|i: int, j: int| 0 <= i < j < coords@.len() ==> column_major(#[trigger] coords@[i], #[trigger] coords@[j]),
                    coords@.len() + (if column_major(here, Coord { x, y }) { 1int } else { 0int }) <= 3 * (x - min_x) + (y - min_y),
                    self.width() <= usize::MAX,
                    self.height() <= usize::MAX,
                decreases max_y + 1 - y,
            {
                let coord = Coord { x, y };
                if coord != here && *self.index(&coord) == Land::Pass {
                    let ghost before = coords@;
                    coords.push(coord);
                    proof {
                        assert forall|c: Coord| before.contains(c) implies coords@.contains(c) by {
                            let i = choose|i: int| 0 <= i < before.len() && before[i] == c;
                            assert(coords@[i] == c);
                        }
                        assert(coords@[before.len() as int] == coord);
                    }
                }
                y += 1;
            }
            x += 1;
        }
        coords
    }
}

/// A cell of an earlier row comes before the end of that row.
proof fn lemma_row_major(i: int, j: int, y: int, width: int)
    requires
        0 <= j < y,
        0 <= i < width,
    ensures
        0 <= j * width + i < y * width,
{
    assert(j * width + i < y * width) by (nonlinear_arith)
        requires
            0 <= j < y,
            0 <= i < width,
    ;
    assert(0 <= j * width) by (nonlinear_arith)
        requires
            0 <= j,
            0 <= width,
    ;
}

/// Order in which `neighbours` lists cells: by column, then by row.
pub open spec fn column_major(a: Coord, b: Coord) -> bool {
    a.x < b.x || (a.x == b.x && a.y < b.y)
}

} // verus!
