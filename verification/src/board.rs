use vstd::prelude::*;
use crate::coord::Coord;

verus! {

/// One value for every cell of a rectangle, kept row by row in one vector.
pub struct Board<T> {
    cells: Vec<T>,
    width: usize,
    height: usize,
}

impl<T: Copy> Board<T> {
    /// The vector holds exactly `width * height` values.
    pub closed spec fn wf(&self) -> bool {
        self.cells@.len() == self.width * self.height
    }

    pub closed spec fn width(&self) -> nat {
        self.width as nat
    }

    pub closed spec fn height(&self) -> nat {
        self.height as nat
    }

    /// The cell lies within the rectangle.
    pub open spec fn covers(&self, c: Coord) -> bool {
        c.x < self.width() && c.y < self.height()
    }

    /// Position of a cell in row-major order.
    pub closed spec fn slot(&self, c: Coord) -> int {
        c.y * self.width + c.x
    }

    /// The value kept for a cell.
    pub closed spec fn at(&self, c: Coord) -> T {
        self.cells@[self.slot(c)]
    }

    /// Every covered cell has a slot below `width * height`.
    pub proof fn lemma_slot_bound(&self, c: Coord)
        requires
            self.covers(c),
        ensures
            0 <= self.slot(c) < self.width() * self.height(),
    {
        let w = self.width as int;
        let h = self.height as int;
        let x = c.x as int;
        let y = c.y as int;
        assert(y * w + x < w * h) by (nonlinear_arith)
            requires
                0 <= x < w,
                0 <= y < h,
        ;
        assert(0 <= y * w + x) by (nonlinear_arith)
            requires
                0 <= x,
                0 <= y,
                0 <= w,
        ;
    }

    proof fn lemma_index(&self, c: Coord)
        requires
            self.wf(),
            self.covers(c),
        ensures
            0 <= c.y * self.width,
            c.y * self.width + c.x == self.slot(c),
            self.slot(c) < self.cells@.len() <= usize::MAX,
    {
        self.lemma_slot_bound(c);
        assert(self.cells.len() <= usize::MAX);
    }

    /// The cells can be counted in a `usize`.
    pub proof fn lemma_capacity(&self)
        requires
            self.wf(),
        ensures
            self.width() * self.height() <= usize::MAX,
            self.width() <= usize::MAX,
            self.height() <= usize::MAX,
    {
        assert(self.cells.len() <= usize::MAX);
    }

    /// Different covered cells have different slots.
    pub proof fn lemma_slot_distinct(&self, a: Coord, b: Coord)
        requires
            self.covers(a),
            self.covers(b),
            a != b,
        ensures
            self.slot(a) != self.slot(b),
    {
        let w = self.width as int;
        let ax = a.x as int;
        let ay = a.y as int;
        let bx = b.x as int;
        let by = b.y as int;
        assert(ay * w + ax != by * w + bx) by (nonlinear_arith)
            requires
                0 <= ax < w,
                0 <= bx < w,
                0 <= ay,
                0 <= by,
                ax != bx || ay != by,
        ;
    }

    /// Slots depend on the width alone.
    pub proof fn lemma_slot_shared<U: Copy>(&self, other: &Board<U>, c: Coord)
        requires
            self.width() == other.width(),
        ensures
            self.slot(c) == other.slot(c),
    {
    }

    /// A board of the given size with `value` in every cell.
    pub fn filled(width: usize, height: usize, value: T) -> (b: Self)
        requires
            width * height <= usize::MAX,
        ensures
            b.wf(),
            b.width() == width,
            b.height() == height,
            forall|c: Coord| b.covers(c) ==> #[trigger] b.at(c) == value,
    {
        let n: usize = width * height;
        let mut cells: Vec<T> = Vec::with_capacity(n);
        let mut i: usize = 0;
        while i < n
            invariant
                i <= n,
                cells@.len() == i,
                forall|k: int| 0 <= k < i ==> cells@[k] == value,
            decreases n - i,
        {
            cells.push(value);
            i += 1;
        }
        let b = Board { cells, width, height };
        proof {
            assert forall|c: Coord| b.covers(c) implies #[trigger] b.at(c) == value by {
                b.lemma_slot_bound(c);
            }
        }
        b
    }

    /// A board over the given values, row by row.
    pub fn from_cells(cells: Vec<T>, width: usize, height: usize) -> (b: Self)
        requires
            cells@.len() == width * height,
        ensures
            b.wf(),
            b.width() == width,
            b.height() == height,
            forall|c: Coord| b.covers(c) ==> #[trigger] b.at(c) == cells@[c.y * width + c.x],
    {
        Board { cells, width, height }
    }

    /// A board of the same size as `other` with `value` in every cell.
    pub fn shaped_like<U: Copy>(other: &Board<U>, value: T) -> (b: Self)
        requires
            other.wf(),
        ensures
            b.wf(),
            b.width() == other.width(),
            b.height() == other.height(),
            forall|c: Coord| b.covers(c) ==> #[trigger] b.at(c) == value,
    {
        proof {
            assert(other.cells.len() <= usize::MAX);
        }
        Self::filled(other.width, other.height, value)
    }

    pub fn columns(&self) -> (w: usize)
        ensures
            w == self.width(),
    {
        self.width
    }

    pub fn rows(&self) -> (h: usize)
        ensures
            h == self.height(),
    {
        self.height
    }

    /// Reads the value of a covered cell.
    pub fn get(&self, c: Coord) -> (v: &T)
        requires
            self.wf(),
            self.covers(c),
        ensures
            *v == self.at(c),
    {
        proof {
            self.lemma_index(c);
        }
        &self.cells[c.y * self.width + c.x]
    }

    /// Replaces the value of one covered cell and leaves the others as they were.
    pub fn set(&mut self, c: Coord, v: T)
        requires
            old(self).wf(),
            old(self).covers(c),
        ensures
            final(self).wf(),
            final(self).width() == old(self).width(),
            final(self).height() == old(self).height(),
            final(self).at(c) == v,
            forall|d: Coord| old(self).covers(d) && d != c ==> #[trigger] final(self).at(d) == old(self).at(d),
    {
        proof {
            self.lemma_index(c);
            assert forall|d: Coord| self.covers(d) && d != c implies self.slot(d) != self.slot(c) by {
                self.lemma_slot_distinct(d, c);
            }
            assert forall|d: Coord| self.covers(d) implies 0 <= self.slot(d) < self.cells@.len() by {
                self.lemma_slot_bound(d);
            }
        }
        let k: usize = c.y * self.width + c.x;
        self.cells.set(k, v);
    }
}

} // verus!
