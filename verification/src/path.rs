use vstd::prelude::*;
use crate::coord::Coord;

verus! {

/// The cells of a walk in the order in which they are visited, and what the
/// walk costs in thousandths of a cell side.
pub struct Path {
    coords: Vec<Coord>,
    distance: u128,
}

impl View for Path {
    type V = Seq<Coord>;

    /// The cells from the first to the last.
    closed spec fn view(&self) -> Seq<Coord> {
        self.coords@
    }
}

impl Path {
    /// The recorded cost.
    pub closed spec fn cost(&self) -> nat {
        self.distance as nat
    }

    pub(crate) fn new(coords: Vec<Coord>, distance: u128) -> (path: Path)
        ensures
            path@ == coords@,
            path.cost() == distance,
    {
        Path { coords, distance }
    }

    /// The cells from the first to the last.
    pub fn coords(&self) -> (coords: &Vec<Coord>)
        ensures
            coords@ == self@,
    {
        &self.coords
    }

    /// The cost of the walk, in thousandths of a cell side.
    pub fn distance(&self) -> (distance: u128)
        ensures
            distance == self.cost(),
    {
        self.distance
    }
}

} // verus!
