use vstd::prelude::*;
use vstd::std_specs::convert::FromSpecImpl;
use crate::level::Level;
use crate::text::{chars_of, colon_from, find_colon, number_of, parse_number};

verus! {

/// A cell position: column `x`, row `y`.
#[derive(Debug, Copy, Clone, PartialEq, Eq, Hash, Structural)]
pub struct Coord {
    pub x: usize,
    pub y: usize,
}

/// Why a text is not a position.
#[derive(Debug, Copy, Clone, PartialEq, Eq, Structural)]
pub enum CoordError {
    /// There is no colon, so at most one field.
    TooFew,
    /// There are two colons or more, so at least three fields.
    TooMany,
    /// One of the two fields is not a number that fits.
    ParseIntError,
}

/// The position that a text writes: a column, a colon and a row.
pub open spec fn coord_of(text: Seq<char>) -> Result<Coord, CoordError> {
    let colon = colon_from(text, 0);
    if colon >= text.len() {
        Err(CoordError::TooFew)
    } else if colon_from(text, colon + 1) < text.len() {
        Err(CoordError::TooMany)
    } else {
        match (number_of(text.subrange(0, colon)), number_of(text.subrange(colon + 1, text.len() as int))) {
            (Some(x), Some(y)) => Ok(Coord { x, y }),
            _ => Err(CoordError::ParseIntError),
        }
    }
}

impl Coord {
    /// Tells whether the position lies within the level.
    pub fn is_inside(&self, level: &Level) -> (inside: bool)
        ensures
            inside == level.inside(*self),
    {
        let (width, height) = level.dimensions();
        self.x < width && self.y < height
    }

    /// Reads a position written as `X:Y`.
    pub fn from_str(s: &str) -> (parsed: Result<Coord, CoordError>)
        ensures
            parsed == coord_of(s@),
    {
        let text = chars_of(s);
        let colon = find_colon(&text, 0);
        if colon >= text.len() {
            return Err(CoordError::TooFew);
        }
        if find_colon(&text, colon + 1) < text.len() {
            return Err(CoordError::TooMany);
        }
        match (parse_number(&text, 0, colon), parse_number(&text, colon + 1, text.len())) {
            (Some(x), Some(y)) => Ok(Coord { x, y }),
            _ => Err(CoordError::ParseIntError),
        }
    }
}

impl From<(usize, usize)> for Coord {
    fn from(pair: (usize, usize)) -> (coord: Coord) {
        Coord { x: pair.0, y: pair.1 }
    }
}

impl FromSpecImpl<(usize, usize)> for Coord {
    open spec fn obeys_from_spec() -> bool {
        true
    }

    open spec fn from_spec(pair: (usize, usize)) -> Coord {
        Coord { x: pair.0, y: pair.1 }
    }
}

impl std::str::FromStr for Coord {
    type Err = CoordError;

    fn from_str(s: &str) -> (parsed: Result<Coord, CoordError>)
        ensures
            parsed == coord_of(s@),
    {
        Coord::from_str(s)
    }
}

/// Two different cells that are at most one column and one row apart.
pub open spec fn adjacent(a: Coord, b: Coord) -> bool {
    &&& a != b
    &&& a.x - b.x <= 1
    &&& b.x - a.x <= 1
    &&& a.y - b.y <= 1
    &&& b.y - a.y <= 1
}

/// A move is diagonal when it changes both the column and the row.
pub open spec fn diagonal(a: Coord, b: Coord) -> bool {
    a.x != b.x && a.y != b.y
}

} // verus!
