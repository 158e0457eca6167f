use vstd::prelude::*;
use vstd::std_specs::convert::FromSpecImpl;
use crate::coord::{coord_of, Coord, CoordError};
use crate::level::{grid_of, well_formed_rows, Level};
use crate::text::lines_of;

verus! {

/// What a run needs: the level and the two cells to join.
pub struct Args {
    pub level: Level,
    pub start: Coord,
    pub end: Coord,
}

/// `std::io::Error`, which says why a file could not be read. Nothing is
/// known of what it holds.
#[verifier::external_type_specification]
#[verifier::external_body]
pub struct ExIoError(std::io::Error);

/// Why a run cannot begin.
#[derive(Debug)]
pub enum ArgsError {
    /// The file with the level could not be read.
    InvalidLevelFile(std::io::Error),
    /// The text is not a level.
    InvalidLevel,
    /// A position is not written as `X:Y`, or lies outside the level.
    Coord,
}

impl From<CoordError> for ArgsError {
    fn from(e: CoordError) -> (error: ArgsError) {
        ArgsError::Coord
    }
}

impl FromSpecImpl<CoordError> for ArgsError {
    open spec fn obeys_from_spec() -> bool {
        true
    }

    open spec fn from_spec(e: CoordError) -> ArgsError {
        ArgsError::Coord
    }
}

impl From<std::io::Error> for ArgsError {
    fn from(e: std::io::Error) -> (error: ArgsError) {
        ArgsError::InvalidLevelFile(e)
    }
}

impl FromSpecImpl<std::io::Error> for ArgsError {
    open spec fn obeys_from_spec() -> bool {
        true
    }

    open spec fn from_spec(e: std::io::Error) -> ArgsError {
        ArgsError::InvalidLevelFile(e)
    }
}

impl Args {
    /// The level is well-formed and holds both cells.
    pub open spec fn wf(&self) -> bool {
        &&& self.level.wf()
        &&& self.level.inside(self.start)
        &&& self.level.inside(self.end)
    }
}

/// The position is written as `X:Y` and lies within a level of these lines.
pub open spec fn placed(rows: Seq<Seq<char>>, text: Seq<char>) -> bool {
    match coord_of(text) {
        Ok(c) => c.x < rows[0].len() && c.y < rows.len(),
        Err(_) => false,
    }
}

/// Tells whether a text is a position, and hands the text back where it is not.
pub fn is_coord_valid(s: String) -> (checked: Result<(), String>)
    ensures
        match checked {
            Ok(_) => coord_of(s@) is Ok,
            Err(text) => coord_of(s@) is Err && text@ == s@,
        },
{
    match Coord::from_str(s.as_str()) {
        Ok(_) => Ok(()),
        Err(_) => Err(s),
    }
}

/// Reads the level from its text and the two cells from theirs, and checks
/// that both cells lie within the level.
pub fn parse(level_text: &str, start: &str, end: &str) -> (parsed: Result<Args, ArgsError>)
    ensures
        match parsed {
            Ok(args) => {
                &&& args.wf()
                &&& well_formed_rows(lines_of(level_text@))
                &&& args.level@ == grid_of(lines_of(level_text@))
                &&& coord_of(start@) == Ok::<Coord, CoordError>(args.start)
                &&& coord_of(end@) == Ok::<Coord, CoordError>(args.end)
            },
            Err(e) => if well_formed_rows(lines_of(level_text@)) {
                e is Coord && !(placed(lines_of(level_text@), start@) && placed(lines_of(level_text@), end@))
            } else {
                e is InvalidLevel
            },
        },
{
    let level = match Level::from_text(level_text) {
        Ok(level) => level,
        Err(e) => {
            return Err(e);
        },
    };
    let start = match Coord::from_str(start) {
        Ok(coord) => coord,
        Err(e) => {
            return Err(ArgsError::from(e));
        },
    };
    let end = match Coord::from_str(end) {
        Ok(coord) => coord,
        Err(e) => {
            return Err(ArgsError::from(e));
        },
    };
    proof {
        let rows = lines_of(level_text@);
        level.lemma_view();
        level.lemma_size();
        assert(grid_of(rows)[0].len() == rows[0].len());
    }
    if !start.is_inside(&level) || !end.is_inside(&level) {
        return Err(ArgsError::Coord);
    }
    Ok(Args { level, start, end })
}

} // verus!
