//! Shortest paths on a grid of passable and blocked cells, by A* search with
//! moves in eight directions.
//!
//! A [`Level`] is read from text, a [`Coord`] names one of its cells, and
//! [`find`] returns a cheapest [`Path`] between two cells, or `None` where no
//! walk over passable cells joins them.
//!
//! Costs and distances are whole numbers of thousandths of a cell side: a move
//! along an axis costs 1000, a diagonal move 1414, and the straight line
//! between two cells is a thousand times the root of the sum of the squared
//! offsets, rounded down. The search ranks a cell by its cost so far plus that
//! distance to the goal scaled by 1414 / 1415, which no move lowers by more
//! than the move costs; that is what makes the first path found a cheapest
//! one.

pub mod args;
pub mod board;
pub mod coord;
pub mod estimate;
pub mod frontier;
pub mod level;
pub mod path;
pub mod render;
pub mod route;
pub mod search;
pub mod text;

pub use args::{is_coord_valid, parse, Args, ArgsError};
pub use board::Board;
pub use coord::{Coord, CoordError};
pub use level::{Land, Level};
pub use path::Path;
pub use search::find;
