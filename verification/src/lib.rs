//! A reader, writer and editor for the plain-text transcript notation of
//! four-player chess. The notation is parsed into a tree of turns, each
//! holding up to four quarter-turns, each optionally carrying a free-text
//! description and alternative lines; the writer is its exact inverse on
//! accepted text. The tree can be edited by path: inserting a move,
//! promoting an alternative to the main line, and truncating a line. The
//! grammar, the editing algorithms and the laws that relate them are stated
//! as specifications and proved.

pub mod edit;
pub mod grammar;
pub mod laws;
pub mod num;
pub mod parse;
pub mod tags;
pub mod types;
pub mod visit;
pub mod write;

pub use parse::{map_location, ErrorLocation, MoveError, PGN4Error, PositionParseError};
pub use types::{
    move_eq, opt_move_eq, BasicMove, GameResult, Move, Position, QuarterTurn, Turn, PGN4,
};
pub use visit::{PartialPath, VisitingError, Visitor, VisitorCommon, VisitorMut};
