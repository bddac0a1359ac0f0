//! A sliding-tile puzzle (N-puzzle) solver: a fixed 3x3 board with a blank,
//! a Manhattan-distance cost heuristic, and a greedy best-first search that
//! explores boards in cost order, deduplicates states by fingerprint, and
//! reconstructs the move path on success.

pub mod board;
pub mod parse;
mod rng;
pub mod search;

pub use board::Direction;
pub use board::Puzzle;
pub use board::Tile;
pub use board::invert;
pub use board::solved_pos;
pub use parse::parse_moves;
pub use parse::parse_seed;
pub use search::collect;
pub use search::solve;
pub use search::SearchResult;
pub use search::SolutionLink;
pub use search::TraceEvent;
