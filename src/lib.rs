//! Board engine and game-tree solvers for a shape-connection game: two
//! players alternately claim cells of a square board, and a player wins by
//! covering every cell of some placement of one of their winning shapes.
//!
//! - `game`: shapes and their symmetric variants, the board with place and
//!   undo, and terminal detection.
//! - `tree`: exact game values by minimax and alpha-beta search.
//! - `graph`: proof-number search over an arena of nodes.
//! - `pns`: proof-number search over a table of positions.
//! - `dfpns`: depth-first proof-number search over a table of positions.

pub mod game;
pub mod tree;
pub mod graph;
pub mod dfpns;
pub mod pns;
