//! Exhaustive solver for free-placement (tic-tac-toe like) and gravity (Connect-Four like)
//! connection games on bitboards: move generation, win and draw detection, and a negamax search
//! with alpha-beta pruning and a transposition table.
pub mod bits;
pub mod board;
pub mod game;
pub mod moves;
pub mod position;
pub mod search;
pub mod table;

pub use board::Board;
pub use position::{BoardKind, Move, Player};
pub use game::{turns_to_win, Game};
pub use moves::Moves;
pub use search::Solver;
