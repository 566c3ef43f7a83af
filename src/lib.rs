//! A solver for tic-tac-toe: it builds the full game tree from the empty board,
//! compiles it into a table that ranks the moves of every reachable board, and
//! picks the program's move by looking the board up.

pub mod board;
pub mod tree;
pub mod table;
pub mod session;
