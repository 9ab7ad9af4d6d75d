//! A generalized tic-tac-toe engine: an ordinary 3x3 board whose cells can
//! themselves be nested 3x3 boards, recursively, to an arbitrary configured
//! depth. The crate provides the recursive board tree, the rule that resolves
//! a sub-board into a single mark-or-draw symbol usable by its parent, the
//! router that carries a move down to the addressed leaf cell, and the game
//! controller that sequences turns.

pub mod board;
pub mod game;
