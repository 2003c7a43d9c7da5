//! Reversi (Othello) on an 8x8 board against a positional bot: the board
//! rules, the move and flip-animation state machine, and the screen layout,
//! each stated and proved in Verus.
pub mod cell;
pub mod board;
pub mod model;
pub mod game;
pub mod laws;
pub mod screen;
