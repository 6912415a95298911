//! Turn-based board games played by two (or more) chat users.
//!
//! Each game module holds a board with its rules (`tictactoe`, `othello`,
//! `connect_four`, `minesweeper`) and the move on a stored game; `binding`
//! ties users to roles, `session` keeps the running games of one kind and
//! sweeps out the old ones, `callback` reads the data of pressed buttons.

pub mod binding;
pub mod callback;
pub mod connect_four;
pub mod context;
pub mod grid;
pub mod minesweeper;
pub mod ocr;
pub mod othello;
pub mod session;
pub mod tictactoe;
