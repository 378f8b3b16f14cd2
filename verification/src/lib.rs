//! Rules of a Minesweeper variant in which two cells are adjacent when they
//! are a chess knight's move apart.
//!
//! A [`Board`] is a value: every move returns a new board. Each executable
//! function is specified against [`BoardView`], the mathematical model of a
//! board, on which every move is a function ([`model`]). What holds across
//! moves is proved in [`laws`], and what region a move opens in [`region`].
//! A game with its settings and the helper that suggests a move are in
//! [`session`].

pub mod cell;
pub mod point;
pub mod grid;
pub mod model;
pub mod board;
pub mod nearby;
pub mod moves;
pub mod setup;
pub mod session;
pub mod steps;
pub mod laws;
pub mod region;

pub use crate::board::Board;
pub use crate::cell::MapElement;
pub use crate::cell::MapElementCellState;
pub use crate::model::BoardState;
pub use crate::model::BoardView;
pub use crate::point::Point;
pub use crate::moves::MoveError;
pub use crate::session::large_board;
pub use crate::session::medium_board;
pub use crate::session::new_game;
pub use crate::session::new_game_with;
pub use crate::session::small_board;
pub use crate::session::Difficulty;
pub use crate::session::Mode;
pub use crate::session::Msg;
pub use crate::session::State;
pub use crate::setup::board_with_mines;
pub use crate::setup::check_setup;
pub use crate::setup::create_board;
pub use crate::setup::numbers_on_board;
pub use crate::setup::try_create_board;
pub use crate::setup::SetupError;
