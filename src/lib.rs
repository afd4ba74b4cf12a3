//! A rules engine for the game of Go: stone placement on a square grid,
//! legality (occupied points, suicide, ko) and capture by liberty analysis,
//! with the flood fills that find groups, liberties and empty regions.

pub mod board;
pub mod cell_state;
pub mod diagram;
pub mod grid;
pub mod laws;
pub mod point;
pub mod rules;
pub mod sprites;

pub use board::Board;
pub use cell_state::CellState;
pub use point::Point;
