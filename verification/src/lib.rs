//! A BattleSnake player for an 11 x 11 board.

pub mod api;
pub mod bitboard;
pub mod enemy;
pub mod eval;
pub mod fill;
pub mod grid;
pub mod minimax;
pub mod path;
pub mod player;
pub mod rng;
pub mod selfplay;
pub mod sim;
pub mod snake;
pub mod state;
pub mod tactics;
pub mod text;
pub mod voronoi;
pub mod walk;
