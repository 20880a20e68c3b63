pub mod bitboard;
pub mod game_board;
pub mod input;
pub mod mcts;
pub mod puzzle;
pub mod board;
pub mod config;
pub mod encode;
pub mod moveset;
pub mod opening;
pub mod reference;
pub mod render;
pub mod rules;
pub mod session;
pub mod swap2;
pub mod tss;
pub mod symmetry;
pub mod text;
pub mod tactics;
pub mod win;
pub mod zobrist;
