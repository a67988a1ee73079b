//! A small chess engine: a board/position model with per-piece move
//! generation, a make/rollback move protocol, and a negamax search with
//! alpha-beta pruning over a lazily expanded game tree.

pub mod arena;
pub mod board;
pub mod board_range;
pub mod chess_move;
pub mod color;
pub mod engine;
pub mod game_context;
pub mod game_piece;
pub mod position;
pub mod side;
pub mod tree;
