pub mod attack;
pub mod board;
pub mod dirs;
pub mod engine;
pub mod fen;
pub mod game;
pub mod kings;
pub mod laws;
pub mod movegen;
pub mod moves;
pub mod protocol;
pub mod rules;
pub mod state;
pub mod uci;

pub use board::{Color, Piece, PieceKind, Square};
pub use game::Game;
pub use moves::{Move, MoveKind};
pub use state::{CastlingRights, GameState};
