pub mod board;
pub mod fen;
pub mod game_state;
pub mod legal;
pub mod movegen;
