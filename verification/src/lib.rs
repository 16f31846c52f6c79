pub mod cli;
pub mod engine;
pub mod search;
pub mod text;
pub mod trainer;
pub mod uci;
