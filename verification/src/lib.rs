pub mod bits;
pub mod text;
pub mod types;
pub mod board;
pub mod fen;
pub mod attacks;
pub mod movegen;
pub mod fit;
pub mod eval;
pub mod tt;
pub mod book;
pub mod search;
pub mod uci;
pub mod engine;
