pub mod board;
pub mod book;
pub mod datagen;
pub mod epd;
pub mod eval;
pub mod pgn;
pub mod search;
pub mod tb;
pub mod text;
pub mod tune;
pub mod uci;
