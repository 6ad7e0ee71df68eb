pub mod attacks;
pub mod bitboard;
pub mod fen;
pub mod makemove;
pub mod movegen;
pub mod moves;
pub mod perft;
pub mod position;
pub mod san;
pub mod types;
pub mod zobrist;

pub use bitboard::Bitboard;
pub use types::{CastlingRights, Color, Piece, PieceType, Square};
pub use moves::{Move, MoveList};
pub use fen::START_FEN;
pub use movegen::generate_moves;
pub use position::{FenError, Position};
