pub mod bitboard;
pub mod chess_move;
pub mod movelist;
pub mod piece;
pub mod square;

pub use bitboard::Bitboard;
pub use chess_move::{Move, MoveKind};
pub use movelist::{MoveEntry, MoveList, MAX_MOVES};
pub use piece::{Color, Piece, PieceType};
pub use square::Square;
