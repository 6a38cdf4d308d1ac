//! A chess rules engine built on 64-bit set algebra.
//!
//! A `Board` holds the full position: both sides' piece sets, the side to
//! move, castling rights, the en-passant target, move counters and a
//! repetition history.  It generates the exact set of legal moves, applies
//! and reverses moves with full state reconstruction, and classifies
//! terminal positions (checkmate, stalemate, draws).

pub mod bits;
pub mod bitboard;
pub mod tile;
pub mod piece;
pub mod castling;
pub mod move_enums;
pub mod moves;
pub mod move_list;
pub mod player;
pub mod attacks;
pub mod magics;
pub mod board;
pub mod zobrist;

pub use bitboard::Bitboard;
pub use bitboard::BitIter;
pub use tile::Tile;
pub use piece::Piece;
pub use castling::CastlingRights;
pub use move_enums::{MoveError, GameState, MoveResult};
pub use moves::Move;
pub use move_list::MoveList;
pub use player::Player;
pub use magics::MagicEntry;
pub use board::Board;
