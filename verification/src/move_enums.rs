//! Why a move request was rejected, what a position has become, and what
//! a move attempt produced.

use vstd::prelude::*;
use crate::tile::Tile;

verus! {

/// Why a move request could not be applied.
#[derive(Debug, Clone, Copy, PartialEq, Eq, Structural)]
pub enum MoveError {
    /// The source square holds no piece.
    NoPieceSelected,
    /// Source and destination are the same square.
    SameTile,
    /// The destination holds the mover's own piece.
    FriendlyCapture,
    /// The destination is not in the legal-move set of the piece.
    IllegalMove,
    /// The piece belongs to the side not currently moving.
    WrongTurn,
    /// The move would leave the mover's own king in check.
    PiecePinned,
    /// The position is already a stalemate.
    Stalemate,
    /// The position is already a checkmate.
    Checkmate,
    /// A pending promotion choice was abandoned.
    Cancelled,
}

impl MoveError {
    /// A short description of the rejection.
    pub fn describe(&self) -> (r: &'static str)
        ensures
            r@ == (match *self {
                MoveError::IllegalMove => "Illegal move"@,
                MoveError::WrongTurn => "It's the wrong player's turn"@,
                MoveError::PiecePinned => "Piece is pinned"@,
                MoveError::Stalemate => "The board is in a stalemate"@,
                MoveError::Checkmate => "The board is in a checkmate"@,
                MoveError::NoPieceSelected => "No piece is selected"@,
                MoveError::SameTile => "Same tile selected"@,
                MoveError::FriendlyCapture => "Cannot capture own piece"@,
                MoveError::Cancelled => "Cancelled move"@,
            }),
    {
        match self {
            MoveError::IllegalMove => "Illegal move",
            MoveError::WrongTurn => "It's the wrong player's turn",
            MoveError::PiecePinned => "Piece is pinned",
            MoveError::Stalemate => "The board is in a stalemate",
            MoveError::Checkmate => "The board is in a checkmate",
            MoveError::NoPieceSelected => "No piece is selected",
            MoveError::SameTile => "Same tile selected",
            MoveError::FriendlyCapture => "Cannot capture own piece",
            MoveError::Cancelled => "Cancelled move",
        }
    }
}

/// The classification of a position, first applicable of: checkmate,
/// stalemate, fifty-move rule, insufficient material, threefold
/// repetition, else still playing.  The `bool` carries the side the
/// verdict is about: `true` for white.
#[derive(Debug, Clone, Copy, PartialEq, Eq, Structural)]
pub enum GameState {
    Checkmate(bool),
    Stalemate(bool),
    FiftyMoveRule,
    InsufficientMaterial,
    ThreeRepetition,
    Playing,
}

/// What a validated move request produced.
#[derive(Debug, Clone, Copy, PartialEq, Eq, Structural)]
pub enum MoveResult {
    /// The move was applied; the state of the position after it.
    MoveApplied(GameState),
    /// A pawn reached the back rank and no promotion piece was given;
    /// the destination square the choice is for.
    PromotionNeeded(Tile),
}

} // verus!
