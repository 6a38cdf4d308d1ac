//! A move: one ply, carrying enough prior state to undo itself exactly.

use vstd::prelude::*;
use crate::tile::Tile;
use crate::piece::Piece;
use crate::castling::CastlingRights;

verus! {

/// One ply.  Besides source, destination and piece kind it snapshots the
/// state a move cannot recompute when reversed: the captured kind, the
/// en-passant target, castling rights, check caches and half-move clock
/// as they stood before the move.
#[derive(Debug, Clone, Copy, PartialEq, Eq, Structural)]
pub struct Move {
    pub from: Tile,
    pub to: Tile,
    pub piece: Piece,
    pub capture: Option<Piece>,
    pub en_passant: Option<Tile>,
    pub prev_castle: CastlingRights,
    pub promoted_to: Option<Piece>,
    pub white_cache: Option<bool>,
    pub black_cache: Option<bool>,
    pub prev_half_moves: u8,
}

impl Move {
    /// Both squares name real tiles.
    pub open spec fn wf(self) -> bool {
        self.from.wf() && self.to.wf() && (self.en_passant matches Some(t) ==> t.wf())
    }

    pub fn new(
        from: Tile,
        to: Tile,
        piece: Piece,
        capture: Option<Piece>,
        en_passant: Option<Tile>,
        prev_castle: CastlingRights,
        promoted_to: Option<Piece>,
        white_cache: Option<bool>,
        black_cache: Option<bool>,
        prev_half_moves: u8,
    ) -> (r: Move)
        ensures
            r == (Move {
                from,
                to,
                piece,
                capture,
                en_passant,
                prev_castle,
                promoted_to,
                white_cache,
                black_cache,
                prev_half_moves,
            }),
    {
        Move {
            from,
            to,
            piece,
            capture,
            en_passant,
            prev_castle,
            promoted_to,
            white_cache,
            black_cache,
            prev_half_moves,
        }
    }

    pub fn from(&self) -> (r: Tile)
        ensures
            r == self.from,
    {
        self.from
    }

    pub fn to(&self) -> (r: Tile)
        ensures
            r == self.to,
    {
        self.to
    }

    pub fn piece(&self) -> (r: Piece)
        ensures
            r == self.piece,
    {
        self.piece
    }

    pub fn capture(&self) -> (r: Option<Piece>)
        ensures
            r == self.capture,
    {
        self.capture
    }

    pub fn promoted_to(&self) -> (r: Option<Piece>)
        ensures
            r == self.promoted_to,
    {
        self.promoted_to
    }

    /// The en-passant target that stood before the move.
    pub fn en_passant(&self) -> (r: Option<Tile>)
        ensures
            r == self.en_passant,
    {
        self.en_passant
    }

    /// The castling rights that stood before the move.
    pub fn prev_castle(&self) -> (r: CastlingRights)
        ensures
            r == self.prev_castle,
    {
        self.prev_castle
    }

    pub fn white_cache(&self) -> (r: Option<bool>)
        ensures
            r == self.white_cache,
    {
        self.white_cache
    }

    pub fn black_cache(&self) -> (r: Option<bool>)
        ensures
            r == self.black_cache,
    {
        self.black_cache
    }

    /// The half-move clock that stood before the move.
    pub fn prev_half_moves(&self) -> (r: u8)
        ensures
            r == self.prev_half_moves,
    {
        self.prev_half_moves
    }
}

} // verus!
