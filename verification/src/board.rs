//! The position: both sides, the side to move, castling rights, the
//! en-passant target, move counters and histories.

pub mod attackgen;
pub mod check_mate;
pub mod movegen;
pub mod movement;
pub mod fen;
pub mod laws;

use vstd::prelude::*;
use crate::bits::bit64;
use crate::bitboard::Bitboard;
use crate::castling::CastlingRights;
use crate::moves::Move;
use crate::piece::Piece;
use crate::player::Player;
use crate::tile::Tile;
use crate::attacks::{rook_has, bishop_has, knight_has, king_has, pawn_has};

verus! {

broadcast use crate::bits::group_bit_lemmas, vstd::array::group_array_axioms;

/// A full position.  The histories let the most recent moves be undone
/// exactly and repetitions be counted.
#[derive(Debug, Clone, PartialEq, Eq)]
#[verifier::ext_equal]
pub struct Board {
    pub white: Player,
    pub black: Player,
    pub castling: CastlingRights,
    pub white_turn: bool,
    pub en_passant: Option<Tile>,
    /// The applied moves, oldest first, each paired with its algebraic
    /// notation.  The trusted apply path stores an empty string; the
    /// validating `try_move_piece` renders the notation while the
    /// pre-move context exists and stores it here.
    pub history: Vec<(Move, String)>,
    /// One position hash per applied move, for repetition counting.
    pub repetition_history: Vec<u64>,
    pub half_moves: u8,
    pub full_move: u32,
    /// The memo slots for the in-check state of each side.  They are
    /// part of the observable state a move snapshots and undo restores:
    /// every mutation clears them and undo brings the recorded values
    /// back.  `is_in_check` recomputes its answer rather than fill them,
    /// so in this crate they never hold a stale value.
    pub white_cache: Option<bool>,
    pub black_cache: Option<bool>,
}

impl Board {
    /// The occupancy of the whole board.
    pub open spec fn occ(self) -> u64 {
        self.white.pieces.0 | self.black.pieces.0
    }

    /// The side state of the given colour.
    pub open spec fn player_of(self, white: bool) -> Player {
        if white {
            self.white
        } else {
            self.black
        }
    }

    /// The piece on a square together with its colour.
    pub open spec fn piece_color_at(self, t: Tile) -> Option<(Piece, bool)> {
        match self.white.piece_at(t) {
            Some(p) => Some((p, true)),
            None => match self.black.piece_at(t) {
                Some(p) => Some((p, false)),
                None => None,
            },
        }
    }

    /// Structural well-formedness: both sides well formed, no square
    /// claimed by both, the flag bits within range, and the en-passant
    /// target a real square.
    pub open spec fn wf(self) -> bool {
        &&& self.white.wf()
        &&& self.black.wf()
        &&& forall|k: u64| !(#[trigger] bit64(self.white.pieces.0, k) && #[trigger] bit64(
            self.black.pieces.0,
            k,
        ))
        &&& self.castling.0 < 16
        &&& self.en_passant matches Some(t) ==> t.wf()
    }

    /// Each side has exactly one king, as in any playable position.
    pub open spec fn kings_ok(self) -> bool {
        self.white.one_king() && self.black.one_king()
    }

    /// The king square of the given colour.
    pub open spec fn king_sq(self, white: bool) -> Tile {
        crate::player::king_of(self.player_of(white))
    }

    /// A piece of colour `by_white` threatens the square: a rook or
    /// queen along a free rank or file, a bishop or queen along a free
    /// diagonal, a knight a jump away, a pawn a forward-diagonal step
    /// away, or the king one step away.
    pub open spec fn attacked(self, t: Tile, by_white: bool) -> bool {
        let att = self.player_of(by_white);
        let occ = self.occ();
        exists|j: Tile|
            #![auto]
            j.wf() && ((bit64(att.bb[3].0 | att.bb[4].0, j.0 as u64) && rook_has(t, occ, j)) || (
            bit64(att.bb[2].0 | att.bb[4].0, j.0 as u64) && bishop_has(t, occ, j)) || (bit64(
                att.bb[1].0,
                j.0 as u64,
            ) && knight_has(t, j)) || (bit64(att.bb[0].0, j.0 as u64) && pawn_has(t, !by_white, j))
                || (bit64(att.bb[5].0, j.0 as u64) && king_has(t, j)))
    }

    /// The side of the given colour stands in check.
    pub open spec fn in_check(self, white: bool) -> bool {
        self.attacked(self.king_sq(white), !white)
    }

    /// The standard starting position.
    pub fn new() -> (r: Board)
        ensures
            r.wf(),
            r.kings_ok(),
            r.white == crate::player::spec_start_white(),
            r.black == crate::player::spec_start_black(),
            r.castling.0 == 15,
            r.white_turn,
            r.en_passant is None,
            r.history@ == Seq::<(Move, String)>::empty(),
            r.repetition_history@ == Seq::<u64>::empty(),
            r.half_moves == 0,
            r.full_move == 1,
            r.white_cache is None,
            r.black_cache is None,
    {
        let b = Board {
            white: Player::new_white(),
            black: Player::new_black(),
            castling: CastlingRights::all(),
            white_turn: true,
            en_passant: None,
            history: Vec::new(),
            repetition_history: Vec::new(),
            half_moves: 0,
            full_move: 1,
            white_cache: None,
            black_cache: None,
        };
        proof {
            assert forall|k: u64| !(#[trigger] bit64(b.white.pieces.0, k) && #[trigger] bit64(
                b.black.pieces.0,
                k,
            )) by {
                assert(0x0000_0000_0000_FFFFu64 & 0xFFFF_0000_0000_0000u64 == 0) by (bit_vector);
                if bit64(b.white.pieces.0, k) && bit64(b.black.pieces.0, k) {
                    assert(bit64(0x0000_0000_0000_FFFFu64 & 0xFFFF_0000_0000_0000u64, k));
                }
            }
            assert(b.white =~= crate::player::spec_start_white());
            assert(b.black =~= crate::player::spec_start_black());
        }
        b
    }

    /// A position with no pieces at all.
    pub fn new_empty() -> (r: Board)
        ensures
            r.wf(),
            forall|i: int| 0 <= i < 6 ==> r.white.bb[i].0 == 0 && r.black.bb[i].0 == 0,
            r.white.pieces.0 == 0,
            r.black.pieces.0 == 0,
            r.castling.0 == 0,
            r.white_turn,
            r.en_passant is None,
            r.history@ == Seq::<(Move, String)>::empty(),
            r.repetition_history@ == Seq::<u64>::empty(),
            r.half_moves == 0,
            r.full_move == 1,
            r.white_cache is None,
            r.black_cache is None,
    {
        let b = Board {
            white: Player::new_empty(),
            black: Player::new_empty(),
            castling: CastlingRights::empty(),
            white_turn: true,
            en_passant: None,
            history: Vec::new(),
            repetition_history: Vec::new(),
            half_moves: 0,
            full_move: 1,
            white_cache: None,
            black_cache: None,
        };
        b
    }

    /// Pack a source, destination and piece with the current prior state
    /// into a move that can be undone.
    pub fn create_move(
        &self,
        from: Tile,
        to: Tile,
        piece: Piece,
        captured: Option<Piece>,
        promotion: Option<Piece>,
    ) -> (r: Move)
        ensures
            r == (Move {
                from,
                to,
                piece,
                capture: captured,
                en_passant: self.en_passant,
                prev_castle: self.castling,
                promoted_to: promotion,
                white_cache: self.white_cache,
                black_cache: self.black_cache,
                prev_half_moves: self.half_moves,
            }),
    {
        Move::new(
            from,
            to,
            piece,
            captured,
            self.en_passant,
            self.castling,
            promotion,
            self.white_cache,
            self.black_cache,
            self.half_moves,
        )
    }

    /// The union of both sides' occupancy.
    pub fn occupied(&self) -> (r: Bitboard)
        ensures
            r.0 == self.occ(),
    {
        Bitboard(self.white.pieces.0 | self.black.pieces.0)
    }

    /// The occupancy with both kings taken out.
    pub fn occupied_kingless(&self) -> (r: Bitboard)
        ensures
            r.0 == (self.white.pieces.0 & !self.white.bb[5].0) | (self.black.pieces.0
                & !self.black.bb[5].0),
    {
        let w = self.white.attackers();
        let b = self.black.attackers();
        Bitboard(w.0 | b.0)
    }

    /// The side to move and its opponent, in that order.
    pub fn current_players(&self) -> (r: (&Player, &Player))
        ensures
            *r.0 == self.player_of(self.white_turn),
            *r.1 == self.player_of(!self.white_turn),
    {
        self.get_players(self.white_turn)
    }

    /// The side of the given colour and its opponent, in that order.
    pub fn get_players(&self, white: bool) -> (r: (&Player, &Player))
        ensures
            *r.0 == self.player_of(white),
            *r.1 == self.player_of(!white),
    {
        if white {
            (&self.white, &self.black)
        } else {
            (&self.black, &self.white)
        }
    }

    /// The side of the given colour and its opponent, in that order,
    /// both borrowed for writing.
    pub fn get_players_mut(&mut self, white: bool) -> (r: (&mut Player, &mut Player))
        ensures
            *r.0 == old(self).player_of(white),
            *r.1 == old(self).player_of(!white),
            final(self).player_of(white) == *final(r.0),
            final(self).player_of(!white) == *final(r.1),
            final(self).castling == old(self).castling,
            final(self).white_turn == old(self).white_turn,
            final(self).en_passant == old(self).en_passant,
            final(self).history@ == old(self).history@,
            final(self).repetition_history@ == old(self).repetition_history@,
            final(self).half_moves == old(self).half_moves,
            final(self).full_move == old(self).full_move,
            final(self).white_cache == old(self).white_cache,
            final(self).black_cache == old(self).black_cache,
    {
        if white {
            (&mut self.white, &mut self.black)
        } else {
            (&mut self.black, &mut self.white)
        }
    }

    /// The piece on the square and its colour, if the square is held.
    pub fn get_piece_at_tile(&self, tile: Tile) -> (r: Option<(Piece, bool)>)
        requires
            self.wf(),
            tile.wf(),
        ensures
            r == self.piece_color_at(tile),
    {
        let white_piece = self.white.get_piece(tile);
        let black_piece = self.black.get_piece(tile);
        match (white_piece, black_piece) {
            (None, None) => None,
            (None, Some(p)) => Some((p, false)),
            (Some(p), None) => Some((p, true)),
            (Some(pw), Some(_)) => {
                proof {
                    let k = tile.0 as u64;
                    assert(self.white.some_kind_has(k));
                    assert(self.black.some_kind_has(k));
                    assert(bit64(self.white.pieces.0, k));
                    assert(bit64(self.black.pieces.0, k));
                    assert(false);
                }
                Some((pw, true))
            },
        }
    }
}

} // verus!
