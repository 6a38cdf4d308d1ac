//! Check detection and position classification.

use vstd::prelude::*;
use crate::bits::{bit64, popcnt64};
use crate::board::Board;
use crate::move_enums::GameState;
use crate::move_list::MoveList;
use crate::piece::Piece;
use crate::tile::Tile;
use crate::attacks::{rook_has, bishop_has, knight_has, king_has, pawn_has};
use crate::board::movegen::legal_move;
use crate::bitboard::Bitboard;

verus! {

broadcast use crate::bits::group_bit_lemmas, vstd::array::group_array_axioms;

impl Board {
    /// Whether any piece of the given colour threatens the square,
    /// checked kind by kind against the attack geometry: sliders along
    /// free rays, knights a jump away, pawns a forward-diagonal step
    /// away, the king one step away.
    pub fn tile_attacked(&self, tile: Tile, by_white: bool) -> (r: bool)
        requires
            self.wf(),
            tile.wf(),
        ensures
            r == self.attacked(tile, by_white),
    {
        let attacker = if by_white {
            &self.white
        } else {
            &self.black
        };
        let occ = self.occupied();
        let straight_mask = tile.rook_attacks(occ);
        let diag_mask = tile.bishop_attacks(occ);
        let knight_mask = tile.knight_attacks();
        let pawn_mask = tile.pawn_attacks(!by_white);
        let king_mask = tile.king_attacks();
        let rq = attacker.bb[3].0 | attacker.bb[4].0;
        let bq = attacker.bb[2].0 | attacker.bb[4].0;
        let hits = (rq & straight_mask.0) | (bq & diag_mask.0) | (attacker.bb[1].0
            & knight_mask.0) | (attacker.bb[0].0 & pawn_mask.0) | (attacker.bb[5].0
            & king_mask.0);
        proof {
            crate::bits::lemma_nonzero_has_bit(hits);
            if hits != 0 {
                let k = choose|k: u64| bit64(hits, k);
                let j = Tile(k as u8);
                assert(k < 64 && j.0 as u64 == k);
                assert(j.wf());
                assert(self.attacked(tile, by_white));
            }
            if self.attacked(tile, by_white) {
                let att = self.player_of(by_white);
                let j = choose|j: Tile|
                    #![auto]
                    j.wf() && ((bit64(att.bb[3].0 | att.bb[4].0, j.0 as u64) && rook_has(
                        tile,
                        self.occ(),
                        j,
                    )) || (bit64(att.bb[2].0 | att.bb[4].0, j.0 as u64) && bishop_has(
                        tile,
                        self.occ(),
                        j,
                    )) || (bit64(att.bb[1].0, j.0 as u64) && knight_has(tile, j)) || (bit64(
                        att.bb[0].0,
                        j.0 as u64,
                    ) && pawn_has(tile, !by_white, j)) || (bit64(att.bb[5].0, j.0 as u64)
                        && king_has(tile, j)));
                assert(bit64(hits, j.0 as u64));
            }
        }
        hits != 0
    }

    /// Whether the side of the given colour stands in check: its king's
    /// square is attacked by the other side.
    pub fn is_in_check(&self, white: bool) -> (r: bool)
        requires
            self.wf(),
            self.player_of(white).one_king(),
        ensures
            r == self.in_check(white),
    {
        let player = if white {
            &self.white
        } else {
            &self.black
        };
        let kt = player.king_tile();
        proof {
            crate::player::lemma_one_king_unique(self.player_of(white), kt);
        }
        self.tile_attacked(kt, !white)
    }

    /// The half-move clock has reached the fifty-move mark.
    pub fn fifty_move_rule(&self) -> (r: bool)
        ensures
            r == (self.half_moves >= 100),
    {
        self.half_moves >= 100
    }

    /// The current position hash appears at least three times in the
    /// repetition history.
    pub fn three_fold_rep(&self) -> (r: bool)
        requires
            self.wf(),
        ensures
            r == (count_eq(self.repetition_history@, crate::zobrist::spec_zobrist(*self)) >= 3),
    {
        let current = self.to_zobrist_hash();
        let mut count: usize = 0;
        let mut i: usize = 0;
        while i < self.repetition_history.len()
            invariant
                i <= self.repetition_history@.len(),
                count == count_eq(self.repetition_history@.subrange(0, i as int), current),
                count <= i,
                current == crate::zobrist::spec_zobrist(*self),
            decreases self.repetition_history@.len() - i,
        {
            proof {
                assert(self.repetition_history@.subrange(0, i + 1).drop_last()
                    =~= self.repetition_history@.subrange(0, i as int));
            }
            if self.repetition_history[i] == current {
                count = count + 1;
            }
            i = i + 1;
        }
        proof {
            assert(self.repetition_history@.subrange(0, self.repetition_history@.len() as int)
                =~= self.repetition_history@);
        }
        count >= 3
    }
}


/// The side of colour `w` is checkmated: in check with no legal move.
pub open spec fn checkmate_spec(b: Board, w: bool) -> bool {
    b.in_check(w) && (forall|m: crate::moves::Move| !legal_move(b, w, m))
}

/// The side of colour `w` is stalemated: not in check yet without a
/// legal move.
pub open spec fn stalemate_spec(b: Board, w: bool) -> bool {
    !b.in_check(w) && (forall|m: crate::moves::Move| !legal_move(b, w, m))
}

/// Neither side can deliver mate: bare kings, a king with one minor
/// piece against a bare king, or one bishop each with both bishops on
/// squares of the same colour.
pub open spec fn insufficient_spec(b: Board) -> bool {
    let nw = popcnt64(b.white.pieces.0 & !b.white.bb[5].0);
    let nb = popcnt64(b.black.pieces.0 & !b.black.bb[5].0);
    ||| (nw == 0 && nb == 0)
    ||| (nw == 1 && nb == 0 && popcnt64(b.white.bb[1].0 | b.white.bb[2].0) == 1)
    ||| (nw == 0 && nb == 1 && popcnt64(b.black.bb[1].0 | b.black.bb[2].0) == 1)
    ||| (nw == 1 && nb == 1 && popcnt64(b.white.bb[2].0) == 1 && popcnt64(b.black.bb[2].0) == 1
        && (exists|tw: Tile, tb: Tile|
        #![auto]
        tw.wf() && tb.wf() && b.white.bb[2].0 == 1u64 << tw.0 && b.black.bb[2].0 == 1u64 << tb.0
            && ((tw.spec_file() + tw.spec_rank()) % 2 == (tb.spec_file() + tb.spec_rank()) % 2)))
}

/// The first applicable classification of the position, in the fixed
/// order: checkmate, stalemate, fifty-move rule, insufficient material,
/// threefold repetition, else still playing.
pub open spec fn state_spec(b: Board) -> GameState {
    let w = b.white_turn;
    if checkmate_spec(b, w) {
        GameState::Checkmate(w)
    } else if stalemate_spec(b, w) {
        GameState::Stalemate(w)
    } else if b.half_moves >= 100 {
        GameState::FiftyMoveRule
    } else if insufficient_spec(b) {
        GameState::InsufficientMaterial
    } else if count_eq(b.repetition_history@, crate::zobrist::spec_zobrist(b)) >= 3 {
        GameState::ThreeRepetition
    } else {
        GameState::Playing
    }
}

impl Board {
    /// The side of the given colour is checkmated.
    pub fn is_checkmate(&self, white: bool) -> (r: bool)
        requires
            self.wf(),
            self.kings_ok(),
            self.half_moves < 255,
            self.full_move < 0xFFFF_FFFFu32,
        ensures
            r == checkmate_spec(*self, white),
    {
        if !self.is_in_check(white) {
            return false;
        }
        let mut moves = MoveList::new();
        self.generate_legal_moves(white, &mut moves);
        let empty = moves.is_empty();
        proof {
            if empty {
                assert forall|m: crate::moves::Move| !legal_move(*self, white, m) by {
                    if legal_move(*self, white, m) {
                        assert(moves@.contains(m));
                    }
                }
            } else {
                let m = moves@[0];
                assert(moves@.contains(m));
                assert(legal_move(*self, white, m));
            }
        }
        empty
    }

    /// The side of the given colour is stalemated.
    pub fn is_stalemate(&self, white: bool) -> (r: bool)
        requires
            self.wf(),
            self.kings_ok(),
            self.half_moves < 255,
            self.full_move < 0xFFFF_FFFFu32,
        ensures
            r == stalemate_spec(*self, white),
    {
        if self.is_in_check(white) {
            return false;
        }
        let mut moves = MoveList::new();
        self.generate_legal_moves(white, &mut moves);
        let empty = moves.is_empty();
        proof {
            if empty {
                assert forall|m: crate::moves::Move| !legal_move(*self, white, m) by {
                    if legal_move(*self, white, m) {
                        assert(moves@.contains(m));
                    }
                }
            } else {
                let m = moves@[0];
                assert(moves@.contains(m));
                assert(legal_move(*self, white, m));
            }
        }
        empty
    }

    /// Neither side retains mating material.
    pub fn insufficient_material(&self) -> (r: bool)
        requires
            self.wf(),
        ensures
            r == insufficient_spec(*self),
    {
        let wk = self.white.bb[5];
        let bk = self.black.bb[5];
        let watt = Bitboard(self.white.pieces.0 & !wk.0);
        let batt = Bitboard(self.black.pieces.0 & !bk.0);
        let nw = watt.count_ones();
        let nb = batt.count_ones();
        if nw == 0 && nb == 0 {
            return true;
        }
        if nw == 1 && nb == 0 {
            let minors = Bitboard(self.white.bb[1].0 | self.white.bb[2].0);
            return minors.count_ones() == 1;
        }
        if nw == 0 && nb == 1 {
            let minors = Bitboard(self.black.bb[1].0 | self.black.bb[2].0);
            return minors.count_ones() == 1;
        }
        if nw == 1 && nb == 1 {
            let wb = Bitboard(self.white.bb[2].0);
            let bb2 = Bitboard(self.black.bb[2].0);
            if wb.count_ones() == 1 && bb2.count_ones() == 1 {
                let tw = wb.to_bit().unwrap();
                let tb = bb2.to_bit().unwrap();
                let same = tw.is_light_square() == tb.is_light_square();
                proof {
                    if same {
                        assert(insufficient_spec(*self));
                    } else {
                        if exists|tw2: Tile, tb2: Tile|
                            #![auto]
                            tw2.wf() && tb2.wf() && self.white.bb[2].0 == 1u64 << tw2.0
                                && self.black.bb[2].0 == 1u64 << tb2.0 && ((tw2.spec_file()
                                + tw2.spec_rank()) % 2 == (tb2.spec_file() + tb2.spec_rank())
                                % 2) {
                            let (tw2, tb2) = choose|tw2: Tile, tb2: Tile|
                                #![auto]
                                tw2.wf() && tb2.wf() && self.white.bb[2].0 == 1u64 << tw2.0
                                    && self.black.bb[2].0 == 1u64 << tb2.0 && ((tw2.spec_file()
                                    + tw2.spec_rank()) % 2 == (tb2.spec_file() + tb2.spec_rank())
                                    % 2);
                            crate::bits::lemma_bit_single(tw.0 as u64, tw2.0 as u64);
                            crate::bits::lemma_bit_single(tw2.0 as u64, tw.0 as u64);
                            crate::bits::lemma_bit_single(tb.0 as u64, tb2.0 as u64);
                            crate::bits::lemma_bit_single(tb2.0 as u64, tb.0 as u64);
                            assert(tw2 == tw && tb2 == tb);
                        }
                    }
                }
                return same;
            }
            return false;
        }
        false
    }

    /// Classify the position: the first applicable of checkmate,
    /// stalemate, fifty-move rule, insufficient material and threefold
    /// repetition, else still playing.
    pub fn get_state(&self) -> (r: GameState)
        requires
            self.wf(),
            self.kings_ok(),
            self.half_moves < 255,
            self.full_move < 0xFFFF_FFFFu32,
        ensures
            r == state_spec(*self),
    {
        let white = self.white_turn;
        if self.is_checkmate(white) {
            GameState::Checkmate(white)
        } else if self.is_stalemate(white) {
            GameState::Stalemate(white)
        } else if self.fifty_move_rule() {
            GameState::FiftyMoveRule
        } else if self.insufficient_material() {
            GameState::InsufficientMaterial
        } else if self.three_fold_rep() {
            GameState::ThreeRepetition
        } else {
            GameState::Playing
        }
    }
}

/// How many entries of the sequence equal the value.
pub open spec fn count_eq(s: Seq<u64>, v: u64) -> nat
    decreases s.len(),
{
    if s.len() == 0 {
        0
    } else {
        count_eq(s.drop_last(), v) + (if s.last() == v {
            1nat
        } else {
            0nat
        })
    }
}

} // verus!
