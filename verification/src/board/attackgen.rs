//! Attack maps of whole sides: every square one side threatens, with or
//! without the defending king blocking rays.

use vstd::prelude::*;
use crate::bits::{bit64, popcnt64};
use crate::bitboard::Bitboard;
use crate::board::Board;
use crate::piece::Piece;
use crate::tile::Tile;
use crate::attacks::{rook_has, bishop_has, knight_has, king_has, pawn_has};

verus! {

broadcast use crate::bits::group_bit_lemmas, vstd::array::group_array_axioms;

impl Board {
    /// The occupancy sliders see: the full occupancy, or, for king-danger
    /// maps of the attacking side `c`, the occupancy with the defending
    /// king taken out, so rays reach through it.
    pub open spec fn kd_occ(self, king_danger: Option<bool>) -> u64 {
        match king_danger {
            None => self.occ(),
            Some(c) => self.occ() & (if !c {
                !self.white.bb[5].0
            } else {
                !self.black.bb[5].0
            }),
        }
    }

    /// A piece of the given kind and colour on `t` attacks `j`, under the
    /// occupancy chosen by `king_danger`.
    pub open spec fn piece_attacks_has(
        self,
        t: Tile,
        piece: Piece,
        white: bool,
        king_danger: Option<bool>,
        j: Tile,
    ) -> bool {
        match piece {
            Piece::Pawn => pawn_has(t, white, j),
            Piece::Knight => knight_has(t, j),
            Piece::Bishop => bishop_has(t, self.kd_occ(king_danger), j),
            Piece::Rook => rook_has(t, self.kd_occ(king_danger), j),
            Piece::Queen => rook_has(t, self.kd_occ(king_danger), j) || bishop_has(
                t,
                self.kd_occ(king_danger),
                j,
            ),
            Piece::King => king_has(t, j),
        }
    }

    /// Some piece of the side of colour `white` attacks `j`.
    pub open spec fn side_attacks_has(
        self,
        white: bool,
        king_danger: Option<bool>,
        j: Tile,
    ) -> bool {
        exists|t: Tile|
            #![auto]
            t.wf() && bit64(self.player_of(white).pieces.0, t.0 as u64) && (self.player_of(
                white,
            ).piece_at(t) matches Some(p) && self.piece_attacks_has(t, p, white, king_danger, j))
    }

    /// The sliding attacks from `t`, straight and/or diagonal, under the
    /// occupancy chosen by `king_danger`.
    pub fn generate_sliding_attacks(
        &self,
        tile: Tile,
        straight: bool,
        diagonal: bool,
        king_danger: Option<bool>,
    ) -> (r: Bitboard)
        requires
            tile.wf(),
        ensures
            forall|j: Tile|
                j.wf() ==> (#[trigger] bit64(r.0, j.0 as u64) <==> ((straight && rook_has(
                    tile,
                    self.kd_occ(king_danger),
                    j,
                )) || (diagonal && bishop_has(tile, self.kd_occ(king_danger), j)))),
            forall|i: u64| bit64(r.0, i) ==> i < 64,
    {
        let occ: Bitboard = match king_danger {
            None => self.occupied(),
            Some(c) => {
                let kings = if !c {
                    self.white.bb[5]
                } else {
                    self.black.bb[5]
                };
                Bitboard(
                    (self.white.pieces.0 | self.black.pieces.0) & !kings.0,
                )
            },
        };
        let mut attacks = Bitboard(0);
        if straight {
            let a = tile.rook_attacks(occ);
            attacks = Bitboard(attacks.0 | a.0);
        }
        if diagonal {
            let a = tile.bishop_attacks(occ);
            attacks = Bitboard(attacks.0 | a.0);
        }
        attacks
    }

    /// The attacks of one piece of the given kind and colour on `tile`.
    pub fn generate_attacks_from_piece(
        &self,
        tile: Tile,
        piece: Piece,
        white: bool,
        king_danger: Option<bool>,
    ) -> (r: Bitboard)
        requires
            tile.wf(),
        ensures
            forall|j: Tile|
                j.wf() ==> (#[trigger] bit64(r.0, j.0 as u64) <==> self.piece_attacks_has(
                    tile,
                    piece,
                    white,
                    king_danger,
                    j,
                )),
            forall|i: u64| bit64(r.0, i) ==> i < 64,
    {
        match piece {
            Piece::Pawn => tile.pawn_attacks(white),
            Piece::Knight => tile.knight_attacks(),
            Piece::Bishop => self.generate_sliding_attacks(tile, false, true, king_danger),
            Piece::Rook => self.generate_sliding_attacks(tile, true, false, king_danger),
            Piece::Queen => self.generate_sliding_attacks(tile, true, true, king_danger),
            Piece::King => tile.king_attacks(),
        }
    }

    /// The attacks of whatever piece stands on `tile`; empty when the
    /// square is empty.
    pub fn generate_attacks_from(&self, tile: Tile) -> (r: Bitboard)
        requires
            self.wf(),
            tile.wf(),
        ensures
            self.piece_color_at(tile) matches Some((p, c)) ==> forall|j: Tile|
                j.wf() ==> (#[trigger] bit64(r.0, j.0 as u64) <==> self.piece_attacks_has(
                    tile,
                    p,
                    c,
                    None,
                    j,
                )),
            self.piece_color_at(tile) is None ==> r.0 == 0,
            forall|i: u64| bit64(r.0, i) ==> i < 64,
    {
        match self.get_piece_at_tile(tile) {
            Some((piece, white)) => self.generate_attacks_from_piece(tile, piece, white, None),
            None => Bitboard(0),
        }
    }

    /// Every square the side of colour `white` attacks, under the
    /// occupancy chosen by `king_danger`.
    fn generate_side_attacks(&self, white: bool, king_danger: Option<bool>) -> (r: Bitboard)
        requires
            self.wf(),
        ensures
            forall|j: Tile|
                j.wf() ==> (#[trigger] bit64(r.0, j.0 as u64) <==> self.side_attacks_has(
                    white,
                    king_danger,
                    j,
                )),
            forall|i: u64| bit64(r.0, i) ==> i < 64,
    {
        let player = if white {
            &self.white
        } else {
            &self.black
        };
        let ghost orig: u64 = player.pieces.0;
        let mut it = player.pieces.iter();
        let mut attacks = Bitboard(0);
        loop
            invariant
                self.wf(),
                forall|k: u64| #[trigger] bit64(it.0, k) ==> bit64(orig, k),
                orig == self.player_of(white).pieces.0,
                forall|j: Tile|
                    j.wf() ==> (#[trigger] bit64(attacks.0, j.0 as u64) <==> exists|t: Tile|
                        #![auto]
                        t.wf() && bit64(orig, t.0 as u64) && !bit64(it.0, t.0 as u64) && (
                        self.player_of(white).piece_at(t) matches Some(p)
                            && self.piece_attacks_has(t, p, white, king_danger, j))),
                forall|i: u64| bit64(attacks.0, i) ==> i < 64,
            ensures
                it.0 == 0,
                forall|j: Tile|
                    j.wf() ==> (#[trigger] bit64(attacks.0, j.0 as u64)
                        <==> self.side_attacks_has(white, king_danger, j)),
                forall|i: u64| bit64(attacks.0, i) ==> i < 64,
            decreases popcnt64(it.0),
        {
            let ghost prev = it.0;
            let next = it.next();
            match next {
                None => {
                    proof {
                        assert forall|j: Tile| j.wf() implies (#[trigger] bit64(
                            attacks.0,
                            j.0 as u64,
                        ) <==> self.side_attacks_has(white, king_danger, j)) by {
                            if self.side_attacks_has(white, king_danger, j) {
                                let t = choose|t: Tile|
                                    #![auto]
                                    t.wf() && bit64(
                                        self.player_of(white).pieces.0,
                                        t.0 as u64,
                                    ) && (self.player_of(white).piece_at(t) matches Some(p)
                                        && self.piece_attacks_has(t, p, white, king_danger, j));
                                assert(!bit64(it.0, t.0 as u64));
                            }
                        }
                    }
                    break ;
                },
                Some(tile) => {
                    proof {
                        crate::bits::lemma_pop_below_except(it.0, prev, tile.0 as u64, 64);
                        let k = tile.0 as u64;
                        assert(bit64(self.player_of(white).pieces.0, k));
                        assert(self.player_of(white).some_kind_has(k));
                    }
                    let got = self.get_piece_at_tile(tile);
                    let (piece, is_white) = got.unwrap();
                    proof {
                        let k = tile.0 as u64;
                        if white {
                            if bit64(self.black.pieces.0, k) {
                                assert(false);
                            }
                        } else {
                            if bit64(self.white.pieces.0, k) {
                                assert(false);
                            }
                        }
                        assert(is_white == white);
                        assert(self.player_of(white).piece_at(tile) == Some(piece));
                    }
                    let a = self.generate_attacks_from_piece(tile, piece, is_white, king_danger);
                    let ghost old_attacks = attacks.0;
                    attacks = Bitboard(attacks.0 | a.0);
                    proof {
                        assert forall|j: Tile| j.wf() implies (#[trigger] bit64(
                            attacks.0,
                            j.0 as u64,
                        ) <==> exists|t: Tile|
                            #![auto]
                            t.wf() && bit64(orig, t.0 as u64) && !bit64(it.0, t.0 as u64) && (
                            self.player_of(white).piece_at(t) matches Some(p)
                                && self.piece_attacks_has(t, p, white, king_danger, j))) by {
                            if bit64(attacks.0, j.0 as u64) {
                                if bit64(old_attacks, j.0 as u64) {
                                    let t = choose|t: Tile|
                                        #![auto]
                                        t.wf() && bit64(orig, t.0 as u64) && !bit64(
                                            prev,
                                            t.0 as u64,
                                        ) && (self.player_of(white).piece_at(t) matches Some(p)
                                            && self.piece_attacks_has(t, p, white, king_danger, j));
                                    assert(!bit64(it.0, t.0 as u64));
                                } else {
                                    assert(bit64(a.0, j.0 as u64));
                                    assert(!bit64(it.0, tile.0 as u64));
                                }
                            }
                        }
                    }
                },
            }
        }
        attacks
    }

    /// Every square the side of colour `white` attacks.
    pub fn generate_attacks(&self, white: bool) -> (r: Bitboard)
        requires
            self.wf(),
        ensures
            forall|j: Tile|
                j.wf() ==> (#[trigger] bit64(r.0, j.0 as u64) <==> self.side_attacks_has(
                    white,
                    None,
                    j,
                )),
            forall|i: u64| bit64(r.0, i) ==> i < 64,
    {
        self.generate_side_attacks(white, None)
    }

    /// Every square the side of colour `white` attacks when the other
    /// side's king does not block rays: the squares that king may not
    /// step to.
    pub fn generate_king_danger(&self, white: bool) -> (r: Bitboard)
        requires
            self.wf(),
        ensures
            forall|j: Tile|
                j.wf() ==> (#[trigger] bit64(r.0, j.0 as u64) <==> self.side_attacks_has(
                    white,
                    Some(white),
                    j,
                )),
            forall|i: u64| bit64(r.0, i) ==> i < 64,
    {
        self.generate_side_attacks(white, Some(white))
    }
}

} // verus!
