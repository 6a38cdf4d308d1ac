//! Make and unmake: applying a move relocates bits, updates flags and
//! counters and pushes the histories; undoing the most recent move
//! restores every field exactly from the snapshot the move carries.

use vstd::prelude::*;
use crate::bits::bit64;
use crate::board::Board;
use crate::castling::CastlingRights;
use crate::moves::Move;
use crate::piece::Piece;
use crate::player::{Player, spec_removed, spec_placed};
use crate::tile::Tile;
use crate::zobrist::spec_zobrist;
use crate::move_list::MoveList;

verus! {

broadcast use crate::bits::group_bit_lemmas, vstd::array::group_array_axioms, vstd::set::group_set_axioms, vstd::seq_lib::seq_to_set_is_finite;

/// The move captures en passant: a pawn lands on the stored target.
pub open spec fn is_ep_capture(m: Move) -> bool {
    m.piece == Piece::Pawn && m.en_passant == Some(m.to) && m.capture is Some
}

/// The square one step behind `t` from the mover's point of view: where
/// an en-passant victim stands.
pub open spec fn back_of(t: Tile, w: bool) -> Tile {
    t.spec_offset(
        0,
        if w {
            -1int
        } else {
            1
        },
    )->Some_0
}

/// Where the captured piece stands: behind the target for en passant, on
/// it otherwise.
pub open spec fn cap_tile(m: Move, w: bool) -> Tile {
    if is_ep_capture(m) {
        back_of(m.to, w)
    } else {
        m.to
    }
}

/// The castling right a rook standing on `t` guards.
pub open spec fn rook_right_of(t: Tile) -> u8 {
    if t.0 == 0 {
        2u8
    } else if t.0 == 7 {
        1u8
    } else if t.0 == 56 {
        8u8
    } else if t.0 == 63 {
        4u8
    } else {
        0u8
    }
}

/// Both castling rights of one side.
pub open spec fn side_rights(w: bool) -> u8 {
    if w {
        3u8
    } else {
        12u8
    }
}

/// The rook relocation a castling king move brings with it.
pub open spec fn castle_rook_move(w: bool, from: Tile, to: Tile) -> Option<(Tile, Tile)> {
    if w && from.0 == 4 && to.0 == 6 {
        Some((Tile(7), Tile(5)))
    } else if w && from.0 == 4 && to.0 == 2 {
        Some((Tile(0), Tile(3)))
    } else if !w && from.0 == 60 && to.0 == 62 {
        Some((Tile(63), Tile(61)))
    } else if !w && from.0 == 60 && to.0 == 58 {
        Some((Tile(56), Tile(59)))
    } else {
        None
    }
}

/// The move is a pawn double push: same file, two ranks at once.
pub open spec fn is_double_push(m: Move) -> bool {
    &&& m.piece == Piece::Pawn
    &&& m.from.spec_file() == m.to.spec_file()
    &&& (m.from.spec_rank() + 2 == m.to.spec_rank() || m.to.spec_rank() + 2 == m.from.spec_rank())
}

/// The move can be applied to the position and carries the position's
/// prior state, as every move built by `create_move` from a generation
/// pass does: the mover's piece stands on the source, the destination
/// and the capture field agree with the board, castling and promotion
/// data are consistent, and the snapshot fields match the position.
pub open spec fn move_fits(b: Board, m: Move) -> bool {
    let w = b.white_turn;
    let mover = b.player_of(w);
    let opp = b.player_of(!w);
    &&& m.from.wf()
    &&& m.to.wf()
    &&& m.from != m.to
    &&& mover.piece_at(m.from) == Some(m.piece)
    &&& match m.capture {
        Some(p) => if is_ep_capture(m) {
            &&& p == Piece::Pawn
            &&& m.to.spec_offset(
                0,
                if w {
                    -1int
                } else {
                    1
                },
            ) is Some
            &&& back_of(m.to, w) != m.from
            &&& opp.piece_at(back_of(m.to, w)) == Some(Piece::Pawn)
            &&& b.piece_color_at(m.to) is None
        } else {
            opp.piece_at(m.to) == Some(p)
        },
        None => b.piece_color_at(m.to) is None,
    }
    &&& mover.piece_at(m.to) is None
    &&& (m.promoted_to is Some ==> m.piece == Piece::Pawn)
    &&& (m.piece == Piece::King && castle_rook_move(w, m.from, m.to) is Some ==> {
        let (rf, rt) = castle_rook_move(w, m.from, m.to)->Some_0;
        &&& mover.piece_at(rf) == Some(Piece::Rook)
        &&& b.piece_color_at(rt) is None
        &&& m.capture is None
    })
    &&& (is_double_push(m) ==> m.to.spec_offset(
        0,
        if w {
            -1int
        } else {
            1
        },
    ) is Some)
    &&& m.en_passant == b.en_passant
    &&& m.prev_castle == b.castling
    &&& m.prev_half_moves == b.half_moves
    &&& m.white_cache == b.white_cache
    &&& m.black_cache == b.black_cache
    &&& b.half_moves < 255
    &&& b.full_move < 0xFFFF_FFFFu32
}

/// The mover's side after the move: the piece relocated, a promotion
/// exchanged on the destination, a castling rook brought across.
pub open spec fn applied_mover(b: Board, m: Move) -> Player {
    let w = b.white_turn;
    let moved = spec_placed(spec_removed(b.player_of(w), m.piece, m.from), m.piece, m.to);
    let promoted = match m.promoted_to {
        Some(pp) => spec_placed(spec_removed(moved, m.piece, m.to), pp, m.to),
        None => moved,
    };
    if m.piece == Piece::King && castle_rook_move(w, m.from, m.to) is Some {
        let (rf, rt) = castle_rook_move(w, m.from, m.to)->Some_0;
        spec_placed(spec_removed(promoted, Piece::Rook, rf), Piece::Rook, rt)
    } else {
        promoted
    }
}

/// The opponent's side after the move: the captured piece, if any, taken
/// off the capture square.
pub open spec fn applied_opp(b: Board, m: Move) -> Player {
    match m.capture {
        Some(p) => spec_removed(b.player_of(!b.white_turn), p, cap_tile(m, b.white_turn)),
        None => b.player_of(!b.white_turn),
    }
}

/// The castling rights after the move: a captured rook, a king move or a
/// rook move each strike the rights they end.
pub open spec fn applied_castling(b: Board, m: Move) -> u8 {
    let c1 = if m.capture == Some(Piece::Rook) {
        b.castling.0 & !rook_right_of(m.to)
    } else {
        b.castling.0
    };
    let c2 = if m.piece == Piece::King {
        c1 & !side_rights(b.white_turn)
    } else {
        c1
    };
    if m.piece == Piece::Rook {
        c2 & !rook_right_of(m.from)
    } else {
        c2
    }
}

/// The en-passant target after the move: set behind a double push,
/// cleared otherwise.
pub open spec fn applied_ep(b: Board, m: Move) -> Option<Tile> {
    if is_double_push(m) {
        Some(back_of(m.to, b.white_turn))
    } else {
        None
    }
}

/// The half-move clock after the move: reset by a pawn move or capture,
/// incremented otherwise.
pub open spec fn applied_half(b: Board, m: Move) -> u8 {
    if m.piece == Piece::Pawn || m.capture is Some {
        0u8
    } else {
        (b.half_moves + 1) as u8
    }
}

/// The full-move number after the move: up by one after black's move.
pub open spec fn applied_full(b: Board, m: Move) -> u32 {
    if b.white_turn {
        b.full_move
    } else {
        (b.full_move + 1) as u32
    }
}

/// The position after the move, as a value: the applied sides, rights,
/// target and clocks with the turn flipped and the memo slots cleared.
/// The histories are left as they were; nothing that reads this value
/// looks at them.
pub open spec fn applied_pos(b: Board, m: Move) -> Board {
    Board {
        white: if b.white_turn {
            applied_mover(b, m)
        } else {
            applied_opp(b, m)
        },
        black: if b.white_turn {
            applied_opp(b, m)
        } else {
            applied_mover(b, m)
        },
        castling: CastlingRights(applied_castling(b, m)),
        white_turn: !b.white_turn,
        en_passant: applied_ep(b, m),
        half_moves: applied_half(b, m),
        full_move: applied_full(b, m),
        white_cache: None,
        black_cache: None,
        ..b
    }
}

/// `a` is `b` with the move `m` applied, field by field.
pub open spec fn is_applied(b: Board, m: Move, a: Board) -> bool {
    &&& a.white == (if b.white_turn {
        applied_mover(b, m)
    } else {
        applied_opp(b, m)
    })
    &&& a.black == (if b.white_turn {
        applied_opp(b, m)
    } else {
        applied_mover(b, m)
    })
    &&& a.castling.0 == applied_castling(b, m)
    &&& a.white_turn == !b.white_turn
    &&& a.en_passant == applied_ep(b, m)
    &&& a.half_moves == applied_half(b, m)
    &&& a.full_move == applied_full(b, m)
    &&& a.history@.len() == b.history@.len() + 1
    &&& a.history@.drop_last() == b.history@
    &&& a.history@.last().0 == m
    &&& a.repetition_history@ == b.repetition_history@.push(spec_zobrist(a))
    &&& a.white_cache is None
    &&& a.black_cache is None
}

impl Board {
    /// Take a piece of the given kind and colour off a square.
    fn side_remove_type(&mut self, w: bool, p: Piece, t: Tile)
        requires
            old(self).wf(),
            t.wf(),
            old(self).player_of(w).piece_at(t) == Some(p),
        ensures
            final(self).wf(),
            final(self).player_of(w) == spec_removed(old(self).player_of(w), p, t),
            final(self).player_of(!w) == old(self).player_of(!w),
            scalars_eq(*final(self), *old(self)),
    {
        if w {
            let r = self.white.remove_piece_type(p, t);
            proof {
                assert(self.white =~= spec_removed(old(self).white, p, t));
            }
        } else {
            let r = self.black.remove_piece_type(p, t);
            proof {
                assert(self.black =~= spec_removed(old(self).black, p, t));
            }
        }
        proof {
            let k = t.0 as u64;
            assert forall|i: u64| !(#[trigger] bit64(self.white.pieces.0, i) && #[trigger] bit64(
                self.black.pieces.0,
                i,
            )) by {
                if bit64(self.white.pieces.0, i) && bit64(self.black.pieces.0, i) {
                    assert(bit64(old(self).white.pieces.0, i) && bit64(
                        old(self).black.pieces.0,
                        i,
                    ));
                }
            }
        }
    }

    /// Put a piece of the given kind and colour on a wholly free square.
    fn side_place(&mut self, w: bool, p: Piece, t: Tile)
        requires
            old(self).wf(),
            t.wf(),
            !bit64(old(self).white.pieces.0, t.0 as u64),
            !bit64(old(self).black.pieces.0, t.0 as u64),
        ensures
            final(self).wf(),
            final(self).player_of(w) == spec_placed(old(self).player_of(w), p, t),
            final(self).player_of(!w) == old(self).player_of(!w),
            scalars_eq(*final(self), *old(self)),
    {
        if w {
            self.white.place_piece(p, t);
            proof {
                assert(self.white =~= spec_placed(old(self).white, p, t));
            }
        } else {
            self.black.place_piece(p, t);
            proof {
                assert(self.black =~= spec_placed(old(self).black, p, t));
            }
        }
        proof {
            assert forall|i: u64| !(#[trigger] bit64(self.white.pieces.0, i) && #[trigger] bit64(
                self.black.pieces.0,
                i,
            )) by {
                if bit64(self.white.pieces.0, i) && bit64(self.black.pieces.0, i) {
                    crate::bits::lemma_bit_single(t.0 as u64, i);
                    assert(!(bit64(old(self).white.pieces.0, i) && bit64(
                        old(self).black.pieces.0,
                        i,
                    )));
                }
            }
        }
    }

    /// Move the piece of the given kind from one square to a wholly free
    /// square of the same colour's side.
    fn side_move(&mut self, w: bool, p: Piece, from: Tile, to: Tile)
        requires
            old(self).wf(),
            from.wf(),
            to.wf(),
            from != to,
            old(self).player_of(w).piece_at(from) == Some(p),
            old(self).piece_color_at(to) is None,
        ensures
            final(self).wf(),
            final(self).player_of(w) == spec_placed(
                spec_removed(old(self).player_of(w), p, from),
                p,
                to,
            ),
            final(self).player_of(!w) == old(self).player_of(!w),
            scalars_eq(*final(self), *old(self)),
    {
        proof {
            let k = to.0 as u64;
            if bit64(old(self).white.pieces.0, k) {
                assert(old(self).white.some_kind_has(k));
                let j = choose|j: int| 0 <= j < 6 && bit64(old(self).white.bb[j].0, k);
                assert(old(self).white.piece_at(to) is Some);
            }
            if bit64(old(self).black.pieces.0, k) {
                assert(old(self).black.some_kind_has(k));
                let j = choose|j: int| 0 <= j < 6 && bit64(old(self).black.bb[j].0, k);
                assert(old(self).black.piece_at(to) is Some);
            }
        }
        self.side_remove_type(w, p, from);
        self.side_place(w, p, to);
    }
}


/// What `undo_move` needs of a position so the most recent move reverses
/// exactly: the moved (or promoted) piece stands on the destination, the
/// source is free, the snapshot fields are in range, and the capture and
/// castling squares are as the move left them.
pub open spec fn undo_fits(a: Board) -> bool {
    a.history@.len() > 0 ==> {
        let m = a.history@.last().0;
        let w = !a.white_turn;
        let mover = a.player_of(w);
        let opp = a.player_of(!w);
        &&& m.from.wf()
        &&& m.to.wf()
        &&& m.from != m.to
        &&& (match m.promoted_to {
            Some(pp) => mover.piece_at(m.to) == Some(pp),
            None => mover.piece_at(m.to) == Some(m.piece),
        })
        &&& a.piece_color_at(m.from) is None
        &&& (m.promoted_to is Some ==> m.piece == Piece::Pawn)
        &&& (is_ep_capture(m) ==> {
            &&& m.capture == Some(Piece::Pawn)
            &&& m.to.spec_offset(
                0,
                if w {
                    -1int
                } else {
                    1
                },
            ) is Some
            &&& back_of(m.to, w) != m.from
            &&& back_of(m.to, w) != m.to
            &&& a.piece_color_at(back_of(m.to, w)) is None
        })
        &&& (m.piece == Piece::King && castle_rook_move(w, m.from, m.to) is Some ==> {
            let (rf, rt) = castle_rook_move(w, m.from, m.to)->Some_0;
            &&& mover.piece_at(rt) == Some(Piece::Rook)
            &&& a.piece_color_at(rf) is None
            &&& m.capture is None
        })
        &&& (!w ==> a.full_move >= 1)
        &&& m.prev_castle.0 < 16
        &&& (m.en_passant matches Some(t) ==> t.wf())
    }
}

/// The mover's side with its last move taken back: the castling rook
/// returned, a promotion exchanged back to a pawn, the piece moved home.
pub open spec fn undone_mover(a: Board) -> Player {
    let m = a.history@.last().0;
    let w = !a.white_turn;
    let mover = a.player_of(w);
    let unrooked = if m.piece == Piece::King && castle_rook_move(w, m.from, m.to) is Some {
        let (rf, rt) = castle_rook_move(w, m.from, m.to)->Some_0;
        spec_placed(spec_removed(mover, Piece::Rook, rt), Piece::Rook, rf)
    } else {
        mover
    };
    let unpromoted = match m.promoted_to {
        Some(pp) => spec_placed(spec_removed(unrooked, pp, m.to), m.piece, m.to),
        None => unrooked,
    };
    spec_placed(spec_removed(unpromoted, m.piece, m.to), m.piece, m.from)
}

/// The opponent's side with the captured piece put back.
pub open spec fn undone_opp(a: Board) -> Player {
    let m = a.history@.last().0;
    let w = !a.white_turn;
    let opp = a.player_of(!w);
    match m.capture {
        Some(p) => spec_placed(opp, p, cap_tile(m, w)),
        None => opp,
    }
}

/// `u` is `a` with its most recent move taken back, field by field; with
/// no move to take back, `u` is `a` itself.
pub open spec fn is_undone(a: Board, u: Board) -> bool {
    if a.history@.len() == 0 {
        u == a
    } else {
        let m = a.history@.last().0;
        let w = !a.white_turn;
        &&& u.white == (if w {
            undone_mover(a)
        } else {
            undone_opp(a)
        })
        &&& u.black == (if w {
            undone_opp(a)
        } else {
            undone_mover(a)
        })
        &&& u.castling == m.prev_castle
        &&& u.en_passant == m.en_passant
        &&& u.white_cache == m.white_cache
        &&& u.black_cache == m.black_cache
        &&& u.half_moves == m.prev_half_moves
        &&& u.full_move == (if w {
            a.full_move
        } else {
            (a.full_move - 1) as u32
        })
        &&& u.history@ == a.history@.drop_last()
        &&& u.repetition_history@ == (if a.repetition_history@.len() > 0 {
            a.repetition_history@.drop_last()
        } else {
            a.repetition_history@
        })
        &&& u.white_turn == !a.white_turn
    }
}

/// The boards agree on everything legality reads: the sides, rights,
/// turn, target, clocks and memo slots; the histories may differ.
pub open spec fn core_eq(a: Board, b: Board) -> bool {
    &&& a.white == b.white
    &&& a.black == b.black
    &&& a.castling == b.castling
    &&& a.white_turn == b.white_turn
    &&& a.en_passant == b.en_passant
    &&& a.half_moves == b.half_moves
    &&& a.full_move == b.full_move
    &&& a.white_cache == b.white_cache
    &&& a.black_cache == b.black_cache
}

/// Every field but the two sides agrees between the boards.
pub open spec fn scalars_eq(a: Board, b: Board) -> bool {
    &&& a.castling == b.castling
    &&& a.white_turn == b.white_turn
    &&& a.en_passant == b.en_passant
    &&& a.history@ == b.history@
    &&& a.repetition_history@ == b.repetition_history@
    &&& a.half_moves == b.half_moves
    &&& a.full_move == b.full_move
    &&& a.white_cache == b.white_cache
    &&& a.black_cache == b.black_cache
}


impl Board {
    /// Which castling right a rook on the square guards.
    fn rook_right_for(t: Tile) -> (r: u8)
        ensures
            r == rook_right_of(t),
    {
        if t.0 == 0 {
            2
        } else if t.0 == 7 {
            1
        } else if t.0 == 56 {
            8
        } else if t.0 == 63 {
            4
        } else {
            0
        }
    }

    /// The state transition of one move, notation aside: relocate the
    /// piece, take a captured piece off, bring a castling rook across,
    /// exchange a promotion, update rights, clocks and the en-passant
    /// target, flip the turn and push the move (with an empty notation
    /// slot) and the new position hash.  The enumeration and legality
    /// paths use this directly; `make_move_unchecked` adds the notation.
    #[verifier::rlimit(100)]
    pub(crate) fn apply_core(&mut self, mov: Move)
        requires
            old(self).wf(),
            move_fits(*old(self), mov),
        ensures
            final(self).wf(),
            is_applied(*old(self), mov, *final(self)),
            final(self).history@.last().1@ == Seq::<char>::empty(),
    {
        let ghost b0 = *old(self);
        let w = self.white_turn;
        if !w {
            self.full_move = self.full_move + 1;
        }
        self.half_moves = self.half_moves + 1;
        if let Piece::Pawn = mov.piece {
            self.half_moves = 0;
        }
        if let Some(p) = mov.capture {
            self.half_moves = 0;
            let ep_cap = match mov.en_passant {
                Some(e) => {
                    let is_pawn = if let Piece::Pawn = mov.piece {
                        true
                    } else {
                        false
                    };
                    is_pawn && e.0 == mov.to.0
                },
                None => false,
            };
            proof {
                assert(ep_cap == is_ep_capture(mov));
            }
            let target = if ep_cap {
                mov.to.backward(w).unwrap()
            } else {
                mov.to
            };
            proof {
                assert(target == cap_tile(mov, w));
                assert(self.player_of(!w).piece_at(target) == Some(p));
            }
            self.side_remove_type(!w, p, target);
            if let Piece::Rook = p {
                let r = Board::rook_right_for(mov.to);
                let mut c = self.castling;
                proof {
                    crate::bits::lemma_u8_and_bound(c.0, !r);
                }
                c.remove(CastlingRights::new(r));
                self.castling = c;
            }
        }
        proof {
            assert(self.player_of(w).piece_at(mov.from) == Some(mov.piece));
            let k = mov.to.0 as u64;
            assert(self.piece_color_at(mov.to) is None) by {
                if self.white.piece_at(mov.to) is Some {
                    assert(self.white.some_kind_has(k));
                    assert(bit64(self.white.pieces.0, k));
                }
                if self.black.piece_at(mov.to) is Some {
                    assert(self.black.some_kind_has(k));
                    assert(bit64(self.black.pieces.0, k));
                }
            }
        }
        self.side_move(w, mov.piece, mov.from, mov.to);
        self.en_passant = None;
        if let Some(pp) = mov.promoted_to {
            proof {
                assert(self.player_of(w).piece_at(mov.to) == Some(mov.piece));
            }
            self.side_remove_type(w, mov.piece, mov.to);
            proof {
                let k = mov.to.0 as u64;
                crate::bits::lemma_bit_single(mov.to.0 as u64, k);
                assert(!bit64(self.player_of(w).pieces.0, k));
                if bit64(self.player_of(!w).pieces.0, k) {
                    assert(bit64(self.white.pieces.0, k) && bit64(self.black.pieces.0, k));
                    assert(false);
                }
                assert(!bit64(self.white.pieces.0, k) && !bit64(self.black.pieces.0, k));
            }
            self.side_place(w, pp, mov.to);
        }
        if let Piece::King = mov.piece {
            let mut c = self.castling;
            proof {
                crate::bits::lemma_u8_and_bound(c.0, !(if w {
                    3u8
                } else {
                    12u8
                }));
            }
            c.remove(CastlingRights::new(if w {
                3
            } else {
                12
            }));
            self.castling = c;
            let is_castle = if w {
                mov.from.0 == 4 && (mov.to.0 == 6 || mov.to.0 == 2)
            } else {
                mov.from.0 == 60 && (mov.to.0 == 62 || mov.to.0 == 58)
            };
            if is_castle {
                let (rf, rt): (Tile, Tile) = if w && mov.to.0 == 6 {
                    (Tile(7), Tile(5))
                } else if w {
                    (Tile(0), Tile(3))
                } else if mov.to.0 == 62 {
                    (Tile(63), Tile(61))
                } else {
                    (Tile(56), Tile(59))
                };
                proof {
                    assert(castle_rook_move(w, mov.from, mov.to) == Some((rf, rt)));
                    assert(self.player_of(w).piece_at(rf) == Some(Piece::Rook));
                    assert(self.piece_color_at(rt) is None);
                }
                self.side_move(w, Piece::Rook, rf, rt);
            }
        }
        if let Piece::Rook = mov.piece {
            let r = Board::rook_right_for(mov.from);
            let mut c = self.castling;
            proof {
                crate::bits::lemma_u8_and_bound(c.0, !r);
            }
            c.remove(CastlingRights::new(r));
            self.castling = c;
        }
        let (ff, fr) = mov.from.get_coords();
        let (tf, tr) = mov.to.get_coords();
        let is_pawn = if let Piece::Pawn = mov.piece {
            true
        } else {
            false
        };
        if is_pawn && ff == tf && (fr as i8 - tr as i8 == 2 || tr as i8 - fr as i8 == 2) {
            proof {
                assert(is_double_push(mov));
            }
            self.en_passant = Some(mov.to.backward(w).unwrap());
        } else {
            proof {
                assert(!is_double_push(mov));
            }
        }
        self.history.push((mov, String::new()));
        self.white_turn = !w;
        self.white_cache = None;
        self.black_cache = None;
        let h = self.to_zobrist_hash();
        let ghost at_hash = *self;
        self.repetition_history.push(h);
        proof {
            crate::zobrist::lemma_zobrist_congr(at_hash, *self);
            assert(self.white == (if b0.white_turn {
                applied_mover(b0, mov)
            } else {
                applied_opp(b0, mov)
            }));
            assert(self.black == (if b0.white_turn {
                applied_opp(b0, mov)
            } else {
                applied_mover(b0, mov)
            }));
            assert(self.castling.0 == applied_castling(b0, mov));
            assert(self.en_passant == applied_ep(b0, mov));
            assert(self.half_moves == applied_half(b0, mov));
            assert(self.full_move == applied_full(b0, mov));
            assert(self.history@.drop_last() =~= b0.history@);
            assert(self.history@.last().0 == mov);
            assert(self.repetition_history@ == b0.repetition_history@.push(spec_zobrist(*self)));
        }
    }

    /// Take back the most recent move, restoring every field from the
    /// snapshot it carries; with no move played, do nothing.
    #[verifier::rlimit(100)]
    pub fn undo_move(&mut self)
        requires
            old(self).wf(),
            undo_fits(*old(self)),
        ensures
            final(self).wf(),
            is_undone(*old(self), *final(self)),
    {
        let ghost a0 = *old(self);
        if self.history.len() == 0 {
            return ;
        }
        let (last_move, _) = self.history.pop().unwrap();
        proof {
            assert(last_move == a0.history@.last().0);
        }
        let w = !self.white_turn;
        if !w {
            self.full_move = self.full_move - 1;
        }
        let is_king = if let Piece::King = last_move.piece {
            true
        } else {
            false
        };
        if is_king {
            let is_castle = if w {
                last_move.from.0 == 4 && (last_move.to.0 == 6 || last_move.to.0 == 2)
            } else {
                last_move.from.0 == 60 && (last_move.to.0 == 62 || last_move.to.0 == 58)
            };
            if is_castle {
                let (rf, rt): (Tile, Tile) = if w && last_move.to.0 == 6 {
                    (Tile(7), Tile(5))
                } else if w {
                    (Tile(0), Tile(3))
                } else if last_move.to.0 == 62 {
                    (Tile(63), Tile(61))
                } else {
                    (Tile(56), Tile(59))
                };
                proof {
                    assert(castle_rook_move(w, last_move.from, last_move.to) == Some((rf, rt)));
                    assert(self.player_of(w).piece_at(rt) == Some(Piece::Rook));
                    assert(self.piece_color_at(rf) is None);
                }
                self.side_move(w, Piece::Rook, rt, rf);
            }
        }
        if let Some(pp) = last_move.promoted_to {
            proof {
                assert(self.player_of(w).piece_at(last_move.to) == Some(pp));
            }
            self.side_remove_type(w, pp, last_move.to);
            proof {
                let k = last_move.to.0 as u64;
                crate::bits::lemma_bit_single(last_move.to.0 as u64, k);
                assert(!bit64(self.player_of(w).pieces.0, k));
                if bit64(self.player_of(!w).pieces.0, k) {
                    crate::player::lemma_piece_at_some(a0.player_of(w), last_move.to);
                    assert(bit64(self.white.pieces.0, k) && bit64(self.black.pieces.0, k));
                    assert(false);
                }
                assert(!bit64(self.white.pieces.0, k) && !bit64(self.black.pieces.0, k));
            }
            self.side_place(w, Piece::Pawn, last_move.to);
        }
        proof {
            assert(self.player_of(w).piece_at(last_move.to) == Some(last_move.piece));
            assert(self.piece_color_at(last_move.from) is None);
        }
        self.side_move(w, last_move.piece, last_move.to, last_move.from);
        if let Some(p) = last_move.capture {
            let ep_cap = match last_move.en_passant {
                Some(e) => {
                    let is_pawn = if let Piece::Pawn = last_move.piece {
                        true
                    } else {
                        false
                    };
                    is_pawn && e.0 == last_move.to.0
                },
                None => false,
            };
            proof {
                assert(ep_cap == is_ep_capture(last_move));
            }
            let target = if ep_cap {
                last_move.to.backward(w).unwrap()
            } else {
                last_move.to
            };
            proof {
                assert(target == cap_tile(last_move, w));
                let k = target.0 as u64;
                if ep_cap {
                    crate::player::lemma_piece_at_none(a0.white, target);
                    crate::player::lemma_piece_at_none(a0.black, target);
                } else {
                    crate::player::lemma_piece_at_some(a0.player_of(w), last_move.to);
                    if bit64(a0.player_of(!w).pieces.0, k) {
                        assert(bit64(a0.white.pieces.0, k) && bit64(a0.black.pieces.0, k));
                        assert(false);
                    }
                }
                assert(!bit64(self.player_of(w).pieces.0, k));
                assert(!bit64(self.player_of(!w).pieces.0, k));
                assert(!bit64(self.white.pieces.0, k) && !bit64(self.black.pieces.0, k));
            }
            self.side_place(!w, p, target);
        }
        self.castling = last_move.prev_castle;
        self.en_passant = last_move.en_passant;
        self.white_cache = last_move.white_cache;
        self.black_cache = last_move.black_cache;
        self.half_moves = last_move.prev_half_moves;
        self.repetition_history.pop();
        self.white_turn = w;
        proof {
            assert(self.white == (if w {
                undone_mover(a0)
            } else {
                undone_opp(a0)
            }));
            assert(self.black == (if w {
                undone_opp(a0)
            } else {
                undone_mover(a0)
            }));
        }
    }
}


impl Board {
    /// Exhaustive enumeration: the number of positions reachable in
    /// exactly `depth` plies of legal moves, counted by applying each
    /// move, descending, and undoing it.  The position is left exactly
    /// as it was found.  The count saturates instead of overflowing.
    pub fn positions(&mut self, depth: usize) -> (r: u64)
        requires
            old(self).wf(),
            old(self).kings_ok(),
            old(self).half_moves + depth <= 255,
            old(self).full_move + depth < 0xFFFF_FFFFu32,
        ensures
            final(self).wf(),
            core_eq(*final(self), *old(self)),
            final(self).history@ == old(self).history@,
            final(self).repetition_history@ == old(self).repetition_history@,
            perft_count(*old(self), depth as nat) <= 0xFFFF_FFFF_FFFF_FFFFnat ==> r == perft_count(
                *old(self),
                depth as nat,
            ),
            perft_count(*old(self), depth as nat) > 0xFFFF_FFFF_FFFF_FFFFnat ==> r
                == 0xFFFF_FFFF_FFFF_FFFFu64,
        decreases depth,
    {
        let ghost b0 = *old(self);
        if depth == 0 {
            return 1;
        }
        let w = self.white_turn;
        let mut moves = crate::move_list::MoveList::new();
        self.generate_legal_moves(w, &mut moves);
        let mut total: u64 = 0;
        let n = moves.len();
        let mut i: usize = 0;
        while i < n
            invariant
                self.wf(),
                self.kings_ok(),
                core_eq(*self, b0),
                self.history@ == b0.history@,
                self.repetition_history@ == b0.repetition_history@,
                b0.half_moves + depth <= 255,
                b0.full_move + depth < 0xFFFF_FFFFu32,
                depth >= 1,
                w == b0.white_turn,
                n == moves@.len(),
                i <= n,
                forall|m: crate::moves::Move|
                    #[trigger] moves@.contains(m) <==> crate::board::movegen::legal_move(b0, w, m),
                forall|a: int, b: int| 0 <= a < b < n ==> moves@[a] != moves@[b],
                perft_sum(
                    b0,
                    (depth - 1) as nat,
                    moves@.subrange(0, i as int).to_set(),
                ) <= 0xFFFF_FFFF_FFFF_FFFFnat ==> total == perft_sum(
                    b0,
                    (depth - 1) as nat,
                    moves@.subrange(0, i as int).to_set(),
                ),
                perft_sum(
                    b0,
                    (depth - 1) as nat,
                    moves@.subrange(0, i as int).to_set(),
                ) > 0xFFFF_FFFF_FFFF_FFFFnat ==> total == 0xFFFF_FFFF_FFFF_FFFFu64,
            decreases n - i,
        {
            let m = moves.get(i);
            let ghost pre = *self;
            proof {
                assert(moves@.contains(m));
                crate::board::movegen::lemma_legal_congr(b0, pre, w, m);
                assert(crate::board::movegen::legal_move(pre, w, m));
                assert(crate::board::movegen::with_turn(pre, w) == pre);
                crate::board::movegen::lemma_pseudo_fits(pre, m.from, m);
            }
            self.apply_core(m);
            let ghost ap = *self;
            proof {
                crate::board::laws::lemma_applied_undo_fits(pre, m, ap);
                crate::board::movegen::lemma_applied_one_king(pre, m);
                assert(ap.kings_ok()) by {
                    if w {
                        assert(ap.white == applied_mover(pre, m));
                        assert(ap.black.bb[5].0 == pre.black.bb[5].0);
                    } else {
                        assert(ap.black == applied_mover(pre, m));
                        assert(ap.white.bb[5].0 == pre.white.bb[5].0);
                    }
                }
            }
            let c = if depth == 1 {
                1
            } else {
                self.positions(depth - 1)
            };
            proof {
                assert(undo_fits(*self)) by {
                    assert(self.history@ == ap.history@);
                    assert(self.history@.last().0 == m);
                    assert(core_eq(*self, ap));
                }
            }
            self.undo_move();
            proof {
                assert(is_undone(ap, *self)) by {
                    assert(self.history@ == ap.history@.drop_last());
                }
                crate::board::laws::lemma_apply_undo(pre, m, ap, *self);
                assert(self.history@ =~= b0.history@);
                assert(self.repetition_history@ =~= b0.repetition_history@);
            }
            proof {
                let dm1 = (depth - 1) as nat;
                let done = moves@.subrange(0, i as int).to_set();
                let done2 = moves@.subrange(0, i + 1).to_set();
                assert(core_eq(ap, applied_pos(pre, m))) by {
                    assert(is_applied(pre, m, ap));
                }
                assert(core_eq(applied_pos(pre, m), applied_pos(b0, m))) by {
                    assert(applied_mover(pre, m) == applied_mover(b0, m));
                    assert(applied_opp(pre, m) == applied_opp(b0, m));
                }
                lemma_perft_congr(ap, applied_pos(b0, m), dm1);
                assert(c as nat <= 0xFFFF_FFFF_FFFF_FFFFnat);
                assert(perft_count(applied_pos(b0, m), dm1) <= 0xFFFF_FFFF_FFFF_FFFFnat ==> c
                    == perft_count(applied_pos(b0, m), dm1));
                assert(perft_count(applied_pos(b0, m), dm1) > 0xFFFF_FFFF_FFFF_FFFFnat ==> c
                    == 0xFFFF_FFFF_FFFF_FFFFu64) by {
                    if depth == 1 {
                        assert(perft_count(applied_pos(b0, m), 0) == 1);
                    }
                }
                assert(!done.contains(m)) by {
                    if moves@.subrange(0, i as int).contains(m) {
                        let j = choose|j: int|
                            0 <= j < i && #[trigger] moves@.subrange(0, i as int)[j] == m;
                        assert(moves@[j] == m && moves@[i as int] == m);
                    }
                }
                assert(done2 =~= done.insert(m)) by {
                    assert forall|x: crate::moves::Move| #[trigger] done2.contains(x)
                        <==> done.insert(m).contains(x) by {
                        if moves@.subrange(0, i + 1).contains(x) {
                            let j = choose|j: int|
                                0 <= j < i + 1 && #[trigger] moves@.subrange(0, i + 1)[j] == x;
                            if j < i {
                                assert(moves@.subrange(0, i as int)[j] == x);
                            }
                        }
                        if done.contains(x) {
                            let j = choose|j: int|
                                0 <= j < i && #[trigger] moves@.subrange(0, i as int)[j] == x;
                            assert(moves@.subrange(0, i + 1)[j] == x);
                        }
                        if x == m {
                            assert(moves@.subrange(0, i + 1)[i as int] == x);
                        }
                    }
                }
                lemma_perft_sum_insert(b0, dm1, done, m);
            }
            total = if total <= 0xFFFF_FFFF_FFFF_FFFFu64 - c {
                total + c
            } else {
                0xFFFF_FFFF_FFFF_FFFFu64
            };
            i = i + 1;
        }
        proof {
            assert(moves@.subrange(0, n as int) =~= moves@);
            assert(moves@.to_set() =~= legal_set(b0)) by {
                assert forall|m: crate::moves::Move| #[trigger] moves@.to_set().contains(m)
                    <==> legal_set(b0).contains(m) by {}
            }
            assert(perft_count(b0, depth as nat) == perft_sum(
                b0,
                (depth - 1) as nat,
                legal_set(b0),
            ));
        }
        total
    }
}


/// The rejection `try_move_piece` gives before legality is even tested,
/// in its fixed order: a vacuous request, a finished game, an empty
/// source, the wrong side's piece, or a friendly capture.
pub open spec fn try_reject(b: Board, from: Tile, to: Tile) -> Option<crate::move_enums::MoveError> {
    if from == to {
        Some(crate::move_enums::MoveError::SameTile)
    } else if crate::board::check_mate::checkmate_spec(b, b.white_turn) {
        Some(crate::move_enums::MoveError::Checkmate)
    } else if crate::board::check_mate::stalemate_spec(b, b.white_turn) {
        Some(crate::move_enums::MoveError::Stalemate)
    } else {
        match b.piece_color_at(from) {
            None => Some(crate::move_enums::MoveError::NoPieceSelected),
            Some((p, c)) => if c != b.white_turn {
                Some(crate::move_enums::MoveError::WrongTurn)
            } else if b.player_of(b.white_turn).piece_at(to) is Some {
                Some(crate::move_enums::MoveError::FriendlyCapture)
            } else {
                None
            },
        }
    }
}

/// The move a `(from, to, promotion)` request stands for: the capture
/// read off the board (en passant included), and a pawn reaching the
/// back rank promoting to the given kind, or provisionally to a queen
/// when none was given.
pub open spec fn requested_move(b: Board, from: Tile, to: Tile, promotion: Option<Piece>) -> Move {
    let p = b.piece_color_at(from)->Some_0.0;
    let cap = match b.piece_color_at(to) {
        Some((cp, cc)) => Some(cp),
        None => if b.en_passant == Some(to) && p == Piece::Pawn {
            Some(Piece::Pawn)
        } else {
            None
        },
    };
    let promo = if p == Piece::Pawn && to.spec_rank() == (if b.white_turn {
        7int
    } else {
        0
    }) && promotion is None {
        Some(Piece::Queen)
    } else {
        promotion
    };
    crate::board::movegen::gen_move(b, from, to, p, cap, promo)
}

/// The request needs a promotion choice: a pawn reaches the back rank
/// and no kind was supplied.
pub open spec fn needs_promotion(b: Board, from: Tile, to: Tile, promotion: Option<Piece>) -> bool {
    b.piece_color_at(from)->Some_0.0 == Piece::Pawn && to.spec_rank() == (if b.white_turn {
        7int
    } else {
        0
    }) && promotion is None
}

impl Board {
    /// Apply a move that generation produced: the full state transition
    /// of `apply_core`, with the move's algebraic notation rendered
    /// against this position (check and mate suffixes from the applied
    /// one) and stored beside it in the history.
    pub fn make_move_unchecked(&mut self, mov: Move)
        requires
            old(self).wf(),
            old(self).kings_ok(),
            old(self).half_moves < 254,
            old(self).full_move < 0xFFFF_FFFEu32,
            move_fits(*old(self), mov),
            mov.promoted_to != Some(Piece::King),
            mov.capture != Some(Piece::King),
        ensures
            final(self).wf(),
            is_applied(*old(self), mov, *final(self)),
            final(self).history@.last().1@ == crate::board::fen::san_chars(*old(self), mov),
    {
        proof {
            assert(mov.wf()) by {
                assert(mov.en_passant == old(self).en_passant);
            }
        }
        let san = self.move_to_san(&mov);
        self.apply_with_san(mov, san);
    }

    /// Apply a fitting move and store the given notation with it in the
    /// history.
    fn apply_with_san(&mut self, mov: Move, san: String)
        requires
            old(self).wf(),
            move_fits(*old(self), mov),
        ensures
            final(self).wf(),
            is_applied(*old(self), mov, *final(self)),
            final(self).history@.last().1@ == san@,
    {
        self.apply_core(mov);
        let ghost post = *self;
        let (mv2, _) = self.history.pop().unwrap();
        self.history.push((mv2, san));
        proof {
            assert(self.history@.drop_last() =~= post.history@.drop_last());
            assert(self.history@.last().0 == mov);
            crate::zobrist::lemma_zobrist_congr(post, *self);
            assert(is_applied(*old(self), mov, *self));
        }
    }

    /// Validate and apply a move request: reject vacuous or out-of-turn
    /// requests and illegal moves, ask for a promotion choice when a
    /// pawn reaches the back rank without one, and otherwise apply the
    /// move and report the resulting state of the game.
    #[verifier::rlimit(100)]
    pub fn try_move_piece(&mut self, from: Tile, to: Tile, promotion: Option<Piece>) -> (r: Result<
        crate::move_enums::MoveResult,
        crate::move_enums::MoveError,
    >)
        requires
            old(self).wf(),
            old(self).kings_ok(),
            old(self).half_moves < 254,
            old(self).full_move < 0xFFFF_FFFEu32,
            from.wf(),
            to.wf(),
        ensures
            try_reject(*old(self), from, to) matches Some(e) ==> r == Err::<
                crate::move_enums::MoveResult,
                crate::move_enums::MoveError,
            >(e) && *final(self) == *old(self),
            try_reject(*old(self), from, to) is None ==> {
                let mov = requested_move(*old(self), from, to, promotion);
                if !crate::board::movegen::legal_move(*old(self), old(self).white_turn, mov) {
                    r == Err::<crate::move_enums::MoveResult, crate::move_enums::MoveError>(
                        crate::move_enums::MoveError::IllegalMove,
                    ) && *final(self) == *old(self)
                } else if needs_promotion(*old(self), from, to, promotion) {
                    r == Ok::<crate::move_enums::MoveResult, crate::move_enums::MoveError>(
                        crate::move_enums::MoveResult::PromotionNeeded(to),
                    ) && *final(self) == *old(self)
                } else {
                    r == Ok::<crate::move_enums::MoveResult, crate::move_enums::MoveError>(
                        crate::move_enums::MoveResult::MoveApplied(
                            crate::board::check_mate::state_spec(*final(self)),
                        ),
                    ) && is_applied(*old(self), mov, *final(self))
                        && final(self).history@.last().1@ == crate::board::fen::san_chars(
                        *old(self),
                        mov,
                    )
                }
            },
    {
        let ghost b0 = *old(self);
        if from.to_u8() == to.to_u8() {
            proof {
                assert(from == to);
            }
            return Err(crate::move_enums::MoveError::SameTile);
        }
        if self.is_checkmate(self.white_turn) {
            return Err(crate::move_enums::MoveError::Checkmate);
        }
        if self.is_stalemate(self.white_turn) {
            return Err(crate::move_enums::MoveError::Stalemate);
        }
        let got = self.get_piece_at_tile(from);
        let (p, c) = match got {
            None => {
                return Err(crate::move_enums::MoveError::NoPieceSelected);
            },
            Some(x) => x,
        };
        if c != self.white_turn {
            return Err(crate::move_enums::MoveError::WrongTurn);
        }
        let own = if self.white_turn {
            &self.white
        } else {
            &self.black
        };
        if own.get_piece(to).is_some() {
            return Err(crate::move_enums::MoveError::FriendlyCapture);
        }
        let cap = match self.get_piece_at_tile(to) {
            Some((cp, _)) => Some(cp),
            None => {
                let is_ep = match self.en_passant {
                    Some(e) => e.to_u8() == to.to_u8(),
                    None => false,
                };
                let is_pawn = match p {
                    Piece::Pawn => true,
                    _ => false,
                };
                if is_ep && is_pawn {
                    Some(Piece::Pawn)
                } else {
                    None
                }
            },
        };
        let is_pawn = match p {
            Piece::Pawn => true,
            _ => false,
        };
        let promo_rank = to.is_promotion(self.white_turn);
        let needs_promo = is_pawn && promo_rank && promotion.is_none();
        let promo = if needs_promo {
            Some(Piece::Queen)
        } else {
            promotion
        };
        let mov = self.create_move(from, to, p, cap, promo);
        proof {
            assert(mov == requested_move(b0, from, to, promotion));
            assert(try_reject(b0, from, to) is None);
        }
        let mut legal = MoveList::new();
        self.generate_legal_moves_from(from, &mut legal);
        let found = legal.contains(&mov);
        proof {
            assert(found == crate::board::movegen::legal_move(b0, b0.white_turn, mov)) by {
                assert(b0.piece_color_at(from) == Some((p, b0.white_turn)));
                if found {
                    assert(legal@.contains(mov));
                    assert(crate::board::movegen::legal_from_one(b0, b0.white_turn, from, mov));
                    crate::board::movegen::lemma_pseudo_fits(
                        crate::board::movegen::with_turn(b0, b0.white_turn),
                        from,
                        mov,
                    );
                    assert(mov.from == from);
                }
                if crate::board::movegen::legal_move(b0, b0.white_turn, mov) {
                    assert(mov.from == from);
                    assert(legal@.contains(mov));
                }
            }
        }
        if !found {
            return Err(crate::move_enums::MoveError::IllegalMove);
        }
        if needs_promo {
            return Ok(crate::move_enums::MoveResult::PromotionNeeded(to));
        }
        proof {
            crate::board::movegen::lemma_pseudo_fits(b0, from, mov);
        }
        self.make_move_unchecked(mov);
        proof {
            crate::board::movegen::lemma_applied_one_king(b0, mov);
            assert(self.kings_ok()) by {
                if b0.white_turn {
                    assert(self.white == applied_mover(b0, mov));
                    assert(self.black.bb[5].0 == b0.black.bb[5].0);
                } else {
                    assert(self.black == applied_mover(b0, mov));
                    assert(self.white.bb[5].0 == b0.white.bb[5].0);
                }
            }
        }
        let st = self.get_state();
        Ok(crate::move_enums::MoveResult::MoveApplied(st))
    }
}

/// The legal moves of the side to move, as a set.
pub open spec fn legal_set(b: Board) -> Set<crate::moves::Move> {
    Set::new(|m: crate::moves::Move| crate::board::movegen::legal_move(b, b.white_turn, m))
}

/// The number of leaf positions of the legal-move tree, `depth` plies
/// down: one at depth zero, else the sum over every legal move of the
/// count of the position it leads to.
pub open spec fn perft_count(b: Board, depth: nat) -> nat
    decreases depth, 0nat, 0nat,
{
    if depth == 0 {
        1
    } else {
        perft_sum(b, (depth - 1) as nat, legal_set(b))
    }
}

/// The summed leaf counts of the positions the moves of `s` lead to,
/// each explored `depth` further plies.
pub open spec fn perft_sum(b: Board, depth: nat, s: Set<crate::moves::Move>) -> nat
    decreases depth, 1nat, s.len(),
    via perft_sum_dec
{
    if !s.finite() || s.is_empty() {
        0
    } else {
        let m = s.choose();
        perft_count(applied_pos(b, m), depth) + perft_sum(b, depth, s.remove(m))
    }
}

#[via_fn]
proof fn perft_sum_dec(b: Board, depth: nat, s: Set<crate::moves::Move>) {
    broadcast use vstd::set::group_set_axioms;

    if s.finite() && !s.is_empty() {
        assert(s.contains(s.choose()));
    }
}

/// Any member of the set can be split off the sum, not only the chosen
/// one.
proof fn lemma_perft_sum_remove(b: Board, depth: nat, s: Set<crate::moves::Move>, m: crate::moves::Move)
    requires
        s.finite(),
        s.contains(m),
    ensures
        perft_sum(b, depth, s) == perft_count(applied_pos(b, m), depth) + perft_sum(
            b,
            depth,
            s.remove(m),
        ),
    decreases s.len(),
{
    broadcast use vstd::set::group_set_axioms;

    let c = s.choose();
    assert(s.contains(c));
    if c == m {
    } else {
        lemma_perft_sum_remove(b, depth, s.remove(c), m);
        lemma_perft_sum_remove(b, depth, s.remove(m), c);
        assert(s.remove(c).remove(m) =~= s.remove(m).remove(c));
        assert((s.remove(m)).choose() == (s.remove(m)).choose());
    }
}

/// Adding a fresh move to the set adds its child count to the sum.
proof fn lemma_perft_sum_insert(b: Board, depth: nat, s: Set<crate::moves::Move>, m: crate::moves::Move)
    requires
        s.finite(),
        !s.contains(m),
    ensures
        perft_sum(b, depth, s.insert(m)) == perft_count(applied_pos(b, m), depth) + perft_sum(
            b,
            depth,
            s,
        ),
{
    broadcast use vstd::set::group_set_axioms;

    lemma_perft_sum_remove(b, depth, s.insert(m), m);
    assert(s.insert(m).remove(m) =~= s);
}

/// The count reads only what `core_eq` fixes: histories play no part.
pub proof fn lemma_perft_congr(b1: Board, b2: Board, depth: nat)
    requires
        core_eq(b1, b2),
    ensures
        perft_count(b1, depth) == perft_count(b2, depth),
    decreases depth, 0nat, 0nat,
{
    if depth != 0 {
        assert(legal_set(b1) =~= legal_set(b2)) by {
            assert forall|m: crate::moves::Move| #[trigger] crate::board::movegen::legal_move(
                b1,
                b1.white_turn,
                m,
            ) == crate::board::movegen::legal_move(b2, b2.white_turn, m) by {
                crate::board::movegen::lemma_legal_congr(b1, b2, b1.white_turn, m);
            }
        }
        lemma_perft_sum_congr(b1, b2, (depth - 1) as nat, legal_set(b1));
    }
}

proof fn lemma_perft_sum_congr(b1: Board, b2: Board, depth: nat, s: Set<crate::moves::Move>)
    requires
        core_eq(b1, b2),
    ensures
        perft_sum(b1, depth, s) == perft_sum(b2, depth, s),
    decreases depth, 1nat, s.len(),
{
    broadcast use vstd::set::group_set_axioms;

    if s.finite() && !s.is_empty() {
        let m = s.choose();
        assert(s.contains(m));
        assert(core_eq(applied_pos(b1, m), applied_pos(b2, m)));
        lemma_perft_congr(applied_pos(b1, m), applied_pos(b2, m), depth);
        lemma_perft_sum_congr(b1, b2, depth, s.remove(m));
    }
}

} // verus!
