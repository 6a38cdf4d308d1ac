//! Legal-move generation: per-piece pattern moves, filtered by applying
//! each candidate and rejecting those that leave the mover's own king
//! attacked.  Legality is stated semantically: a move is legal exactly
//! when it follows its piece's movement pattern and its application does
//! not leave the mover in check.

use vstd::prelude::*;
use crate::bits::{bit64, popcnt64};
use crate::bitboard::Bitboard;
use crate::board::Board;
use crate::castling::CastlingRights;
use crate::move_list::MoveList;
use crate::moves::Move;
use crate::piece::Piece;
use crate::player::{Player, king_of};
use crate::tile::Tile;
use crate::attacks::{rook_has, bishop_has, knight_has, king_has, pawn_has};
use crate::board::movement::{move_fits, is_applied, applied_mover, applied_opp, is_ep_capture,
    back_of, cap_tile, castle_rook_move, is_double_push};

verus! {

broadcast use crate::bits::group_bit_lemmas, vstd::array::group_array_axioms;

/// The board with the given side set to move.
pub open spec fn with_turn(b: Board, w: bool) -> Board {
    Board { white_turn: w, ..b }
}

/// The move record generation builds: source, destination, kind, capture
/// and promotion, with the position's prior state snapshotted.
pub open spec fn gen_move(b: Board, from: Tile, to: Tile, piece: Piece, cap: Option<Piece>, promo: Option<
    Piece,
>) -> Move {
    Move {
        from,
        to,
        piece,
        capture: cap,
        en_passant: b.en_passant,
        prev_castle: b.castling,
        promoted_to: promo,
        white_cache: b.white_cache,
        black_cache: b.black_cache,
        prev_half_moves: b.half_moves,
    }
}

/// The kind of whatever piece stands on the square, of either colour.
pub open spec fn cap_at(b: Board, to: Tile) -> Option<Piece> {
    match b.piece_color_at(to) {
        Some((p, c)) => Some(p),
        None => None,
    }
}

/// A pattern move of a knight on `t`: a jump to a square not held by the
/// mover.
pub open spec fn pseudo_knight(b: Board, t: Tile, m: Move) -> bool {
    exists|to: Tile|
        #![auto]
        to.wf() && knight_has(t, to) && !bit64(b.player_of(b.white_turn).pieces.0, to.0 as u64)
            && !bit64(b.player_of(!b.white_turn).bb[5].0, to.0 as u64) && m == gen_move(
            b,
            t,
            to,
            Piece::Knight,
            cap_at(b, to),
            None,
        )
}

/// A pattern move of a slider of the given kind on `t`: a move along a
/// free ray, stopping at the first piece, to a square not held by the
/// mover.
pub open spec fn pseudo_slider(b: Board, t: Tile, piece: Piece, m: Move) -> bool {
    exists|to: Tile|
        #![auto]
        to.wf() && (match piece {
            Piece::Rook => rook_has(t, b.occ(), to),
            Piece::Bishop => bishop_has(t, b.occ(), to),
            _ => rook_has(t, b.occ(), to) || bishop_has(t, b.occ(), to),
        }) && !bit64(b.player_of(b.white_turn).pieces.0, to.0 as u64) && !bit64(
            b.player_of(!b.white_turn).bb[5].0,
            to.0 as u64,
        ) && m == gen_move(b, t, to, piece, cap_at(b, to), None)
}

/// The square lies outside the other side's king-danger map — the
/// squares that side attacks with the castling king lifted off its rays:
/// where a castling king may stand or pass.
pub open spec fn castle_safe(b: Board, w: bool, sq: Tile) -> bool {
    !b.side_attacks_has(!w, Some(!w), sq)
}

/// The king-side castling conditions for the side of colour `w`: the
/// right still held, the rook on its corner, the two squares between
/// empty, and the king's path safe.
pub open spec fn can_castle_kingside(b: Board, w: bool) -> bool {
    let r0: int = if w {
        0
    } else {
        56
    };
    &&& b.castling.0 & (if w {
        1u8
    } else {
        4u8
    }) != 0
    &&& b.player_of(w).piece_at(Tile((r0 + 7) as u8)) == Some(Piece::Rook)
    &&& !bit64(b.occ(), (r0 + 5) as u64)
    &&& !bit64(b.occ(), (r0 + 6) as u64)
    &&& castle_safe(b, w, Tile((r0 + 4) as u8))
    &&& castle_safe(b, w, Tile((r0 + 5) as u8))
    &&& castle_safe(b, w, Tile((r0 + 6) as u8))
}

/// The queen-side castling conditions for the side of colour `w`.
pub open spec fn can_castle_queenside(b: Board, w: bool) -> bool {
    let r0: int = if w {
        0
    } else {
        56
    };
    &&& b.castling.0 & (if w {
        2u8
    } else {
        8u8
    }) != 0
    &&& b.player_of(w).piece_at(Tile(r0 as u8)) == Some(Piece::Rook)
    &&& !bit64(b.occ(), (r0 + 1) as u64)
    &&& !bit64(b.occ(), (r0 + 2) as u64)
    &&& !bit64(b.occ(), (r0 + 3) as u64)
    &&& castle_safe(b, w, Tile((r0 + 4) as u8))
    &&& castle_safe(b, w, Tile((r0 + 3) as u8))
    &&& castle_safe(b, w, Tile((r0 + 2) as u8))
}

/// A pattern move of the king on `t`: one step to a square not held by
/// the mover and not adjacent to the other king, or a castling move with
/// its gates passed.
pub open spec fn pseudo_king(b: Board, t: Tile, m: Move) -> bool {
    let w = b.white_turn;
    let e1: u8 = if w {
        4
    } else {
        60
    };
    ||| king_step_move(b, t, m)
    ||| (t.0 == e1 && can_castle_kingside(b, w) && m == gen_move(
        b,
        t,
        Tile((e1 + 2) as u8),
        Piece::King,
        None,
        None,
    ))
    ||| (t.0 == e1 && can_castle_queenside(b, w) && m == gen_move(
        b,
        t,
        Tile((e1 - 2) as u8),
        Piece::King,
        None,
        None,
    ))
}

/// The rank step a pawn of colour `w` moves by.
pub open spec fn fw(w: bool) -> int {
    if w {
        1
    } else {
        -1
    }
}

/// The kind is one a pawn may promote to.
pub open spec fn is_promo_kind(p: Piece) -> bool {
    p == Piece::Knight || p == Piece::Bishop || p == Piece::Rook || p == Piece::Queen
}

/// The moves a pawn arriving on `to` expands into: one per promotion
/// kind on the back rank, the single move otherwise.
pub open spec fn promo_expand(b: Board, t: Tile, to: Tile, cap: Option<Piece>, m: Move) -> bool {
    if to.spec_rank() == (if b.white_turn {
        7int
    } else {
        0
    }) {
        exists|pk: Piece|
            #[trigger] is_promo_kind(pk) && m == gen_move(b, t, to, Piece::Pawn, cap, Some(pk))
    } else {
        m == gen_move(b, t, to, Piece::Pawn, cap, None)
    }
}

/// A pattern move of a pawn on `t`: a single push onto a free square, a
/// double push from the start rank over free squares, a diagonal capture
/// of an enemy piece, or an en-passant capture onto the stored target;
/// pushes and captures landing on the back rank expand into promotions.
pub open spec fn pseudo_pawn(b: Board, t: Tile, m: Move) -> bool {
    let w = b.white_turn;
    let opp = b.player_of(!w);
    ||| (t.spec_offset(0, fw(w)) matches Some(one) && !bit64(b.occ(), one.0 as u64)
        && promo_expand(b, t, one, None, m))
    ||| (t.spec_rank() == (if w {
        1int
    } else {
        6
    }) && (t.spec_offset(0, fw(w)) matches Some(one) && !bit64(b.occ(), one.0 as u64)) && (
    t.spec_offset(0, 2 * fw(w)) matches Some(two) && !bit64(b.occ(), two.0 as u64) && m == gen_move(
        b,
        t,
        two,
        Piece::Pawn,
        None,
        None,
    )))
    ||| pawn_capture_branch(b, t, -1, m)
    ||| pawn_capture_branch(b, t, 1, m)
}

/// One diagonal of pawn capturing: an ordinary capture of an enemy
/// piece, or an en-passant capture onto the stored target square.  An
/// en-passant capture that would lift both pawns off the king's rank
/// and expose it to a rook or queen there — the one case pin logic on
/// the capturing piece cannot see — is withheld.
pub open spec fn pawn_capture_branch(b: Board, t: Tile, dx: int, m: Move) -> bool {
    let w = b.white_turn;
    let opp = b.player_of(!w);
    t.spec_offset(dx, fw(w)) matches Some(to) && ((bit64(opp.pieces.0, to.0 as u64) && !bit64(
        opp.bb[5].0,
        to.0 as u64,
    ) && b.en_passant != Some(to) && promo_expand(b, t, to, Some(opp.piece_at(to)->Some_0), m)) || (
    b.en_passant == Some(to)
        && b.piece_color_at(to) is None && (to.spec_offset(0, -fw(w)) matches Some(back)
        && opp.piece_at(back) == Some(Piece::Pawn)) && !ep_discovery_spec(
        t,
        to,
        king_of(b.player_of(w)),
        b.occ(),
        opp.bb[3].0 | opp.bb[4].0,
    ) && m == gen_move(b, t, to, Piece::Pawn, Some(Piece::Pawn), None)))
}

/// A pattern move of whatever piece stands on `t`, moved by the side to
/// move of `b`.
pub open spec fn pseudo_from(b: Board, t: Tile, m: Move) -> bool {
    match cap_at(b, t) {
        Some(p) => match p {
            Piece::Pawn => pseudo_pawn(b, t, m),
            Piece::Knight => pseudo_knight(b, t, m),
            Piece::King => pseudo_king(b, t, m),
            _ => pseudo_slider(b, t, p, m),
        },
        None => false,
    }
}

/// Applying the move leaves the mover's king on a square the other side
/// attacks.
pub open spec fn leaves_check(b: Board, m: Move) -> bool {
    let w = b.white_turn;
    let aw = if w {
        applied_mover(b, m)
    } else {
        applied_opp(b, m)
    };
    let ab = if w {
        applied_opp(b, m)
    } else {
        applied_mover(b, m)
    };
    let after = Board { white: aw, black: ab, ..b };
    after.attacked(king_of(if w {
        aw
    } else {
        ab
    }), !w)
}

/// The move is legal for the side of colour `w` from square `t`: the
/// side's own piece stands there, the move follows its pattern, and its
/// application does not leave `w`'s king attacked.
pub open spec fn legal_from_one(b: Board, w: bool, t: Tile, m: Move) -> bool {
    &&& t.wf()
    &&& b.player_of(w).piece_at(t) is Some
    &&& pseudo_from(with_turn(b, w), t, m)
    &&& !leaves_check(with_turn(b, w), m)
}

/// The move is legal for the side of colour `w`.
pub open spec fn legal_move(b: Board, w: bool, m: Move) -> bool {
    legal_from_one(b, w, m.from, m)
}

/// A fitting move without a promotion to king keeps the mover at one
/// king: a king move relocates the single king bit, any other move
/// leaves the king board alone.
pub proof fn lemma_applied_one_king(b: Board, m: Move)
    requires
        b.wf(),
        move_fits(b, m),
        b.player_of(b.white_turn).one_king(),
        m.promoted_to != Some(Piece::King),
    ensures
        applied_mover(b, m).one_king(),
        king_of(applied_mover(b, m)) == (if m.piece == Piece::King {
            m.to
        } else {
            king_of(b.player_of(b.white_turn))
        }),
{
    let w = b.white_turn;
    let p0 = b.player_of(w);
    let am = applied_mover(b, m);
    let mf: u64 = 1u64 << m.from.0;
    let mt: u64 = 1u64 << m.to.0;
    if m.piece == Piece::King {
        assert(m.promoted_to is None);
        let k0 = p0.bb[5].0;
        assert(bit64(k0, m.from.0 as u64));
        crate::bits::lemma_popcnt_one_single(k0, m.from.0 as u64);
        let moved = (k0 & !mf) | mt;
        assert(am.bb[5].0 == moved);
        assert forall|j: u64| j < 64 implies (bit64(moved, j) <==> bit64(mt, j)) by {
            crate::bits::lemma_bit_single(m.from.0 as u64, j);
            crate::bits::lemma_bit_single(m.to.0 as u64, j);
        }
        crate::bits::lemma_bit_ext(moved, mt);
        crate::bits::lemma_popcnt_single(m.to.0 as u64);
        assert(am.one_king());
        assert(bit64(am.bb[5].0, m.to.0 as u64)) by {
            crate::bits::lemma_bit_single(m.to.0 as u64, m.to.0 as u64);
        }
        crate::player::lemma_one_king_unique(am, m.to);
    } else {
        assert(am.bb[5].0 == p0.bb[5].0);
        crate::player::lemma_king_exists(p0);
        let kt = king_of(p0);
        crate::player::lemma_one_king_unique(am, kt);
    }
}

impl Board {
    /// Whether applying the move would leave the mover's own king on an
    /// attacked square: the one condition separating a pattern move from
    /// a legal one.
    pub fn move_leaves_check(&self, m: Move, w: bool) -> (r: bool)
        requires
            self.wf(),
            move_fits(with_turn(*self, w), m),
            self.player_of(w).one_king(),
            m.promoted_to != Some(Piece::King),
        ensures
            r == leaves_check(with_turn(*self, w), m),
    {
        let mut scratch = Board {
            white: self.white.clone_side(),
            black: self.black.clone_side(),
            castling: self.castling,
            white_turn: w,
            en_passant: self.en_passant,
            history: Vec::new(),
            repetition_history: Vec::new(),
            half_moves: self.half_moves,
            full_move: self.full_move,
            white_cache: self.white_cache,
            black_cache: self.black_cache,
        };
        let ghost bw = with_turn(*self, w);
        proof {
            assert(scratch.wf());
            assert(move_fits(scratch, m));
            lemma_applied_one_king(scratch, m);
            assert(applied_mover(scratch, m) == applied_mover(bw, m));
            assert(applied_opp(scratch, m) == applied_opp(bw, m));
        }
        scratch.apply_core(m);
        let r = scratch.is_in_check(w);
        proof {
            let aw = if w {
                applied_mover(bw, m)
            } else {
                applied_opp(bw, m)
            };
            let ab = if w {
                applied_opp(bw, m)
            } else {
                applied_mover(bw, m)
            };
            let after = Board { white: aw, black: ab, ..bw };
            assert(scratch.white == aw && scratch.black == ab);
            assert(scratch.in_check(w) == after.attacked(king_of(if w {
                aw
            } else {
                ab
            }), !w)) by {
                assert(scratch.king_sq(w) == king_of(if w {
                    aw
                } else {
                    ab
                }));
                assert(scratch.player_of(true) == after.player_of(true));
                assert(scratch.player_of(false) == after.player_of(false));
                assert(scratch.occ() == after.occ());
                let t = scratch.king_sq(w);
                if scratch.attacked(t, !w) {
                    let att = scratch.player_of(!w);
                    let j = choose|j: Tile|
                        #![auto]
                        j.wf() && ((bit64(att.bb[3].0 | att.bb[4].0, j.0 as u64) && rook_has(
                            t,
                            scratch.occ(),
                            j,
                        )) || (bit64(att.bb[2].0 | att.bb[4].0, j.0 as u64) && bishop_has(
                            t,
                            scratch.occ(),
                            j,
                        )) || (bit64(att.bb[1].0, j.0 as u64) && knight_has(t, j)) || (bit64(
                            att.bb[0].0,
                            j.0 as u64,
                        ) && pawn_has(t, !(!w), j)) || (bit64(att.bb[5].0, j.0 as u64) && king_has(
                            t,
                            j,
                        )));
                    assert(after.attacked(t, !w));
                }
                if after.attacked(t, !w) {
                    let att = after.player_of(!w);
                    let j = choose|j: Tile|
                        #![auto]
                        j.wf() && ((bit64(att.bb[3].0 | att.bb[4].0, j.0 as u64) && rook_has(
                            t,
                            after.occ(),
                            j,
                        )) || (bit64(att.bb[2].0 | att.bb[4].0, j.0 as u64) && bishop_has(
                            t,
                            after.occ(),
                            j,
                        )) || (bit64(att.bb[1].0, j.0 as u64) && knight_has(t, j)) || (bit64(
                            att.bb[0].0,
                            j.0 as u64,
                        ) && pawn_has(t, !(!w), j)) || (bit64(att.bb[5].0, j.0 as u64) && king_has(
                            t,
                            j,
                        )));
                    assert(scratch.attacked(t, !w));
                }
            }
        }
        r
    }
}

/// Appending to a sequence adds exactly the appended move.
pub proof fn lemma_push_contains(s: Seq<Move>, x: Move)
    ensures
        forall|m: Move| #[trigger] s.push(x).contains(m) <==> s.contains(m) || m == x,
{
    assert forall|m: Move| #[trigger] s.push(x).contains(m) <==> s.contains(m) || m == x by {
        if s.push(x).contains(m) {
            let i = choose|i: int| 0 <= i < s.push(x).len() && s.push(x)[i] == m;
            if i < s.len() {
                assert(s[i] == m);
            }
        }
        if s.contains(m) {
            let i = choose|i: int| 0 <= i < s.len() && s[i] == m;
            assert(s.push(x)[i] == m);
        }
        if m == x {
            assert(s.push(x)[s.len() as int] == m);
        }
    }
}

impl Board {
    /// The piece of either colour on the square, by kind alone.
    fn kind_at(&self, to: Tile) -> (r: Option<Piece>)
        requires
            self.wf(),
            to.wf(),
        ensures
            r == cap_at(*self, to),
    {
        match self.get_piece_at_tile(to) {
            Some((p, _)) => Some(p),
            None => None,
        }
    }

    /// The pattern moves of a knight of colour `white` on `tile`.
    fn generate_knight_moves(&self, tile: Tile, white: bool, moves: &mut MoveList)
        requires
            self.wf(),
            tile.wf(),
        ensures
            forall|m: Move|
                #[trigger] final(moves)@.contains(m) <==> old(moves)@.contains(m) || pseudo_knight(
                    with_turn(*self, white),
                    tile,
                    m,
                ),
            final(moves)@.len() >= old(moves)@.len(),
            forall|k: int|
                old(moves)@.len() <= k < final(moves)@.len() ==> (#[trigger] final(moves)@[k]).from
                    == tile,
            forall|a: int, b: int|
                old(moves)@.len() <= a < b < final(moves)@.len() ==> final(moves)@[a]
                    != final(moves)@[b],
            forall|k: int| 0 <= k < old(moves)@.len() ==> final(moves)@[k] == old(moves)@[k],
    {
        let ghost base = moves@.len();
        let ghost bw = with_turn(*self, white);
        let own = if white {
            &self.white
        } else {
            &self.black
        };
        let opp = if white {
            &self.black
        } else {
            &self.white
        };
        let attacks = tile.knight_attacks();
        let targets: u64 = attacks.0 & !own.pieces.0 & !opp.bb[5].0;
        let ghost orig = targets;
        let mut it = Bitboard(targets).iter();
        loop
            invariant
                self.wf(),
                tile.wf(),
                bw == with_turn(*self, white),
                orig == attacks.0 & !bw.player_of(white).pieces.0 & !bw.player_of(!white).bb[5].0,
                forall|j: Tile|
                    j.wf() ==> (#[trigger] bit64(attacks.0, j.0 as u64) <==> knight_has(tile, j)),
                forall|k: u64| #[trigger] bit64(it.0, k) ==> bit64(orig, k),
                forall|m: Move|
                    #[trigger] moves@.contains(m) <==> old(moves)@.contains(m) || exists|to: Tile|
                        #![auto]
                        to.wf() && bit64(orig, to.0 as u64) && !bit64(it.0, to.0 as u64) && m
                            == gen_move(bw, tile, to, Piece::Knight, cap_at(bw, to), None),
                base <= moves@.len(),
                forall|k: int| 0 <= k < base ==> moves@[k] == old(moves)@[k],
                forall|k: int|
                    base <= k < moves@.len() ==> (#[trigger] moves@[k]).from == tile
                        && moves@[k].to.wf() && !bit64(it.0, moves@[k].to.0 as u64),
                forall|a: int, b: int|
                    base <= a < b < moves@.len() ==> moves@[a].to != moves@[b].to,
            ensures
                it.0 == 0,
                forall|m: Move|
                    #[trigger] moves@.contains(m) <==> old(moves)@.contains(m) || exists|to: Tile|
                        #![auto]
                        to.wf() && bit64(orig, to.0 as u64) && m == gen_move(
                            bw,
                            tile,
                            to,
                            Piece::Knight,
                            cap_at(bw, to),
                            None,
                        ),
                base <= moves@.len(),
                forall|k: int| 0 <= k < base ==> moves@[k] == old(moves)@[k],
                forall|k: int| base <= k < moves@.len() ==> (#[trigger] moves@[k]).from == tile,
                forall|a: int, b: int|
                    base <= a < b < moves@.len() ==> moves@[a] != moves@[b],
            decreases popcnt64(it.0),
        {
            let ghost prev = it.0;
            let next = it.next();
            match next {
                None => {
                    break ;
                },
                Some(to) => {
                    proof {
                        crate::bits::lemma_pop_below_except(it.0, prev, to.0 as u64, 64);
                    }
                    let cap = self.kind_at(to);
                    let mv = self.create_move(tile, to, Piece::Knight, cap, None);
                    let ghost pre = moves@;
                    moves.push(mv);
                    proof {
                        lemma_push_contains(pre, mv);
                        assert(mv == gen_move(bw, tile, to, Piece::Knight, cap_at(bw, to), None));
                        assert forall|m: Move| #[trigger] moves@.contains(m) <==> old(
                            moves,
                        )@.contains(m) || exists|to2: Tile|
                            #![auto]
                            to2.wf() && bit64(orig, to2.0 as u64) && !bit64(it.0, to2.0 as u64)
                                && m == gen_move(
                                bw,
                                tile,
                                to2,
                                Piece::Knight,
                                cap_at(bw, to2),
                                None,
                            ) by {
                            if moves@.contains(m) && !old(moves)@.contains(m) {
                                if m == mv {
                                    assert(!bit64(it.0, to.0 as u64));
                                } else {
                                    let to2 = choose|to2: Tile|
                                        #![auto]
                                        to2.wf() && bit64(orig, to2.0 as u64) && !bit64(
                                            prev,
                                            to2.0 as u64,
                                        ) && m == gen_move(
                                            bw,
                                            tile,
                                            to2,
                                            Piece::Knight,
                                            cap_at(bw, to2),
                                            None,
                                        );
                                    assert(!bit64(it.0, to2.0 as u64));
                                }
                            }
                        }
                    }
                },
            }
        }
        proof {
            assert forall|m: Move| #[trigger] moves@.contains(m) <==> old(moves)@.contains(m)
                || pseudo_knight(bw, tile, m) by {
                if moves@.contains(m) && !old(moves)@.contains(m) {
                    let to = choose|to: Tile|
                        #![auto]
                        to.wf() && bit64(orig, to.0 as u64) && m == gen_move(
                            bw,
                            tile,
                            to,
                            Piece::Knight,
                            cap_at(bw, to),
                            None,
                        );
                    assert(pseudo_knight(bw, tile, m));
                }
                if pseudo_knight(bw, tile, m) {
                    let to = choose|to: Tile|
                        #![auto]
                        to.wf() && knight_has(tile, to) && !bit64(
                            bw.player_of(bw.white_turn).pieces.0,
                            to.0 as u64,
                        ) && !bit64(bw.player_of(!bw.white_turn).bb[5].0, to.0 as u64) && m
                            == gen_move(bw, tile, to, Piece::Knight, cap_at(bw, to), None);
                    assert(bit64(orig, to.0 as u64));
                }
            }
        }
    }
}

impl Board {
    /// The pattern moves of a slider of the given kind and colour on
    /// `tile`.
    fn generate_sliding_moves(&self, tile: Tile, white: bool, piece: Piece, moves: &mut MoveList)
        requires
            self.wf(),
            tile.wf(),
            piece == Piece::Bishop || piece == Piece::Rook || piece == Piece::Queen,
        ensures
            forall|m: Move|
                #[trigger] final(moves)@.contains(m) <==> old(moves)@.contains(m) || pseudo_slider(
                    with_turn(*self, white),
                    tile,
                    piece,
                    m,
                ),
            final(moves)@.len() >= old(moves)@.len(),
            forall|k: int|
                old(moves)@.len() <= k < final(moves)@.len() ==> (#[trigger] final(moves)@[k]).from
                    == tile,
            forall|a: int, b: int|
                old(moves)@.len() <= a < b < final(moves)@.len() ==> final(moves)@[a]
                    != final(moves)@[b],
            forall|k: int| 0 <= k < old(moves)@.len() ==> final(moves)@[k] == old(moves)@[k],
    {
        let ghost base = moves@.len();
        let ghost bw = with_turn(*self, white);
        let own = if white {
            &self.white
        } else {
            &self.black
        };
        let opp = if white {
            &self.black
        } else {
            &self.white
        };
        let (straight, diagonal): (bool, bool) = match piece {
            Piece::Rook => (true, false),
            Piece::Bishop => (false, true),
            _ => (true, true),
        };
        let attacks = self.generate_sliding_attacks(tile, straight, diagonal, None);
        let targets: u64 = attacks.0 & !own.pieces.0 & !opp.bb[5].0;
        let ghost orig = targets;
        let mut it = Bitboard(targets).iter();
        proof {
            assert(self.kd_occ(None) == bw.occ());
        }
        loop
            invariant
                self.wf(),
                tile.wf(),
                piece == Piece::Bishop || piece == Piece::Rook || piece == Piece::Queen,
                bw == with_turn(*self, white),
                orig == attacks.0 & !bw.player_of(white).pieces.0 & !bw.player_of(!white).bb[5].0,
                forall|j: Tile|
                    j.wf() ==> (#[trigger] bit64(attacks.0, j.0 as u64) <==> (match piece {
                        Piece::Rook => rook_has(tile, bw.occ(), j),
                        Piece::Bishop => bishop_has(tile, bw.occ(), j),
                        _ => rook_has(tile, bw.occ(), j) || bishop_has(tile, bw.occ(), j),
                    })),
                forall|k: u64| #[trigger] bit64(it.0, k) ==> bit64(orig, k),
                forall|m: Move|
                    #[trigger] moves@.contains(m) <==> old(moves)@.contains(m) || exists|to: Tile|
                        #![auto]
                        to.wf() && bit64(orig, to.0 as u64) && !bit64(it.0, to.0 as u64) && m
                            == gen_move(bw, tile, to, piece, cap_at(bw, to), None),
                base <= moves@.len(),
                forall|k: int| 0 <= k < base ==> moves@[k] == old(moves)@[k],
                forall|k: int|
                    base <= k < moves@.len() ==> (#[trigger] moves@[k]).from == tile
                        && moves@[k].to.wf() && !bit64(it.0, moves@[k].to.0 as u64),
                forall|a: int, b: int|
                    base <= a < b < moves@.len() ==> moves@[a].to != moves@[b].to,
            ensures
                it.0 == 0,
                forall|m: Move|
                    #[trigger] moves@.contains(m) <==> old(moves)@.contains(m) || exists|to: Tile|
                        #![auto]
                        to.wf() && bit64(orig, to.0 as u64) && m == gen_move(
                            bw,
                            tile,
                            to,
                            piece,
                            cap_at(bw, to),
                            None,
                        ),
                base <= moves@.len(),
                forall|k: int| 0 <= k < base ==> moves@[k] == old(moves)@[k],
                forall|k: int| base <= k < moves@.len() ==> (#[trigger] moves@[k]).from == tile,
                forall|a: int, b: int|
                    base <= a < b < moves@.len() ==> moves@[a] != moves@[b],
            decreases popcnt64(it.0),
        {
            let ghost prev = it.0;
            let next = it.next();
            match next {
                None => {
                    break ;
                },
                Some(to) => {
                    proof {
                        crate::bits::lemma_pop_below_except(it.0, prev, to.0 as u64, 64);
                    }
                    let cap = self.kind_at(to);
                    let mv = self.create_move(tile, to, piece, cap, None);
                    let ghost pre = moves@;
                    moves.push(mv);
                    proof {
                        lemma_push_contains(pre, mv);
                        assert(mv == gen_move(bw, tile, to, piece, cap_at(bw, to), None));
                        assert forall|m: Move| #[trigger] moves@.contains(m) <==> old(
                            moves,
                        )@.contains(m) || exists|to2: Tile|
                            #![auto]
                            to2.wf() && bit64(orig, to2.0 as u64) && !bit64(it.0, to2.0 as u64)
                                && m == gen_move(bw, tile, to2, piece, cap_at(bw, to2), None) by {
                            if moves@.contains(m) && !old(moves)@.contains(m) {
                                if m == mv {
                                    assert(!bit64(it.0, to.0 as u64));
                                } else {
                                    let to2 = choose|to2: Tile|
                                        #![auto]
                                        to2.wf() && bit64(orig, to2.0 as u64) && !bit64(
                                            prev,
                                            to2.0 as u64,
                                        ) && m == gen_move(bw, tile, to2, piece, cap_at(bw, to2), None);
                                    assert(!bit64(it.0, to2.0 as u64));
                                }
                            }
                        }
                    }
                },
            }
        }
        proof {
            assert forall|m: Move| #[trigger] moves@.contains(m) <==> old(moves)@.contains(m)
                || pseudo_slider(bw, tile, piece, m) by {
                if moves@.contains(m) && !old(moves)@.contains(m) {
                    let to = choose|to: Tile|
                        #![auto]
                        to.wf() && bit64(orig, to.0 as u64) && m == gen_move(
                            bw,
                            tile,
                            to,
                            piece,
                            cap_at(bw, to),
                            None,
                        );
                    assert(pseudo_slider(bw, tile, piece, m));
                }
                if pseudo_slider(bw, tile, piece, m) {
                    let to = choose|to: Tile|
                        #![auto]
                        to.wf() && (match piece {
                            Piece::Rook => rook_has(tile, bw.occ(), to),
                            Piece::Bishop => bishop_has(tile, bw.occ(), to),
                            _ => rook_has(tile, bw.occ(), to) || bishop_has(tile, bw.occ(), to),
                        }) && !bit64(bw.player_of(bw.white_turn).pieces.0, to.0 as u64) && !bit64(
                            bw.player_of(!bw.white_turn).bb[5].0,
                            to.0 as u64,
                        ) && m == gen_move(bw, tile, to, piece, cap_at(bw, to), None);
                    assert(bit64(orig, to.0 as u64));
                }
            }
        }
    }
}


impl Board {
    /// The pattern moves of the king of colour `white` on `tile`: steps
    /// to free squares away from the other king, and castling through
    /// its gates.
    fn generate_king_moves(&self, tile: Tile, white: bool, moves: &mut MoveList)
        requires
            self.wf(),
            tile.wf(),
            self.player_of(!white).one_king(),
        ensures
            forall|m: Move|
                #[trigger] final(moves)@.contains(m) <==> old(moves)@.contains(m) || pseudo_king(
                    with_turn(*self, white),
                    tile,
                    m,
                ),
            final(moves)@.len() >= old(moves)@.len(),
            forall|k: int|
                old(moves)@.len() <= k < final(moves)@.len() ==> (#[trigger] final(moves)@[k]).from
                    == tile,
            forall|a: int, b: int|
                old(moves)@.len() <= a < b < final(moves)@.len() ==> final(moves)@[a]
                    != final(moves)@[b],
            forall|k: int| 0 <= k < old(moves)@.len() ==> final(moves)@[k] == old(moves)@[k],
    {
        let ghost base = moves@.len();
        let ghost bw = with_turn(*self, white);
        let own = if white {
            &self.white
        } else {
            &self.black
        };
        let opp = if white {
            &self.black
        } else {
            &self.white
        };
        let danger = self.generate_king_danger(!white);
        proof {
            assert(with_turn(*self, white).kd_occ(Some(!white)) == self.kd_occ(Some(!white)));
        }
        let attacks = tile.king_attacks();
        let targets: u64 = attacks.0 & !own.pieces.0 & !opp.bb[5].0 & !danger.0;
        let ghost orig = targets;
        let mut it = Bitboard(targets).iter();
        loop
            invariant
                self.wf(),
                tile.wf(),
                bw == with_turn(*self, white),
                orig == attacks.0 & !bw.player_of(white).pieces.0 & !bw.player_of(!white).bb[5].0
                    & !danger.0,
                forall|j: Tile|
                    j.wf() ==> (#[trigger] bit64(attacks.0, j.0 as u64) <==> king_has(tile, j)),
                forall|j: Tile|
                    j.wf() ==> (#[trigger] bit64(danger.0, j.0 as u64) <==> bw.side_attacks_has(
                        !white,
                        Some(!white),
                        j,
                    )),
                forall|k: u64| #[trigger] bit64(it.0, k) ==> bit64(orig, k),
                forall|m: Move|
                    #[trigger] moves@.contains(m) <==> old(moves)@.contains(m) || exists|to: Tile|
                        #![auto]
                        to.wf() && bit64(orig, to.0 as u64) && !bit64(it.0, to.0 as u64) && m
                            == gen_move(bw, tile, to, Piece::King, cap_at(bw, to), None),
                base <= moves@.len(),
                forall|k: int| 0 <= k < base ==> moves@[k] == old(moves)@[k],
                forall|k: int|
                    base <= k < moves@.len() ==> (#[trigger] moves@[k]).from == tile
                        && moves@[k].to.wf() && !bit64(it.0, moves@[k].to.0 as u64) && bit64(
                        orig,
                        moves@[k].to.0 as u64,
                    ),
                forall|a: int, b: int|
                    base <= a < b < moves@.len() ==> moves@[a].to != moves@[b].to,
            ensures
                it.0 == 0,
                forall|m: Move|
                    #[trigger] moves@.contains(m) <==> old(moves)@.contains(m) || exists|to: Tile|
                        #![auto]
                        to.wf() && bit64(orig, to.0 as u64) && m == gen_move(
                            bw,
                            tile,
                            to,
                            Piece::King,
                            cap_at(bw, to),
                            None,
                        ),
                base <= moves@.len(),
                forall|k: int| 0 <= k < base ==> moves@[k] == old(moves)@[k],
                forall|k: int|
                    base <= k < moves@.len() ==> (#[trigger] moves@[k]).from == tile && bit64(
                        orig,
                        moves@[k].to.0 as u64,
                    ),
                forall|a: int, b: int|
                    base <= a < b < moves@.len() ==> moves@[a] != moves@[b],
            decreases popcnt64(it.0),
        {
            let ghost prev = it.0;
            let next = it.next();
            match next {
                None => {
                    break ;
                },
                Some(to) => {
                    proof {
                        crate::bits::lemma_pop_below_except(it.0, prev, to.0 as u64, 64);
                    }
                    let cap = self.kind_at(to);
                    let mv = self.create_move(tile, to, Piece::King, cap, None);
                    let ghost pre = moves@;
                    moves.push(mv);
                    proof {
                        lemma_push_contains(pre, mv);
                        assert(mv == gen_move(bw, tile, to, Piece::King, cap_at(bw, to), None));
                        assert forall|m: Move| #[trigger] moves@.contains(m) <==> old(
                            moves,
                        )@.contains(m) || exists|to2: Tile|
                            #![auto]
                            to2.wf() && bit64(orig, to2.0 as u64) && !bit64(it.0, to2.0 as u64)
                                && m == gen_move(
                                bw,
                                tile,
                                to2,
                                Piece::King,
                                cap_at(bw, to2),
                                None,
                            ) by {
                            if moves@.contains(m) && !old(moves)@.contains(m) {
                                if m == mv {
                                    assert(!bit64(it.0, to.0 as u64));
                                } else {
                                    let to2 = choose|to2: Tile|
                                        #![auto]
                                        to2.wf() && bit64(orig, to2.0 as u64) && !bit64(
                                            prev,
                                            to2.0 as u64,
                                        ) && m == gen_move(
                                            bw,
                                            tile,
                                            to2,
                                            Piece::King,
                                            cap_at(bw, to2),
                                            None,
                                        );
                                    assert(!bit64(it.0, to2.0 as u64));
                                }
                            }
                        }
                    }
                },
            }
        }
        proof {
            assert forall|m: Move| #[trigger] moves@.contains(m) <==> old(moves)@.contains(m)
                || king_step_move(bw, tile, m) by {
                if moves@.contains(m) && !old(moves)@.contains(m) {
                    let to = choose|to: Tile|
                        #![auto]
                        to.wf() && bit64(orig, to.0 as u64) && m == gen_move(
                            bw,
                            tile,
                            to,
                            Piece::King,
                            cap_at(bw, to),
                            None,
                        );
                    assert(king_step_move(bw, tile, m));
                }
                if king_step_move(bw, tile, m) {
                    let to = choose|to: Tile|
                        #![auto]
                        to.wf() && king_has(tile, to) && !bit64(
                            bw.player_of(bw.white_turn).pieces.0,
                            to.0 as u64,
                        ) && !bit64(bw.player_of(!bw.white_turn).bb[5].0, to.0 as u64)
                            && !bw.side_attacks_has(!bw.white_turn, Some(!bw.white_turn), to) && m
                            == gen_move(bw, tile, to, Piece::King, cap_at(bw, to), None);
                    assert(bit64(orig, to.0 as u64));
                }
            }
        }
        let e1: u8 = if white {
            4
        } else {
            60
        };
        if tile.to_u8() == e1 {
            let ksr: u8 = if white {
                1
            } else {
                4
            };
            let qsr: u8 = if white {
                2
            } else {
                8
            };
            let occ = self.occupied();
            let f = Tile(e1 + 1);
            let g = Tile(e1 + 2);
            let d = Tile(e1 - 1);
            let c = Tile(e1 - 2);
            let bsq = Tile(e1 - 3);
            let hcorner = Tile(e1 + 3);
            let acorner = Tile(e1 - 4);
            let rook_home_ks = match own.get_piece(hcorner) {
                Some(Piece::Rook) => true,
                _ => false,
            };
            if self.castling.to_u8() & ksr != 0 && rook_home_ks && !occ.get_bit(f) && !occ.get_bit(
                g,
            ) && !danger.get_bit(tile) && !danger.get_bit(f) && !danger.get_bit(g) {
                let mv = self.create_move(tile, g, Piece::King, None, None);
                let ghost pre = moves@;
                moves.push(mv);
                proof {
                    lemma_push_contains(pre, mv);
                    assert(can_castle_kingside(bw, white));
                    assert(mv == gen_move(bw, tile, g, Piece::King, None, None));
                }
            } else {
                proof {
                    assert(!can_castle_kingside(bw, white) || !(tile.0 == e1));
                }
            }
            let rook_home_qs = match own.get_piece(acorner) {
                Some(Piece::Rook) => true,
                _ => false,
            };
            if self.castling.to_u8() & qsr != 0 && rook_home_qs && !occ.get_bit(d) && !occ.get_bit(
                c,
            ) && !occ.get_bit(bsq) && !danger.get_bit(tile) && !danger.get_bit(d)
                && !danger.get_bit(c) {
                let mv = self.create_move(tile, c, Piece::King, None, None);
                let ghost pre = moves@;
                moves.push(mv);
                proof {
                    lemma_push_contains(pre, mv);
                    assert(can_castle_queenside(bw, white));
                    assert(mv == gen_move(bw, tile, c, Piece::King, None, None));
                }
            } else {
                proof {
                    assert(!can_castle_queenside(bw, white) || !(tile.0 == e1));
                }
            }
        }
        proof {
            assert forall|m: Move| #[trigger] moves@.contains(m) <==> old(moves)@.contains(m)
                || pseudo_king(bw, tile, m) by {
                if pseudo_king(bw, tile, m) && !king_step_move(bw, tile, m) {
                    assert(tile.0 == (if white {
                        4u8
                    } else {
                        60u8
                    }));
                }
            }
        }
    }
}

/// The stepping part of the king's pattern moves: one step to a square
/// the mover does not hold, that is not the other king's, and that the
/// other side's king-danger map does not cover.
pub open spec fn king_step_move(b: Board, t: Tile, m: Move) -> bool {
    let w = b.white_turn;
    exists|to: Tile|
        #![auto]
        to.wf() && king_has(t, to) && !bit64(b.player_of(w).pieces.0, to.0 as u64) && !bit64(
            b.player_of(!w).bb[5].0,
            to.0 as u64,
        ) && !b.side_attacks_has(!w, Some(!w), to) && m == gen_move(
            b,
            t,
            to,
            Piece::King,
            cap_at(b, to),
            None,
        )
}



impl Board {
    /// Append the move of a pawn arriving on `to`: each promotion kind
    /// on the back rank, the plain move otherwise.
    fn push_pawn_expand(&self, tile: Tile, to: Tile, white: bool, cap: Option<Piece>, moves: &mut MoveList)
        requires
            self.wf(),
            tile.wf(),
            to.wf(),
        ensures
            forall|m: Move|
                #[trigger] final(moves)@.contains(m) <==> old(moves)@.contains(m) || promo_expand(
                    with_turn(*self, white),
                    tile,
                    to,
                    cap,
                    m,
                ),
            final(moves)@.len() >= old(moves)@.len(),
            forall|k: int|
                old(moves)@.len() <= k < final(moves)@.len() ==> (#[trigger] final(moves)@[k]).from
                    == tile && final(moves)@[k].to == to,
            forall|a: int, b: int|
                old(moves)@.len() <= a < b < final(moves)@.len() ==> final(moves)@[a]
                    != final(moves)@[b],
            forall|k: int| 0 <= k < old(moves)@.len() ==> final(moves)@[k] == old(moves)@[k],
    {
        let ghost bw = with_turn(*self, white);
        if to.is_promotion(white) {
            let m1 = self.create_move(tile, to, Piece::Pawn, cap, Some(Piece::Knight));
            let m2 = self.create_move(tile, to, Piece::Pawn, cap, Some(Piece::Bishop));
            let m3 = self.create_move(tile, to, Piece::Pawn, cap, Some(Piece::Rook));
            let m4 = self.create_move(tile, to, Piece::Pawn, cap, Some(Piece::Queen));
            let ghost p0 = moves@;
            moves.push(m1);
            let ghost p1 = moves@;
            moves.push(m2);
            let ghost p2 = moves@;
            moves.push(m3);
            let ghost p3 = moves@;
            moves.push(m4);
            proof {
                lemma_push_contains(p0, m1);
                lemma_push_contains(p1, m2);
                lemma_push_contains(p2, m3);
                lemma_push_contains(p3, m4);
                assert forall|m: Move| #[trigger] moves@.contains(m) <==> old(moves)@.contains(m)
                    || promo_expand(bw, tile, to, cap, m) by {
                    if m == m1 || m == m2 || m == m3 || m == m4 {
                        if m == m1 {
                            assert(is_promo_kind(Piece::Knight));
                        }
                        if m == m2 {
                            assert(is_promo_kind(Piece::Bishop));
                        }
                        if m == m3 {
                            assert(is_promo_kind(Piece::Rook));
                        }
                        if m == m4 {
                            assert(is_promo_kind(Piece::Queen));
                        }
                    }
                    if promo_expand(bw, tile, to, cap, m) {
                        let pk = choose|pk: Piece|
                            #[trigger] is_promo_kind(pk) && m == gen_move(
                                bw,
                                tile,
                                to,
                                Piece::Pawn,
                                cap,
                                Some(pk),
                            );
                        assert(m == m1 || m == m2 || m == m3 || m == m4);
                    }
                }
            }
        } else {
            let mv = self.create_move(tile, to, Piece::Pawn, cap, None);
            let ghost p0 = moves@;
            moves.push(mv);
            proof {
                lemma_push_contains(p0, mv);
            }
        }
    }

    /// Handle one capturing diagonal of a pawn on `tile`: an ordinary
    /// capture of an enemy piece, or the en-passant capture.
    fn pawn_capture_side(&self, tile: Tile, white: bool, dx: i8, moves: &mut MoveList)
        requires
            self.wf(),
            tile.wf(),
            self.player_of(white).one_king(),
            dx == -1i8 || dx == 1i8,
        ensures
            forall|m: Move|
                #[trigger] final(moves)@.contains(m) <==> old(moves)@.contains(m)
                    || pawn_capture_branch(with_turn(*self, white), tile, dx as int, m),
            final(moves)@.len() >= old(moves)@.len(),
            forall|k: int|
                old(moves)@.len() <= k < final(moves)@.len() ==> (#[trigger] final(moves)@[k]).from
                    == tile && tile.spec_offset(dx as int, fw(white)) == Some(
                    final(moves)@[k].to,
                ),
            forall|a: int, b: int|
                old(moves)@.len() <= a < b < final(moves)@.len() ==> final(moves)@[a]
                    != final(moves)@[b],
            forall|k: int| 0 <= k < old(moves)@.len() ==> final(moves)@[k] == old(moves)@[k],
    {
        let ghost bw = with_turn(*self, white);
        let dy: i8 = if white {
            1
        } else {
            -1
        };
        let opp = if white {
            &self.black
        } else {
            &self.white
        };
        match tile.offset(dx, dy) {
            None => {},
            Some(to) => {
                let on_opp = opp.pieces.to_u64() >> to.to_u8() & 1 != 0;
                proof {
                    let b0 = opp.pieces.0;
                    let t0 = to.0 as u64;
                    assert((b0 >> t0) & 1u64 == 0u64 || (b0 >> t0) & 1u64 == 1u64) by (bit_vector);
                }
                let ep_here = match self.en_passant {
                    Some(e) => e.to_u8() == to.to_u8(),
                    None => false,
                };
                if on_opp && !ep_here {
                    let capped = opp.get_piece(to);
                    let is_king = match capped {
                        Some(Piece::King) => true,
                        _ => false,
                    };
                    if !is_king {
                        proof {
                            assert(capped is Some) by {
                                if opp.piece_at(to) is None {
                                    crate::player::lemma_piece_at_none(*opp, to);
                                }
                            }
                            assert(!bit64(bw.player_of(!white).bb[5].0, to.0 as u64)) by {
                                if bit64(opp.bb[5].0, to.0 as u64) {
                                    assert(opp.piece_at(to) == Some(Piece::King));
                                }
                            }
                        }
                        self.push_pawn_expand(tile, to, white, capped, moves);
                    } else {
                        proof {
                            assert(bit64(bw.player_of(!white).bb[5].0, to.0 as u64)) by {
                                assert(opp.piece_at(to) == Some(Piece::King));
                                assert(bit64(opp.bb[5].0, to.0 as u64));
                            }
                        }
                    }
                } else if !on_opp {
                    let is_ep = ep_here;
                    if is_ep {
                        let empty_to = self.get_piece_at_tile(to).is_none();
                        let back_ok = match to.offset(0, if white { -1 } else { 1 }) {
                            Some(back) => match opp.get_piece(back) {
                                Some(Piece::Pawn) => true,
                                _ => false,
                            },
                            None => false,
                        };
                        if empty_to && back_ok {
                            let own = if white {
                                &self.white
                            } else {
                                &self.black
                            };
                            let kt = own.king_tile();
                            proof {
                                crate::player::lemma_one_king_unique(bw.player_of(white), kt);
                            }
                            let occ = self.occupied();
                            let sliders = Bitboard(opp.bb[3].0 | opp.bb[4].0);
                            let exposed = Board::is_illegal_en_passant_discovery(
                                tile,
                                to,
                                kt,
                                occ,
                                sliders,
                            );
                            if !exposed {
                                let mv = self.create_move(
                                    tile,
                                    to,
                                    Piece::Pawn,
                                    Some(Piece::Pawn),
                                    None,
                                );
                                let ghost p0 = moves@;
                                moves.push(mv);
                                proof {
                                    lemma_push_contains(p0, mv);
                                    assert(pawn_capture_branch(bw, tile, dx as int, mv));
                                }
                            }
                        }
                    }
                } else {
                    proof {
                        assert(bit64(bw.player_of(!white).pieces.0, to.0 as u64));
                        assert(bw.piece_color_at(to) is Some) by {
                            if white {
                                if self.black.piece_at(to) is None {
                                    crate::player::lemma_piece_at_none(self.black, to);
                                }
                            } else {
                                if self.white.piece_at(to) is None {
                                    crate::player::lemma_piece_at_none(self.white, to);
                                }
                            }
                        }
                    }
                }
            },
        }
    }

    /// The pattern moves of a pawn of colour `white` on `tile`: single
    /// and double pushes, diagonal captures, en passant, and promotion
    /// expansion on the back rank.
    pub fn generate_pawn_moves(&self, tile: Tile, white: bool, moves: &mut MoveList)
        requires
            self.wf(),
            tile.wf(),
            self.player_of(white).one_king(),
        ensures
            forall|m: Move|
                #[trigger] final(moves)@.contains(m) <==> old(moves)@.contains(m) || pseudo_pawn(
                    with_turn(*self, white),
                    tile,
                    m,
                ),
            final(moves)@.len() >= old(moves)@.len(),
            forall|k: int|
                old(moves)@.len() <= k < final(moves)@.len() ==> (#[trigger] final(moves)@[k]).from
                    == tile,
            forall|a: int, b: int|
                old(moves)@.len() <= a < b < final(moves)@.len() ==> final(moves)@[a]
                    != final(moves)@[b],
            forall|k: int| 0 <= k < old(moves)@.len() ==> final(moves)@[k] == old(moves)@[k],
    {
        let ghost base = moves@.len();
        let ghost bw = with_turn(*self, white);
        let dy: i8 = if white {
            1
        } else {
            -1
        };
        let occ = self.occupied();
        match tile.offset(0, dy) {
            None => {},
            Some(one) => {
                if !occ.get_bit(one) {
                    self.push_pawn_expand(tile, one, white, None, moves);
                    proof {
                        crate::attacks::lemma_offset_coords(tile, one, 0, fw(white));
                    }
                    if tile.is_pawn_start(white) {
                        match one.offset(0, dy) {
                            None => {},
                            Some(two) => {
                                if !occ.get_bit(two) {
                                    proof {
                                        assert(tile.spec_offset(0, 2 * fw(white)) == Some(two));
                                        crate::attacks::lemma_offset_coords(one, two, 0, fw(white));
                                    }
                                    let mv = self.create_move(tile, two, Piece::Pawn, None, None);
                                    let ghost p0 = moves@;
                                    moves.push(mv);
                                    proof {
                                        lemma_push_contains(p0, mv);
                                    }
                                }
                            },
                        }
                    }
                }
            },
        }
        proof {
            assert forall|k: int| base <= k < moves@.len() implies (#[trigger] moves@[k]).from
                == tile && moves@[k].to.spec_file() == tile.spec_file() by {}
            assert forall|a: int, b: int|
                base <= a < b < moves@.len() implies moves@[a] != moves@[b] by {}
        }
        let ghost after_push = moves@;
        self.pawn_capture_side(tile, white, -1, moves);
        let ghost after_left = moves@;
        self.pawn_capture_side(tile, white, 1, moves);
        proof {
            assert forall|a: int, b: int|
                base <= a < b < moves@.len() implies moves@[a] != moves@[b] by {
                if b >= after_left.len() && a < after_left.len() {
                    crate::attacks::lemma_offset_coords(tile, moves@[b].to, 1, fw(white));
                    if a >= after_push.len() {
                        crate::attacks::lemma_offset_coords(tile, moves@[a].to, -1, fw(white));
                    } else {
                        assert(moves@[a].to.spec_file() == tile.spec_file());
                    }
                    assert(moves@[a].to != moves@[b].to);
                } else if b >= after_push.len() && b < after_left.len() && a < after_push.len() {
                    crate::attacks::lemma_offset_coords(tile, moves@[b].to, -1, fw(white));
                    assert(moves@[a].to.spec_file() == tile.spec_file());
                    assert(moves@[a].to != moves@[b].to);
                }
            }
        }
    }
}


/// A ray target is never the starting square.
proof fn lemma_ray_target_ne(t: Tile, occ: u64, to: Tile)
    requires
        t.wf(),
        to.wf(),
        rook_has(t, occ, to) || bishop_has(t, occ, to),
    ensures
        to != t,
{
    if rook_has(t, occ, to) {
        lemma_ray_ne(t, 1, 0, occ, to);
        lemma_ray_ne(t, -1, 0, occ, to);
        lemma_ray_ne(t, 0, 1, occ, to);
        lemma_ray_ne(t, 0, -1, occ, to);
    }
    if bishop_has(t, occ, to) {
        lemma_ray_ne(t, 1, 1, occ, to);
        lemma_ray_ne(t, 1, -1, occ, to);
        lemma_ray_ne(t, -1, 1, occ, to);
        lemma_ray_ne(t, -1, -1, occ, to);
    }
}

proof fn lemma_ray_ne(t: Tile, dx: int, dy: int, occ: u64, to: Tile)
    requires
        t.wf(),
        -1 <= dx <= 1,
        -1 <= dy <= 1,
        !(dx == 0 && dy == 0),
    ensures
        crate::attacks::ray_has(t, dx, dy, occ, to) ==> to != t,
{
    if crate::attacks::ray_has(t, dx, dy, occ, to) {
        let n = choose|n: nat|
            1 <= n && crate::attacks::ray_sq(t, dx, dy, n) == Some(to) && (forall|m: nat|
                1 <= m < n ==> (#[trigger] crate::attacks::ray_sq(t, dx, dy, m) matches Some(s)
                    && !bit64(occ, s.0 as u64)));
        crate::attacks::lemma_ray_coords(t, dx, dy, n);
        crate::attacks::lemma_mul_sign(n as int, dx);
        crate::attacks::lemma_mul_sign(n as int, dy);
    }
}

/// A jump or step target is never the starting square.
proof fn lemma_step_target_ne(t: Tile, to: Tile)
    requires
        t.wf(),
        knight_has(t, to) || king_has(t, to),
    ensures
        to != t,
{
    if knight_has(t, to) {
        let k = choose|k: int|
            0 <= k < 8 && t.spec_offset(
                crate::attacks::knight_off(k).0,
                crate::attacks::knight_off(k).1,
            ) == Some(to);
        crate::attacks::lemma_offset_coords(
            t,
            to,
            crate::attacks::knight_off(k).0,
            crate::attacks::knight_off(k).1,
        );
    }
    if king_has(t, to) {
        let k = choose|k: int|
            0 <= k < 8 && t.spec_offset(
                crate::attacks::king_off(k).0,
                crate::attacks::king_off(k).1,
            ) == Some(to);
        crate::attacks::lemma_offset_coords(
            t,
            to,
            crate::attacks::king_off(k).0,
            crate::attacks::king_off(k).1,
        );
    }
}

/// A pattern move of the side to move fits its position: the applied
/// fields agree with the board, so `make_move_unchecked` accepts it and
/// reverses it exactly.
pub proof fn lemma_pseudo_fits(b: Board, t: Tile, m: Move)
    requires
        b.wf(),
        pseudo_from(b, t, m),
        b.player_of(b.white_turn).piece_at(t) is Some,
        b.half_moves < 255,
        b.full_move < 0xFFFF_FFFFu32,
    ensures
        move_fits(b, m),
        m.from == t,
        m.piece == b.player_of(b.white_turn).piece_at(t)->Some_0,
        m.promoted_to != Some(Piece::King),
        m.capture != Some(Piece::King),
{
    let w = b.white_turn;
    let mover = b.player_of(w);
    let opp = b.player_of(!w);
    let p = mover.piece_at(t)->Some_0;
    crate::player::lemma_piece_at_some(mover, t);
    assert(cap_at(b, t) == Some(p)) by {
        if w {
            assert(b.piece_color_at(t) == Some((p, true)));
        } else {
            assert(!bit64(b.white.pieces.0, t.0 as u64));
            crate::player::lemma_no_bit_piece_none(b.white, t);
            assert(b.piece_color_at(t) == Some((p, false)));
        }
    }
    match p {
        Piece::Knight => {
            let to = choose|to: Tile|
                #![auto]
                to.wf() && knight_has(t, to) && !bit64(
                    b.player_of(b.white_turn).pieces.0,
                    to.0 as u64,
                ) && !bit64(b.player_of(!b.white_turn).bb[5].0, to.0 as u64) && m == gen_move(
                    b,
                    t,
                    to,
                    Piece::Knight,
                    cap_at(b, to),
                    None,
                );
            lemma_step_target_ne(t, to);
            lemma_normal_target_fits(b, t, to, Piece::Knight, m);
        },
        Piece::Bishop | Piece::Rook | Piece::Queen => {
            let to = choose|to: Tile|
                #![auto]
                to.wf() && (match p {
                    Piece::Rook => rook_has(t, b.occ(), to),
                    Piece::Bishop => bishop_has(t, b.occ(), to),
                    _ => rook_has(t, b.occ(), to) || bishop_has(t, b.occ(), to),
                }) && !bit64(b.player_of(b.white_turn).pieces.0, to.0 as u64) && !bit64(
                    b.player_of(!b.white_turn).bb[5].0,
                    to.0 as u64,
                ) && m == gen_move(b, t, to, p, cap_at(b, to), None);
            lemma_ray_target_ne(t, b.occ(), to);
            lemma_normal_target_fits(b, t, to, p, m);
        },
        Piece::King => {
            if king_step_move(b, t, m) {
                let to = choose|to: Tile|
                    #![auto]
                    to.wf() && king_has(t, to) && !bit64(
                        b.player_of(b.white_turn).pieces.0,
                        to.0 as u64,
                    ) && !bit64(b.player_of(!b.white_turn).bb[5].0, to.0 as u64)
                        && !b.side_attacks_has(!b.white_turn, Some(!b.white_turn), to) && m
                        == gen_move(b, t, to, Piece::King, cap_at(b, to), None);
                lemma_step_target_ne(t, to);
                assert(castle_rook_move(w, m.from, m.to) is None) by {
                    crate::attacks::lemma_king_reach_close(t, to);
                }
                lemma_normal_target_fits(b, t, to, Piece::King, m);
            } else {
                let e1: u8 = if w {
                    4
                } else {
                    60
                };
                assert(t.0 == e1);
                if can_castle_kingside(b, w) && m == gen_move(
                    b,
                    t,
                    Tile((e1 + 2) as u8),
                    Piece::King,
                    None,
                    None,
                ) {
                    let rf = Tile((e1 + 3) as u8);
                    let rt = Tile((e1 + 1) as u8);
                    assert(castle_rook_move(w, m.from, m.to) == Some((rf, rt)));
                    assert(!bit64(b.occ(), rt.0 as u64));
                    lemma_unocc_none(b, rt);
                    lemma_unocc_none(b, m.to);
                } else {
                    let rf = Tile((e1 - 4) as u8);
                    let rt = Tile((e1 - 1) as u8);
                    assert(castle_rook_move(w, m.from, m.to) == Some((rf, rt)));
                    assert(!bit64(b.occ(), rt.0 as u64));
                    lemma_unocc_none(b, rt);
                    lemma_unocc_none(b, m.to);
                }
            }
        },
        Piece::Pawn => {
            let fwd = fw(w);
            if t.spec_offset(0, fwd) is Some && !bit64(
                b.occ(),
                t.spec_offset(0, fwd)->Some_0.0 as u64,
            ) && promo_expand(b, t, t.spec_offset(0, fwd)->Some_0, None, m) {
                let one = t.spec_offset(0, fwd)->Some_0;
                crate::attacks::lemma_offset_coords(t, one, 0, fwd);
                lemma_promo_shape(b, t, one, None, m);
                lemma_unocc_none(b, one);
                assert(!is_double_push(m));
            } else if t.spec_rank() == (if w {
                1int
            } else {
                6
            }) && (t.spec_offset(0, fwd) matches Some(one) && !bit64(b.occ(), one.0 as u64)) && (
            t.spec_offset(0, 2 * fwd) matches Some(two) && !bit64(b.occ(), two.0 as u64) && m
                == gen_move(b, t, two, Piece::Pawn, None, None)) {
                let one = t.spec_offset(0, fwd)->Some_0;
                let two = t.spec_offset(0, 2 * fwd)->Some_0;
                crate::attacks::lemma_offset_coords(t, one, 0, fwd);
                crate::attacks::lemma_offset_coords(t, two, 0, 2 * fwd);
                lemma_unocc_none(b, two);
                assert(is_double_push(m));
                assert(m.to.spec_offset(0, -fwd) == Some(one)) by {
                    assert(two.spec_offset(0, -fwd) is Some);
                }
            } else if pawn_capture_branch(b, t, -1, m) {
                lemma_pawn_cap_fits(b, t, -1, m);
            } else {
                assert(pawn_capture_branch(b, t, 1, m));
                lemma_pawn_cap_fits(b, t, 1, m);
            }
        },
    }
}

/// A square outside the occupancy is empty of both sides.
proof fn lemma_unocc_none(b: Board, sq: Tile)
    requires
        b.wf(),
        sq.wf(),
        !bit64(b.occ(), sq.0 as u64),
    ensures
        b.piece_color_at(sq) is None,
        b.player_of(b.white_turn).piece_at(sq) is None,
        b.player_of(!b.white_turn).piece_at(sq) is None,
{
    crate::player::lemma_no_bit_piece_none(b.white, sq);
    crate::player::lemma_no_bit_piece_none(b.black, sq);
}

/// The shape of an expanded pawn arrival: the move's record fields.
proof fn lemma_promo_shape(b: Board, t: Tile, to: Tile, cap: Option<Piece>, m: Move)
    requires
        promo_expand(b, t, to, cap, m),
    ensures
        m.from == t,
        m.to == to,
        m.piece == Piece::Pawn,
        m.capture == cap,
        m.promoted_to != Some(Piece::King),
        m.promoted_to != Some(Piece::Pawn),
        m.en_passant == b.en_passant,
        m.prev_castle == b.castling,
        m.prev_half_moves == b.half_moves,
        m.white_cache == b.white_cache,
        m.black_cache == b.black_cache,
{
    if to.spec_rank() == (if b.white_turn {
        7int
    } else {
        0
    }) {
        let pk = choose|pk: Piece|
            #[trigger] is_promo_kind(pk) && m == gen_move(b, t, to, Piece::Pawn, cap, Some(pk));
    }
}

/// One capturing diagonal of a pawn fits the position.
proof fn lemma_pawn_cap_fits(b: Board, t: Tile, dx: int, m: Move)
    requires
        b.wf(),
        b.player_of(b.white_turn).piece_at(t) == Some(Piece::Pawn),
        pawn_capture_branch(b, t, dx, m),
        dx == -1 || dx == 1,
        b.half_moves < 255,
        b.full_move < 0xFFFF_FFFFu32,
    ensures
        move_fits(b, m),
        m.from == t,
        m.piece == Piece::Pawn,
        m.promoted_to != Some(Piece::King),
        m.capture != Some(Piece::King),
{
    let w = b.white_turn;
    let mover = b.player_of(w);
    let opp = b.player_of(!w);
    let to = t.spec_offset(dx, fw(w))->Some_0;
    crate::attacks::lemma_offset_coords(t, to, dx, fw(w));
    crate::player::lemma_piece_at_some(mover, t);
    if bit64(opp.pieces.0, to.0 as u64) && !bit64(opp.bb[5].0, to.0 as u64) && b.en_passant
        != Some(to) && promo_expand(b, t, to, Some(opp.piece_at(to)->Some_0), m) {
        lemma_promo_shape(b, t, to, Some(opp.piece_at(to)->Some_0), m);
        assert(opp.piece_at(to) is Some) by {
            if opp.piece_at(to) is None {
                crate::player::lemma_piece_at_none(opp, to);
            }
        }
        assert(opp.piece_at(to) != Some(Piece::King));
        assert(!is_ep_capture(m));
        assert(mover.piece_at(m.to) is None) by {
            if w {
                if bit64(b.white.pieces.0, to.0 as u64) {
                    assert(false);
                }
            } else {
                if bit64(b.black.pieces.0, to.0 as u64) {
                    assert(false);
                }
            }
            crate::player::lemma_no_bit_piece_none(mover, to);
        }
        assert(!is_double_push(m));
    } else {
        assert(b.en_passant == Some(to) && b.piece_color_at(to) is None && (to.spec_offset(
            0,
            -fw(w),
        ) matches Some(back) && opp.piece_at(back) == Some(Piece::Pawn)) && m == gen_move(
            b,
            t,
            to,
            Piece::Pawn,
            Some(Piece::Pawn),
            None,
        ));
        let back = to.spec_offset(0, -fw(w))->Some_0;
        crate::attacks::lemma_offset_coords(to, back, 0, -fw(w));
        assert(is_ep_capture(m));
        assert(back_of(m.to, w) == back);
        assert(back != m.from) by {
            if back == t {
                crate::player::lemma_piece_at_some(opp, back);
                assert(bit64(b.white.pieces.0, t.0 as u64) && bit64(b.black.pieces.0, t.0 as u64));
            }
        }
        assert(mover.piece_at(m.to) is None) by {
            if w {
                assert(b.white.piece_at(to) is None);
            } else {
                if b.black.piece_at(to) is Some {
                    crate::player::lemma_piece_at_some(b.black, to);
                    crate::player::lemma_no_bit_piece_none(b.white, to);
                    assert(b.piece_color_at(to) is Some);
                }
            }
        }
        assert(!is_double_push(m));
    }
}

/// A plain relocation or capture to `to` fits the position.
proof fn lemma_normal_target_fits(b: Board, t: Tile, to: Tile, p: Piece, m: Move)
    requires
        b.wf(),
        t.wf(),
        to.wf(),
        to != t,
        b.player_of(b.white_turn).piece_at(t) == Some(p),
        !bit64(b.player_of(b.white_turn).pieces.0, to.0 as u64),
        !bit64(b.player_of(!b.white_turn).bb[5].0, to.0 as u64),
        m == gen_move(b, t, to, p, cap_at(b, to), None),
        p != Piece::Pawn,
        p == Piece::King ==> castle_rook_move(b.white_turn, m.from, m.to) is None,
        b.half_moves < 255,
        b.full_move < 0xFFFF_FFFFu32,
    ensures
        move_fits(b, m),
        m.from == t,
        m.piece == p,
        m.promoted_to is None,
        m.capture != Some(Piece::King),
{
    let w = b.white_turn;
    let mover = b.player_of(w);
    let opp = b.player_of(!w);
    crate::player::lemma_piece_at_some(mover, t);
    crate::player::lemma_no_bit_piece_none(mover, to);
    assert(!is_ep_capture(m));
    assert(m.capture == cap_at(b, to));
    if b.piece_color_at(to) is Some {
        let (cp, cc) = b.piece_color_at(to)->Some_0;
        assert(cc != w) by {
            if w {
                if b.white.piece_at(to) is Some {
                    crate::player::lemma_piece_at_some(b.white, to);
                }
            } else {
                if b.black.piece_at(to) is Some {
                    crate::player::lemma_piece_at_some(b.black, to);
                }
            }
        }
        assert(opp.piece_at(to) == Some(cp)) by {
            if w {
                assert(b.white.piece_at(to) is None);
            } else {
                if b.white.piece_at(to) is Some {
                    crate::player::lemma_piece_at_some(b.white, to);
                    assert(bit64(b.white.pieces.0, to.0 as u64));
                }
            }
        }
        assert(cp != Piece::King) by {
            if opp.piece_at(to) == Some(Piece::King) {
                assert(bit64(opp.bb[5].0, to.0 as u64));
            }
        }
    } else {
        assert(m.capture is None);
    }
    assert(!is_double_push(m));
}


impl Board {
    /// The pattern moves of whatever piece stands on the square, moved
    /// by the side to move, pin and check constraints not yet applied.
    pub fn generate_psuedo_moves_from(&self, tile: Tile, moves: &mut MoveList)
        requires
            self.wf(),
            tile.wf(),
            self.kings_ok(),
        ensures
            forall|m: Move|
                #[trigger] final(moves)@.contains(m) <==> old(moves)@.contains(m) || pseudo_from(
                    *self,
                    tile,
                    m,
                ),
            final(moves)@.len() >= old(moves)@.len(),
            forall|k: int|
                old(moves)@.len() <= k < final(moves)@.len() ==> (#[trigger] final(moves)@[k]).from
                    == tile,
            forall|a: int, b: int|
                old(moves)@.len() <= a < b < final(moves)@.len() ==> final(moves)@[a]
                    != final(moves)@[b],
            forall|k: int| 0 <= k < old(moves)@.len() ==> final(moves)@[k] == old(moves)@[k],
    {
        proof {
            assert(with_turn(*self, self.white_turn) =~= *self);
        }
        match self.get_piece_at_tile(tile) {
            Some((p, _)) => {
                match p {
                    Piece::Pawn => self.generate_pawn_moves(tile, self.white_turn, moves),
                    Piece::Knight => self.generate_knight_moves(tile, self.white_turn, moves),
                    Piece::King => self.generate_king_moves(tile, self.white_turn, moves),
                    _ => self.generate_sliding_moves(tile, self.white_turn, p, moves),
                }
            },
            None => {},
        }
    }

    /// The legal moves of the piece on the square, for the side that
    /// owns it: its pattern moves, those that would leave that side's
    /// own king attacked taken out.
    pub fn generate_legal_moves_from(&self, tile: Tile, moves: &mut MoveList)
        requires
            self.wf(),
            tile.wf(),
            self.kings_ok(),
            self.half_moves < 255,
            self.full_move < 0xFFFF_FFFFu32,
        ensures
            self.piece_color_at(tile) matches Some((p, w)) ==> forall|m: Move|
                #[trigger] final(moves)@.contains(m) <==> old(moves)@.contains(m)
                    || legal_from_one(*self, w, tile, m),
            self.piece_color_at(tile) is None ==> final(moves)@ == old(moves)@,
            final(moves)@.len() >= old(moves)@.len(),
            forall|k: int|
                old(moves)@.len() <= k < final(moves)@.len() ==> (#[trigger] final(moves)@[k]).from
                    == tile,
            forall|a: int, b: int|
                old(moves)@.len() <= a < b < final(moves)@.len() ==> final(moves)@[a]
                    != final(moves)@[b],
            forall|k: int| 0 <= k < old(moves)@.len() ==> final(moves)@[k] == old(moves)@[k],
    {
        let ghost base = moves@.len();
        let got = self.get_piece_at_tile(tile);
        match got {
            None => {},
            Some((p, w)) => {
                let ghost bw = with_turn(*self, w);
                proof {
                    assert(bw.wf());
                    assert(bw.piece_color_at(tile) == self.piece_color_at(tile));
                    assert(bw.player_of(w).piece_at(tile) == Some(p)) by {
                        if w {
                            assert(self.white.piece_at(tile) == Some(p));
                        } else {
                            if self.white.piece_at(tile) is Some {
                                assert(self.piece_color_at(tile)->Some_0.1 == true);
                            }
                            assert(self.black.piece_at(tile) == Some(p));
                        }
                    }
                }
                let mut pseudo = MoveList::new();
                match p {
                    Piece::Pawn => self.generate_pawn_moves(tile, w, &mut pseudo),
                    Piece::Knight => self.generate_knight_moves(tile, w, &mut pseudo),
                    Piece::King => self.generate_king_moves(tile, w, &mut pseudo),
                    _ => self.generate_sliding_moves(tile, w, p, &mut pseudo),
                }
                proof {
                    assert(forall|m: Move|
                        #[trigger] pseudo@.contains(m) <==> pseudo_from(bw, tile, m)) by {
                        assert(cap_at(bw, tile) == Some(p));
                    }
                }
                let n = pseudo.len();
                let mut i: usize = 0;
                while i < n
                    invariant
                        self.wf(),
                        tile.wf(),
                        self.kings_ok(),
                        self.half_moves < 255,
                        self.full_move < 0xFFFF_FFFFu32,
                        bw == with_turn(*self, w),
                        bw.player_of(w).piece_at(tile) is Some,
                        n == pseudo@.len(),
                        i <= n,
                        forall|m: Move| #[trigger] pseudo@.contains(m) <==> pseudo_from(bw, tile, m),
                        forall|k: int|
                            0 <= k < pseudo@.len() ==> (#[trigger] pseudo@[k]).from == tile,
                        forall|a: int, b: int|
                            0 <= a < b < pseudo@.len() ==> pseudo@[a] != pseudo@[b],
                        forall|m: Move|
                            #[trigger] moves@.contains(m) <==> old(moves)@.contains(m) || exists|
                                j: int,
                            |
                                0 <= j < i && pseudo@[j] == m && !leaves_check(bw, m),
                        base <= moves@.len(),
                        forall|k: int| 0 <= k < base ==> moves@[k] == old(moves)@[k],
                        forall|k: int|
                            base <= k < moves@.len() ==> (#[trigger] moves@[k]).from == tile && (
                            exists|j: int| 0 <= j < i && moves@[k] == pseudo@[j]),
                        forall|a: int, b: int|
                            base <= a < b < moves@.len() ==> moves@[a] != moves@[b],
                    decreases n - i,
                {
                    let m = pseudo.get(i);
                    proof {
                        assert(pseudo@.contains(m));
                        lemma_pseudo_fits(bw, tile, m);
                        assert(bw.player_of(bw.white_turn).one_king());
                    }
                    let bad = self.move_leaves_check(m, w);
                    if !bad {
                        let ghost pre = moves@;
                        moves.push(m);
                        proof {
                            lemma_push_contains(pre, m);
                            assert(m == pseudo@[i as int]);
                            assert forall|a: int, b: int|
                                base <= a < b < moves@.len() implies moves@[a] != moves@[b] by {
                                if b == moves@.len() - 1 {
                                    let j = choose|j: int|
                                        0 <= j < i && moves@[a] == pseudo@[j];
                                    assert(pseudo@[j] != pseudo@[i as int]);
                                }
                            }
                            assert forall|mm: Move| #[trigger] moves@.contains(mm) <==> old(
                                moves,
                            )@.contains(mm) || exists|j: int|
                                0 <= j < i + 1 && pseudo@[j] == mm && !leaves_check(bw, mm) by {
                                if moves@.contains(mm) && !old(moves)@.contains(mm) {
                                    if mm == m {
                                        assert(pseudo@[i as int] == mm && !leaves_check(bw, mm));
                                    } else {
                                        let j = choose|j: int|
                                            0 <= j < i && pseudo@[j] == mm && !leaves_check(bw, mm);
                                        assert(0 <= j < i + 1 && pseudo@[j] == mm);
                                    }
                                }
                            }
                        }
                    } else {
                        proof {
                            assert forall|mm: Move| #[trigger] moves@.contains(mm) <==> old(
                                moves,
                            )@.contains(mm) || exists|j: int|
                                0 <= j < i + 1 && pseudo@[j] == mm && !leaves_check(bw, mm) by {
                                if !moves@.contains(mm) && !old(moves)@.contains(mm) {
                                    if exists|j: int|
                                        0 <= j < i + 1 && pseudo@[j] == mm && !leaves_check(
                                            bw,
                                            mm,
                                        ) {
                                        let j = choose|j: int|
                                            0 <= j < i + 1 && pseudo@[j] == mm && !leaves_check(
                                                bw,
                                                mm,
                                            );
                                        assert(j < i);
                                    }
                                }
                            }
                        }
                    }
                    i = i + 1;
                }
                proof {
                    assert forall|m: Move| #[trigger] moves@.contains(m) <==> old(
                        moves,
                    )@.contains(m) || legal_from_one(*self, w, tile, m) by {
                        if moves@.contains(m) && !old(moves)@.contains(m) {
                            let j = choose|j: int|
                                0 <= j < n && pseudo@[j] == m && !leaves_check(bw, m);
                            assert(pseudo@.contains(m));
                        }
                        if legal_from_one(*self, w, tile, m) {
                            assert(pseudo@.contains(m));
                            let j = choose|j: int| 0 <= j < pseudo@.len() && pseudo@[j] == m;
                        }
                    }
                }
            },
        }
    }

    /// Every legal move of the side of colour `white`: the legal moves
    /// of each of its pieces in turn.
    pub fn generate_legal_moves(&self, white: bool, moves: &mut MoveList)
        requires
            self.wf(),
            self.kings_ok(),
            self.half_moves < 255,
            self.full_move < 0xFFFF_FFFFu32,
        ensures
            forall|m: Move|
                #[trigger] final(moves)@.contains(m) <==> old(moves)@.contains(m) || legal_move(
                    *self,
                    white,
                    m,
                ),
            final(moves)@.len() >= old(moves)@.len(),
            forall|a: int, b: int|
                old(moves)@.len() <= a < b < final(moves)@.len() ==> final(moves)@[a]
                    != final(moves)@[b],
            forall|k: int| 0 <= k < old(moves)@.len() ==> final(moves)@[k] == old(moves)@[k],
    {
        let ghost base = moves@.len();
        let player = if white {
            &self.white
        } else {
            &self.black
        };
        let ghost orig: u64 = player.pieces.0;
        let mut it = player.pieces.iter();
        loop
            invariant
                self.wf(),
                self.kings_ok(),
                self.half_moves < 255,
                self.full_move < 0xFFFF_FFFFu32,
                orig == self.player_of(white).pieces.0,
                forall|k: u64| #[trigger] bit64(it.0, k) ==> bit64(orig, k),
                forall|m: Move|
                    #[trigger] moves@.contains(m) <==> old(moves)@.contains(m) || (exists|t: Tile|
                        #![auto]
                        t.wf() && bit64(orig, t.0 as u64) && !bit64(it.0, t.0 as u64)
                            && legal_from_one(*self, white, t, m)),
                base <= moves@.len(),
                forall|k: int| 0 <= k < base ==> moves@[k] == old(moves)@[k],
                forall|k: int|
                    base <= k < moves@.len() ==> (#[trigger] moves@[k]).from.wf() && bit64(
                        orig,
                        moves@[k].from.0 as u64,
                    ) && !bit64(it.0, moves@[k].from.0 as u64),
                forall|a: int, b: int|
                    base <= a < b < moves@.len() ==> moves@[a] != moves@[b],
            ensures
                it.0 == 0,
                base <= moves@.len(),
                forall|k: int| 0 <= k < base ==> moves@[k] == old(moves)@[k],
                forall|a: int, b: int|
                    base <= a < b < moves@.len() ==> moves@[a] != moves@[b],
                forall|m: Move|
                    #[trigger] moves@.contains(m) <==> old(moves)@.contains(m) || (exists|t: Tile|
                        #![auto]
                        t.wf() && bit64(orig, t.0 as u64) && legal_from_one(*self, white, t, m)),
            decreases popcnt64(it.0),
        {
            let ghost prev = it.0;
            let next = it.next();
            match next {
                None => {
                    break ;
                },
                Some(tile) => {
                    proof {
                        crate::bits::lemma_pop_below_except(it.0, prev, tile.0 as u64, 64);
                        assert(bit64(self.player_of(white).pieces.0, tile.0 as u64));
                        assert(self.piece_color_at(tile) matches Some((pp, cc)) && cc == white) by {
                            assert(self.player_of(white).some_kind_has(tile.0 as u64));
                            if white {
                                assert(self.white.piece_at(tile) is Some);
                            } else {
                                assert(self.black.piece_at(tile) is Some);
                                if self.white.piece_at(tile) is Some {
                                    crate::player::lemma_piece_at_some(self.white, tile);
                                    assert(false);
                                }
                            }
                        }
                    }
                    let ghost pre = moves@;
                    self.generate_legal_moves_from(tile, moves);
                    proof {
                        assert forall|a: int, b: int|
                            base <= a < b < moves@.len() implies moves@[a] != moves@[b] by {
                            if b >= pre.len() && a < pre.len() {
                                assert(moves@[b].from == tile);
                                assert(!bit64(prev, moves@[a].from.0 as u64));
                                assert(bit64(prev, tile.0 as u64));
                            }
                        }
                        assert forall|m: Move| #[trigger] moves@.contains(m) <==> old(
                            moves,
                        )@.contains(m) || (exists|t: Tile|
                            #![auto]
                            t.wf() && bit64(orig, t.0 as u64) && !bit64(it.0, t.0 as u64)
                                && legal_from_one(*self, white, t, m)) by {
                            if moves@.contains(m) && !old(moves)@.contains(m) {
                                if pre.contains(m) {
                                    let t = choose|t: Tile|
                                        #![auto]
                                        t.wf() && bit64(orig, t.0 as u64) && !bit64(
                                            prev,
                                            t.0 as u64,
                                        ) && legal_from_one(*self, white, t, m);
                                    assert(!bit64(it.0, t.0 as u64));
                                } else {
                                    assert(legal_from_one(*self, white, tile, m));
                                    assert(!bit64(it.0, tile.0 as u64));
                                }
                            }
                        }
                    }
                },
            }
        }
        proof {
            assert forall|m: Move| #[trigger] moves@.contains(m) <==> old(moves)@.contains(m)
                || legal_move(*self, white, m) by {
                if moves@.contains(m) && !old(moves)@.contains(m) {
                    let t = choose|t: Tile|
                        #![auto]
                        t.wf() && bit64(orig, t.0 as u64) && legal_from_one(*self, white, t, m);
                    assert(pseudo_from(with_turn(*self, white), t, m));
                    lemma_pseudo_fits(with_turn(*self, white), t, m);
                    assert(m.from == t);
                    assert(legal_move(*self, white, m));
                }
                if legal_move(*self, white, m) {
                    assert(legal_from_one(*self, white, m.from, m));
                    crate::player::lemma_piece_at_some(self.player_of(white), m.from);
                    assert(bit64(orig, m.from.0 as u64));
                }
            }
        }
    }
}

/// Whether a square is attacked reads the two sides alone.
proof fn lemma_attacked_congr(b1: Board, b2: Board, t: Tile, c: bool)
    requires
        b1.white == b2.white,
        b1.black == b2.black,
    ensures
        b1.attacked(t, c) == b2.attacked(t, c),
{
    assert(b1.player_of(c) == b2.player_of(c));
    assert(b1.occ() == b2.occ());
    if b1.attacked(t, c) {
        let att = b1.player_of(c);
        let j = choose|j: Tile|
            #![auto]
            j.wf() && ((bit64(att.bb[3].0 | att.bb[4].0, j.0 as u64) && rook_has(t, b1.occ(), j))
                || (bit64(att.bb[2].0 | att.bb[4].0, j.0 as u64) && bishop_has(t, b1.occ(), j)) || (
            bit64(att.bb[1].0, j.0 as u64) && knight_has(t, j)) || (bit64(att.bb[0].0, j.0 as u64)
                && pawn_has(t, !c, j)));
        assert(b2.attacked(t, c));
    }
    if b2.attacked(t, c) {
        let att = b2.player_of(c);
        let j = choose|j: Tile|
            #![auto]
            j.wf() && ((bit64(att.bb[3].0 | att.bb[4].0, j.0 as u64) && rook_has(t, b2.occ(), j))
                || (bit64(att.bb[2].0 | att.bb[4].0, j.0 as u64) && bishop_has(t, b2.occ(), j)) || (
            bit64(att.bb[1].0, j.0 as u64) && knight_has(t, j)) || (bit64(att.bb[0].0, j.0 as u64)
                && pawn_has(t, !c, j)));
        assert(b1.attacked(t, c));
    }
}

/// A pattern move reads only what `core_eq` fixes.
proof fn lemma_pseudo_congr(b1: Board, b2: Board, t: Tile, m: Move)
    requires
        crate::board::movement::core_eq(b1, b2),
    ensures
        pseudo_from(b1, t, m) == pseudo_from(b2, t, m),
{
    let w = b1.white_turn;
    assert(b1.piece_color_at(t) == b2.piece_color_at(t));
    assert forall|from: Tile, to: Tile, piece: Piece, cap: Option<Piece>, promo: Option<Piece>|
        #[trigger] gen_move(b1, from, to, piece, cap, promo) == gen_move(
        b2,
        from,
        to,
        piece,
        cap,
        promo,
    ) by {
    }
    lemma_attacked_congr(b1, b2, Tile(if w { 4 } else { 60 }), !w);
    lemma_attacked_congr(b1, b2, Tile(if w { 5 } else { 61 }), !w);
    lemma_attacked_congr(b1, b2, Tile(if w { 6 } else { 62 }), !w);
    lemma_attacked_congr(b1, b2, Tile(if w { 3 } else { 59 }), !w);
    lemma_attacked_congr(b1, b2, Tile(if w { 2 } else { 58 }), !w);
    assert(can_castle_kingside(b1, w) == can_castle_kingside(b2, w));
    assert(can_castle_queenside(b1, w) == can_castle_queenside(b2, w));
}

/// Check and mate read only what `core_eq` fixes.
pub proof fn lemma_check_state_congr(b1: Board, b2: Board, w: bool)
    requires
        crate::board::movement::core_eq(b1, b2),
    ensures
        b1.in_check(w) == b2.in_check(w),
        crate::board::check_mate::checkmate_spec(b1, w) == crate::board::check_mate::checkmate_spec(
            b2,
            w,
        ),
{
    assert(b1.king_sq(w) == b2.king_sq(w));
    lemma_attacked_congr(b1, b2, b1.king_sq(w), !w);
    assert forall|m: Move| legal_move(b1, w, m) == legal_move(b2, w, m) by {
        lemma_legal_congr(b1, b2, w, m);
    }
}

/// Legality reads only what `core_eq` fixes: the histories play no part.
pub proof fn lemma_legal_congr(b1: Board, b2: Board, w: bool, m: Move)
    requires
        crate::board::movement::core_eq(b1, b2),
    ensures
        legal_move(b1, w, m) == legal_move(b2, w, m),
{
    lemma_pseudo_congr(with_turn(b1, w), with_turn(b2, w), m.from, m);
    assert(leaves_check(with_turn(b1, w), m) == leaves_check(with_turn(b2, w), m)) by {
        let c1 = with_turn(b1, w);
        let c2 = with_turn(b2, w);
        assert(applied_mover(c1, m) == applied_mover(c2, m));
        assert(applied_opp(c1, m) == applied_opp(c2, m));
        let aw = if w {
            applied_mover(c1, m)
        } else {
            applied_opp(c1, m)
        };
        let ab = if w {
            applied_opp(c1, m)
        } else {
            applied_mover(c1, m)
        };
        lemma_attacked_congr(
            Board { white: aw, black: ab, ..c1 },
            Board { white: aw, black: ab, ..c2 },
            king_of(if w {
                aw
            } else {
                ab
            }),
            !w,
        );
    }
}


/// An en-passant capture would uncover a rank attack on the king: the
/// king shares the capturing pawn's rank, and with both pawns lifted
/// off, the first piece along the rank on either side of the king is an
/// enemy rook or queen.
pub open spec fn ep_discovery_spec(cp: Tile, ep: Tile, kt: Tile, occ: u64, sliders: u64) -> bool {
    &&& kt.spec_rank() == cp.spec_rank()
    &&& (ep.spec_offset(
        0,
        if ep.spec_rank() > cp.spec_rank() {
            -1int
        } else {
            1
        },
    ) matches Some(capt) && {
        let occ2 = occ & !(1u64 << cp.0) & !(1u64 << capt.0);
        exists|j: Tile|
            #![auto]
            j.wf() && (rook_has(kt, occ2, j) && bit64(occ2, j.0 as u64) && bit64(
                sliders,
                j.0 as u64,
            ) && j.spec_rank() == kt.spec_rank())
    })
}

impl Board {
    /// Whether capturing en passant would expose the king along its
    /// rank: the one case ordinary pin detection cannot see, because the
    /// captured pawn, not the capturing one, blocks the attack.
    pub fn is_illegal_en_passant_discovery(
        capturing_pawn_tile: Tile,
        ep_target_tile: Tile,
        king_tile: Tile,
        occupied: Bitboard,
        opponent_sliders: Bitboard,
    ) -> (r: bool)
        requires
            capturing_pawn_tile.wf(),
            ep_target_tile.wf(),
            king_tile.wf(),
        ensures
            r == ep_discovery_spec(
                capturing_pawn_tile,
                ep_target_tile,
                king_tile,
                occupied.0,
                opponent_sliders.0,
            ),
    {
        let (_, king_rank) = king_tile.get_coords();
        let (_, pawn_rank) = capturing_pawn_tile.get_coords();
        let (_, ep_rank) = ep_target_tile.get_coords();
        if king_rank != pawn_rank {
            return false;
        }
        let step: i8 = if ep_rank > pawn_rank {
            -1
        } else {
            1
        };
        let captured = match ep_target_tile.offset(0, step) {
            Some(t) => t,
            None => {
                return false;
            },
        };
        let occ2 = Bitboard(
            occupied.0 & !(1u64 << capturing_pawn_tile.to_u8()) & !(1u64 << captured.to_u8()),
        );
        let reach = crate::attacks::rook_attacks_on(king_tile, occ2);
        let hits = reach.0 & occ2.0 & opponent_sliders.0;
        let mut found = false;
        let mut it = Bitboard(hits).iter();
        loop
            invariant
                king_tile.wf(),
                hits == reach.0 & occ2.0 & opponent_sliders.0,
                forall|j: Tile|
                    j.wf() ==> (#[trigger] bit64(reach.0, j.0 as u64) <==> rook_has(
                        king_tile,
                        occ2.0,
                        j,
                    )),
                forall|k: u64| #[trigger] bit64(it.0, k) ==> bit64(hits, k),
                found ==> exists|j: Tile|
                    #![auto]
                    j.wf() && rook_has(king_tile, occ2.0, j) && bit64(occ2.0, j.0 as u64) && bit64(
                        opponent_sliders.0,
                        j.0 as u64,
                    ) && j.spec_rank() == king_tile.spec_rank(),
                !found ==> forall|k: u64|
                    bit64(hits, k) && !bit64(it.0, k) ==> Tile(k as u8).spec_rank()
                        != king_tile.spec_rank(),
                king_rank == king_tile.spec_rank(),
            ensures
                it.0 == 0,
                found ==> exists|j: Tile|
                    #![auto]
                    j.wf() && rook_has(king_tile, occ2.0, j) && bit64(occ2.0, j.0 as u64) && bit64(
                        opponent_sliders.0,
                        j.0 as u64,
                    ) && j.spec_rank() == king_tile.spec_rank(),
                !found ==> forall|k: u64|
                    bit64(hits, k) ==> Tile(k as u8).spec_rank() != king_tile.spec_rank(),
            decreases crate::bits::popcnt64(it.0),
        {
            let ghost prev = it.0;
            let next = it.next();
            match next {
                None => {
                    break ;
                },
                Some(t) => {
                    proof {
                        crate::bits::lemma_pop_below_except(it.0, prev, t.0 as u64, 64);
                        assert(bit64(hits, t.0 as u64));
                        crate::bits::lemma_bit_and(reach.0 & occ2.0, opponent_sliders.0, t.0 as u64);
                        crate::bits::lemma_bit_and(reach.0, occ2.0, t.0 as u64);
                        assert(bit64(reach.0, t.0 as u64) && bit64(occ2.0, t.0 as u64) && bit64(
                            opponent_sliders.0,
                            t.0 as u64,
                        ));
                        assert(rook_has(king_tile, occ2.0, t));
                    }
                    let (_, tr) = t.get_coords();
                    if tr == king_rank {
                        found = true;
                        proof {
                            assert(t.wf() && rook_has(king_tile, occ2.0, t) && bit64(
                                occ2.0,
                                t.0 as u64,
                            ) && bit64(opponent_sliders.0, t.0 as u64) && t.spec_rank()
                                == king_tile.spec_rank());
                            assert(exists|j: Tile|
                                #![auto]
                                j.wf() && rook_has(king_tile, occ2.0, j) && bit64(
                                    occ2.0,
                                    j.0 as u64,
                                ) && bit64(opponent_sliders.0, j.0 as u64) && j.spec_rank()
                                    == king_tile.spec_rank());
                        }
                    }
                    proof {
                        assert forall|k: u64|
                            bit64(hits, k) && !bit64(it.0, k) && !found implies Tile(
                            k as u8,
                        ).spec_rank() != king_tile.spec_rank() by {
                            if k == t.0 as u64 {
                                assert(Tile(k as u8) == t);
                            }
                        }
                    }
                },
            }
        }
        proof {
            if found {
                assert(ep_discovery_spec(
                    capturing_pawn_tile,
                    ep_target_tile,
                    king_tile,
                    occupied.0,
                    opponent_sliders.0,
                ));
            } else {
                if ep_discovery_spec(
                    capturing_pawn_tile,
                    ep_target_tile,
                    king_tile,
                    occupied.0,
                    opponent_sliders.0,
                ) {
                    let j = choose|j: Tile|
                        #![auto]
                        j.wf() && (rook_has(king_tile, occ2.0, j) && bit64(occ2.0, j.0 as u64)
                            && bit64(opponent_sliders.0, j.0 as u64) && j.spec_rank()
                            == king_tile.spec_rank());
                    crate::bits::lemma_bit_and(reach.0 & occ2.0, opponent_sliders.0, j.0 as u64);
                    crate::bits::lemma_bit_and(reach.0, occ2.0, j.0 as u64);
                    assert(bit64(reach.0, j.0 as u64));
                    assert(bit64(hits, j.0 as u64));
                    assert(Tile((j.0 as u64) as u8) == j);
                    assert(false);
                }
            }
        }
        found
    }
}

} // verus!
