//! The engine's reversibility law: applying a fitting move and then
//! undoing it restores every observable field of the position.

use vstd::prelude::*;
use crate::bits::bit64;
use crate::board::Board;
use crate::moves::Move;
use crate::piece::Piece;
use crate::player::{Player, spec_removed, spec_placed, lemma_removed_wf, lemma_placed_wf,
    lemma_remove_place_inverse, lemma_place_remove_inverse, lemma_piece_at_none,
    lemma_piece_at_some};
use crate::board::movement::{move_fits, is_applied, is_undone, undo_fits, applied_mover,
    applied_opp, undone_mover, undone_opp, is_ep_capture, cap_tile, back_of, castle_rook_move};
use crate::tile::Tile;

verus! {

broadcast use crate::bits::group_bit_lemmas, vstd::array::group_array_axioms;

/// The mover's side comes back to itself: taking back the relocation,
/// the promotion exchange and the castling rook returns the side the
/// move started from.
proof fn lemma_mover_roundtrip(b: Board, m: Move, a: Board)
    requires
        b.wf(),
        move_fits(b, m),
        is_applied(b, m, a),
        a.history@.len() > 0,
        a.history@.last().0 == m,
    ensures
        undone_mover(a) == b.player_of(b.white_turn),
{
    let w = b.white_turn;
    let p0 = b.player_of(w);
    let k = m.piece;
    let kt = m.to.0 as u64;
    assert(!a.white_turn == w);
    assert(a.player_of(w) == applied_mover(b, m));
    lemma_piece_at_some(p0, m.from);
    assert(p0.piece_at(m.to) is None);
    lemma_removed_wf(p0, k, m.from);
    let x = spec_removed(p0, k, m.from);
    assert(!bit64(x.pieces.0, kt)) by {
        crate::bits::lemma_bit_single(m.from.0 as u64, kt);
        if bit64(p0.pieces.0, kt) {
            assert(p0.some_kind_has(kt));
            let j = choose|j: int| 0 <= j < 6 && bit64(p0.bb[j].0, kt);
            assert(p0.piece_at(m.to) is Some);
        }
    }
    lemma_placed_wf(x, k, m.to);
    let a1 = spec_placed(x, k, m.to);
    // undoing the relocation alone restores the side
    lemma_place_remove_inverse(x, k, m.to);
    lemma_remove_place_inverse(p0, k, m.from);
    assert(spec_placed(spec_removed(a1, k, m.to), k, m.from) == p0);
    if m.promoted_to is Some {
        let pp = m.promoted_to->Some_0;
        // the promotion exchange on the destination reverses first
        assert(castle_rook_move(w, m.from, m.to) is None || m.piece != Piece::King);
        assert(applied_mover(b, m) == spec_placed(spec_removed(a1, k, m.to), pp, m.to));
        lemma_removed_wf(a1, k, m.to);
        let y = spec_removed(a1, k, m.to);
        assert(!bit64(y.pieces.0, kt)) by {
            crate::bits::lemma_bit_single(kt, kt);
        }
        lemma_placed_wf(y, pp, m.to);
        let a2 = spec_placed(y, pp, m.to);
        lemma_place_remove_inverse(y, pp, m.to);
        assert(spec_removed(a2, pp, m.to) == y);
        lemma_remove_place_inverse(a1, k, m.to);
        assert(spec_placed(y, k, m.to) == a1);
        assert(undone_mover(a) == spec_placed(
            spec_removed(spec_placed(spec_removed(a2, pp, m.to), k, m.to), k, m.to),
            k,
            m.from,
        ));
        assert(undone_mover(a) == p0);
    } else if m.piece == Piece::King && castle_rook_move(w, m.from, m.to) is Some {
        let (rf, rt) = castle_rook_move(w, m.from, m.to)->Some_0;
        let rfu = rf.0 as u64;
        let rtu = rt.0 as u64;
        assert(applied_mover(b, m) == spec_placed(
            spec_removed(a1, Piece::Rook, rf),
            Piece::Rook,
            rt,
        ));
        assert(p0.piece_at(rf) == Some(Piece::Rook));
        assert(a1.piece_at(rf) == Some(Piece::Rook)) by {
            assert(rf != m.from && rf != m.to);
        }
        lemma_removed_wf(a1, Piece::Rook, rf);
        let z = spec_removed(a1, Piece::Rook, rf);
        assert(!bit64(z.pieces.0, rtu)) by {
            crate::bits::lemma_bit_single(rfu, rtu);
            assert(rt != m.from && rt != m.to && rt != rf);
            assert(b.piece_color_at(rt) is None);
            lemma_piece_at_none(p0, rt);
            assert(a1.piece_at(rt) is None);
            lemma_piece_at_none(a1, rt);
        }
        lemma_placed_wf(z, Piece::Rook, rt);
        let a3 = spec_placed(z, Piece::Rook, rt);
        lemma_place_remove_inverse(z, Piece::Rook, rt);
        assert(spec_removed(a3, Piece::Rook, rt) == z);
        lemma_remove_place_inverse(a1, Piece::Rook, rf);
        assert(spec_placed(z, Piece::Rook, rf) == a1);
        assert(undone_mover(a) == spec_placed(spec_removed(a1, k, m.to), k, m.from));
        assert(undone_mover(a) == p0);
    } else {
        assert(applied_mover(b, m) == a1);
        assert(undone_mover(a) == spec_placed(spec_removed(a1, k, m.to), k, m.from));
        assert(undone_mover(a) == p0);
    }
}

/// The opponent's side comes back to itself: the captured piece is put
/// back where it was taken.
proof fn lemma_opp_roundtrip(b: Board, m: Move, a: Board)
    requires
        b.wf(),
        move_fits(b, m),
        is_applied(b, m, a),
        a.history@.len() > 0,
        a.history@.last().0 == m,
    ensures
        undone_opp(a) == b.player_of(!b.white_turn),
{
    let w = b.white_turn;
    let o0 = b.player_of(!w);
    if m.capture is Some {
        let p = m.capture->Some_0;
        let ct = cap_tile(m, w);
        assert(o0.piece_at(ct) == Some(p));
        lemma_piece_at_some(o0, ct);
        lemma_remove_place_inverse(o0, p, ct);
        assert(undone_opp(a) == spec_placed(spec_removed(o0, p, ct), p, ct));
    }
}

/// Apply/undo inverse law: a move that fits a position (as every move a
/// generation pass builds does), once applied and then undone, leaves
/// every observable field of the position as it was: piece placement,
/// side to move, castling rights, en-passant target, clocks, histories
/// and check memo slots.
pub proof fn lemma_apply_undo(b: Board, m: Move, a: Board, u: Board)
    requires
        b.wf(),
        move_fits(b, m),
        is_applied(b, m, a),
        is_undone(a, u),
    ensures
        u.white == b.white,
        u.black == b.black,
        u.castling == b.castling,
        u.white_turn == b.white_turn,
        u.en_passant == b.en_passant,
        u.half_moves == b.half_moves,
        u.full_move == b.full_move,
        u.history@ == b.history@,
        u.repetition_history@ == b.repetition_history@,
        u.white_cache == b.white_cache,
        u.black_cache == b.black_cache,
{
    let w = b.white_turn;
    assert(a.history@.len() > 0 && a.history@.last().0 == m);
    lemma_mover_roundtrip(b, m, a);
    lemma_opp_roundtrip(b, m, a);
    assert(u.history@ == b.history@) by {
        assert(u.history@ == a.history@.drop_last());
    }
    assert(u.repetition_history@ =~= b.repetition_history@) by {
        assert(a.repetition_history@ == b.repetition_history@.push(crate::zobrist::spec_zobrist(a)));
    }
    if w {
        assert(u.white == undone_mover(a) && u.black == undone_opp(a));
    } else {
        assert(u.black == undone_mover(a) && u.white == undone_opp(a));
    }
}

/// The position a fitting move produces is ready to be undone: the moved
/// or promoted piece stands on the destination, the source is free, and
/// the capture and castling squares are as `undo_move` expects them.
pub proof fn lemma_applied_undo_fits(b: Board, m: Move, a: Board)
    requires
        b.wf(),
        move_fits(b, m),
        is_applied(b, m, a),
    ensures
        undo_fits(a),
{
    let w = b.white_turn;
    let p0 = b.player_of(w);
    let o0 = b.player_of(!w);
    let k = m.piece;
    assert(a.history@.len() > 0 && a.history@.last().0 == m);
    assert(!a.white_turn == w);
    assert(a.player_of(w) == applied_mover(b, m));
    assert(a.player_of(!w) == applied_opp(b, m));
    lemma_piece_at_some(p0, m.from);
    lemma_removed_wf(p0, k, m.from);
    let x = spec_removed(p0, k, m.from);
    assert(!bit64(x.pieces.0, m.to.0 as u64)) by {
        crate::bits::lemma_bit_single(m.from.0 as u64, m.to.0 as u64);
        if bit64(p0.pieces.0, m.to.0 as u64) {
            crate::player::lemma_no_bit_piece_none(p0, m.to);
            assert(p0.some_kind_has(m.to.0 as u64));
            assert(p0.piece_at(m.to) is Some);
        }
    }
    lemma_placed_wf(x, k, m.to);
    let a1 = spec_placed(x, k, m.to);
    assert(a1.piece_at(m.to) == Some(k));
    assert(a1.piece_at(m.from) is None);
    // the opponent never stood on the source square
    assert(o0.piece_at(m.from) is None) by {
        if bit64(o0.pieces.0, m.from.0 as u64) {
            assert(bit64(b.white.pieces.0, m.from.0 as u64) && bit64(
                b.black.pieces.0,
                m.from.0 as u64,
            ));
        }
        crate::player::lemma_no_bit_piece_none(o0, m.from);
    }
    assert(applied_opp(b, m).piece_at(m.from) is None) by {
        if m.capture is Some {
            lemma_removed_wf(o0, m.capture->Some_0, cap_tile(m, w));
            assert(cap_tile(m, w) != m.from);
        }
    }
    if m.promoted_to is Some {
        let pp = m.promoted_to->Some_0;
        lemma_removed_wf(a1, k, m.to);
        let y = spec_removed(a1, k, m.to);
        assert(!bit64(y.pieces.0, m.to.0 as u64)) by {
            crate::bits::lemma_bit_single(m.to.0 as u64, m.to.0 as u64);
        }
        lemma_placed_wf(y, pp, m.to);
        assert(a.player_of(w).piece_at(m.to) == Some(pp));
        assert(a.player_of(w).piece_at(m.from) is None);
    } else if m.piece == Piece::King && castle_rook_move(w, m.from, m.to) is Some {
        let (rf, rt) = castle_rook_move(w, m.from, m.to)->Some_0;
        assert(a1.piece_at(rf) == Some(Piece::Rook)) by {
            assert(rf != m.from && rf != m.to);
        }
        lemma_removed_wf(a1, Piece::Rook, rf);
        let z = spec_removed(a1, Piece::Rook, rf);
        assert(!bit64(z.pieces.0, rt.0 as u64)) by {
            crate::bits::lemma_bit_single(rf.0 as u64, rt.0 as u64);
            assert(rt != m.from && rt != m.to && rt != rf);
            lemma_piece_at_none(p0, rt);
            assert(a1.piece_at(rt) is None);
            lemma_piece_at_none(a1, rt);
        }
        lemma_placed_wf(z, Piece::Rook, rt);
        assert(a.player_of(w).piece_at(rt) == Some(Piece::Rook));
        assert(a.player_of(w).piece_at(m.to) == Some(k)) by {
            assert(m.to != rt && m.to != rf);
        }
        assert(a.player_of(w).piece_at(m.from) is None) by {
            assert(m.from != rt && m.from != rf);
        }
        // the vacated rook corner is free on both sides
        assert(a.player_of(w).piece_at(rf) is None);
        assert(o0.piece_at(rf) is None) by {
            lemma_piece_at_some(p0, rf);
            if bit64(o0.pieces.0, rf.0 as u64) {
                assert(bit64(b.white.pieces.0, rf.0 as u64) && bit64(
                    b.black.pieces.0,
                    rf.0 as u64,
                ));
            }
            crate::player::lemma_no_bit_piece_none(o0, rf);
        }
        assert(a.player_of(!w).piece_at(rf) is None);
    } else {
        assert(a.player_of(w).piece_at(m.to) == Some(k));
        assert(a.player_of(w).piece_at(m.from) is None);
    }
    if is_ep_capture(m) {
        let back = back_of(m.to, w);
        assert(back != m.to) by {
            assert(back.spec_rank() != m.to.spec_rank());
        }
        // the victim square is free on both sides after the capture
        assert(applied_opp(b, m).piece_at(back) is None) by {
            lemma_removed_wf(o0, Piece::Pawn, back);
        }
        assert(a.player_of(w).piece_at(back) is None) by {
            lemma_piece_at_some(o0, back);
            assert(!bit64(p0.pieces.0, back.0 as u64)) by {
                if bit64(p0.pieces.0, back.0 as u64) {
                    assert(bit64(b.white.pieces.0, back.0 as u64) && bit64(
                        b.black.pieces.0,
                        back.0 as u64,
                    ));
                }
            }
            crate::player::lemma_no_bit_piece_none(p0, back);
            assert(back != m.from && back != m.to);
            assert(a1.piece_at(back) is None);
        }
    }
}

/// Generation consistency law: the legal moves of the whole-board pass,
/// filtered to one source square, are exactly the moves the single-
/// square pass produces for that square.
pub proof fn lemma_generation_consistency(
    b: Board,
    w: bool,
    t: Tile,
    all: Seq<crate::moves::Move>,
    single: Seq<crate::moves::Move>,
)
    requires
        b.wf(),
        t.wf(),
        b.player_of(w).piece_at(t) is Some,
        b.half_moves < 255,
        b.full_move < 0xFFFF_FFFFu32,
        forall|m: crate::moves::Move| #[trigger] all.contains(m) <==> crate::board::movegen::legal_move(b, w, m),
        forall|m: crate::moves::Move| #[trigger] single.contains(m)
            <==> crate::board::movegen::legal_from_one(b, w, t, m),
    ensures
        forall|m: crate::moves::Move|
            (#[trigger] all.contains(m) && m.from == t) <==> single.contains(m),
{
    assert forall|m: crate::moves::Move| (#[trigger] all.contains(m) && m.from == t)
        <==> single.contains(m) by {
        if single.contains(m) {
            crate::board::movegen::lemma_pseudo_fits(crate::board::movegen::with_turn(b, w), t, m);
            assert(m.from == t);
            assert(crate::board::movegen::legal_move(b, w, m));
        }
    }
}

/// Check invariant law: a legal move never leaves the mover's own king
/// attacked; positions that would are excluded by generation itself, not
/// rejected afterwards.
pub proof fn lemma_check_invariant(b: Board, w: bool, m: crate::moves::Move)
    requires
        crate::board::movegen::legal_move(b, w, m),
    ensures
        !crate::board::movegen::leaves_check(crate::board::movegen::with_turn(b, w), m),
{
}

} // verus!
