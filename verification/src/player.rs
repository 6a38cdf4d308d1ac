//! One side's state: six per-kind bitboards and their aggregate.

use vstd::prelude::*;
use crate::bits::{bit64, popcnt64};
use crate::bitboard::Bitboard;
use crate::piece::Piece;
use crate::tile::Tile;

verus! {

broadcast use crate::bits::group_bit_lemmas, vstd::array::group_array_axioms;

/// One side's pieces: `bb[k]` holds the squares of the kind with ordinal
/// `k`, and `pieces` their union.
#[derive(Debug, Clone, PartialEq, Eq)]
#[verifier::ext_equal]
pub struct Player {
    pub bb: [Bitboard; 6],
    pub pieces: Bitboard,
}

impl Player {
    /// Some kind's board holds square `k`.
    pub open spec fn some_kind_has(self, k: u64) -> bool {
        exists|i: int| 0 <= i < 6 && bit64(self.bb[i].0, k)
    }

    /// The side's well-formedness: the aggregate is the union of the six
    /// boards, and no square is claimed by two kinds.
    pub open spec fn wf(self) -> bool {
        &&& forall|k: u64| #[trigger] bit64(self.pieces.0, k) <==> self.some_kind_has(k)
        &&& forall|i: int, j: int, k: u64|
            #![trigger bit64(self.bb[i].0, k), bit64(self.bb[j].0, k)]
            0 <= i < 6 && 0 <= j < 6 && i != j ==> !(bit64(self.bb[i].0, k) && bit64(
                self.bb[j].0,
                k,
            ))
    }

    /// The side holds exactly one king.
    pub open spec fn one_king(self) -> bool {
        popcnt64(self.bb[5].0) == 1
    }

    /// The kind of the piece on a square, if the side has one there.
    pub open spec fn piece_at(self, t: Tile) -> Option<Piece> {
        let k = t.0 as u64;
        if bit64(self.bb[0].0, k) {
            Some(Piece::Pawn)
        } else if bit64(self.bb[1].0, k) {
            Some(Piece::Knight)
        } else if bit64(self.bb[2].0, k) {
            Some(Piece::Bishop)
        } else if bit64(self.bb[3].0, k) {
            Some(Piece::Rook)
        } else if bit64(self.bb[4].0, k) {
            Some(Piece::Queen)
        } else if bit64(self.bb[5].0, k) {
            Some(Piece::King)
        } else {
            None
        }
    }

    /// A side with no pieces at all.
    pub fn new_empty() -> (r: Self)
        ensures
            r.wf(),
            forall|i: int| 0 <= i < 6 ==> r.bb[i].0 == 0,
            r.pieces.0 == 0,
    {
        let p = Player {
            bb: [
                Bitboard(0),
                Bitboard(0),
                Bitboard(0),
                Bitboard(0),
                Bitboard(0),
                Bitboard(0),
            ],
            pieces: Bitboard(0),
        };
        proof {
            assert forall|k: u64| #[trigger] bit64(p.pieces.0, k) <==> p.some_kind_has(k) by {
                crate::bits::lemma_bit_zero(k);
            }
        }
        p
    }

    /// The standard white starting position.
    pub fn new_white() -> (r: Self)
        ensures
            r.wf(),
            r.one_king(),
            r.bb[0].0 == 0x0000_0000_0000_FF00u64,
            r.bb[1].0 == 0x0000_0000_0000_0042u64,
            r.bb[2].0 == 0x0000_0000_0000_0024u64,
            r.bb[3].0 == 0x0000_0000_0000_0081u64,
            r.bb[4].0 == 0x0000_0000_0000_0008u64,
            r.bb[5].0 == 0x0000_0000_0000_0010u64,
            r.pieces.0 == 0x0000_0000_0000_FFFFu64,
    {
        let p = Player {
            bb: [
                Bitboard(0x0000_0000_0000_FF00),
                Bitboard(0x0000_0000_0000_0042),
                Bitboard(0x0000_0000_0000_0024),
                Bitboard(0x0000_0000_0000_0081),
                Bitboard(0x0000_0000_0000_0008),
                Bitboard(0x0000_0000_0000_0010),
            ],
            pieces: Bitboard(0x0000_0000_0000_FFFF),
        };
        proof {
            assert(0x0000_0000_0000_FF00u64 | 0x42 | 0x24 | 0x81 | 0x8 | 0x10
                == 0x0000_0000_0000_FFFFu64 && 0xFF00u64 & 0x42u64 == 0 && 0xFF00u64 & 0x24u64
                == 0 && 0xFF00u64 & 0x81u64 == 0 && 0xFF00u64 & 0x8u64 == 0 && 0xFF00u64
                & 0x10u64 == 0 && 0x42u64 & 0x24u64 == 0 && 0x42u64 & 0x81u64 == 0 && 0x42u64
                & 0x8u64 == 0 && 0x42u64 & 0x10u64 == 0 && 0x24u64 & 0x81u64 == 0 && 0x24u64
                & 0x8u64 == 0 && 0x24u64 & 0x10u64 == 0 && 0x81u64 & 0x8u64 == 0 && 0x81u64
                & 0x10u64 == 0 && 0x8u64 & 0x10u64 == 0 && 0x10u64 == 1u64 << 4)
                by (bit_vector);
            lemma_start_player_wf(p);
            crate::bits::lemma_popcnt_single(4);
        }
        p
    }

    /// The standard black starting position.
    pub fn new_black() -> (r: Self)
        ensures
            r.wf(),
            r.one_king(),
            r.bb[0].0 == 0x00FF_0000_0000_0000u64,
            r.bb[1].0 == 0x4200_0000_0000_0000u64,
            r.bb[2].0 == 0x2400_0000_0000_0000u64,
            r.bb[3].0 == 0x8100_0000_0000_0000u64,
            r.bb[4].0 == 0x0800_0000_0000_0000u64,
            r.bb[5].0 == 0x1000_0000_0000_0000u64,
            r.pieces.0 == 0xFFFF_0000_0000_0000u64,
    {
        let p = Player {
            bb: [
                Bitboard(0x00FF_0000_0000_0000),
                Bitboard(0x4200_0000_0000_0000),
                Bitboard(0x2400_0000_0000_0000),
                Bitboard(0x8100_0000_0000_0000),
                Bitboard(0x0800_0000_0000_0000),
                Bitboard(0x1000_0000_0000_0000),
            ],
            pieces: Bitboard(0xFFFF_0000_0000_0000),
        };
        proof {
            assert(0x00FF_0000_0000_0000u64 | 0x4200_0000_0000_0000 | 0x2400_0000_0000_0000
                | 0x8100_0000_0000_0000 | 0x0800_0000_0000_0000 | 0x1000_0000_0000_0000
                == 0xFFFF_0000_0000_0000u64 && 0x00FF_0000_0000_0000u64 & 0x4200_0000_0000_0000u64
                == 0 && 0x00FF_0000_0000_0000u64 & 0x2400_0000_0000_0000u64 == 0
                && 0x00FF_0000_0000_0000u64 & 0x8100_0000_0000_0000u64 == 0
                && 0x00FF_0000_0000_0000u64 & 0x0800_0000_0000_0000u64 == 0
                && 0x00FF_0000_0000_0000u64 & 0x1000_0000_0000_0000u64 == 0
                && 0x4200_0000_0000_0000u64 & 0x2400_0000_0000_0000u64 == 0
                && 0x4200_0000_0000_0000u64 & 0x8100_0000_0000_0000u64 == 0
                && 0x4200_0000_0000_0000u64 & 0x0800_0000_0000_0000u64 == 0
                && 0x4200_0000_0000_0000u64 & 0x1000_0000_0000_0000u64 == 0
                && 0x2400_0000_0000_0000u64 & 0x8100_0000_0000_0000u64 == 0
                && 0x2400_0000_0000_0000u64 & 0x0800_0000_0000_0000u64 == 0
                && 0x2400_0000_0000_0000u64 & 0x1000_0000_0000_0000u64 == 0
                && 0x8100_0000_0000_0000u64 & 0x0800_0000_0000_0000u64 == 0
                && 0x8100_0000_0000_0000u64 & 0x1000_0000_0000_0000u64 == 0
                && 0x0800_0000_0000_0000u64 & 0x1000_0000_0000_0000u64 == 0
                && 0x1000_0000_0000_0000u64 == 1u64 << 60) by (bit_vector);
            lemma_start_player_wf(p);
            crate::bits::lemma_popcnt_single(60);
        }
        p
    }

    /// Take the piece off the square, whatever its kind; tell which kind
    /// left, or that the square held none.
    pub fn remove_piece(&mut self, tile: Tile) -> (r: Option<Piece>)
        requires
            old(self).wf(),
            tile.wf(),
        ensures
            final(self).wf(),
            r == old(self).piece_at(tile),
            old(self).piece_at(tile) matches Some(p) ==> {
                &&& final(self).bb[p.spec_index()].0 == old(self).bb[p.spec_index()].0 & !(1u64
                    << tile.0)
                &&& forall|i: int| 0 <= i < 6 && i != p.spec_index() ==> final(self).bb[i]
                    == old(self).bb[i]
                &&& final(self).pieces.0 == old(self).pieces.0 & !(1u64 << tile.0)
            },
            old(self).piece_at(tile) is None ==> *final(self) == *old(self),
    {
        let mut i: usize = 0;
        while i < 6
            invariant
                i <= 6,
                self == old(self),
                old(self).wf(),
                tile.wf(),
                forall|j: int| 0 <= j < i ==> !bit64(old(self).bb[j].0, tile.0 as u64),
            decreases 6 - i,
        {
            let mut b = self.bb[i];
            if b.get_bit(tile) {
                b.set_bit(tile, false);
                self.bb[i] = b;
                let mut agg = self.pieces;
                agg.set_bit(tile, false);
                self.pieces = agg;
                let p = Piece::from_index(i);
                proof {
                    let t = tile.0 as u64;
                    let s = *self;
                    let o = *old(self);
                    assert(s.bb[i as int].0 == o.bb[i as int].0 & !(1u64 << t));
                    assert forall|k: u64| #[trigger] bit64(s.pieces.0, k) <==> s.some_kind_has(
                        k,
                    ) by {
                        if k != t {
                            assert(bit64(s.pieces.0, k) == bit64(o.pieces.0, k));
                            if o.some_kind_has(k) {
                                let j = choose|j: int| 0 <= j < 6 && bit64(o.bb[j].0, k);
                                assert(bit64(s.bb[j].0, k));
                            }
                            if s.some_kind_has(k) {
                                let j = choose|j: int| 0 <= j < 6 && bit64(s.bb[j].0, k);
                                assert(bit64(o.bb[j].0, k));
                            }
                        } else {
                            assert(!bit64(s.pieces.0, k));
                            if s.some_kind_has(k) {
                                let j = choose|j: int| 0 <= j < 6 && bit64(s.bb[j].0, k);
                                assert(bit64(o.bb[j].0, k) && j != i as int);
                                assert(bit64(o.bb[i as int].0, k));
                                assert(false);
                            }
                        }
                    }
                }
                return Some(p);
            }
            i = i + 1;
        }
        None
    }

    /// Take a piece of the given kind off the square, if one is there.
    pub fn remove_piece_type(&mut self, piece: Piece, tile: Tile) -> (r: Option<Piece>)
        requires
            old(self).wf(),
            tile.wf(),
        ensures
            final(self).wf(),
            old(self).piece_at(tile) == Some(piece) ==> r == Some(piece) && *final(self)
                == spec_removed(*old(self), piece, tile),
            old(self).piece_at(tile) != Some(piece) ==> r is None && *final(self) == *old(self),
    {
        let idx = piece.to_usize();
        let b = self.bb[idx];
        if b.get_bit(tile) {
            proof {
                let t = tile.0 as u64;
                assert(old(self).piece_at(tile) == Some(piece));
            }
            let r = self.remove_piece(tile);
            proof {
                assert(*self =~= spec_removed(*old(self), piece, tile));
            }
            return r;
        }
        proof {
            assert(old(self).piece_at(tile) != Some(piece));
        }
        None
    }

    /// Put a piece of the given kind on an empty square.
    pub fn place_piece(&mut self, piece: Piece, tile: Tile)
        requires
            old(self).wf(),
            tile.wf(),
            !bit64(old(self).pieces.0, tile.0 as u64),
        ensures
            final(self).wf(),
            *final(self) == spec_placed(*old(self), piece, tile),
            final(self).piece_at(tile) == Some(piece),
    {
        let idx = piece.to_usize();
        let mut b = self.bb[idx];
        b.set_bit(tile, true);
        self.bb[idx] = b;
        let mut agg = self.pieces;
        agg.set_bit(tile, true);
        self.pieces = agg;
        proof {
            let t = tile.0 as u64;
            let s = *self;
            let o = *old(self);
            assert(s =~= spec_placed(o, piece, tile));
            assert forall|k: u64| #[trigger] bit64(s.pieces.0, k) <==> s.some_kind_has(k) by {
                if k == t {
                    assert(bit64(s.bb[piece.spec_index()].0, k));
                } else {
                    if o.some_kind_has(k) {
                        let j = choose|j: int| 0 <= j < 6 && bit64(o.bb[j].0, k);
                        assert(bit64(s.bb[j].0, k));
                    }
                    if s.some_kind_has(k) {
                        let j = choose|j: int| 0 <= j < 6 && bit64(s.bb[j].0, k);
                        assert(bit64(o.bb[j].0, k));
                    }
                }
            }
            assert forall|i: int, j: int, k: u64|
                #![trigger bit64(s.bb[i].0, k), bit64(s.bb[j].0, k)]
                0 <= i < 6 && 0 <= j < 6 && i != j implies !(bit64(s.bb[i].0, k) && bit64(
                s.bb[j].0,
                k,
            )) by {
                if k == t {
                    assert(!bit64(o.pieces.0, k));
                    if bit64(o.bb[i].0, k) {
                        assert(o.some_kind_has(k));
                    }
                    if bit64(o.bb[j].0, k) {
                        assert(o.some_kind_has(k));
                    }
                }
            }
        }
    }

    /// Move whatever piece stands on `from` to `to`; with nothing on
    /// `from`, do nothing.
    pub fn move_piece(&mut self, from: Tile, to: Tile)
        requires
            old(self).wf(),
            from.wf(),
            to.wf(),
            old(self).piece_at(from) is Some ==> from == to || !bit64(
                old(self).pieces.0,
                to.0 as u64,
            ),
        ensures
            final(self).wf(),
            old(self).piece_at(from) matches Some(p) ==> *final(self) == spec_placed(
                spec_removed(*old(self), p, from),
                p,
                to,
            ),
            old(self).piece_at(from) is None ==> *final(self) == *old(self),
    {
        let removed = self.remove_piece(from);
        if let Some(p) = removed {
            proof {
                assert(*self =~= spec_removed(*old(self), p, from));
            }
            self.place_piece(p, to);
        }
    }

    /// Every piece but the king.
    pub fn attackers(&self) -> (r: Bitboard)
        ensures
            r.0 == self.pieces.0 & !self.bb[5].0,
    {
        let kings = self.bb[5];
        Bitboard(self.pieces.0 & !kings.0)
    }

    /// The king's square.
    pub fn king_tile(&self) -> (r: Tile)
        requires
            self.wf(),
            self.one_king(),
        ensures
            r.wf(),
            bit64(self.bb[5].0, r.0 as u64),
            self.piece_at(r) == Some(Piece::King),
    {
        let b = self.bb[5];
        let t = b.to_bit().unwrap();
        proof {
            let k = t.0 as u64;
            assert(self.some_kind_has(k));
        }
        t
    }

    /// An exact copy of the side.
    pub fn clone_side(&self) -> (r: Player)
        ensures
            r == *self,
    {
        Player { bb: self.bb, pieces: self.pieces }
    }

    /// The kind of the side's piece on the square, if any.
    pub fn get_piece(&self, tile: Tile) -> (r: Option<Piece>)
        requires
            tile.wf(),
        ensures
            r == self.piece_at(tile),
    {
        let mut i: usize = 0;
        while i < 6
            invariant
                i <= 6,
                tile.wf(),
                forall|j: int| 0 <= j < i ==> !bit64(self.bb[j].0, tile.0 as u64),
            decreases 6 - i,
        {
            let b = self.bb[i];
            if b.get_bit(tile) {
                return Some(Piece::from_index(i));
            }
            i = i + 1;
        }
        None
    }
}

/// The standard white starting side.
pub open spec fn spec_start_white() -> Player {
    Player {
        bb: [
            Bitboard(0x0000_0000_0000_FF00),
            Bitboard(0x0000_0000_0000_0042),
            Bitboard(0x0000_0000_0000_0024),
            Bitboard(0x0000_0000_0000_0081),
            Bitboard(0x0000_0000_0000_0008),
            Bitboard(0x0000_0000_0000_0010),
        ],
        pieces: Bitboard(0x0000_0000_0000_FFFF),
    }
}

/// The standard black starting side.
pub open spec fn spec_start_black() -> Player {
    Player {
        bb: [
            Bitboard(0x00FF_0000_0000_0000),
            Bitboard(0x4200_0000_0000_0000),
            Bitboard(0x2400_0000_0000_0000),
            Bitboard(0x8100_0000_0000_0000),
            Bitboard(0x0800_0000_0000_0000),
            Bitboard(0x1000_0000_0000_0000),
        ],
        pieces: Bitboard(0xFFFF_0000_0000_0000),
    }
}

/// The side with the piece of kind `p` taken off square `t`.
pub open spec fn spec_removed(o: Player, p: Piece, t: Tile) -> Player {
    Player {
        bb: vstd::array::spec_array_update(
            o.bb,
            p.spec_index(),
            Bitboard(o.bb[p.spec_index()].0 & !(1u64 << t.0)),
        ),
        pieces: Bitboard(o.pieces.0 & !(1u64 << t.0)),
    }
}

/// The side with a piece of kind `p` put on square `t`.
pub open spec fn spec_placed(o: Player, p: Piece, t: Tile) -> Player {
    Player {
        bb: vstd::array::spec_array_update(
            o.bb,
            p.spec_index(),
            Bitboard(o.bb[p.spec_index()].0 | (1u64 << t.0)),
        ),
        pieces: Bitboard(o.pieces.0 | (1u64 << t.0)),
    }
}

/// Well-formedness of a standard starting side, shared by both colours.
proof fn lemma_start_player_wf(p: Player)
    requires
        p.pieces.0 == p.bb[0].0 | p.bb[1].0 | p.bb[2].0 | p.bb[3].0 | p.bb[4].0 | p.bb[5].0,
        p.bb[0].0 & p.bb[1].0 == 0,
        p.bb[0].0 & p.bb[2].0 == 0,
        p.bb[0].0 & p.bb[3].0 == 0,
        p.bb[0].0 & p.bb[4].0 == 0,
        p.bb[0].0 & p.bb[5].0 == 0,
        p.bb[1].0 & p.bb[2].0 == 0,
        p.bb[1].0 & p.bb[3].0 == 0,
        p.bb[1].0 & p.bb[4].0 == 0,
        p.bb[1].0 & p.bb[5].0 == 0,
        p.bb[2].0 & p.bb[3].0 == 0,
        p.bb[2].0 & p.bb[4].0 == 0,
        p.bb[2].0 & p.bb[5].0 == 0,
        p.bb[3].0 & p.bb[4].0 == 0,
        p.bb[3].0 & p.bb[5].0 == 0,
        p.bb[4].0 & p.bb[5].0 == 0,
    ensures
        p.wf(),
{
    assert forall|k: u64| #[trigger] bit64(p.pieces.0, k) <==> p.some_kind_has(k) by {
        if bit64(p.pieces.0, k) {
            assert(bit64(p.bb[0].0, k) || bit64(p.bb[1].0, k) || bit64(p.bb[2].0, k) || bit64(
                p.bb[3].0,
                k,
            ) || bit64(p.bb[4].0, k) || bit64(p.bb[5].0, k));
        }
        if p.some_kind_has(k) {
            let j = choose|j: int| 0 <= j < 6 && bit64(p.bb[j].0, k);
        }
    }
    assert forall|i: int, j: int, k: u64|
        #![trigger bit64(p.bb[i].0, k), bit64(p.bb[j].0, k)]
        0 <= i < 6 && 0 <= j < 6 && i != j implies !(bit64(p.bb[i].0, k) && bit64(p.bb[j].0, k)) by {
        if bit64(p.bb[i].0, k) && bit64(p.bb[j].0, k) {
            let lo = if i < j {
                i
            } else {
                j
            };
            let hi = if i < j {
                j
            } else {
                i
            };
            assert(bit64(p.bb[lo].0 & p.bb[hi].0, k));
            crate::bits::lemma_bit_zero(k);
        }
    }
}

/// A side with no piece on a square has no aggregate bit there.
pub proof fn lemma_piece_at_none(p: Player, t: Tile)
    requires
        p.wf(),
        p.piece_at(t) is None,
    ensures
        !bit64(p.pieces.0, t.0 as u64),
{
    let k = t.0 as u64;
    if bit64(p.pieces.0, k) {
        assert(p.some_kind_has(k));
        let j = choose|j: int| 0 <= j < 6 && bit64(p.bb[j].0, k);
        assert(j == 0 || j == 1 || j == 2 || j == 3 || j == 4 || j == 5);
        assert(false);
    }
}

/// A side with a piece on a square has the aggregate bit there.
pub proof fn lemma_piece_at_some(p: Player, t: Tile)
    requires
        p.wf(),
        p.piece_at(t) is Some,
    ensures
        bit64(p.pieces.0, t.0 as u64),
{
    let k = t.0 as u64;
    assert(p.some_kind_has(k));
}

/// The king square of a side with exactly one king.
pub open spec fn king_of(p: Player) -> Tile {
    choose|t: Tile| t.wf() && bit64(p.bb[5].0, t.0 as u64)
}

/// A side with one king has a king square.
pub proof fn lemma_king_exists(p: Player)
    requires
        p.one_king(),
    ensures
        king_of(p).wf(),
        bit64(p.bb[5].0, king_of(p).0 as u64),
{
    crate::bits::lemma_pop_below_zero(p.bb[5].0, 64);
    assert(exists|i: u64| i < 64 && bit64(p.bb[5].0, i)) by {
        if forall|i: u64| i < 64 ==> !bit64(p.bb[5].0, i) {
            assert(popcnt64(p.bb[5].0) == 0);
        }
    }
    let i = choose|i: u64| i < 64 && bit64(p.bb[5].0, i);
    let t = Tile(i as u8);
    assert(t.wf() && bit64(p.bb[5].0, t.0 as u64));
}

/// With one king, any square holding a king is the king square.
pub proof fn lemma_one_king_unique(p: Player, r: Tile)
    requires
        p.one_king(),
        r.wf(),
        bit64(p.bb[5].0, r.0 as u64),
    ensures
        king_of(p) == r,
{
    let kc = king_of(p);
    assert(kc.wf() && bit64(p.bb[5].0, kc.0 as u64));
    crate::bits::lemma_popcnt_one_single(p.bb[5].0, r.0 as u64);
    crate::bits::lemma_popcnt_one_single(p.bb[5].0, kc.0 as u64);
    crate::bits::lemma_bit_single(r.0 as u64, kc.0 as u64);
}

/// A side without the aggregate bit has no piece on the square.
pub proof fn lemma_no_bit_piece_none(p: Player, t: Tile)
    requires
        p.wf(),
        !bit64(p.pieces.0, t.0 as u64),
    ensures
        p.piece_at(t) is None,
{
    let k = t.0 as u64;
    if p.piece_at(t) is Some {
        assert(p.some_kind_has(k));
    }
}

/// Taking a piece off keeps the side well formed.
pub proof fn lemma_removed_wf(p: Player, k: Piece, t: Tile)
    requires
        t.wf(),
        p.wf(),
        p.piece_at(t) is None || p.piece_at(t) == Some(k),
    ensures
        spec_removed(p, k, t).wf(),
        spec_removed(p, k, t).piece_at(t) is None,
        forall|t2: Tile| t2.0 < 64 && t2 != t ==> spec_removed(p, k, t).piece_at(t2)
            == p.piece_at(t2),
{
    let s = spec_removed(p, k, t);
    let ki = k.spec_index();
    assert forall|q: u64| #[trigger] bit64(s.pieces.0, q) <==> s.some_kind_has(q) by {
        crate::bits::lemma_bit_single(t.0 as u64, q);
        if q != t.0 as u64 {
            if p.some_kind_has(q) {
                let j = choose|j: int| 0 <= j < 6 && bit64(p.bb[j].0, q);
                assert(bit64(s.bb[j].0, q));
            }
            if s.some_kind_has(q) {
                let j = choose|j: int| 0 <= j < 6 && bit64(s.bb[j].0, q);
                assert(bit64(p.bb[j].0, q));
            }
        } else {
            if s.some_kind_has(q) {
                let j = choose|j: int| 0 <= j < 6 && bit64(s.bb[j].0, q);
                assert(bit64(p.bb[j].0, q) && j != ki);
                if p.piece_at(t) is None {
                    crate::player::lemma_piece_at_none(p, t);
                    assert(p.some_kind_has(q));
                    assert(false);
                } else {
                    assert(bit64(p.bb[ki].0, q));
                    assert(false);
                }
            }
        }
    }
    assert(s.piece_at(t) is None) by {
        crate::bits::lemma_bit_single(t.0 as u64, t.0 as u64);
        assert forall|j: int| 0 <= j < 6 && j != ki implies !bit64(s.bb[j].0, t.0 as u64) by {
            if bit64(p.bb[j].0, t.0 as u64) {
                if p.piece_at(t) is None {
                    crate::player::lemma_piece_at_none(p, t);
                    assert(p.some_kind_has(t.0 as u64));
                    assert(false);
                } else {
                    assert(bit64(p.bb[ki].0, t.0 as u64));
                    assert(false);
                }
            }
        }
    }
    assert forall|t2: Tile| t2.0 < 64 && t2 != t implies s.piece_at(t2) == p.piece_at(t2) by {
        crate::bits::lemma_bit_single(t.0 as u64, t2.0 as u64);
    }
}

/// Putting a piece on a free square keeps the side well formed.
pub proof fn lemma_placed_wf(p: Player, k: Piece, t: Tile)
    requires
        t.wf(),
        p.wf(),
        !bit64(p.pieces.0, t.0 as u64),
    ensures
        spec_placed(p, k, t).wf(),
        spec_placed(p, k, t).piece_at(t) == Some(k),
        forall|t2: Tile| t2.0 < 64 && t2 != t ==> spec_placed(p, k, t).piece_at(t2) == p.piece_at(
            t2,
        ),
{
    let s = spec_placed(p, k, t);
    let ki = k.spec_index();
    assert forall|q: u64| #[trigger] bit64(s.pieces.0, q) <==> s.some_kind_has(q) by {
        crate::bits::lemma_bit_single(t.0 as u64, q);
        if q == t.0 as u64 {
            assert(bit64(s.bb[ki].0, q));
        } else {
            if p.some_kind_has(q) {
                let j = choose|j: int| 0 <= j < 6 && bit64(p.bb[j].0, q);
                assert(bit64(s.bb[j].0, q));
            }
            if s.some_kind_has(q) {
                let j = choose|j: int| 0 <= j < 6 && bit64(s.bb[j].0, q);
                assert(bit64(p.bb[j].0, q));
            }
        }
    }
    assert forall|i: int, j: int, q: u64|
        #![trigger bit64(s.bb[i].0, q), bit64(s.bb[j].0, q)]
        0 <= i < 6 && 0 <= j < 6 && i != j implies !(bit64(s.bb[i].0, q) && bit64(s.bb[j].0, q)) by {
        crate::bits::lemma_bit_single(t.0 as u64, q);
        if q == t.0 as u64 {
            if bit64(p.bb[i].0, q) {
                assert(p.some_kind_has(q));
            }
            if bit64(p.bb[j].0, q) {
                assert(p.some_kind_has(q));
            }
        }
    }
    assert forall|i: int| 0 <= i < 6 && i != ki implies !bit64(p.bb[i].0, t.0 as u64) by {
        if bit64(p.bb[i].0, t.0 as u64) {
            assert(p.some_kind_has(t.0 as u64));
        }
    }
    assert(s.piece_at(t) == Some(k)) by {
        crate::bits::lemma_bit_single(t.0 as u64, t.0 as u64);
        if bit64(p.bb[ki].0, t.0 as u64) {
            assert(p.some_kind_has(t.0 as u64));
        }
    }
    assert forall|t2: Tile| t2.0 < 64 && t2 != t implies s.piece_at(t2) == p.piece_at(t2) by {
        crate::bits::lemma_bit_single(t.0 as u64, t2.0 as u64);
    }
}

/// Putting a piece back where it was just removed restores the side.
pub proof fn lemma_remove_place_inverse(p: Player, k: Piece, t: Tile)
    requires
        t.wf(),
        p.wf(),
        bit64(p.bb[k.spec_index()].0, t.0 as u64),
    ensures
        spec_placed(spec_removed(p, k, t), k, t) == p,
{
    let ki = k.spec_index();
    let m: u64 = 1u64 << t.0;
    let w0 = p.bb[ki].0;
    let out = spec_placed(spec_removed(p, k, t), k, t);
    assert(p.some_kind_has(t.0 as u64));
    assert(bit64(p.pieces.0, t.0 as u64));
    assert forall|i: u64| i < 64 implies (bit64((w0 & !m) | m, i) <==> bit64(w0, i)) by {
        crate::bits::lemma_bit_single(t.0 as u64, i);
    }
    crate::bits::lemma_bit_ext((w0 & !m) | m, w0);
    let pw = p.pieces.0;
    assert forall|i: u64| i < 64 implies (bit64((pw & !m) | m, i) <==> bit64(pw, i)) by {
        crate::bits::lemma_bit_single(t.0 as u64, i);
    }
    crate::bits::lemma_bit_ext((pw & !m) | m, pw);
    assert(out.bb@ =~= p.bb@);
    assert(out =~= p);
}

/// Removing a piece just placed on a free square restores the side.
pub proof fn lemma_place_remove_inverse(p: Player, k: Piece, t: Tile)
    requires
        t.wf(),
        p.wf(),
        !bit64(p.pieces.0, t.0 as u64),
    ensures
        spec_removed(spec_placed(p, k, t), k, t) == p,
{
    let ki = k.spec_index();
    let m: u64 = 1u64 << t.0;
    let w0 = p.bb[ki].0;
    let out = spec_removed(spec_placed(p, k, t), k, t);
    assert(!bit64(w0, t.0 as u64)) by {
        if bit64(w0, t.0 as u64) {
            assert(p.some_kind_has(t.0 as u64));
        }
    }
    assert forall|i: u64| i < 64 implies (bit64((w0 | m) & !m, i) <==> bit64(w0, i)) by {
        crate::bits::lemma_bit_single(t.0 as u64, i);
    }
    crate::bits::lemma_bit_ext((w0 | m) & !m, w0);
    let pw = p.pieces.0;
    assert forall|i: u64| i < 64 implies (bit64((pw | m) & !m, i) <==> bit64(pw, i)) by {
        crate::bits::lemma_bit_single(t.0 as u64, i);
    }
    crate::bits::lemma_bit_ext((pw | m) & !m, pw);
    assert(out.bb@ =~= p.bb@);
    assert(out =~= p);
}


/// Appending to a listing adds exactly the appended entry.
proof fn lemma_push_entry(s: Seq<(Piece, Tile)>, x: (Piece, Tile))
    ensures
        forall|e: (Piece, Tile)| #[trigger] s.push(x).contains(e) <==> s.contains(e) || e == x,
{
    assert forall|e: (Piece, Tile)| #[trigger] s.push(x).contains(e) <==> s.contains(e) || e
        == x by {
        if s.push(x).contains(e) {
            let i = choose|i: int| 0 <= i < s.push(x).len() && s.push(x)[i] == e;
            if i < s.len() {
                assert(s[i] == e);
            }
        }
        if s.contains(e) {
            let i = choose|i: int| 0 <= i < s.len() && s[i] == e;
            assert(s.push(x)[i] == e);
        }
        if e == x {
            assert(s.push(x)[s.len() as int] == e);
        }
    }
}

impl Player {
    /// List the side's pieces up to the given kind bound, kind by kind.
    fn list_pieces(&self, kinds: usize) -> (r: Vec<(Piece, Tile)>)
        requires
            kinds <= 6,
        ensures
            forall|e: (Piece, Tile)|
                #[trigger] r@.contains(e) <==> (e.1.wf() && e.0.spec_index() < kinds && bit64(
                    self.bb[e.0.spec_index()].0,
                    e.1.0 as u64,
                )),
    {
        let mut out: Vec<(Piece, Tile)> = Vec::new();
        let mut ki: usize = 0;
        while ki < kinds
            invariant
                kinds <= 6,
                ki <= kinds,
                forall|e: (Piece, Tile)|
                    #[trigger] out@.contains(e) <==> (e.1.wf() && e.0.spec_index() < ki && bit64(
                        self.bb[e.0.spec_index()].0,
                        e.1.0 as u64,
                    )),
            decreases kinds - ki,
        {
            let p = Piece::from_index(ki);
            let board = self.bb[ki];
            let ghost orig = board.0;
            let mut it = board.iter();
            loop
                invariant
                    ki < kinds <= 6,
                    p.spec_index() == ki,
                    orig == self.bb[ki as int].0,
                    forall|k: u64| #[trigger] bit64(it.0, k) ==> bit64(orig, k),
                    forall|e: (Piece, Tile)|
                        #[trigger] out@.contains(e) <==> ((e.1.wf() && e.0.spec_index() < ki
                            && bit64(self.bb[e.0.spec_index()].0, e.1.0 as u64)) || (e.0 == p
                            && e.1.wf() && bit64(orig, e.1.0 as u64) && !bit64(
                            it.0,
                            e.1.0 as u64,
                        ))),
                ensures
                    it.0 == 0,
                    forall|e: (Piece, Tile)|
                        #[trigger] out@.contains(e) <==> ((e.1.wf() && e.0.spec_index() < ki
                            && bit64(self.bb[e.0.spec_index()].0, e.1.0 as u64)) || (e.0 == p
                            && e.1.wf() && bit64(orig, e.1.0 as u64))),
                decreases popcnt64(it.0),
            {
                let ghost prev = it.0;
                let next = it.next();
                match next {
                    None => {
                        break ;
                    },
                    Some(t) => {
                        proof {
                            crate::bits::lemma_pop_below_except(it.0, prev, t.0 as u64, 64);
                        }
                        let ghost pre = out@;
                        out.push((p, t));
                        proof {
                            lemma_push_entry(pre, (p, t));
                            assert forall|e: (Piece, Tile)| #[trigger] out@.contains(e) <==> ((
                            e.1.wf() && e.0.spec_index() < ki && bit64(
                                self.bb[e.0.spec_index()].0,
                                e.1.0 as u64,
                            )) || (e.0 == p && e.1.wf() && bit64(orig, e.1.0 as u64) && !bit64(
                                it.0,
                                e.1.0 as u64,
                            ))) by {
                                if out@.contains(e) && !pre.contains(e) {
                                    assert(e == (p, t));
                                    assert(!bit64(it.0, t.0 as u64));
                                }
                            }
                        }
                    },
                }
            }
            proof {
                assert forall|e: (Piece, Tile)| #[trigger] out@.contains(e) <==> (e.1.wf()
                    && e.0.spec_index() < ki + 1 && bit64(
                    self.bb[e.0.spec_index()].0,
                    e.1.0 as u64,
                )) by {
                    if e.1.wf() && e.0.spec_index() < ki + 1 && bit64(
                        self.bb[e.0.spec_index()].0,
                        e.1.0 as u64,
                    ) {
                        if e.0.spec_index() == ki {
                            assert(e.0 == p) by {
                                assert(p.spec_index() == ki);
                            }
                        }
                    }
                }
            }
            ki = ki + 1;
        }
        out
    }

    /// Every piece of the side with its square, kind by kind.
    pub fn get_all_pieces(&self) -> (r: Vec<(Piece, Tile)>)
        ensures
            forall|e: (Piece, Tile)|
                #[trigger] r@.contains(e) <==> (e.1.wf() && bit64(
                    self.bb[e.0.spec_index()].0,
                    e.1.0 as u64,
                )),
    {
        self.list_pieces(6)
    }

    /// Every piece but the king, with its square.
    pub fn get_all_attackers(&self) -> (r: Vec<(Piece, Tile)>)
        ensures
            forall|e: (Piece, Tile)|
                #[trigger] r@.contains(e) <==> (e.0 != Piece::King && e.1.wf() && bit64(
                    self.bb[e.0.spec_index()].0,
                    e.1.0 as u64,
                )),
    {
        self.list_pieces(5)
    }
}

} // verus!
