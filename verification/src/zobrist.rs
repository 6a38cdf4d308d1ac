//! The position fingerprint: a 64-bit XOR hash of piece placement, side
//! to move, castling rights and the relevant en-passant file, used for
//! repetition counting.

use vstd::prelude::*;
use crate::bits::bit64;
use crate::board::Board;
use crate::piece::Piece;
use crate::tile::Tile;
use crate::attacks::pawn_has;
use vstd::wrapping::u64_specs;

verus! {

broadcast use crate::bits::group_bit_lemmas, vstd::array::group_array_axioms;

/// The finishing mix of the splitmix generator: a fixed bijective
/// scramble of a 64-bit word.
pub open spec fn spec_mix(z0: u64) -> u64 {
    let z1 = u64_specs::wrapping_mul(z0 ^ (z0 >> 30), 0xBF58476D1CE4E5B9u64);
    let z2 = u64_specs::wrapping_mul(z1 ^ (z1 >> 27), 0x94D049BB133111EBu64);
    z2 ^ (z2 >> 31)
}

/// The fixed random-looking key with the given index.
#[verifier::opaque]
pub open spec fn spec_key(i: u64) -> u64 {
    spec_mix(u64_specs::wrapping_mul((i + 1) as u64, 0x9E3779B97F4A7C15u64))
}

/// The key index of a piece of the given colour and kind on a square.
pub open spec fn piece_key_index(white: bool, p: Piece, sq: int) -> u64 {
    (((if white {
        0int
    } else {
        1int
    }) * 384) + p.spec_index() * 64 + sq) as u64
}

/// The hash contribution of one square: the key of the piece standing
/// there, or zero for an empty square.
pub open spec fn z_sq_key(b: Board, t: Tile) -> u64 {
    match b.piece_color_at(t) {
        Some((p, white)) => spec_key(piece_key_index(white, p, t.0 as int)),
        None => 0u64,
    }
}

/// The XOR of the square contributions below square `n`.
pub open spec fn z_fold(b: Board, n: int) -> u64
    decreases n,
{
    if n <= 0 {
        0u64
    } else {
        z_fold(b, n - 1) ^ z_sq_key(b, Tile((n - 1) as u8))
    }
}

/// The en-passant contribution: the file key of the target, counted only
/// when a pawn of the side to move could capture onto it.
pub open spec fn z_ep(b: Board) -> u64 {
    match b.en_passant {
        None => 0u64,
        Some(t) => if exists|j: Tile|
            #![auto]
            j.wf() && bit64(b.player_of(b.white_turn).bb[0].0, j.0 as u64) && pawn_has(
                j,
                b.white_turn,
                t,
            ) {
            spec_key((773 + t.0 % 8) as u64)
        } else {
            0u64
        },
    }
}

/// The full position hash.
pub open spec fn spec_zobrist(b: Board) -> u64 {
    z_fold(b, 64) ^ (if !b.white_turn {
        spec_key(768)
    } else {
        0u64
    }) ^ (if b.castling.0 & 1 != 0 {
        spec_key(769)
    } else {
        0u64
    }) ^ (if b.castling.0 & 2 != 0 {
        spec_key(770)
    } else {
        0u64
    }) ^ (if b.castling.0 & 4 != 0 {
        spec_key(771)
    } else {
        0u64
    }) ^ (if b.castling.0 & 8 != 0 {
        spec_key(772)
    } else {
        0u64
    }) ^ z_ep(b)
}

/// The square fold reads the two sides alone.
proof fn lemma_z_fold_congr(b1: Board, b2: Board, n: int)
    requires
        b1.white == b2.white,
        b1.black == b2.black,
    ensures
        z_fold(b1, n) == z_fold(b2, n),
    decreases n,
{
    if n > 0 {
        lemma_z_fold_congr(b1, b2, n - 1);
        assert(z_sq_key(b1, Tile((n - 1) as u8)) == z_sq_key(b2, Tile((n - 1) as u8)));
    }
}

/// The hash reads the sides, the rights, the turn and the en-passant
/// target alone; the histories and clocks do not enter it.
pub proof fn lemma_zobrist_congr(b1: Board, b2: Board)
    requires
        b1.white == b2.white,
        b1.black == b2.black,
        b1.castling == b2.castling,
        b1.white_turn == b2.white_turn,
        b1.en_passant == b2.en_passant,
    ensures
        spec_zobrist(b1) == spec_zobrist(b2),
{
    lemma_z_fold_congr(b1, b2, 64);
    assert(z_ep(b1) == z_ep(b2)) by {
        if b1.en_passant matches Some(t) {
            assert(b1.player_of(b1.white_turn) == b2.player_of(b2.white_turn));
        }
    }
}

/// The fixed key with the given index.
fn z_key(i: u64) -> (r: u64)
    requires
        i < 1024,
    ensures
        r == spec_key(i),
{
    proof {
        reveal(spec_key);
    }
    let z0 = (i + 1).wrapping_mul(0x9E3779B97F4A7C15);
    let z1 = (z0 ^ (z0 >> 30)).wrapping_mul(0xBF58476D1CE4E5B9);
    let z2 = (z1 ^ (z1 >> 27)).wrapping_mul(0x94D049BB133111EB);
    z2 ^ (z2 >> 31)
}

impl Board {
    /// The position hash: piece placement, side to move, castling rights
    /// and the relevant en-passant file, folded by XOR.
    #[verifier::rlimit(60)]
    pub fn to_zobrist_hash(&self) -> (r: u64)
        requires
            self.wf(),
        ensures
            r == spec_zobrist(*self),
    {
        let mut hash: u64 = 0;
        let mut i: u8 = 0;
        while i < 64
            invariant
                self.wf(),
                i <= 64,
                hash == z_fold(*self, i as int),
            decreases 64 - i,
        {
            let t = Tile(i);
            proof {
                assert(z_fold(*self, i + 1) == z_fold(*self, i as int) ^ z_sq_key(
                    *self,
                    Tile(i),
                ));
            }
            match self.get_piece_at_tile(t) {
                Some((p, white)) => {
                    let base: u64 = if white {
                        0
                    } else {
                        384
                    };
                    proof {
                        assert(piece_key_index(white, p, i as int) == (base + p.spec_index() * 64
                            + i) as u64);
                    }
                    let k = z_key(base + (p.to_usize() as u64) * 64 + (i as u64));
                    hash = hash ^ k;
                },
                None => {
                    proof {
                        crate::bits::lemma_xor_zero(hash);
                    }
                },
            }
            i = i + 1;
        }
        let turn_term: u64 = if !self.white_turn {
            z_key(768)
        } else {
            0
        };
        hash = hash ^ turn_term;
        let c1: u64 = if self.castling.to_u8() & 1 != 0 {
            z_key(769)
        } else {
            0
        };
        hash = hash ^ c1;
        let c2: u64 = if self.castling.to_u8() & 2 != 0 {
            z_key(770)
        } else {
            0
        };
        hash = hash ^ c2;
        let c3: u64 = if self.castling.to_u8() & 4 != 0 {
            z_key(771)
        } else {
            0
        };
        hash = hash ^ c3;
        let c4: u64 = if self.castling.to_u8() & 8 != 0 {
            z_key(772)
        } else {
            0
        };
        hash = hash ^ c4;
        let mut ep_term: u64 = 0;
        if let Some(ep) = self.en_passant {
            let (player, _) = self.current_players();
            let reach = crate::attacks::pawn_attacks_on(ep, !self.white_turn);
            let hits = reach.0 & player.bb[0].0;
            proof {
                crate::bits::lemma_nonzero_has_bit(hits);
                if hits != 0 {
                    let k = choose|k: u64| bit64(hits, k);
                    let j = Tile(k as u8);
                    assert(bit64(reach.0, k) && bit64(player.bb[0].0, k));
                    assert(k < 64);
                    assert(j.0 as u64 == k);
                    crate::attacks::lemma_pawn_symm(j, ep, self.white_turn);
                    assert(j.wf() && bit64(self.player_of(self.white_turn).bb[0].0, j.0 as u64)
                        && pawn_has(j, self.white_turn, ep));
                    assert(exists|j: Tile|
                        #![auto]
                        j.wf() && bit64(self.player_of(self.white_turn).bb[0].0, j.0 as u64)
                            && pawn_has(j, self.white_turn, ep));
                }
                if exists|j: Tile|
                    #![auto]
                    j.wf() && bit64(self.player_of(self.white_turn).bb[0].0, j.0 as u64)
                        && pawn_has(j, self.white_turn, ep) {
                    let j = choose|j: Tile|
                        #![auto]
                        j.wf() && bit64(self.player_of(self.white_turn).bb[0].0, j.0 as u64)
                            && pawn_has(j, self.white_turn, ep);
                    crate::attacks::lemma_pawn_symm(j, ep, self.white_turn);
                    assert(bit64(hits, j.0 as u64));
                }
            }
            if hits != 0 {
                let (file, _) = ep.get_coords();
                ep_term = z_key(773 + file as u64);
            }
        }
        hash = hash ^ ep_term;
        hash
    }
}

} // verus!
