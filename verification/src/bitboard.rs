//! The bitset primitive: a 64-bit set over board squares.

use vstd::prelude::*;
use crate::bits::{bit64, popcnt64, pop_below, lemma_pop_below_zero, lemma_popcnt_one_single,
    lemma_bit_single};
use crate::tile::Tile;

verus! {

/// A 64-bit set of squares: bit `i` is set exactly when square `i` is in
/// the set.
#[derive(Debug, Clone, Copy, PartialEq, Eq, Structural)]
pub struct Bitboard(pub u64);

impl Bitboard {
    /// The set with no square.
    pub fn empty() -> (r: Self)
        ensures
            r.0 == 0,
    {
        Bitboard(0)
    }

    /// The set with every square.
    pub fn all() -> (r: Self)
        ensures
            r.0 == 0xFFFF_FFFF_FFFF_FFFFu64,
    {
        Bitboard(0xFFFF_FFFF_FFFF_FFFF)
    }

    /// Square `i` is in the set.
    pub open spec fn has(self, i: u64) -> bool {
        bit64(self.0, i)
    }

    /// The square of a tile is in the set.
    pub open spec fn has_tile(self, t: Tile) -> bool {
        bit64(self.0, t.0 as u64)
    }

    pub fn new(bits: u64) -> (r: Self)
        ensures
            r.0 == bits,
    {
        Bitboard(bits)
    }

    /// The set holding exactly the given square.
    pub fn from_tile(tile: Tile) -> (r: Self)
        requires
            tile.wf(),
        ensures
            r.0 == 1u64 << tile.0,
            forall|i: u64| r.has(i) <==> i == tile.0,
    {
        proof {
            assert forall|i: u64| bit64(1u64 << tile.0, i) <==> i == tile.0 by {
                lemma_bit_single(tile.0 as u64, i);
            }
        }
        Bitboard(1u64 << tile.0)
    }

    pub fn to_u64(&self) -> (r: u64)
        ensures
            r == self.0,
    {
        self.0
    }

    /// The single square of a one-element set, nothing otherwise.
    pub fn to_bit(&self) -> (r: Option<Tile>)
        ensures
            popcnt64(self.0) == 1 ==> (r matches Some(t) && t.wf() && self.has_tile(t) && self.0
                == 1u64 << t.0),
            popcnt64(self.0) != 1 ==> r is None,
    {
        if self.count_ones() == 1 {
            let tz = self.0.trailing_zeros() as u8;
            proof {
                vstd::std_specs::bits::axiom_u64_trailing_zeros(self.0);
                lemma_pop_below_zero(self.0, 64);
                if self.0 == 0 {
                    assert forall|i: u64| i < 64 implies !bit64(self.0, i) by {
                        crate::bits::lemma_bit_zero(i);
                    }
                }
                assert(self.0 != 0);
                lemma_popcnt_one_single(self.0, tz as u64);
            }
            Some(Tile(tz))
        } else {
            None
        }
    }

    /// Add the square to the set, or take it out.
    pub fn set_bit(&mut self, bit: Tile, value: bool)
        requires
            bit.wf(),
        ensures
            value ==> final(self).0 == old(self).0 | (1u64 << bit.0),
            !value ==> final(self).0 == old(self).0 & !(1u64 << bit.0),
            final(self).has_tile(bit) == value,
            forall|i: u64| i != bit.0 ==> (final(self).has(i) <==> old(self).has(i)),
    {
        let mask: u64 = 1u64 << bit.0;
        proof {
            let b = self.0;
            let t = bit.0 as u64;
            assert(t < 64 ==> (((b | (1u64 << t)) >> t) & 1u64 == 1u64 && ((b & !(1u64 << t))
                >> t) & 1u64 == 0u64)) by (bit_vector);
            assert(forall|i: u64| i < 64 && i != t ==> ((b | (1u64 << t)) >> i) & 1u64 == (b
                >> i) & 1u64 && ((b & !(1u64 << t)) >> i) & 1u64 == (b >> i) & 1u64)
                by (bit_vector);
        }
        if value {
            self.0 = self.0 | mask;
        } else {
            self.0 = self.0 & !mask;
        }
    }

    /// The square is in the set.
    pub fn get_bit(&self, bit: Tile) -> (r: bool)
        requires
            bit.wf(),
        ensures
            r == self.has_tile(bit),
    {
        proof {
            let b = self.0;
            let t = bit.0 as u64;
            assert((b >> t) & 1u64 == 0u64 || (b >> t) & 1u64 == 1u64) by (bit_vector);
        }
        (self.0 >> bit.0) & 1 != 0
    }

    /// How many squares the set holds.
    pub fn count_ones(&self) -> (r: u32)
        ensures
            r == popcnt64(self.0),
    {
        let mut c: u32 = 0;
        let mut i: u8 = 0;
        while i < 64
            invariant
                i <= 64,
                c <= i,
                c == pop_below(self.0, i as int),
            decreases 64 - i,
        {
            if (self.0 >> i) & 1 == 1 {
                c = c + 1;
            }
            i = i + 1;
        }
        c
    }

    /// The set holds at least one square.
    pub fn some(&self) -> (r: bool)
        ensures
            r == (self.0 != 0),
    {
        self.0 != 0
    }

    /// The set holds no square.
    pub fn none(&self) -> (r: bool)
        ensures
            r == (self.0 == 0),
    {
        self.0 == 0
    }

    pub fn bits(self) -> (r: u64)
        ensures
            r == self.0,
    {
        self.0
    }

    pub fn is_empty(self) -> (r: bool)
        ensures
            r == (self.0 == 0),
    {
        self.0 == 0
    }

    /// Walk the set, lowest square first.
    pub fn iter(&self) -> (r: BitIter)
        ensures
            r.0 == self.0,
    {
        BitIter(self.0)
    }
}

/// A destructive forward walk over the squares of a bitboard copy: each
/// `next` removes and returns the lowest remaining square.
pub struct BitIter(pub u64);

impl BitIter {
    /// Remove and return the lowest remaining square.
    pub fn next(&mut self) -> (r: Option<Tile>)
        ensures
            old(self).0 == 0 ==> r is None && final(self).0 == 0,
            old(self).0 != 0 ==> (r matches Some(t) && t.wf() && old(self).has_low(t)
                && final(self).0 == old(self).0 & !(1u64 << t.0)),
    {
        if self.0 == 0 {
            return None;
        }
        let b = self.0;
        let tz = b.trailing_zeros() as u8;
        proof {
            vstd::std_specs::bits::axiom_u64_trailing_zeros(b);
        }
        self.0 = b & !(1u64 << tz);
        Some(Tile(tz))
    }

    /// The tile is the lowest set square of the walk's remainder.
    pub open spec fn has_low(self, t: Tile) -> bool {
        bit64(self.0, t.0 as u64) && forall|j: u64| j < t.0 ==> !bit64(self.0, j)
    }
}

} // verus!

use vstd::std_specs::ops::{BitAndSpecImpl, BitOrSpecImpl, NotSpecImpl, ShlSpecImpl, ShrSpecImpl};
use vstd::std_specs::convert::FromSpecImpl;

verus! {

impl core::ops::BitAnd for Bitboard {
    type Output = Bitboard;

    /// Intersection of the two sets.
    fn bitand(self, rhs: Self) -> (r: Self) {
        Bitboard(self.0 & rhs.0)
    }
}

impl BitAndSpecImpl for Bitboard {
    open spec fn obeys_bitand_spec() -> bool {
        true
    }

    open spec fn bitand_req(self, rhs: Self) -> bool {
        true
    }

    open spec fn bitand_spec(self, rhs: Self) -> Self {
        Bitboard(self.0 & rhs.0)
    }
}

impl core::ops::BitOr for Bitboard {
    type Output = Bitboard;

    /// Union of the two sets.
    fn bitor(self, rhs: Self) -> (r: Self) {
        Bitboard(self.0 | rhs.0)
    }
}

impl BitOrSpecImpl for Bitboard {
    open spec fn obeys_bitor_spec() -> bool {
        true
    }

    open spec fn bitor_req(self, rhs: Self) -> bool {
        true
    }

    open spec fn bitor_spec(self, rhs: Self) -> Self {
        Bitboard(self.0 | rhs.0)
    }
}

impl core::ops::Not for Bitboard {
    type Output = Bitboard;

    /// Complement of the set.
    fn not(self) -> (r: Self) {
        Bitboard(!self.0)
    }
}

impl NotSpecImpl for Bitboard {
    open spec fn obeys_not_spec() -> bool {
        true
    }

    open spec fn not_req(self) -> bool {
        true
    }

    open spec fn not_spec(self) -> Self {
        Bitboard(!self.0)
    }
}

impl core::ops::Shl<i32> for Bitboard {
    type Output = Bitboard;

    /// Shift every square up by the given amount.
    fn shl(self, rhs: i32) -> (r: Self) {
        Bitboard(self.0 << rhs)
    }
}

impl ShlSpecImpl<i32> for Bitboard {
    open spec fn obeys_shl_spec() -> bool {
        true
    }

    open spec fn shl_req(self, rhs: i32) -> bool {
        0 <= rhs < 64
    }

    open spec fn shl_spec(self, rhs: i32) -> Self {
        Bitboard(self.0 << rhs)
    }
}

impl core::ops::Shr<i32> for Bitboard {
    type Output = Bitboard;

    /// Shift every square down by the given amount.
    fn shr(self, rhs: i32) -> (r: Self) {
        Bitboard(self.0 >> rhs)
    }
}

impl ShrSpecImpl<i32> for Bitboard {
    open spec fn obeys_shr_spec() -> bool {
        true
    }

    open spec fn shr_req(self, rhs: i32) -> bool {
        0 <= rhs < 64
    }

    open spec fn shr_spec(self, rhs: i32) -> Self {
        Bitboard(self.0 >> rhs)
    }
}

impl From<u64> for Bitboard {
    /// The set whose bits are exactly those of the word.
    fn from(val: u64) -> (r: Self) {
        Bitboard(val)
    }
}

impl FromSpecImpl<u64> for Bitboard {
    open spec fn obeys_from_spec() -> bool {
        true
    }

    open spec fn from_spec(val: u64) -> Self {
        Bitboard(val)
    }
}

} // verus!
