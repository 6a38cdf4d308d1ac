//! Magic-number hashing: the index computation that maps a masked
//! occupancy pattern to a dense attack-table slot.

use vstd::prelude::*;
use crate::bitboard::Bitboard;

verus! {

/// One square's magic data: the relevant-occupancy mask along its rays,
/// the multiplier, the shift, and the offset of its slice of the shared
/// attack table.
#[derive(Debug, Clone, PartialEq, Eq, Structural)]
pub struct MagicEntry {
    pub mask: u64,
    pub magic: u64,
    pub shift: u8,
    pub offset: u32,
}

/// The table index for a blocker configuration: mask the blockers,
/// multiply by the magic with wraparound, shift down, add the offset.
pub fn magic_index(entry: &MagicEntry, blockers: Bitboard) -> (r: usize)
    requires
        entry.shift < 64,
        entry.offset + (vstd::wrapping::u64_specs::wrapping_mul(blockers.0 & entry.mask, entry.magic)
            >> entry.shift) <= usize::MAX,
    ensures
        r == entry.offset + (vstd::wrapping::u64_specs::wrapping_mul(
            blockers.0 & entry.mask,
            entry.magic,
        ) >> entry.shift),
{
    let b = blockers.to_u64() & entry.mask;
    let hashed = b.wrapping_mul(entry.magic);
    (entry.offset as usize) + ((hashed >> entry.shift) as usize)
}

} // verus!
