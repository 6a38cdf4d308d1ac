//! Castling rights: four independent flags, one per side and wing,
//! packed into the low four bits of a byte.

use vstd::prelude::*;
use vstd::string::StringSliceAdditionalSpecFns;

verus! {

/// The set of castling rights still held.  Bit 0 is white king-side,
/// bit 1 white queen-side, bit 2 black king-side, bit 3 black queen-side.
#[derive(Debug, Clone, Copy, PartialEq, Eq, Structural)]
pub struct CastlingRights(pub u8);

/// What `CastlingRights::from_fen` reads from the byte at `i` on: king
/// and queen letters set their flag, a dash clears everything read so
/// far, anything else is passed over.
pub open spec fn cr_parse(bs: Seq<u8>, i: int, acc: u8) -> u8
    decreases bs.len() - i,
{
    if i < 0 || i >= bs.len() {
        acc
    } else if bs[i] == 45u8 {
        0u8
    } else {
        let flag: u8 = if bs[i] == 75u8 {
            1u8
        } else if bs[i] == 81u8 {
            2u8
        } else if bs[i] == 107u8 {
            4u8
        } else if bs[i] == 113u8 {
            8u8
        } else {
            0u8
        };
        cr_parse(bs, i + 1, acc | flag)
    }
}

impl CastlingRights {
    /// The field of a castling-rights FEN string, `KQkq` order, `-` for
    /// none.
    pub open spec fn spec_fen(self) -> Seq<char> {
        let b = self.0 % 16;
        if b == 0 {
            seq!['-']
        } else {
            (if b % 2 == 1 {
                seq!['K']
            } else {
                Seq::<char>::empty()
            }) + (if (b / 2) % 2 == 1 {
                seq!['Q']
            } else {
                Seq::<char>::empty()
            }) + (if (b / 4) % 2 == 1 {
                seq!['k']
            } else {
                Seq::<char>::empty()
            }) + (if (b / 8) % 2 == 1 {
                seq!['q']
            } else {
                Seq::<char>::empty()
            })
        }
    }

    pub fn new(rights: u8) -> (r: Self)
        ensures
            r.0 == rights,
    {
        CastlingRights(rights)
    }

    /// No right held.
    pub fn empty() -> (r: Self)
        ensures
            r.0 == 0,
    {
        CastlingRights(0)
    }

    /// All four rights held.
    pub fn all() -> (r: Self)
        ensures
            r.0 == 15,
    {
        CastlingRights(15)
    }

    pub fn white_kingside() -> (r: Self)
        ensures
            r.0 == 1,
    {
        CastlingRights(1)
    }

    pub fn white_queenside() -> (r: Self)
        ensures
            r.0 == 2,
    {
        CastlingRights(2)
    }

    pub fn black_kingside() -> (r: Self)
        ensures
            r.0 == 4,
    {
        CastlingRights(4)
    }

    pub fn black_queenside() -> (r: Self)
        ensures
            r.0 == 8,
    {
        CastlingRights(8)
    }

    /// Some right of the given set is held.
    pub fn contains(&self, rights: CastlingRights) -> (r: bool)
        ensures
            r == (self.0 & rights.0 != 0),
    {
        self.0 & rights.0 != 0
    }

    /// Give up the given rights.
    pub fn remove(&mut self, rights: CastlingRights)
        ensures
            final(self).0 == old(self).0 & !rights.0,
    {
        self.0 = self.0 & !rights.0;
    }

    /// Take up the given rights.
    pub fn insert(&mut self, rights: CastlingRights)
        ensures
            final(self).0 == old(self).0 | rights.0,
    {
        self.0 = self.0 | rights.0;
    }

    /// Read the rights from the castling field of a FEN string.
    pub fn from_fen(fen: &str) -> (r: Self)
        ensures
            r.0 == cr_parse(fen.spec_bytes(), 0, 0),
    {
        let bs = fen.as_bytes_vec();
        let mut rights: u8 = 0;
        let mut i: usize = 0;
        while i < bs.len()
            invariant
                i <= bs@.len(),
                bs@ == fen.spec_bytes(),
                cr_parse(bs@, 0, 0) == cr_parse(bs@, i as int, rights),
            decreases bs@.len() - i,
        {
            let c = bs[i];
            if c == 45u8 {
                proof {
                    assert(cr_parse(bs@, i as int, rights) == 0);
                }
                return CastlingRights(0);
            }
            proof {
                assert(rights | 0u8 == rights) by (bit_vector);
            }
            if c == 75u8 {
                rights = rights | 1;
            } else if c == 81u8 {
                rights = rights | 2;
            } else if c == 107u8 {
                rights = rights | 4;
            } else if c == 113u8 {
                rights = rights | 8;
            }
            i = i + 1;
        }
        CastlingRights(rights)
    }

    /// Write the rights as the castling field of a FEN string: held
    /// rights in `KQkq` order, or `-` when none is held.
    pub fn to_fen(&self) -> (r: String)
        requires
            self.0 < 16,
        ensures
            r@ == self.spec_fen(),
    {
        let out: &str = match self.0 {
            0 => "-",
            1 => "K",
            2 => "Q",
            3 => "KQ",
            4 => "k",
            5 => "Kk",
            6 => "Qk",
            7 => "KQk",
            8 => "q",
            9 => "Kq",
            10 => "Qq",
            11 => "KQq",
            12 => "kq",
            13 => "Kkq",
            14 => "Qkq",
            _ => "KQkq",
        };
        proof {
            reveal_strlit("-");
            reveal_strlit("K");
            reveal_strlit("Q");
            reveal_strlit("KQ");
            reveal_strlit("k");
            reveal_strlit("Kk");
            reveal_strlit("Qk");
            reveal_strlit("KQk");
            reveal_strlit("q");
            reveal_strlit("Kq");
            reveal_strlit("Qq");
            reveal_strlit("KQq");
            reveal_strlit("kq");
            reveal_strlit("Kkq");
            reveal_strlit("Qkq");
            reveal_strlit("KQkq");
            assert(self.spec_fen() =~= out@);
        }
        out.to_owned()
    }

    pub fn to_u8(&self) -> (r: u8)
        ensures
            r == self.0,
    {
        self.0
    }
}

impl core::ops::BitOr for CastlingRights {
    type Output = CastlingRights;

    /// Union of the two sets of rights.
    fn bitor(self, rhs: Self) -> (r: Self) {
        CastlingRights(self.0 | rhs.0)
    }
}

impl vstd::std_specs::ops::BitOrSpecImpl for CastlingRights {
    open spec fn obeys_bitor_spec() -> bool {
        true
    }

    open spec fn bitor_req(self, rhs: Self) -> bool {
        true
    }

    open spec fn bitor_spec(self, rhs: Self) -> Self {
        CastlingRights(self.0 | rhs.0)
    }
}

} // verus!
