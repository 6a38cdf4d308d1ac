//! The square model: an index 0–63, rank = index / 8, file = index % 8.

use vstd::prelude::*;
use crate::bitboard::Bitboard;

verus! {

/// One square of the 8×8 board, as an index in `[0, 64)`.
#[derive(Debug, Clone, Copy, PartialEq, Eq, Hash, Structural)]
pub struct Tile(pub u8);

impl Tile {
    /// The index really names a square.
    pub open spec fn wf(self) -> bool {
        self.0 < 64
    }

    /// The file (column) of the square, `0` for the a-file.
    pub open spec fn spec_file(self) -> u8 {
        self.0 % 8
    }

    /// The rank (row) of the square, `0` for the first rank.
    pub open spec fn spec_rank(self) -> u8 {
        self.0 / 8
    }

    pub fn new_index(index: u8) -> (r: Option<Tile>)
        ensures
            index < 64 ==> r == Some(Tile(index)),
            index >= 64 ==> r is None,
    {
        if index >= 64 {
            return None;
        }
        Some(Tile(index))
    }

    pub fn new_xy(x: u8, y: u8) -> (r: Option<Tile>)
        ensures
            x < 8 && y < 8 ==> r == Some(Tile((y * 8 + x) as u8)),
            !(x < 8 && y < 8) ==> r is None,
    {
        if x >= 8 || y >= 8 {
            return None;
        }
        Some(Tile(y * 8 + x))
    }

    pub fn new_unchecked(index: u8) -> (r: Tile)
        requires
            index < 64,
        ensures
            r == Tile(index),
    {
        Tile(index)
    }

    pub fn to_u8(&self) -> (r: u8)
        ensures
            r == self.0,
    {
        self.0
    }

    pub fn to_usize(&self) -> (r: usize)
        ensures
            r == self.0,
    {
        self.0 as usize
    }

    /// The file and rank of the square, in that order.
    pub fn get_coords(&self) -> (r: (u8, u8))
        requires
            self.wf(),
        ensures
            r.0 == self.spec_file(),
            r.1 == self.spec_rank(),
    {
        (self.0 % 8, self.0 / 8)
    }

    /// What `offset` returns: the square `dx` files and `dy` ranks away,
    /// or nothing when that leaves the board.
    pub open spec fn spec_offset(self, dx: int, dy: int) -> Option<Tile> {
        let nx = self.spec_file() + dx;
        let ny = self.spec_rank() + dy;
        if 0 <= nx < 8 && 0 <= ny < 8 {
            Some(Tile((ny * 8 + nx) as u8))
        } else {
            None
        }
    }

    pub fn offset(&self, dx: i8, dy: i8) -> (r: Option<Tile>)
        requires
            self.wf(),
        ensures
            r == self.spec_offset(dx as int, dy as int),
    {
        let nx: i16 = (self.0 % 8) as i16 + dx as i16;
        let ny: i16 = (self.0 / 8) as i16 + dy as i16;
        if 0 <= nx && nx < 8 && 0 <= ny && ny < 8 {
            Some(Tile((ny * 8 + nx) as u8))
        } else {
            None
        }
    }

    /// One step towards the opponent's back rank.
    pub fn forward(&self, white: bool) -> (r: Option<Tile>)
        requires
            self.wf(),
        ensures
            r == self.spec_offset(0, if white { 1int } else { -1 }),
    {
        self.offset(0, if white { 1 } else { -1 })
    }

    /// One step towards the own back rank.
    pub fn backward(&self, white: bool) -> (r: Option<Tile>)
        requires
            self.wf(),
        ensures
            r == self.spec_offset(0, if white { -1int } else { 1 }),
    {
        self.offset(0, if white { -1 } else { 1 })
    }

    /// One step towards the mover's left, from the mover's point of view.
    pub fn left(&self, white: bool) -> (r: Option<Tile>)
        requires
            self.wf(),
        ensures
            r == self.spec_offset(if white { -1int } else { 1 }, 0),
    {
        self.offset(if white { -1 } else { 1 }, 0)
    }

    /// One step towards the mover's right, from the mover's point of view.
    pub fn right(&self, white: bool) -> (r: Option<Tile>)
        requires
            self.wf(),
        ensures
            r == self.spec_offset(if white { 1int } else { -1 }, 0),
    {
        self.offset(if white { 1 } else { -1 }, 0)
    }

    /// The square lies on the rank where the given side's pawns promote.
    pub fn is_promotion(&self, white: bool) -> (r: bool)
        requires
            self.wf(),
        ensures
            r == (self.spec_rank() == if white { 7int } else { 0 }),
    {
        if white {
            self.0 / 8 == 7
        } else {
            self.0 / 8 == 0
        }
    }

    /// The square lies on the rank where the given side's pawns start.
    pub fn is_pawn_start(&self, white: bool) -> (r: bool)
        requires
            self.wf(),
        ensures
            r == (self.spec_rank() == if white { 1int } else { 6 }),
    {
        if white {
            self.0 / 8 == 1
        } else {
            self.0 / 8 == 6
        }
    }

    /// The one-square set of this tile.
    pub fn to_mask(&self) -> (r: Bitboard)
        requires
            self.wf(),
        ensures
            r.0 == 1u64 << self.0,
    {
        Bitboard(1u64 << self.0)
    }

    /// The squares a king here could step to.
    pub fn get_neighbours(&self) -> (r: Bitboard)
        requires
            self.wf(),
        ensures
            forall|j: Tile|
                j.wf() ==> (#[trigger] crate::bits::bit64(r.0, j.0 as u64)
                    <==> crate::attacks::king_has(*self, j)),
            forall|i: u64| crate::bits::bit64(r.0, i) ==> i < 64,
    {
        crate::attacks::king_attacks_on(*self)
    }

    /// The squares a rook here attacks, given the occupancy.
    pub fn rook_attacks(&self, occ: Bitboard) -> (r: Bitboard)
        requires
            self.wf(),
        ensures
            forall|j: Tile|
                j.wf() ==> (#[trigger] crate::bits::bit64(r.0, j.0 as u64)
                    <==> crate::attacks::rook_has(*self, occ.0, j)),
            forall|i: u64| crate::bits::bit64(r.0, i) ==> i < 64,
    {
        crate::attacks::rook_attacks_on(*self, occ)
    }

    /// The squares a bishop here attacks, given the occupancy.
    pub fn bishop_attacks(&self, occ: Bitboard) -> (r: Bitboard)
        requires
            self.wf(),
        ensures
            forall|j: Tile|
                j.wf() ==> (#[trigger] crate::bits::bit64(r.0, j.0 as u64)
                    <==> crate::attacks::bishop_has(*self, occ.0, j)),
            forall|i: u64| crate::bits::bit64(r.0, i) ==> i < 64,
    {
        crate::attacks::bishop_attacks_on(*self, occ)
    }

    /// The squares a queen here attacks, given the occupancy.
    pub fn queen_attacks(&self, occ: Bitboard) -> (r: Bitboard)
        requires
            self.wf(),
        ensures
            forall|j: Tile|
                j.wf() ==> (#[trigger] crate::bits::bit64(r.0, j.0 as u64)
                    <==> crate::attacks::queen_has(*self, occ.0, j)),
            forall|i: u64| crate::bits::bit64(r.0, i) ==> i < 64,
    {
        crate::attacks::queen_attacks_on(*self, occ)
    }

    /// The squares a knight here attacks.
    pub fn knight_attacks(&self) -> (r: Bitboard)
        requires
            self.wf(),
        ensures
            forall|j: Tile|
                j.wf() ==> (#[trigger] crate::bits::bit64(r.0, j.0 as u64)
                    <==> crate::attacks::knight_has(*self, j)),
            forall|i: u64| crate::bits::bit64(r.0, i) ==> i < 64,
    {
        crate::attacks::knight_attacks_on(*self)
    }

    /// The squares a king here attacks.
    pub fn king_attacks(&self) -> (r: Bitboard)
        requires
            self.wf(),
        ensures
            forall|j: Tile|
                j.wf() ==> (#[trigger] crate::bits::bit64(r.0, j.0 as u64)
                    <==> crate::attacks::king_has(*self, j)),
            forall|i: u64| crate::bits::bit64(r.0, i) ==> i < 64,
    {
        crate::attacks::king_attacks_on(*self)
    }

    /// The squares a pawn of the given colour here attacks.
    pub fn pawn_attacks(&self, white: bool) -> (r: Bitboard)
        requires
            self.wf(),
        ensures
            forall|j: Tile|
                j.wf() ==> (#[trigger] crate::bits::bit64(r.0, j.0 as u64)
                    <==> crate::attacks::pawn_has(*self, white, j)),
            forall|i: u64| crate::bits::bit64(r.0, i) ==> i < 64,
    {
        crate::attacks::pawn_attacks_on(*self, white)
    }

    /// The squares strictly between this square and `to` on a shared
    /// line, or the empty set.
    pub fn get_between(&self, to: Tile) -> (r: Bitboard)
        requires
            self.wf(),
            to.wf(),
        ensures
            forall|j: Tile|
                j.wf() ==> (#[trigger] crate::bits::bit64(r.0, j.0 as u64)
                    <==> crate::attacks::between_has(*self, to, j)),
            forall|i: u64| crate::bits::bit64(r.0, i) ==> i < 64,
    {
        crate::attacks::between_tiles(*self, to)
    }

    /// Read a square from file and rank letters, `'a'`–`'h'` and
    /// `'1'`–`'8'`.
    pub fn new_chars(file_char: char, rank_char: char) -> (r: Option<Tile>)
        ensures
            ('a' <= file_char <= 'h' && '1' <= rank_char <= '8') ==> r == Some(
                Tile(
                    (((rank_char as u8) - 49) * 8 + ((file_char as u8) - 97)) as u8,
                ),
            ),
            !('a' <= file_char <= 'h' && '1' <= rank_char <= '8') ==> r is None,
    {
        if file_char < 'a' || file_char > 'h' || rank_char < '1' || rank_char > '8' {
            return None;
        }
        let f = (file_char as u8) - 97;
        let rk = (rank_char as u8) - 49;
        Some(Tile(rk * 8 + f))
    }

    /// Read a square from a two-letter name such as `e4`.
    pub fn from_str(s: &str) -> (r: Option<Tile>)
        ensures
            r matches Some(t) ==> t.wf(),
            r == (if s@.len() == 2 && 'a' <= s@[0] <= 'h' && '1' <= s@[1] <= '8' {
                Some(Tile((((s@[1] as u8) - 49) * 8 + ((s@[0] as u8) - 97)) as u8))
            } else {
                None::<Tile>
            }),
    {
        if s.unicode_len() != 2 {
            return None;
        }
        let f = s.get_char(0);
        let rk = s.get_char(1);
        Tile::new_chars(f, rk)
    }

    /// The name of the square, file letter then rank digit.
    pub fn name(&self) -> (r: String)
        requires
            self.wf(),
        ensures
            r@.len() == 2,
            r@[0] == self.spec_file_char(),
            r@[1] == self.spec_rank_char(),
    {
        let fs: &str = match self.0 % 8 {
            0 => "a",
            1 => "b",
            2 => "c",
            3 => "d",
            4 => "e",
            5 => "f",
            6 => "g",
            _ => "h",
        };
        let rs: &str = match self.0 / 8 {
            0 => "1",
            1 => "2",
            2 => "3",
            3 => "4",
            4 => "5",
            5 => "6",
            6 => "7",
            _ => "8",
        };
        proof {
            reveal_strlit("a");
            reveal_strlit("b");
            reveal_strlit("c");
            reveal_strlit("d");
            reveal_strlit("e");
            reveal_strlit("f");
            reveal_strlit("g");
            reveal_strlit("h");
            reveal_strlit("1");
            reveal_strlit("2");
            reveal_strlit("3");
            reveal_strlit("4");
            reveal_strlit("5");
            reveal_strlit("6");
            reveal_strlit("7");
            reveal_strlit("8");
        }
        let mut out = fs.to_owned();
        out.append(rs);
        out
    }

    /// The file letter of the square's name.
    pub open spec fn spec_file_char(self) -> char {
        let f = self.spec_file();
        if f == 0 {
            'a'
        } else if f == 1 {
            'b'
        } else if f == 2 {
            'c'
        } else if f == 3 {
            'd'
        } else if f == 4 {
            'e'
        } else if f == 5 {
            'f'
        } else if f == 6 {
            'g'
        } else {
            'h'
        }
    }

    /// The rank digit of the square's name.
    pub open spec fn spec_rank_char(self) -> char {
        let r = self.spec_rank();
        if r == 0 {
            '1'
        } else if r == 1 {
            '2'
        } else if r == 2 {
            '3'
        } else if r == 3 {
            '4'
        } else if r == 4 {
            '5'
        } else if r == 5 {
            '6'
        } else if r == 6 {
            '7'
        } else {
            '8'
        }
    }

    /// A square is light when file and rank differ in parity.
    pub fn is_light_square(&self) -> (r: bool)
        requires
            self.wf(),
        ensures
            r == ((self.spec_file() + self.spec_rank()) % 2 == 1),
    {
        (self.0 % 8 + self.0 / 8) % 2 == 1
    }
}

} // verus!
