//! The six piece kinds, ordinal-indexed for array lookup.

use vstd::prelude::*;

verus! {

/// One kind of chess piece.
#[derive(Debug, Clone, Copy, PartialEq, Eq, Structural)]
pub enum Piece {
    Pawn,
    Knight,
    Bishop,
    Rook,
    Queen,
    King,
}

impl Piece {
    /// The ordinal of the kind: pawn 0 through king 5.
    pub open spec fn spec_index(self) -> int {
        match self {
            Piece::Pawn => 0,
            Piece::Knight => 1,
            Piece::Bishop => 2,
            Piece::Rook => 3,
            Piece::Queen => 4,
            Piece::King => 5,
        }
    }

    /// The ordinal of the kind, for indexing the per-kind bitboards.
    pub fn to_usize(self) -> (r: usize)
        ensures
            r == self.spec_index(),
    {
        match self {
            Piece::Pawn => 0,
            Piece::Knight => 1,
            Piece::Bishop => 2,
            Piece::Rook => 3,
            Piece::Queen => 4,
            Piece::King => 5,
        }
    }

    /// The kind with the given ordinal.
    pub fn from_index(index: usize) -> (r: Piece)
        requires
            index < 6,
        ensures
            r.spec_index() == index,
    {
        match index {
            0 => Piece::Pawn,
            1 => Piece::Knight,
            2 => Piece::Bishop,
            3 => Piece::Rook,
            4 => Piece::Queen,
            _ => Piece::King,
        }
    }

    /// What `to_fen_char` returns: lower case for black, upper for white.
    pub open spec fn spec_fen_char(self, white: bool) -> char {
        match (self, white) {
            (Piece::Pawn, false) => 'p',
            (Piece::Knight, false) => 'n',
            (Piece::Bishop, false) => 'b',
            (Piece::Rook, false) => 'r',
            (Piece::Queen, false) => 'q',
            (Piece::King, false) => 'k',
            (Piece::Pawn, true) => 'P',
            (Piece::Knight, true) => 'N',
            (Piece::Bishop, true) => 'B',
            (Piece::Rook, true) => 'R',
            (Piece::Queen, true) => 'Q',
            (Piece::King, true) => 'K',
        }
    }

    /// The piece-placement letter of the kind, upper case for white.
    pub fn to_fen_char(&self, white: bool) -> (r: char)
        ensures
            r == self.spec_fen_char(white),
    {
        if white {
            match self {
                Piece::Pawn => 'P',
                Piece::Knight => 'N',
                Piece::Bishop => 'B',
                Piece::Rook => 'R',
                Piece::Queen => 'Q',
                Piece::King => 'K',
            }
        } else {
            match self {
                Piece::Pawn => 'p',
                Piece::Knight => 'n',
                Piece::Bishop => 'b',
                Piece::Rook => 'r',
                Piece::Queen => 'q',
                Piece::King => 'k',
            }
        }
    }

    /// The figurine of the kind for the given colour.
    pub fn to_unicode(&self, is_white: bool) -> (r: char)
        ensures
            r == (match (*self, is_white) {
                (Piece::King, true) => '\u{2654}',
                (Piece::Queen, true) => '\u{2655}',
                (Piece::Rook, true) => '\u{2656}',
                (Piece::Bishop, true) => '\u{2657}',
                (Piece::Knight, true) => '\u{2658}',
                (Piece::Pawn, true) => '\u{2659}',
                (Piece::King, false) => '\u{265A}',
                (Piece::Queen, false) => '\u{265B}',
                (Piece::Rook, false) => '\u{265C}',
                (Piece::Bishop, false) => '\u{265D}',
                (Piece::Knight, false) => '\u{265E}',
                (Piece::Pawn, false) => '\u{265F}',
            }),
    {
        match (self, is_white) {
            (Piece::King, true) => '\u{2654}',
            (Piece::Queen, true) => '\u{2655}',
            (Piece::Rook, true) => '\u{2656}',
            (Piece::Bishop, true) => '\u{2657}',
            (Piece::Knight, true) => '\u{2658}',
            (Piece::Pawn, true) => '\u{2659}',
            (Piece::King, false) => '\u{265A}',
            (Piece::Queen, false) => '\u{265B}',
            (Piece::Rook, false) => '\u{265C}',
            (Piece::Bishop, false) => '\u{265D}',
            (Piece::Knight, false) => '\u{265E}',
            (Piece::Pawn, false) => '\u{265F}',
        }
    }

    /// The letter of the kind in algebraic notation; a pawn has none.
    pub fn to_san_char(&self) -> (r: Option<char>)
        ensures
            r == (match *self {
                Piece::Pawn => None::<char>,
                Piece::Knight => Some('N'),
                Piece::Bishop => Some('B'),
                Piece::Rook => Some('R'),
                Piece::Queen => Some('Q'),
                Piece::King => Some('K'),
            }),
    {
        match self {
            Piece::Pawn => None,
            Piece::Knight => Some('N'),
            Piece::Bishop => Some('B'),
            Piece::Rook => Some('R'),
            Piece::Queen => Some('Q'),
            Piece::King => Some('K'),
        }
    }
}

} // verus!
