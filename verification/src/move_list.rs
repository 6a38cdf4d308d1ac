//! An append-only sequence of moves, built fresh per generation call.

use vstd::prelude::*;
use crate::moves::Move;
use crate::tile::Tile;

verus! {

/// The moves produced by one generation call, in generation order.
#[derive(Debug, Clone, PartialEq, Eq)]
pub struct MoveList {
    pub moves: Vec<Move>,
}

impl MoveList {
    /// The moves as a sequence.
    pub open spec fn view(self) -> Seq<Move> {
        self.moves@
    }

    pub fn new() -> (r: Self)
        ensures
            r@ == Seq::<Move>::empty(),
    {
        MoveList { moves: Vec::new() }
    }

    /// Append one move.
    pub fn push(&mut self, m: Move)
        ensures
            final(self)@ == old(self)@.push(m),
    {
        self.moves.push(m);
    }

    /// The moves, copied out in order.
    pub fn iter(&self) -> (r: Vec<Move>)
        ensures
            r@ == self@,
    {
        let mut out: Vec<Move> = Vec::new();
        let mut i: usize = 0;
        while i < self.moves.len()
            invariant
                i <= self.moves@.len(),
                out@ == self.moves@.subrange(0, i as int),
            decreases self.moves@.len() - i,
        {
            out.push(self.moves[i]);
            proof {
                assert(out@ =~= self.moves@.subrange(0, i + 1));
            }
            i = i + 1;
        }
        proof {
            assert(out@ =~= self.moves@);
        }
        out
    }

    /// The move at the given position.
    pub fn get(&self, index: usize) -> (r: Move)
        requires
            index < self@.len(),
        ensures
            r == self@[index as int],
    {
        self.moves[index]
    }

    pub fn is_empty(&self) -> (r: bool)
        ensures
            r == (self@.len() == 0),
    {
        self.moves.len() == 0
    }

    pub fn len(&self) -> (r: usize)
        ensures
            r == self@.len(),
    {
        self.moves.len()
    }

    /// Drop every move.
    pub fn clear(&mut self)
        ensures
            final(self)@ == Seq::<Move>::empty(),
    {
        self.moves.clear();
    }

    /// Some held move goes from `from` to `to`.
    pub fn contains_move(&self, from: Tile, to: Tile) -> (r: bool)
        ensures
            r == exists|i: int| 0 <= i < self@.len() && self@[i].from == from && self@[i].to
                == to,
    {
        let mut i: usize = 0;
        while i < self.moves.len()
            invariant
                i <= self.moves@.len(),
                forall|j: int| 0 <= j < i ==> !(self.moves@[j].from == from && self.moves@[j].to
                    == to),
            decreases self.moves@.len() - i,
        {
            let m = self.moves[i];
            if m.from.0 == from.0 && m.to.0 == to.0 {
                proof {
                    assert(self@[i as int].from == from && self@[i as int].to == to);
                }
                return true;
            }
            i = i + 1;
        }
        false
    }

    /// The exact move is held.
    pub fn contains(&self, mov: &Move) -> (r: bool)
        ensures
            r == self@.contains(*mov),
    {
        let mut i: usize = 0;
        while i < self.moves.len()
            invariant
                i <= self.moves@.len(),
                forall|j: int| 0 <= j < i ==> self.moves@[j] != *mov,
            decreases self.moves@.len() - i,
        {
            let m = self.moves[i];
            if m == *mov {
                proof {
                    assert(self@.contains(*mov));
                }
                return true;
            }
            i = i + 1;
        }
        false
    }
}

} // verus!
