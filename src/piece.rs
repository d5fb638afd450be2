use vstd::prelude::*;

verus! {

/// One of the two marks a player places on the board.
#[derive(Clone, Copy, Debug, PartialEq, Eq, Structural)]
pub enum Piece {
    X,
    O,
}

impl Piece {
    /// The mark of the opponent.
    pub open spec fn other(self) -> Piece {
        match self {
            Piece::X => Piece::O,
            Piece::O => Piece::X,
        }
    }

    /// The lower-case letter shown for this mark on the board.
    pub fn letter(&self) -> (r: char)
        ensures
            r == (if *self == Piece::X { 'x' } else { 'o' }),
    {
        match self {
            Piece::X => 'x',
            Piece::O => 'o',
        }
    }
}

impl std::ops::Not for Piece {
    type Output = Piece;

    fn not(self) -> (r: Piece)
        ensures
            r == self.other(),
    {
        match self {
            Piece::O => Piece::X,
            Piece::X => Piece::O,
        }
    }
}

impl vstd::std_specs::ops::NotSpecImpl for Piece {
    open spec fn obeys_not_spec() -> bool {
        true
    }

    open spec fn not_req(self) -> bool {
        true
    }

    open spec fn not_spec(self) -> Piece {
        self.other()
    }
}

} // verus!
