use vstd::prelude::*;

verus! {

/// One of the two sides of a game. Red moves first.
#[derive(Debug, PartialEq, Eq, Structural, Clone, Copy)]
pub enum Player {
    Red,
    Blue,
}

/// One cell of the board: empty, or holding a piece of one player.
#[derive(Debug, PartialEq, Eq, Structural, Clone, Copy)]
pub enum Cell {
    Empty,
    Piece(Player),
}

impl Player {
    /// The side that moves after this one.
    pub open spec fn spec_other(self) -> Player {
        match self {
            Player::Red => Player::Blue,
            Player::Blue => Player::Red,
        }
    }

    /// The side that moves after this one.
    pub fn other(&self) -> (r: Player)
        ensures
            r == self.spec_other(),
    {
        match self {
            Player::Red => Player::Blue,
            Player::Blue => Player::Red,
        }
    }
}

} // verus!
