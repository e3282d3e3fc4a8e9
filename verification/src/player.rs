use vstd::prelude::*;

verus! {

/// One of the two players. The first player moves on even move counts.
#[derive(Copy, Clone, PartialEq, Eq, Structural, Debug)]
pub enum Player {
    First,
    Second,
}

impl Player {
    /// The opponent of this player.
    pub fn other(self) -> (r: Player)
        ensures
            r == (if self == Player::First { Player::Second } else { Player::First }),
    {
        match self {
            Player::First => Player::Second,
            Player::Second => Player::First,
        }
    }
}

} // verus!
