use vstd::prelude::*;

verus! {

/// One of the two piece colours. Green moves first in a fresh game.
#[derive(Clone, Copy, PartialEq, Eq, Structural, Debug)]
pub enum Player {
    Green,
    Red,
}

impl Player {
    /// The opposite identity.
    pub fn other(&self) -> (r: Self)
        ensures
            r == self.spec_other(),
    {
        match self {
            Player::Green => Player::Red,
            Player::Red => Player::Green,
        }
    }

    pub open spec fn spec_other(self) -> Self {
        match self {
            Player::Green => Player::Red,
            Player::Red => Player::Green,
        }
    }
}

} // verus!
