//! The five streets of a hand.

use vstd::prelude::*;

verus! {

/// A betting-round boundary.  Play advances Preflop, Flop, Turn, River, and
/// ends at Showdown.
#[derive(Debug, Clone, Copy, PartialEq, Eq, Structural)]
pub enum Stage {
    Preflop,
    Flop,
    Turn,
    River,
    Showdown,
}

impl Stage {
    /// The street that follows this one; Showdown follows River and itself.
    pub open spec fn next_spec(self) -> Stage {
        match self {
            Stage::Preflop => Stage::Flop,
            Stage::Flop => Stage::Turn,
            Stage::Turn => Stage::River,
            _ => Stage::Showdown,
        }
    }

    /// How many public cards have been dealt once this street is reached.
    pub open spec fn public_cards_spec(self) -> int {
        match self {
            Stage::Preflop => 0,
            Stage::Flop => 3,
            Stage::Turn => 4,
            Stage::River => 5,
            Stage::Showdown => 5,
        }
    }
}

} // verus!
