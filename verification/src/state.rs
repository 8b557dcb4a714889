use vstd::prelude::*;

verus! {

/// The phases of one game, in the order they can be entered:
/// a fresh board with no mines yet, an ongoing game, and the two
/// terminal outcomes.
#[derive(Clone, Copy, PartialEq, Eq, Structural, Debug)]
pub enum BoardState {
    Pristine,
    Undecided,
    Won,
    Lost,
}

impl BoardState {
    /// The numeric code reported to the host:
    /// 0 = Pristine, 1 = Undecided, 2 = Won, 3 = Lost.
    pub open spec fn spec_code(self) -> u8 {
        match self {
            BoardState::Pristine => 0,
            BoardState::Undecided => 1,
            BoardState::Won => 2,
            BoardState::Lost => 3,
        }
    }

    pub fn code(self) -> (r: u8)
        ensures
            r == self.spec_code(),
    {
        match self {
            BoardState::Pristine => 0,
            BoardState::Undecided => 1,
            BoardState::Won => 2,
            BoardState::Lost => 3,
        }
    }

    /// A decided board accepts no further moves.
    pub open spec fn spec_decided(self) -> bool {
        self == BoardState::Won || self == BoardState::Lost
    }

    pub fn decided(self) -> (r: bool)
        ensures
            r == self.spec_decided(),
    {
        match self {
            BoardState::Won => true,
            BoardState::Lost => true,
            _ => false,
        }
    }
}

} // verus!
