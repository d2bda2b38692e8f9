//! The board's data model: coordinates, spaces and proposed moves.

use vstd::prelude::*;

verus! {

/// Stable identifier of an agent, assigned at game creation. The simulation
/// only ever compares identifiers for equality; the process around the
/// library keeps whatever richer naming (network address, display name) it
/// needs and maps it to these.
pub type AgentId = u64;

/// Side length of the default board.
pub const BOARD_SIZE: usize = 16;

/// A board coordinate. A coordinate is in bounds of a board of side `n`
/// when both axes are below `n`.
#[derive(Clone, Copy, PartialEq, Eq, Structural, Debug)]
pub struct Coord {
    pub x: usize,
    pub y: usize,
}

/// One cell of the board.
///
/// `Mountain` is impassable and never owned. A `Capital` is a distinguished
/// space, fixed at board creation, whose capture eliminates its owner.
#[derive(Clone, Copy, PartialEq, Eq, Structural, Debug)]
#[allow(inconsistent_fields)]
pub enum Space {
    Empty,
    Owned { owner: AgentId, armies: u32 },
    Mountain,
    Capital { owner: Option<AgentId>, armies: u32 },
}

/// A proposed transfer of units between two spaces, tagged with the agent
/// that issued it. The amount moved is implicit: all but one army on `from`.
#[derive(Clone, Copy, PartialEq, Eq, Structural, Debug)]
pub struct Move {
    pub from: Coord,
    pub to: Coord,
    pub owner: AgentId,
}

impl Space {
    /// Who owns this space, as a pure function of the variant:
    /// `Mountain` and `Empty` have no owner.
    pub open spec fn spec_owner(self) -> Option<AgentId> {
        match self {
            Space::Empty => None,
            Space::Owned { owner, .. } => Some(owner),
            Space::Mountain => None,
            Space::Capital { owner, .. } => owner,
        }
    }

    /// The armies standing on this space (none on `Empty` or `Mountain`).
    pub open spec fn spec_armies(self) -> u32 {
        match self {
            Space::Empty => 0,
            Space::Owned { armies, .. } => armies,
            Space::Mountain => 0,
            Space::Capital { armies, .. } => armies,
        }
    }

    /// Owner lookup.
    pub fn owner(&self) -> (r: Option<AgentId>)
        ensures
            r == self.spec_owner(),
    {
        match self {
            Space::Empty => None,
            Space::Owned { owner, .. } => Some(*owner),
            Space::Mountain => None,
            Space::Capital { owner, .. } => *owner,
        }
    }

    /// The armies standing on this space.
    pub fn armies(&self) -> (r: u32)
        ensures
            r == self.spec_armies(),
    {
        match self {
            Space::Empty => 0,
            Space::Owned { armies, .. } => *armies,
            Space::Mountain => 0,
            Space::Capital { armies, .. } => *armies,
        }
    }
}

} // verus!
