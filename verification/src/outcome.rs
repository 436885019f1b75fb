//! The result of one play-through.

use vstd::prelude::*;

verus! {

/// Who won a play-through.
#[derive(Debug, Clone, Copy, PartialEq, Eq, Structural)]
pub enum Winner {
    /// The actions ran out before the walk reached the far boundary.
    Leader,
    /// The walk reached the far boundary.
    Follower,
}

impl Winner {
    /// Whether this outcome is a win for the Leader.
    pub fn did_leader_win(&self) -> (won: bool)
        ensures
            won == (*self == Winner::Leader),
    {
        match self {
            Winner::Leader => true,
            Winner::Follower => false,
        }
    }
}

} // verus!
