//! The two players of a game.

use vstd::prelude::*;

verus! {

/// One of the two players. `First` is the player whose symbol is listed first
/// in a YEN and who moves when the ply count is even.
#[derive(Clone, Copy, Debug, PartialEq, Eq, Hash, Structural)]
pub enum PlayerId {
    First,
    Second,
}

impl PlayerId {
    /// The player's number: 0 for `First`, 1 for `Second`.
    pub open spec fn index(self) -> nat {
        match self {
            PlayerId::First => 0,
            PlayerId::Second => 1,
        }
    }

    /// The player who is to move when `ply` placements have been made.
    pub open spec fn at_ply(ply: nat) -> PlayerId {
        if ply % 2 == 0 {
            PlayerId::First
        } else {
            PlayerId::Second
        }
    }

    /// The opponent of `self`.
    pub open spec fn opponent(self) -> PlayerId {
        match self {
            PlayerId::First => PlayerId::Second,
            PlayerId::Second => PlayerId::First,
        }
    }

    /// The player with number `id`, if `id` is 0 or 1.
    pub fn new(id: u32) -> (p: Option<PlayerId>)
        ensures
            id == 0 ==> p == Some(PlayerId::First),
            id == 1 ==> p == Some(PlayerId::Second),
            id >= 2 ==> p.is_none(),
    {
        if id == 0 {
            Some(PlayerId::First)
        } else if id == 1 {
            Some(PlayerId::Second)
        } else {
            None
        }
    }

    /// The player's number.
    pub fn id(&self) -> (n: u32)
        ensures
            n == self.index(),
    {
        match self {
            PlayerId::First => 0,
            PlayerId::Second => 1,
        }
    }

    /// The opponent of `self`.
    pub fn other(&self) -> (p: PlayerId)
        ensures
            p == self.opponent(),
    {
        match self {
            PlayerId::First => PlayerId::Second,
            PlayerId::Second => PlayerId::First,
        }
    }

    /// The player to move at ply `ply`.
    pub fn for_ply(ply: u32) -> (p: PlayerId)
        ensures
            p == PlayerId::at_ply(ply as nat),
    {
        if ply % 2 == 0 {
            PlayerId::First
        } else {
            PlayerId::Second
        }
    }
}

} // verus!
