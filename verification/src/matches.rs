//! Players and the matches between them.

use vstd::prelude::*;

verus! {

/// A player, known by the number of the account.
#[derive(Clone, Copy, Debug, PartialEq, Eq, Structural, Hash)]
pub struct Player {
    pub id: i64,
}

/// One finished match. Two records of the same match are equal: winner, loser
/// and time are what a match is told by.
#[derive(Clone, Copy, Debug, PartialEq, Eq, Structural, Hash)]
pub struct Match {
    pub winner: Player,
    pub loser: Player,
    /// Seconds since the Unix epoch.
    pub timestamp: i64,
}

impl Match {
    pub fn new(winner: Player, loser: Player, timestamp: i64) -> (m: Match)
        ensures
            m.winner == winner,
            m.loser == loser,
            m.timestamp == timestamp,
    {
        Match { winner, loser, timestamp }
    }

    /// Whether `p` played in this match.
    pub open spec fn involves(self, p: Player) -> bool {
        self.winner == p || self.loser == p
    }

    pub fn has_player(&self, p: Player) -> (b: bool)
        ensures
            b == self.involves(p),
    {
        self.winner == p || self.loser == p
    }

    /// Whether this match is dated after `now`.
    pub open spec fn is_after(self, now: i64) -> bool {
        self.timestamp > now
    }
}

} // verus!
