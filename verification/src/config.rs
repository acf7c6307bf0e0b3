//! Settings that the matchmaking rules read.

use vstd::prelude::*;

verus! {

/// For how long a player stays queued, in minutes.
#[derive(Debug, Clone, Copy, PartialEq, Eq, Structural)]
pub struct Timeout {
    /// How long a place lasts when a player joins.
    pub default: u64,
    /// The longest that a player can ask for.
    pub maximum: u64,
    /// How long before the end the player is warned.
    pub warn: u64,
}

/// A tier of the leaderboard: it holds the players rated below `limit` who
/// are in no tier with a lower limit.
#[derive(Debug, Clone)]
pub struct Rank {
    /// The role that marks the tier.
    pub id: u64,
    pub name: String,
    /// The mean that a player of the tier stays below, in the unit of the
    /// ratings.
    pub limit: i64,
    pub color: String,
}

/// The roles that the rules ask about.
#[derive(Debug, Clone, Copy, PartialEq, Eq, Structural)]
pub struct Roles {
    pub ranked: u64,
    pub admin: u64,
    pub banned: u64,
}

} // verus!
