//! The core of a matchmaking service for chat communities: players queue in
//! a lobby, a full queue becomes a match between two balanced teams, and the
//! outcomes of the matches decide the players' ratings.
//!
//! Everything here is a rule on plain values, stated in a contract and
//! proved. The few calls into other crates (for the combinations, the coin
//! and lower case) stand in small functions whose contracts say what is
//! taken on trust. Talking to the chat platform, storing matches and
//! computing with the rating model itself are left to the program around
//! this library:
//!
//! - [`lobby`] and [`lobbies`]: the queues, their capacity, freeze and
//!   expiry;
//! - [`matchmaking`], on [`ranking`] and [`combinations`]: the split of a
//!   full queue into the two most even teams;
//! - [`game`] and [`game_log`]: matches, the lifecycle of their outcome, and
//!   the log that numbers them;
//! - [`rating`]: ratings and records, rebuilt from the log by replaying
//!   every match;
//! - [`leaderboard`]: the ranking in pages, with the heads of the tiers;
//! - [`play`]: the state changes of the commands, built from the above;
//! - [`command`] and [`text`]: commands and their arguments;
//! - [`bridge`], [`config`], [`error`], [`collections`]: events, settings,
//!   refusals and helpers.

pub mod bridge;
pub mod collections;
pub mod combinations;
pub mod command;
pub mod config;
pub mod error;
pub mod game;
pub mod game_log;
pub mod leaderboard;
pub mod lobbies;
pub mod lobby;
pub mod matchmaking;
pub mod play;
pub mod ranking;
pub mod rating;
pub mod text;
