//! The ways in which a request can be refused.

use crate::lobby::LobbyError;
use vstd::prelude::*;

verus! {

/// Why a command was refused. None of these is fatal: each is reported to
/// whoever gave the command, and nothing was changed.
#[derive(Debug, Clone)]
pub enum Error {
    /// A queue refused the request.
    Lobby(LobbyError),
    /// The channel holds no lobby.
    NotALobby(u64),
    NotEnoughArguments,
    BadArgument,
    /// An argument that should be a number is none, or is out of range.
    ParseInt,
    /// The match has an outcome already: undo it before changing the match.
    GameAlreadySet,
    MemberNotFound(String),
    ChannelNotFound(String),
    GameNotFound(usize),
    /// The player takes no part in the match.
    NotPlaying(u64),
    /// Both players are on the same team.
    SameTeam,
    /// A match needs at least two players.
    InsufficientPlayers,
}

impl From<LobbyError> for Error {
    fn from(err: LobbyError) -> (r: Error) {
        Error::Lobby(err)
    }
}

impl vstd::std_specs::convert::FromSpecImpl<LobbyError> for Error {
    open spec fn obeys_from_spec() -> bool {
        true
    }

    open spec fn from_spec(err: LobbyError) -> Error {
        Error::Lobby(err)
    }
}

} // verus!
