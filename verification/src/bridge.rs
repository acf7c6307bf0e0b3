//! The events that instances of the queue tell each other.

use vstd::prelude::*;

verus! {

/// The kind of an event.
#[derive(Debug, Clone, Copy, PartialEq, Eq, Structural)]
#[non_exhaustive]
pub enum OpCode {
    GameStarted,
}

/// A match has started with these players: every other queue lets them go.
#[derive(Debug, Clone)]
pub struct GameStarted {
    pub players: Vec<u64>,
}

/// An event.
#[derive(Debug, Clone)]
#[non_exhaustive]
pub enum BridgeEvent {
    GameStarted(GameStarted),
}

impl BridgeEvent {
    /// The kind of the event.
    pub fn op_code(&self) -> (r: OpCode)
        ensures
            r == match *self {
                BridgeEvent::GameStarted(_) => OpCode::GameStarted,
            },
    {
        match self {
            BridgeEvent::GameStarted(_) => OpCode::GameStarted,
        }
    }
}

impl OpCode {
    /// The name of the kind in messages.
    pub fn name(self) -> (r: &'static str)
        ensures
            r@ == match self {
                OpCode::GameStarted => "GAME_STARTED"@,
            },
    {
        match self {
            OpCode::GameStarted => "GAME_STARTED",
        }
    }
}

impl From<GameStarted> for BridgeEvent {
    fn from(game_started: GameStarted) -> (r: BridgeEvent) {
        BridgeEvent::GameStarted(game_started)
    }
}

impl vstd::std_specs::convert::FromSpecImpl<GameStarted> for BridgeEvent {
    open spec fn obeys_from_spec() -> bool {
        true
    }

    open spec fn from_spec(game_started: GameStarted) -> BridgeEvent {
        BridgeEvent::GameStarted(game_started)
    }
}

/// The event that tells of the start of a match: its players, team 1
/// first.
pub fn game_started(team1: &[u64], team2: &[u64]) -> (r: GameStarted)
    ensures
        r.players@ == team1@ + team2@,
{
    let mut players: Vec<u64> = Vec::new();
    let mut i: usize = 0;
    while i < team1.len()
        invariant
            i <= team1.len(),
            players@ == team1@.take(i as int),
        decreases team1.len() - i,
    {
        players.push(team1[i]);
        assert(team1@.take(i + 1) =~= team1@.take(i as int).push(team1@[i as int]));
        i += 1;
    }
    assert(team1@.take(team1.len() as int) =~= team1@);
    let mut j: usize = 0;
    while j < team2.len()
        invariant
            j <= team2.len(),
            players@ == team1@ + team2@.take(j as int),
        decreases team2.len() - j,
    {
        players.push(team2[j]);
        assert(team1@ + team2@.take(j + 1) =~= (team1@ + team2@.take(j as int)).push(
            team2@[j as int],
        ));
        j += 1;
    }
    assert(team2@.take(team2.len() as int) =~= team2@);
    GameStarted { players }
}

} // verus!
