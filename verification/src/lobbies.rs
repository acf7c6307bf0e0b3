//! All lobbies of a community, by the channel that each serves.

use crate::collections::keys_of;
use crate::error::Error;
use crate::lobby::{
    reports_leaving, reports_sweep, swept, without, Lobby, LobbyView, QueueUser, SweepEvent,
};
use std::collections::HashMap;
use vstd::prelude::*;

verus! {

/// The lobbies, each under the id of its channel.
#[derive(Debug, Clone)]
pub struct Lobbies {
    table: HashMap<u64, Lobby>,
}

impl View for Lobbies {
    type V = Map<u64, LobbyView>;

    closed spec fn view(&self) -> Map<u64, LobbyView> {
        Map::new(|c: u64| self.table@.contains_key(c), |c: u64| self.table@[c]@)
    }
}

/// Who left the queue of one channel.
#[derive(Debug, Clone)]
pub struct Departures {
    pub channel: u64,
    /// Who left, in order, each with the number of players left waiting.
    pub left: Vec<(u64, usize)>,
}

/// What an expiry sweep did in one channel.
#[derive(Debug, Clone)]
pub struct Sweep {
    pub channel: u64,
    pub events: Vec<SweepEvent>,
}

/// The lobbies after the players listed left every queue.
pub open spec fn all_without(lobbies: Map<u64, LobbyView>, players: Seq<u64>) -> Map<
    u64,
    LobbyView,
> {
    Map::new(
        |c: u64| lobbies.contains_key(c),
        |c: u64| LobbyView { queue: without(lobbies[c].queue, players), ..lobbies[c] },
    )
}

/// The lobbies after an expiry sweep of every queue at `now`.
pub open spec fn all_swept(lobbies: Map<u64, LobbyView>, now: i64) -> Map<u64, LobbyView> {
    Map::new(
        |c: u64| lobbies.contains_key(c),
        |c: u64| LobbyView { queue: swept(lobbies[c].queue, now), ..lobbies[c] },
    )
}

impl Lobbies {
    /// No lobbies.
    pub fn new() -> (r: Lobbies)
        ensures
            r@ == Map::<u64, LobbyView>::empty(),
    {
        let r = Lobbies { table: HashMap::new() };
        assert(r@ =~= Map::<u64, LobbyView>::empty());
        r
    }

    /// Puts `lobby` under `channel`, in place of any lobby that was there.
    pub fn insert(&mut self, channel: u64, lobby: Lobby)
        ensures
            final(self)@ == old(self)@.insert(channel, lobby@),
    {
        broadcast use vstd::std_specs::hash::group_hash_axioms;

        self.table.insert(channel, lobby);
        assert(self@ =~= old(self)@.insert(channel, lobby@));
    }

    /// Takes the lobby of `channel` out, if there is one.
    pub fn remove(&mut self, channel: u64) -> (r: Option<Lobby>)
        ensures
            final(self)@ == old(self)@.remove(channel),
            match r {
                Some(lobby) => old(self)@.contains_key(channel) && lobby@ == old(self)@[channel],
                None => !old(self)@.contains_key(channel),
            },
    {
        broadcast use vstd::std_specs::hash::group_hash_axioms;

        let r = self.table.remove(&channel);
        assert(self@ =~= old(self)@.remove(channel));
        r
    }

    /// The lobby of `channel`; `NotALobby` if the channel has none.
    pub fn get(&self, channel: u64) -> (r: Result<&Lobby, Error>)
        ensures
            match r {
                Ok(lobby) => self@.contains_key(channel) && lobby@ == self@[channel],
                Err(e) => !self@.contains_key(channel) && e == Error::NotALobby(channel),
            },
    {
        broadcast use vstd::std_specs::hash::group_hash_axioms;

        match self.table.get(&channel) {
            Some(lobby) => Ok(lobby),
            None => Err(Error::NotALobby(channel)),
        }
    }

    /// The channels that have a lobby, each once, in no particular order.
    pub fn channels(&self) -> (r: Vec<u64>)
        ensures
            r@.no_duplicates(),
            r@.to_set() == self@.dom(),
    {
        let r = keys_of(&self.table);
        assert(self@.dom() =~= self.table@.dom());
        r
    }

    /// Puts a player into the queue of `channel`: see [`Lobby::join`].
    /// `NotALobby` if the channel has no lobby.
    pub fn join(
        &mut self,
        channel: u64,
        user_id: u64,
        expire: i64,
        warn: Option<i64>,
        force: bool,
    ) -> (r: Result<Option<Vec<u64>>, Error>)
        ensures
            !old(self)@.contains_key(channel) ==> r is Err && r->Err_0 == Error::NotALobby(channel)
                && final(self)@ == old(self)@,
            old(self)@.contains_key(channel) ==> match old(self)@[channel].join_error(
                user_id,
                force,
            ) {
                Some(e) => r is Err && r->Err_0 == Error::Lobby(e) && final(self)@ == old(self)@,
                None => {
                    let joined = old(self)@[channel].with_player(
                        user_id,
                        QueueUser { expire, warn },
                    );
                    &&& r is Ok
                    &&& joined.hands_out(r->Ok_0)
                    &&& final(self)@ == old(self)@.insert(channel, joined.settled())
                },
            },
    {
        broadcast use vstd::std_specs::hash::group_hash_axioms;

        match self.table.remove(&channel) {
            None => {
                assert(self@ =~= old(self)@);
                Err(Error::NotALobby(channel))
            },
            Some(lobby) => {
                let mut lobby = lobby;
                let joined = lobby.join(user_id, expire, warn, force);
                self.table.insert(channel, lobby);
                match joined {
                    Ok(drained) => {
                        assert(self@ =~= old(self)@.insert(channel, lobby@));
                        Ok(drained)
                    },
                    Err(e) => {
                        assert(self@ =~= old(self)@);
                        Err(Error::Lobby(e))
                    },
                }
            },
        }
    }

    /// Takes a player out of the queue of `channel`: see [`Lobby::leave`].
    /// If the queue is full after that, it is handed out as by
    /// [`Lobby::drain_if_full`]. `NotALobby` if the channel has no lobby.
    pub fn leave(&mut self, channel: u64, user_id: u64, force: bool) -> (r: Result<
        Option<Vec<u64>>,
        Error,
    >)
        ensures
            !old(self)@.contains_key(channel) ==> r is Err && r->Err_0 == Error::NotALobby(channel)
                && final(self)@ == old(self)@,
            old(self)@.contains_key(channel) ==> match old(self)@[channel].leave_error(
                user_id,
                force,
            ) {
                Some(e) => r is Err && r->Err_0 == Error::Lobby(e) && final(self)@ == old(self)@,
                None => {
                    let gone = old(self)@[channel].without_player(user_id);
                    &&& r is Ok
                    &&& gone.hands_out(r->Ok_0)
                    &&& final(self)@ == old(self)@.insert(channel, gone.settled())
                },
            },
    {
        broadcast use vstd::std_specs::hash::group_hash_axioms;

        match self.table.remove(&channel) {
            None => {
                assert(self@ =~= old(self)@);
                Err(Error::NotALobby(channel))
            },
            Some(lobby) => {
                let mut lobby = lobby;
                let gone = lobby.leave(user_id, force);
                let r = match gone {
                    Ok(()) => Ok(lobby.drain_if_full()),
                    Err(e) => Err(Error::Lobby(e)),
                };
                self.table.insert(channel, lobby);
                proof {
                    if r is Ok {
                        assert(self@ =~= old(self)@.insert(channel, lobby@));
                    } else {
                        assert(self@ =~= old(self)@);
                    }
                }
                r
            },
        }
    }

    /// Sets the number of players per team in `channel`, which makes the
    /// capacity of its lobby twice that: see [`Lobby::set_capacity`].
    /// `NotALobby` if the channel has no lobby; `BadArgument` for a number
    /// whose double is no capacity.
    pub fn set_team_size(&mut self, channel: u64, per_team: usize) -> (r: Result<
        Option<Vec<u64>>,
        Error,
    >)
        ensures
            !old(self)@.contains_key(channel) ==> r is Err && r->Err_0 == Error::NotALobby(channel)
                && final(self)@ == old(self)@,
            old(self)@.contains_key(channel) && !(1 <= per_team <= usize::MAX / 2) ==> r is Err
                && r->Err_0 == Error::BadArgument && final(self)@ == old(self)@,
            old(self)@.contains_key(channel) && 1 <= per_team <= usize::MAX / 2 ==> {
                let resized = LobbyView { capacity: 2 * per_team as nat, ..old(self)@[channel] };
                &&& r is Ok
                &&& resized.hands_out(r->Ok_0)
                &&& final(self)@ == old(self)@.insert(channel, resized.settled())
            },
    {
        broadcast use vstd::std_specs::hash::group_hash_axioms;

        match self.table.remove(&channel) {
            None => {
                assert(self@ =~= old(self)@);
                Err(Error::NotALobby(channel))
            },
            Some(lobby) => {
                let mut lobby = lobby;
                let r = if per_team < 1 || per_team > usize::MAX / 2 {
                    Err(Error::BadArgument)
                } else {
                    match lobby.set_capacity(2 * per_team) {
                        Ok(drained) => Ok(drained),
                        Err(e) => Err(Error::Lobby(e)),
                    }
                };
                self.table.insert(channel, lobby);
                proof {
                    if r is Ok {
                        assert(self@ =~= old(self)@.insert(channel, lobby@));
                    } else {
                        assert(self@ =~= old(self)@);
                    }
                }
                r
            },
        }
    }

    /// Takes the players listed out of every queue, frozen or not: see
    /// [`Lobby::leave_all`]. Returns, for each channel, who left.
    pub fn remove_players(&mut self, players: &[u64]) -> (r: Vec<Departures>)
        ensures
            final(self)@ == all_without(old(self)@, players@),
            r@.len() == old(self)@.len(),
            forall|i: int, j: int| 0 <= i < j < r@.len() ==> r@[i].channel != r@[j].channel,
            forall|i: int|
                0 <= i < r@.len() ==> old(self)@.contains_key((#[trigger] r@[i]).channel)
                    && reports_leaving(r@[i].left@, old(self)@[r@[i].channel].queue, players@),
    {
        broadcast use vstd::std_specs::hash::group_hash_axioms;

        let channels = keys_of(&self.table);
        let ghost before = self@;
        assert(before.dom() =~= self.table@.dom());
        let mut out: Vec<Departures> = Vec::new();
        let mut i: usize = 0;
        while i < channels.len()
            invariant
                i <= channels.len(),
                channels@.no_duplicates(),
                channels@.to_set() == before.dom(),
                channels@.len() == before.len(),
                before == old(self)@,
                self@.dom() == before.dom(),
                forall|c: u64| #[trigger]
                    before.contains_key(c) ==> self@[c] == if channels@.take(i as int).contains(c) {
                        LobbyView { queue: without(before[c].queue, players@), ..before[c] }
                    } else {
                        before[c]
                    },
                out@.len() == i,
                forall|a: int|
                    0 <= a < i ==> (#[trigger] out@[a]).channel == channels@[a] && reports_leaving(
                        out@[a].left@,
                        before[channels@[a]].queue,
                        players@,
                    ),
            decreases channels.len() - i,
        {
            let channel: u64 = channels[i];
            let ghost done = channels@.take(i as int);
            let ghost next = channels@.take(i + 1);
            let ghost held = self@;
            proof {
                assert(channels@.to_set().contains(channel));
                assert(next =~= done.push(channel));
                assert(!done.contains(channel)) by {
                    if done.contains(channel) {
                        let j = choose|j: int| 0 <= j < done.len() && done[j] == channel;
                        assert(channels@[j] == channels@[i as int]);
                    }
                }
                assert forall|c: u64| next.contains(c) <==> (done.contains(c) || c == channel) by {
                    if next.contains(c) {
                        let j = choose|j: int| 0 <= j < next.len() && next[j] == c;
                        if j < done.len() {
                            assert(done[j] == c);
                        }
                    }
                    if done.contains(c) {
                        let j = choose|j: int| 0 <= j < done.len() && done[j] == c;
                        assert(next[j] == c);
                    }
                    assert(next[done.len() as int] == channel);
                }
                assert(held.contains_key(channel));
            }
            match self.table.remove(&channel) {
                Some(lobby) => {
                    let mut lobby = lobby;
                    assert(lobby@ == before[channel]);
                    let left = lobby.leave_all(players);
                    self.table.insert(channel, lobby);
                    out.push(Departures { channel, left });
                    proof {
                        assert(self@.dom() =~= before.dom());
                        assert(self@[channel] == lobby@);
                        assert forall|c: u64| #[trigger] before.contains_key(c) implies self@[c]
                            == if next.contains(c) {
                            LobbyView { queue: without(before[c].queue, players@), ..before[c] }
                        } else {
                            before[c]
                        } by {
                            if c != channel {
                                assert(self@[c] == held[c]);
                            }
                        }
                    }
                },
                None => {},
            }
            i += 1;
        }
        proof {
            assert(channels@.take(channels.len() as int) =~= channels@);
            assert forall|c: u64| before.contains_key(c) implies channels@.contains(c) by {
                assert(channels@.to_set().contains(c));
            }
            assert(self@ =~= all_without(before, players@));
        }
        out
    }

    /// The periodic expiry sweep of every queue at `now`: see
    /// [`Lobby::sweep`]. Returns, for each channel, what was done.
    pub fn sweep(&mut self, now: i64) -> (r: Vec<Sweep>)
        ensures
            final(self)@ == all_swept(old(self)@, now),
            r@.len() == old(self)@.len(),
            forall|i: int, j: int| 0 <= i < j < r@.len() ==> r@[i].channel != r@[j].channel,
            forall|i: int|
                0 <= i < r@.len() ==> old(self)@.contains_key((#[trigger] r@[i]).channel)
                    && reports_sweep(r@[i].events@, old(self)@[r@[i].channel].queue, now),
    {
        broadcast use vstd::std_specs::hash::group_hash_axioms;

        let channels = keys_of(&self.table);
        let ghost before = self@;
        assert(before.dom() =~= self.table@.dom());
        let mut out: Vec<Sweep> = Vec::new();
        let mut i: usize = 0;
        while i < channels.len()
            invariant
                i <= channels.len(),
                channels@.no_duplicates(),
                channels@.to_set() == before.dom(),
                channels@.len() == before.len(),
                before == old(self)@,
                self@.dom() == before.dom(),
                forall|c: u64| #[trigger]
                    before.contains_key(c) ==> self@[c] == if channels@.take(i as int).contains(c) {
                        LobbyView { queue: swept(before[c].queue, now), ..before[c] }
                    } else {
                        before[c]
                    },
                out@.len() == i,
                forall|a: int|
                    0 <= a < i ==> (#[trigger] out@[a]).channel == channels@[a] && reports_sweep(
                        out@[a].events@,
                        before[channels@[a]].queue,
                        now,
                    ),
            decreases channels.len() - i,
        {
            let channel: u64 = channels[i];
            let ghost done = channels@.take(i as int);
            let ghost next = channels@.take(i + 1);
            let ghost held = self@;
            proof {
                assert(channels@.to_set().contains(channel));
                assert(next =~= done.push(channel));
                assert(!done.contains(channel)) by {
                    if done.contains(channel) {
                        let j = choose|j: int| 0 <= j < done.len() && done[j] == channel;
                        assert(channels@[j] == channels@[i as int]);
                    }
                }
                assert forall|c: u64| next.contains(c) <==> (done.contains(c) || c == channel) by {
                    if next.contains(c) {
                        let j = choose|j: int| 0 <= j < next.len() && next[j] == c;
                        if j < done.len() {
                            assert(done[j] == c);
                        }
                    }
                    if done.contains(c) {
                        let j = choose|j: int| 0 <= j < done.len() && done[j] == c;
                        assert(next[j] == c);
                    }
                    assert(next[done.len() as int] == channel);
                }
                assert(held.contains_key(channel));
            }
            match self.table.remove(&channel) {
                Some(lobby) => {
                    let mut lobby = lobby;
                    assert(lobby@ == before[channel]);
                    let events = lobby.sweep(now);
                    self.table.insert(channel, lobby);
                    out.push(Sweep { channel, events });
                    proof {
                        assert(self@.dom() =~= before.dom());
                        assert(self@[channel] == lobby@);
                        assert forall|c: u64| #[trigger] before.contains_key(c) implies self@[c]
                            == if next.contains(c) {
                            LobbyView { queue: swept(before[c].queue, now), ..before[c] }
                        } else {
                            before[c]
                        } by {
                            if c != channel {
                                assert(self@[c] == held[c]);
                            }
                        }
                    }
                },
                None => {},
            }
            i += 1;
        }
        proof {
            assert(channels@.take(channels.len() as int) =~= channels@);
            assert forall|c: u64| before.contains_key(c) implies channels@.contains(c) by {
                assert(channels@.to_set().contains(c));
            }
            assert(self@ =~= all_swept(before, now));
        }
        out
    }
}

} // verus!
