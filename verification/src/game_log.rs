//! The matches of one lobby, in the order of their ids.

use crate::collections::keys_of;
use crate::error::Error;
use crate::game::{Game, GameView};
use crate::rating::game_views;
use std::collections::HashMap;
use vstd::prelude::*;

verus! {

/// The log of a lobby's matches. Ids are given out in sequence, from 1.
#[derive(Debug)]
pub struct GameLog {
    games: Vec<Game>,
}

impl View for GameLog {
    type V = Seq<GameView>;

    closed spec fn view(&self) -> Seq<GameView> {
        game_views(self.games@)
    }
}

/// Whether the ids of `log` rise from each match to the next, so that no id
/// occurs twice, and none is 0.
pub open spec fn ascending(log: Seq<GameView>) -> bool {
    &&& forall|i: int| 0 <= i < log.len() ==> (#[trigger] log[i]).id > 0
    &&& forall|i: int, j: int| 0 <= i < j < log.len() ==> log[i].id < log[j].id
}

/// The id that the next match appended to `log` gets: one more than the
/// last, 1 in an empty log.
pub open spec fn next_id(log: Seq<GameView>) -> nat {
    if log.len() == 0 {
        1
    } else {
        log.last().id + 1
    }
}

/// Where in `log` the match with the id `id` stands, if the log has it.
pub open spec fn place_of(log: Seq<GameView>, id: nat) -> Option<int> {
    if exists|i: int| 0 <= i < log.len() && (#[trigger] log[i]).id == id {
        Some(choose|i: int| 0 <= i < log.len() && (#[trigger] log[i]).id == id)
    } else {
        None
    }
}

/// In a log with ascending ids, a match stands where its id is found.
pub proof fn lemma_place_of(log: Seq<GameView>, id: nat, at: int)
    requires
        ascending(log),
        0 <= at < log.len(),
        log[at].id == id,
    ensures
        place_of(log, id) == Some(at),
{
    let c = choose|c: int| 0 <= c < log.len() && (#[trigger] log[c]).id == id;
    if c < at {
        assert(log[c].id < log[at].id);
    }
    if at < c {
        assert(log[at].id < log[c].id);
    }
}

/// Where a log has a match, it is in the log and has the id asked for.
pub proof fn lemma_place_found(log: Seq<GameView>, id: nat)
    requires
        place_of(log, id) is Some,
    ensures
        0 <= place_of(log, id)->0 < log.len(),
        log[place_of(log, id)->0].id == id,
{
}

impl GameLog {
    /// What holds of every log: its ids are ascending.
    #[verifier::type_invariant]
    spec fn well_formed(&self) -> bool {
        ascending(game_views(self.games@))
    }

    /// The empty log.
    pub fn new() -> (r: GameLog)
        ensures
            r@ == Seq::<GameView>::empty(),
    {
        let log = GameLog { games: Vec::new() };
        assert(log@ =~= Seq::<GameView>::empty());
        log
    }

    /// The log that holds `games`, if their ids are above 0 and rise from
    /// each match to the next; `None` for any other list.
    pub fn restore(games: Vec<Game>) -> (r: Option<GameLog>)
        ensures
            ascending(game_views(games@)) ==> r is Some && r->0@ == game_views(games@),
            !ascending(game_views(games@)) ==> r is None,
    {
        let ghost log = game_views(games@);
        let mut i: usize = 0;
        while i < games.len()
            invariant
                i <= games.len(),
                log == game_views(games@),
                forall|j: int| 0 <= j < i ==> (#[trigger] log[j]).id > 0,
                forall|a: int, b: int| 0 <= a < b < i ==> log[a].id < log[b].id,
            decreases games.len() - i,
        {
            assert(log[i as int].id == games@[i as int].id);
            if games[i].id == 0 {
                return None;
            }
            if i > 0 {
                assert(log[i - 1].id == games@[i - 1].id);
                if games[i - 1].id >= games[i].id {
                    assert(!(log[i - 1].id < log[i as int].id));
                    return None;
                }
                assert forall|a: int| 0 <= a < i implies log[a].id < log[i as int].id by {
                    if a < i - 1 {
                        assert(log[a].id < log[i - 1].id);
                    }
                }
            }
            i += 1;
        }
        Some(GameLog { games })
    }

    /// The number of matches logged.
    pub fn len(&self) -> (r: usize)
        ensures
            r == self@.len(),
    {
        self.games.len()
    }

    /// The matches, in the order of their ids.
    pub fn games(&self) -> (r: &Vec<Game>)
        ensures
            game_views(r@) == self@,
            ascending(self@),
    {
        proof {
            use_type_invariant(self);
        }
        &self.games
    }

    /// The match logged last, if any.
    pub fn last(&self) -> (r: Option<&Game>)
        ensures
            self@.len() == 0 ==> r is None,
            self@.len() > 0 ==> r is Some && r->0@ == self@.last(),
    {
        let n = self.games.len();
        if n == 0 {
            None
        } else {
            Some(&self.games[n - 1])
        }
    }

    /// The `count` matches logged last, the latest first; all of them if
    /// the log holds fewer.
    pub fn latest(&self, count: usize) -> (r: Vec<&Game>)
        ensures
            r@.len() == if count < self@.len() {
                count as nat
            } else {
                self@.len()
            },
            forall|i: int| 0 <= i < r@.len() ==> (#[trigger] r@[i])@ == self@[self@.len() - 1 - i],
    {
        let n = self.games.len();
        let mut out: Vec<&Game> = Vec::new();
        let mut i: usize = 0;
        while i < n && i < count
            invariant
                i <= n,
                i <= count,
                n == self.games@.len(),
                out@.len() == i,
                forall|j: int| 0 <= j < i ==> (#[trigger] out@[j])@ == self@[n - 1 - j],
            decreases n - i,
        {
            out.push(&self.games[n - 1 - i]);
            i += 1;
        }
        out
    }

    /// The position of the match with the id `id`.
    fn position(&self, id: usize) -> (r: Option<usize>)
        ensures
            match r {
                Some(i) => i < self@.len() && self@[i as int].id == id && place_of(self@, id as nat)
                    == Some(i as int),
                None => place_of(self@, id as nat) is None,
            },
    {
        proof {
            use_type_invariant(self);
        }
        let mut i: usize = 0;
        while i < self.games.len()
            invariant
                i <= self.games.len(),
                ascending(self@),
                forall|j: int| 0 <= j < i ==> (#[trigger] self@[j]).id != id,
            decreases self.games.len() - i,
        {
            if self.games[i].id == id {
                proof {
                    let log = self@;
                    assert(log[i as int].id == id);
                    let c = choose|c: int| 0 <= c < log.len() && (#[trigger] log[c]).id == id;
                    if c < i {
                        assert(log[c].id < log[i as int].id);
                    }
                    if i < c {
                        assert(log[i as int].id < log[c].id);
                    }
                }
                return Some(i);
            }
            i += 1;
        }
        None
    }

    /// Appends a match and gives it the next id of the log, which is
    /// returned. Everything else of the match is logged as it is.
    pub fn append(&mut self, game: Game) -> (id: usize)
        requires
            next_id(old(self)@) <= usize::MAX,
        ensures
            id == next_id(old(self)@),
            final(self)@ == old(self)@.push(GameView { id: id as nat, ..game@ }),
    {
        proof {
            use_type_invariant(&*self);
        }
        let n = self.games.len();
        let id: usize = if n == 0 {
            1
        } else {
            assert(self@[n - 1].id == self.games@[n - 1].id);
            self.games[n - 1].id + 1
        };
        let mut game = game;
        game.set_id(id);
        let mut taken = GameLog { games: Vec::new() };
        std::mem::swap(self, &mut taken);
        let mut games = taken.games;
        let ghost before = game_views(games@);
        games.push(game);
        proof {
            let after = game_views(games@);
            assert(after =~= before.push(GameView { id: id as nat, ..game@ }));
            assert forall|i: int, j: int| 0 <= i < j < after.len() implies after[i].id
                < after[j].id by {
                if j < before.len() {
                    assert(before[i].id < before[j].id);
                } else if i < before.len() - 1 {
                    assert(before[i].id < before[before.len() - 1].id);
                }
            }
        }
        *self = GameLog { games };
        id
    }

    /// The match with the id `id`; `GameNotFound` if the log has none.
    pub fn get(&self, id: usize) -> (r: Result<&Game, Error>)
        ensures
            match place_of(self@, id as nat) {
                Some(i) => r is Ok && r->Ok_0@ == self@[i],
                None => r is Err && r->Err_0 == Error::GameNotFound(id),
            },
    {
        match self.position(id) {
            Some(i) => Ok(&self.games[i]),
            None => Err(Error::GameNotFound(id)),
        }
    }

    /// Replaces the logged match that has the id of `game` by `game`, and
    /// tells whether there was one. A log without that id is not changed.
    pub fn update(&mut self, game: Game) -> (found: bool)
        ensures
            match place_of(old(self)@, game@.id) {
                Some(i) => found && final(self)@ == old(self)@.update(i, game@),
                None => !found && final(self)@ == old(self)@,
            },
    {
        proof {
            use_type_invariant(&*self);
        }
        match self.position(game.id) {
            Some(i) => {
                let mut taken = GameLog { games: Vec::new() };
                std::mem::swap(self, &mut taken);
                let mut games = taken.games;
                let ghost before = game_views(games@);
                games.set(i, game);
                proof {
                    let after = game_views(games@);
                    assert(after =~= before.update(i as int, game@));
                    assert forall|a: int, b: int| 0 <= a < b < after.len() implies after[a].id
                        < after[b].id by {
                        assert(before[a].id < before[b].id);
                    }
                    assert forall|a: int| 0 <= a < after.len() implies (#[trigger] after[a]).id
                        > 0 by {
                        assert(before[a].id > 0);
                    }
                }
                *self = GameLog { games };
                true
            },
            None => false,
        }
    }
}

/// The logs of all lobbies, each under the channel of its lobby. A channel
/// without a match has no log, which is as good as an empty one.
#[derive(Debug)]
pub struct GameLogs {
    logs: HashMap<u64, GameLog>,
}

impl View for GameLogs {
    type V = Map<u64, Seq<GameView>>;

    closed spec fn view(&self) -> Map<u64, Seq<GameView>> {
        Map::new(|c: u64| self.logs@.contains_key(c), |c: u64| self.logs@[c]@)
    }
}

/// The matches logged for `channel`: none for a channel without a log.
pub open spec fn logged(logs: Map<u64, Seq<GameView>>, channel: u64) -> Seq<GameView> {
    if logs.contains_key(channel) {
        logs[channel]
    } else {
        Seq::empty()
    }
}

impl GameLogs {
    /// No logs.
    pub fn new() -> (r: GameLogs)
        ensures
            r@ == Map::<u64, Seq<GameView>>::empty(),
    {
        let r = GameLogs { logs: HashMap::new() };
        assert(r@ =~= Map::<u64, Seq<GameView>>::empty());
        r
    }

    /// Puts `log` under `channel`, in place of any log that was there.
    pub fn insert(&mut self, channel: u64, log: GameLog)
        ensures
            final(self)@ == old(self)@.insert(channel, log@),
    {
        broadcast use vstd::std_specs::hash::group_hash_axioms;

        self.logs.insert(channel, log);
        assert(self@ =~= old(self)@.insert(channel, log@));
    }

    /// Takes the log of `channel` out, if there is one.
    pub fn remove(&mut self, channel: u64) -> (r: Option<GameLog>)
        ensures
            final(self)@ == old(self)@.remove(channel),
            match r {
                Some(log) => old(self)@.contains_key(channel) && log@ == old(self)@[channel],
                None => !old(self)@.contains_key(channel),
            },
    {
        broadcast use vstd::std_specs::hash::group_hash_axioms;

        let r = self.logs.remove(&channel);
        assert(self@ =~= old(self)@.remove(channel));
        r
    }

    /// The channels that have a log, each once, in no particular order.
    pub fn channels(&self) -> (r: Vec<u64>)
        ensures
            r@.no_duplicates(),
            r@.to_set() == self@.dom(),
    {
        let r = keys_of(&self.logs);
        assert(self@.dom() =~= self.logs@.dom());
        r
    }

    /// The log of `channel`, if it has one.
    pub fn list(&self, channel: u64) -> (r: Option<&GameLog>)
        ensures
            match r {
                Some(log) => self@.contains_key(channel) && log@ == self@[channel],
                None => !self@.contains_key(channel),
            },
    {
        broadcast use vstd::std_specs::hash::group_hash_axioms;

        self.logs.get(&channel)
    }

    /// The match with the id `id` in the log of `channel`; `GameNotFound` if
    /// there is none.
    pub fn get(&self, channel: u64, id: usize) -> (r: Result<&Game, Error>)
        ensures
            match place_of(logged(self@, channel), id as nat) {
                Some(i) => r is Ok && r->Ok_0@ == logged(self@, channel)[i],
                None => r is Err && r->Err_0 == Error::GameNotFound(id),
            },
    {
        match self.list(channel) {
            Some(log) => log.get(id),
            None => Err(Error::GameNotFound(id)),
        }
    }

    /// Appends a match to the log of `channel` and gives it the next id of
    /// that log, which is returned: see [`GameLog::append`].
    pub fn append(&mut self, channel: u64, game: Game) -> (id: usize)
        requires
            next_id(logged(old(self)@, channel)) <= usize::MAX,
        ensures
            id == next_id(logged(old(self)@, channel)),
            final(self)@ == old(self)@.insert(
                channel,
                logged(old(self)@, channel).push(GameView { id: id as nat, ..game@ }),
            ),
    {
        broadcast use vstd::std_specs::hash::group_hash_axioms;

        let mut log = match self.logs.remove(&channel) {
            Some(log) => log,
            None => GameLog::new(),
        };
        let id = log.append(game);
        self.logs.insert(channel, log);
        assert(self@ =~= old(self)@.insert(
            channel,
            logged(old(self)@, channel).push(GameView { id: id as nat, ..game@ }),
        ));
        id
    }

    /// Replaces the match of `channel` that has the id of `game` by `game`,
    /// and tells whether there was one: see [`GameLog::update`].
    pub fn update(&mut self, channel: u64, game: Game) -> (found: bool)
        ensures
            match place_of(logged(old(self)@, channel), game@.id) {
                Some(i) => found && final(self)@ == old(self)@.insert(
                    channel,
                    logged(old(self)@, channel).update(i, game@),
                ),
                None => !found && final(self)@ == old(self)@,
            },
    {
        broadcast use vstd::std_specs::hash::group_hash_axioms;

        match self.logs.remove(&channel) {
            Some(log) => {
                let mut log = log;
                let found = log.update(game);
                self.logs.insert(channel, log);
                proof {
                    if found {
                        let i = place_of(logged(old(self)@, channel), game@.id)->0;
                        assert(self@ =~= old(self)@.insert(
                            channel,
                            logged(old(self)@, channel).update(i, game@),
                        ));
                    } else {
                        assert(self@ =~= old(self)@);
                    }
                }
                found
            },
            None => {
                assert(self@ =~= old(self)@);
                false
            },
        }
    }
}

} // verus!
