//! What happens when a queue fills and when a match is decided: the state
//! changes of the commands, without the messages that go with them.

use crate::collections::contains;
use crate::config::Rank;
use crate::error::Error;
use crate::game::{Game, GameView, Score, Undone};
use crate::game_log::{ascending, lemma_place_found, lemma_place_of, next_id, place_of, GameLog};
use crate::leaderboard::{get_rank, tier_of};
use crate::lobbies::{all_without, Departures, Lobbies};
use crate::lobby::{reports_leaving, Lobby, LobbyView};
use crate::matchmaking::{balance_with, flip_coin, split};
use crate::rating::{
    computes, rates_everyone, rating_in, replay, seeded, Outcome, PlayerInfo, Rating, Ratings,
};
use std::collections::HashMap;
use vstd::prelude::*;

verus! {

/// Each player with the rating that `table` gives it.
pub open spec fn with_ratings(players: Seq<u64>, table: Map<u64, PlayerInfo>, default: Rating) -> Seq<
    (u64, Rating),
> {
    Seq::new(players.len(), |i: int| (players[i], rating_in(table, default, players[i])))
}

/// The players of a team, without their ratings.
pub open spec fn ids_of(team: Seq<(u64, Rating)>) -> Seq<u64> {
    Seq::new(team.len(), |i: int| team[i].0)
}

/// Each of `players` with its rating, `default` for one without a record.
pub fn rated_players(players: &[u64], ratings: &Ratings, default: Rating) -> (r: Vec<
    (u64, Rating),
>)
    ensures
        r@ == with_ratings(players@, ratings@, default),
{
    let mut out: Vec<(u64, Rating)> = Vec::new();
    let mut i: usize = 0;
    while i < players.len()
        invariant
            i <= players.len(),
            out@.len() == i,
            forall|j: int|
                0 <= j < i ==> out@[j] == (players@[j], rating_in(ratings@, default, players@[j])),
        decreases players.len() - i,
    {
        out.push((players[i], ratings.rating_or(players[i], default)));
        i += 1;
    }
    assert(out@ =~= with_ratings(players@, ratings@, default));
    out
}

/// The players of a team, without their ratings.
pub fn ids(team: &[(u64, Rating)]) -> (r: Vec<u64>)
    ensures
        r@ == ids_of(team@),
{
    let mut out: Vec<u64> = Vec::new();
    let mut i: usize = 0;
    while i < team.len()
        invariant
            i <= team.len(),
            out@.len() == i,
            forall|j: int| 0 <= j < i ==> out@[j] == team@[j].0,
        decreases team.len() - i,
    {
        out.push(team[i].0);
        i += 1;
    }
    assert(out@ =~= ids_of(team@));
    out
}

/// The two teams, by player, that `players` are split into.
pub open spec fn teams_for(
    players: Seq<u64>,
    table: Map<u64, PlayerInfo>,
    default: Rating,
    flip: bool,
) -> (Seq<u64>, Seq<u64>) {
    let teams = split(with_ratings(players, table, default), flip);
    (ids_of(teams.0), ids_of(teams.1))
}

/// What the start of a match left behind.
#[derive(Debug, Clone)]
pub struct Started {
    /// The match, as it was logged.
    pub game: Game,
    /// Who left which queue because the match started.
    pub departures: Vec<Departures>,
}

/// Starts a match between the players handed out by the queue of `channel`.
///
/// The players are split into two teams by the ratings of that lobby, with
/// the coin given; the match is appended to the log of the lobby, undecided,
/// and the players are taken out of every queue. All of that happens or none
/// of it: without a lobby in the channel, or with fewer than two players,
/// nothing is changed.
pub fn start_game_with(
    lobbies: &mut Lobbies,
    log: &mut GameLog,
    channel: u64,
    players: &[u64],
    default: Rating,
    now: i64,
    flip: bool,
) -> (r: Result<Started, Error>)
    requires
        next_id(old(log)@) <= usize::MAX,
    ensures
        !old(lobbies)@.contains_key(channel) ==> r is Err && r->Err_0 == Error::NotALobby(channel),
        old(lobbies)@.contains_key(channel) && players@.len() < 2 ==> r is Err && r->Err_0
            == Error::InsufficientPlayers,
        r is Err ==> final(lobbies)@ == old(lobbies)@ && final(log)@ == old(log)@,
        old(lobbies)@.contains_key(channel) && players@.len() >= 2 ==> {
            let teams = teams_for(players@, old(lobbies)@[channel].ratings, default, flip);
            &&& r is Ok
            &&& r->Ok_0.game@ == (GameView {
                id: next_id(old(log)@),
                team1: teams.0,
                team2: teams.1,
                score: Score::Undecided,
                datetime: now as int,
            })
            &&& final(log)@ == old(log)@.push(r->Ok_0.game@)
            &&& final(lobbies)@ == all_without(old(lobbies)@, players@)
            &&& r->Ok_0.departures@.len() == old(lobbies)@.len()
            &&& forall|i: int|
                0 <= i < r->Ok_0.departures@.len() ==> old(lobbies)@.contains_key(
                    (#[trigger] r->Ok_0.departures@[i]).channel,
                ) && reports_leaving(
                    r->Ok_0.departures@[i].left@,
                    old(lobbies)@[r->Ok_0.departures@[i].channel].queue,
                    players@,
                )
        },
{
    let rated = match lobbies.get(channel) {
        Ok(lobby) => rated_players(players, lobby.ratings(), default),
        Err(e) => {
            return Err(e);
        },
    };
    let teams = match balance_with(&rated, flip) {
        Ok(teams) => teams,
        Err(e) => {
            return Err(e);
        },
    };
    let mut game = Game::create(ids(&teams[0]), ids(&teams[1]), now);
    let id = log.append(game.clone_game());
    game.set_id(id);
    let departures = lobbies.remove_players(players);
    Ok(Started { game, departures })
}

/// Starts a match as [`start_game_with`] does, with a fair coin.
pub fn start_game(
    lobbies: &mut Lobbies,
    log: &mut GameLog,
    channel: u64,
    players: &[u64],
    default: Rating,
    now: i64,
) -> (r: Result<Started, Error>)
    requires
        next_id(old(log)@) <= usize::MAX,
    ensures
        !old(lobbies)@.contains_key(channel) ==> r is Err && r->Err_0 == Error::NotALobby(channel),
        old(lobbies)@.contains_key(channel) && players@.len() < 2 ==> r is Err && r->Err_0
            == Error::InsufficientPlayers,
        r is Err ==> final(lobbies)@ == old(lobbies)@ && final(log)@ == old(log)@,
        old(lobbies)@.contains_key(channel) && players@.len() >= 2 ==> {
            &&& r is Ok
            &&& exists|flip: bool|
                (r->Ok_0.game@.team1, r->Ok_0.game@.team2) == #[trigger] teams_for(
                    players@,
                    old(lobbies)@[channel].ratings,
                    default,
                    flip,
                )
            &&& r->Ok_0.game@.id == next_id(old(log)@)
            &&& r->Ok_0.game@.score == Score::Undecided
            &&& r->Ok_0.game@.datetime == now
            &&& final(log)@ == old(log)@.push(r->Ok_0.game@)
            &&& final(lobbies)@ == all_without(old(lobbies)@, players@)
        },
{
    let flip = flip_coin();
    let r = start_game_with(lobbies, log, channel, players, default, now, flip);
    proof {
        if r is Ok {
            assert((r->Ok_0.game@.team1, r->Ok_0.game@.team2) == teams_for(
                players@,
                old(lobbies)@[channel].ratings,
                default,
                flip,
            ));
        }
    }
    r
}

/// The error with which a new split of the teams of `game` is refused, if
/// it is: the match must be undecided and have two players at least.
pub open spec fn rebalance_error(game: GameView) -> Option<Error> {
    if game.score != Score::Undecided {
        Some(Error::GameAlreadySet)
    } else if game.team1.len() + game.team2.len() < 2 {
        Some(Error::InsufficientPlayers)
    } else {
        None
    }
}

/// Splits the players of an undecided match anew, by the ratings given and
/// with the coin given. A match that is refused stays as it is.
pub fn rebalance_with(game: &mut Game, ratings: &Ratings, default: Rating, flip: bool) -> (r: Result<
    (),
    Error,
>)
    ensures
        match rebalance_error(old(game)@) {
            Some(e) => r is Err && r->Err_0 == e && final(game)@ == old(game)@,
            None => {
                let teams = teams_for(old(game)@.team1 + old(game)@.team2, ratings@, default, flip);
                r is Ok && final(game)@ == (GameView {
                    team1: teams.0,
                    team2: teams.1,
                    ..old(game)@
                })
            },
        },
{
    if game.score != Score::Undecided {
        return Err(Error::GameAlreadySet);
    }
    let mut players: Vec<u64> = Vec::new();
    let mut i: usize = 0;
    while i < game.team1.len()
        invariant
            i <= game.team1.len(),
            game@ == old(game)@,
            players@ == game@.team1.take(i as int),
        decreases game.team1.len() - i,
    {
        players.push(game.team1[i]);
        assert(game@.team1.take(i + 1) =~= game@.team1.take(i as int).push(game@.team1[i as int]));
        i += 1;
    }
    assert(game@.team1.take(game@.team1.len() as int) =~= game@.team1);
    let mut j: usize = 0;
    while j < game.team2.len()
        invariant
            j <= game.team2.len(),
            game@ == old(game)@,
            players@ == game@.team1 + game@.team2.take(j as int),
        decreases game.team2.len() - j,
    {
        players.push(game.team2[j]);
        assert(game@.team1 + game@.team2.take(j + 1) =~= (game@.team1 + game@.team2.take(
            j as int,
        )).push(game@.team2[j as int]));
        j += 1;
    }
    assert(game@.team2.take(game@.team2.len() as int) =~= game@.team2);
    let rated = rated_players(&players, ratings, default);
    match balance_with(&rated, flip) {
        Ok(teams) => {
            game.set_teams([ids(&teams[0]), ids(&teams[1])]);
            Ok(())
        },
        Err(e) => Err(e),
    }
}

/// Splits the players of an undecided match anew as [`rebalance_with`]
/// does, with a fair coin.
pub fn rebalance(game: &mut Game, ratings: &Ratings, default: Rating) -> (r: Result<(), Error>)
    ensures
        match rebalance_error(old(game)@) {
            Some(e) => r is Err && r->Err_0 == e && final(game)@ == old(game)@,
            None => r is Ok && exists|flip: bool|
                {
                    let teams = #[trigger] teams_for(
                        old(game)@.team1 + old(game)@.team2,
                        ratings@,
                        default,
                        flip,
                    );
                    final(game)@ == (GameView { team1: teams.0, team2: teams.1, ..old(game)@ })
                },
        },
{
    let flip = flip_coin();
    let r = rebalance_with(game, ratings, default, flip);
    proof {
        if r is Ok {
            let teams = teams_for(old(game)@.team1 + old(game)@.team2, ratings@, default, flip);
            assert(game@ == (GameView { team1: teams.0, team2: teams.1, ..old(game)@ }));
        }
    }
    r
}

/// The error with which the outcome of the match `id` cannot be set, if
/// there is one: the log must hold the match, and it must be undecided.
pub open spec fn score_error(log: Seq<GameView>, id: nat) -> Option<Error> {
    match place_of(log, id) {
        None => Some(Error::GameNotFound(id as usize)),
        Some(at) => if log[at].score != Score::Undecided {
            Some(Error::GameAlreadySet)
        } else {
            None
        },
    }
}

/// Sets the outcome of the match `id` of the log, which must be undecided.
/// Returns the match as it is logged then. A refusal changes nothing.
pub fn set_score(log: &mut GameLog, id: usize, score: Score) -> (r: Result<Game, Error>)
    ensures
        match score_error(old(log)@, id as nat) {
            Some(e) => r is Err && r->Err_0 == e && final(log)@ == old(log)@,
            None => {
                let at = place_of(old(log)@, id as nat)->0;
                let decided = GameView { score, ..old(log)@[at] };
                r is Ok && r->Ok_0@ == decided && final(log)@ == old(log)@.update(at, decided)
            },
        },
{
    let mut game = match log.get(id) {
        Ok(found) => found.clone_game(),
        Err(e) => {
            return Err(e);
        },
    };
    match game.decide(score) {
        Ok(()) => {},
        Err(e) => {
            return Err(e);
        },
    }
    log.update(game.clone_game());
    Ok(game)
}

/// Cancels the match `id` of the log, which must be undecided: see
/// [`set_score`].
pub fn cancel(log: &mut GameLog, id: usize) -> (r: Result<Game, Error>)
    ensures
        match score_error(old(log)@, id as nat) {
            Some(e) => r is Err && r->Err_0 == e && final(log)@ == old(log)@,
            None => {
                let at = place_of(old(log)@, id as nat)->0;
                let decided = GameView { score: Score::Cancelled, ..old(log)@[at] };
                r is Ok && r->Ok_0@ == decided && final(log)@ == old(log)@.update(at, decided)
            },
        },
{
    set_score(log, id, Score::Cancelled)
}

/// The log after the outcome of the match at `at` was taken back.
pub open spec fn undone_at(log: Seq<GameView>, at: int) -> Seq<GameView> {
    log.update(at, GameView { score: Score::Undecided, ..log[at] })
}

/// Takes back the outcome of the match `id` of the log, whatever it was,
/// and tells whether ratings have to be rebuilt: see [`Game::undo`].
/// `GameNotFound` if the log does not hold the match.
pub fn undo(log: &mut GameLog, id: usize) -> (r: Result<Undone, Error>)
    ensures
        match place_of(old(log)@, id as nat) {
            None => r is Err && r->Err_0 == Error::GameNotFound(id) && final(log)@ == old(log)@,
            Some(at) => {
                &&& r is Ok
                &&& r->Ok_0 == if old(log)@[at].score.is_rated() {
                    Undone::RatingsChanged
                } else {
                    Undone::NothingChanged
                }
                &&& final(log)@ == undone_at(old(log)@, at)
            },
        },
{
    let mut game = match log.get(id) {
        Ok(found) => found.clone_game(),
        Err(e) => {
            return Err(e);
        },
    };
    let undone = game.undo();
    log.update(game);
    Ok(undone)
}

/// Taking back a rated outcome and setting the same outcome again restores
/// the log as it was, and with it every rating that is rebuilt from it.
pub proof fn lemma_undo_then_set_score_restores(
    model: spec_fn(Seq<Rating>, Seq<Rating>, Outcome) -> (Seq<Rating>, Seq<Rating>),
    start: Map<u64, PlayerInfo>,
    default: Rating,
    log: Seq<GameView>,
    id: nat,
)
    requires
        ascending(log),
        place_of(log, id) is Some,
        log[place_of(log, id)->0].score.is_rated(),
    ensures
        ({
            let at = place_of(log, id)->0;
            let undone = undone_at(log, at);
            let again = undone.update(at, GameView { score: log[at].score, ..undone[at] });
            &&& ascending(undone)
            &&& place_of(undone, id) == Some(at)
            &&& score_error(undone, id) is None
            &&& again == log
            &&& replay(model, start, default, again) == replay(model, start, default, log)
        }),
{
    lemma_place_found(log, id);
    let at = place_of(log, id)->0;
    let undone = undone_at(log, at);
    assert forall|i: int, j: int| 0 <= i < j < undone.len() implies undone[i].id
        < undone[j].id by {
        assert(log[i].id < log[j].id);
    }
    assert forall|i: int| 0 <= i < undone.len() implies (#[trigger] undone[i]).id > 0 by {
        assert(log[i].id > 0);
    }
    lemma_place_of(undone, id, at);
    let again = undone.update(at, GameView { score: log[at].score, ..undone[at] });
    assert(again =~= log);
}

/// Rebuilds the ratings of a lobby from its log and the seed ratings: see
/// [`Ratings::from_games`]. Nothing else of the lobby changes.
pub fn refresh_ratings<F: Fn(&Vec<Rating>, &Vec<Rating>, Outcome) -> (Vec<Rating>, Vec<Rating>)>(
    lobby: &mut Lobby,
    log: &GameLog,
    seeds: &HashMap<u64, i64>,
    default: Rating,
    update: F,
)
    requires
        rates_everyone(update),
    ensures
        final(lobby)@ == (LobbyView { ratings: final(lobby)@.ratings, ..old(lobby)@ }),
        forall|model: spec_fn(Seq<Rating>, Seq<Rating>, Outcome) -> (Seq<Rating>, Seq<Rating>)|
            computes(update, model) ==> final(lobby)@.ratings == #[trigger] replay(
                model,
                seeded(seeds@, default),
                default,
                log@,
            ),
{
    let ratings = Ratings::from_games(log.games(), seeds, default, update);
    lobby.set_ratings(ratings);
}

/// A change of a member's roles.
#[derive(Debug, Clone, Copy, PartialEq, Eq, Structural)]
pub enum RoleChange {
    Add(u64),
    Remove(u64),
}

/// The changes that bring the tier roles of one member up to date, for the
/// first `upto` tiers, in the order of the tiers. `held` are the roles of
/// the member, `tier` is the tier that the member belongs to, if any. The
/// role of that tier is added unless held; the role of every other tier is
/// taken away if held.
pub open spec fn role_changes_among(
    held: Seq<u64>,
    ranks: Seq<Rank>,
    tier: Option<int>,
    upto: nat,
) -> Seq<RoleChange>
    decreases upto,
{
    if upto == 0 {
        Seq::empty()
    } else {
        let before = role_changes_among(held, ranks, tier, (upto - 1) as nat);
        let role = ranks[upto - 1].id;
        if tier is Some && ranks[tier->0].id == role {
            if held.contains(role) {
                before
            } else {
                before.push(RoleChange::Add(role))
            }
        } else if held.contains(role) {
            before.push(RoleChange::Remove(role))
        } else {
            before
        }
    }
}

/// The tier of a member: none for one who is not ranked, else the tier of
/// the member's best mean.
pub open spec fn tier_for(ranked: bool, ranks: Seq<Rank>, best: i64) -> Option<int> {
    if ranked {
        tier_of(ranks, best)
    } else {
        None
    }
}

/// The changes that bring the tier roles of one member up to date.
///
/// `held` are the roles of the member, `ranked` is the role that makes a
/// member take part in the ranking, and `best` is the member's best mean.
/// A member without the ranked role loses every tier role.
pub fn role_changes(held: &[u64], ranked: u64, ranks: &[Rank], best: i64) -> (r: Vec<
    RoleChange,
>)
    ensures
        r@ == role_changes_among(
            held@,
            ranks@,
            tier_for(held@.contains(ranked), ranks@, best),
            ranks@.len(),
        ),
{
    let is_ranked = contains(held, ranked);
    let tier: Option<usize> = if is_ranked {
        get_rank(ranks, best)
    } else {
        None
    };
    let ghost wanted = tier_for(held@.contains(ranked), ranks@, best);
    let mut out: Vec<RoleChange> = Vec::new();
    let mut i: usize = 0;
    while i < ranks.len()
        invariant
            i <= ranks.len(),
            match tier {
                Some(t) => wanted == Some(t as int) && t < ranks@.len(),
                None => wanted is None,
            },
            out@ == role_changes_among(held@, ranks@, wanted, i as nat),
        decreases ranks.len() - i,
    {
        let role: u64 = ranks[i].id;
        let holds = contains(held, role);
        let is_tier = match tier {
            Some(t) => ranks[t].id == role,
            None => false,
        };
        if is_tier {
            if !holds {
                out.push(RoleChange::Add(role));
            }
        } else if holds {
            out.push(RoleChange::Remove(role));
        }
        i += 1;
    }
    out
}

/// The highest of the means that the tables give `player`, counting a table
/// without a record of the player, and no table at all, as 0.
pub open spec fn best_mean_among(tables: Seq<Map<u64, PlayerInfo>>, player: u64) -> int
    decreases tables.len(),
{
    if tables.len() == 0 {
        0
    } else {
        let before = best_mean_among(tables.drop_last(), player);
        let table = tables.last();
        if table.contains_key(player) && table[player].rating.mean > before {
            table[player].rating.mean as int
        } else {
            before
        }
    }
}

/// The tables of ratings.
pub open spec fn tables_of(ratings: Seq<&Ratings>) -> Seq<Map<u64, PlayerInfo>> {
    Seq::new(ratings.len(), |i: int| ratings[i]@)
}

/// The best mean of `player` over the tables given: see
/// [`best_mean_among`].
pub fn best_mean(tables: &[&Ratings], player: u64) -> (r: i64)
    ensures
        r == best_mean_among(tables_of(tables@), player),
{
    let mut best: i64 = 0;
    let mut i: usize = 0;
    while i < tables.len()
        invariant
            i <= tables.len(),
            best == best_mean_among(tables_of(tables@).take(i as int), player),
        decreases tables.len() - i,
    {
        proof {
            let all = tables_of(tables@);
            assert(all.take(i + 1).drop_last() =~= all.take(i as int));
            assert(all.take(i + 1).last() == tables@[i as int]@);
        }
        match tables[i].get(player) {
            Some(info) => {
                if info.rating.mean > best {
                    best = info.rating.mean;
                }
            },
            None => {},
        }
        i += 1;
    }
    assert(tables_of(tables@).take(tables.len() as int) =~= tables_of(tables@));
    best
}

} // verus!
