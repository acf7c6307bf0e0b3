//! Skill ratings, and their reconstruction from a lobby's match history.
//!
//! A rating is held as a pair of integers in whatever fixed-point unit the
//! caller's rating model works in; this module never does arithmetic on
//! them. The model itself (how a match changes the ratings of those who
//! played it) is supplied by the caller as a function.

use crate::collections::keys_of;
use crate::game::{Game, GameView, Score};
use std::collections::HashMap;
use vstd::prelude::*;

verus! {

/// A skill estimate: mean and variance.
#[derive(Debug, Clone, Copy, PartialEq, Eq, Structural)]
pub struct Rating {
    pub mean: i64,
    pub variance: i64,
}

impl Rating {
    pub fn new(mean: i64, variance: i64) -> (r: Rating)
        ensures
            r == (Rating { mean, variance }),
    {
        Rating { mean, variance }
    }

    pub fn mean(&self) -> (r: i64)
        ensures
            r == self.mean,
    {
        self.mean
    }

    pub fn variance(&self) -> (r: i64)
        ensures
            r == self.variance,
    {
        self.variance
    }
}

/// How a match ended, seen from team 1.
#[derive(Debug, Clone, Copy, PartialEq, Eq, Structural)]
pub enum Outcome {
    Win,
    Loss,
    Draw,
}

impl Outcome {
    /// The same result seen from the other team.
    pub open spec fn reversed(self) -> Outcome {
        match self {
            Outcome::Win => Outcome::Loss,
            Outcome::Loss => Outcome::Win,
            Outcome::Draw => Outcome::Draw,
        }
    }

    /// Executable form of [`Outcome::reversed`].
    pub fn flip(self) -> (r: Outcome)
        ensures
            r == self.reversed(),
    {
        match self {
            Outcome::Win => Outcome::Loss,
            Outcome::Loss => Outcome::Win,
            Outcome::Draw => Outcome::Draw,
        }
    }
}

/// The result that a rated score stands for; `None` for a match that is
/// undecided or cancelled.
pub open spec fn outcome_of(score: Score) -> Option<Outcome> {
    match score {
        Score::Team1 => Some(Outcome::Win),
        Score::Team2 => Some(Outcome::Loss),
        Score::Draw => Some(Outcome::Draw),
        Score::Undecided | Score::Cancelled => None,
    }
}

/// Executable form of [`outcome_of`].
pub fn score_outcome(score: Score) -> (r: Option<Outcome>)
    ensures
        r == outcome_of(score),
{
    match score {
        Score::Team1 => Some(Outcome::Win),
        Score::Team2 => Some(Outcome::Loss),
        Score::Draw => Some(Outcome::Draw),
        Score::Undecided | Score::Cancelled => None,
    }
}

/// `n + 1`, except that a counter that is full stays full.
pub open spec fn bumped(n: usize) -> usize {
    if n < usize::MAX {
        (n + 1) as usize
    } else {
        n
    }
}

/// One player's current rating and record.
#[derive(Debug, Clone, Copy, PartialEq, Eq, Structural)]
pub struct PlayerInfo {
    pub rating: Rating,
    pub wins: usize,
    pub losses: usize,
    pub draws: usize,
}

impl PlayerInfo {
    /// The record of a player who has not played: `rating`, no results.
    pub open spec fn fresh(rating: Rating) -> PlayerInfo {
        PlayerInfo { rating, wins: 0, losses: 0, draws: 0 }
    }

    /// The record after one more match that ended in `outcome` for this
    /// player and left the player at `rating`.
    pub open spec fn after(self, outcome: Outcome, rating: Rating) -> PlayerInfo {
        match outcome {
            Outcome::Win => PlayerInfo { rating, wins: bumped(self.wins), ..self },
            Outcome::Loss => PlayerInfo { rating, losses: bumped(self.losses), ..self },
            Outcome::Draw => PlayerInfo { rating, draws: bumped(self.draws), ..self },
        }
    }

    pub fn new(rating: Rating) -> (r: PlayerInfo)
        ensures
            r == PlayerInfo::fresh(rating),
    {
        PlayerInfo { rating, wins: 0, losses: 0, draws: 0 }
    }

    /// Executable form of [`PlayerInfo::after`].
    pub fn record(self, outcome: Outcome, rating: Rating) -> (r: PlayerInfo)
        ensures
            r == self.after(outcome, rating),
    {
        match outcome {
            Outcome::Win => PlayerInfo { rating, wins: self.wins.saturating_add(1), ..self },
            Outcome::Loss => PlayerInfo { rating, losses: self.losses.saturating_add(1), ..self },
            Outcome::Draw => PlayerInfo { rating, draws: self.draws.saturating_add(1), ..self },
        }
    }

    pub fn rating(&self) -> (r: Rating)
        ensures
            r == self.rating,
    {
        self.rating
    }

    pub fn wins(&self) -> (r: usize)
        ensures
            r == self.wins,
    {
        self.wins
    }

    pub fn losses(&self) -> (r: usize)
        ensures
            r == self.losses,
    {
        self.losses
    }

    pub fn draws(&self) -> (r: usize)
        ensures
            r == self.draws,
    {
        self.draws
    }
}

/// The table of a lobby's ratings: one record per player who has a seed
/// rating or has played a rated match.
#[derive(Debug, Clone)]
pub struct Ratings {
    table: HashMap<u64, PlayerInfo>,
}

impl View for Ratings {
    type V = Map<u64, PlayerInfo>;

    closed spec fn view(&self) -> Map<u64, PlayerInfo> {
        self.table@
    }
}

/// The rating that a table gives `player`: the recorded one, or `default`
/// for a player without a record.
pub open spec fn rating_in(table: Map<u64, PlayerInfo>, default: Rating, player: u64) -> Rating {
    if table.contains_key(player) {
        table[player].rating
    } else {
        default
    }
}

impl Ratings {
    /// The empty table.
    pub fn new() -> (r: Ratings)
        ensures
            r@ == Map::<u64, PlayerInfo>::empty(),
    {
        Ratings { table: HashMap::new() }
    }

    /// The table itself.
    pub fn as_map(&self) -> (r: &HashMap<u64, PlayerInfo>)
        ensures
            r@ == self@,
    {
        &self.table
    }

    /// The record of `player`, if there is one.
    pub fn get(&self, player: u64) -> (r: Option<PlayerInfo>)
        ensures
            r == if self@.contains_key(player) {
                Some(self@[player])
            } else {
                None
            },
    {
        broadcast use vstd::std_specs::hash::group_hash_axioms;

        match self.table.get(&player) {
            Some(info) => Some(*info),
            None => None,
        }
    }

    /// The rating of `player`, `default` for one without a record.
    pub fn rating_or(&self, player: u64, default: Rating) -> (r: Rating)
        ensures
            r == rating_in(self@, default, player),
    {
        match self.get(player) {
            Some(info) => info.rating,
            None => default,
        }
    }

    /// Sets the record of `player`.
    pub fn insert(&mut self, player: u64, info: PlayerInfo)
        ensures
            final(self)@ == old(self)@.insert(player, info),
    {
        broadcast use vstd::std_specs::hash::group_hash_axioms;

        self.table.insert(player, info);
    }

    /// The number of players with a record.
    pub fn len(&self) -> (r: usize)
        ensures
            r == self@.len(),
            self@.dom().finite(),
    {
        broadcast use vstd::std_specs::hash::group_hash_axioms;

        self.table.len()
    }

    /// The players with a record, each once, in no particular order.
    pub fn players(&self) -> (r: Vec<u64>)
        ensures
            r@.no_duplicates(),
            r@.to_set() == self@.dom(),
    {
        keys_of(&self.table)
    }
}

/// The ratings of the players of `team`, in the order of the team.
pub open spec fn team_ratings(table: Map<u64, PlayerInfo>, default: Rating, team: Seq<u64>) -> Seq<
    Rating,
> {
    Seq::new(team.len(), |i: int| rating_in(table, default, team[i]))
}

/// The table after each player of `team`, in order, was credited with one
/// match that ended in `outcome` and was moved to the rating at the same
/// position in `ratings`. A player without a record starts from `default`.
pub open spec fn credited(
    table: Map<u64, PlayerInfo>,
    default: Rating,
    team: Seq<u64>,
    ratings: Seq<Rating>,
    outcome: Outcome,
) -> Map<u64, PlayerInfo>
    recommends
        ratings.len() >= team.len(),
    decreases team.len(),
{
    if team.len() == 0 {
        table
    } else {
        let before = credited(table, default, team.drop_last(), ratings, outcome);
        let player = team.last();
        let info = if before.contains_key(player) {
            before[player]
        } else {
            PlayerInfo::fresh(default)
        };
        before.insert(player, info.after(outcome, ratings[team.len() - 1]))
    }
}

/// The table after one match. A match that is undecided or cancelled leaves
/// it unchanged. For any other, `model` is asked once, with the ratings that
/// the table gives both teams, and both teams are credited with what it
/// returns: team 1 first, then team 2 with the reversed outcome.
pub open spec fn after_game(
    model: spec_fn(Seq<Rating>, Seq<Rating>, Outcome) -> (Seq<Rating>, Seq<Rating>),
    table: Map<u64, PlayerInfo>,
    default: Rating,
    game: GameView,
) -> Map<u64, PlayerInfo> {
    match outcome_of(game.score) {
        None => table,
        Some(outcome) => {
            let updated = model(
                team_ratings(table, default, game.team1),
                team_ratings(table, default, game.team2),
                outcome,
            );
            credited(
                credited(table, default, game.team1, updated.0, outcome),
                default,
                game.team2,
                updated.1,
                outcome.reversed(),
            )
        },
    }
}

/// The table that results from `start` by taking the matches of `games` one
/// after the other, in the order given.
pub open spec fn replay(
    model: spec_fn(Seq<Rating>, Seq<Rating>, Outcome) -> (Seq<Rating>, Seq<Rating>),
    start: Map<u64, PlayerInfo>,
    default: Rating,
    games: Seq<GameView>,
) -> Map<u64, PlayerInfo>
    decreases games.len(),
{
    if games.len() == 0 {
        start
    } else {
        after_game(model, replay(model, start, default, games.drop_last()), default, games.last())
    }
}

/// The table before any match: a fresh record for every player with a seed
/// rating, at the seeded mean and the default variance.
pub open spec fn seeded(seeds: Map<u64, i64>, default: Rating) -> Map<u64, PlayerInfo> {
    Map::new(
        |p: u64| seeds.contains_key(p),
        |p: u64| PlayerInfo::fresh(Rating { mean: seeds[p], variance: default.variance }),
    )
}

/// The values of a list of matches.
pub open spec fn game_views(games: Seq<Game>) -> Seq<GameView> {
    Seq::new(games.len(), |i: int| games[i]@)
}

/// Whether the executable rating model `update` computes `model`: whatever
/// it returns is what `model` gives for the same ratings and outcome.
pub open spec fn computes<F: Fn(&Vec<Rating>, &Vec<Rating>, Outcome) -> (Vec<Rating>, Vec<Rating>)>(
    update: F,
    model: spec_fn(Seq<Rating>, Seq<Rating>, Outcome) -> (Seq<Rating>, Seq<Rating>),
) -> bool {
    forall|a: &Vec<Rating>, b: &Vec<Rating>, o: Outcome, r: (Vec<Rating>, Vec<Rating>)|
        #[trigger] call_ensures(update, (a, b, o), r) ==> (r.0@, r.1@) == model(a@, b@, o)
}

/// Whether the executable rating model `update` can be asked about any two
/// teams and returns one rating for each rating it was given.
pub open spec fn rates_everyone<
    F: Fn(&Vec<Rating>, &Vec<Rating>, Outcome) -> (Vec<Rating>, Vec<Rating>),
>(update: F) -> bool {
    &&& forall|a: &Vec<Rating>, b: &Vec<Rating>, o: Outcome| #[trigger]
        call_requires(update, (a, b, o))
    &&& forall|a: &Vec<Rating>, b: &Vec<Rating>, o: Outcome, r: (Vec<Rating>, Vec<Rating>)|
        #[trigger] call_ensures(update, (a, b, o), r) ==> r.0@.len() == a@.len() && r.1@.len()
            == b@.len()
}

impl Ratings {
    /// The ratings of the players of `team`, in order; `default` for a
    /// player without a record.
    pub fn team_ratings(&self, team: &[u64], default: Rating) -> (r: Vec<Rating>)
        ensures
            r@ == team_ratings(self@, default, team@),
    {
        let mut out: Vec<Rating> = Vec::new();
        let mut i: usize = 0;
        while i < team.len()
            invariant
                i <= team.len(),
                out@.len() == i,
                forall|j: int| 0 <= j < i ==> out@[j] == rating_in(self@, default, team@[j]),
            decreases team.len() - i,
        {
            out.push(self.rating_or(team[i], default));
            i += 1;
        }
        assert(out@ =~= team_ratings(self@, default, team@));
        out
    }

    /// Credits each player of `team` with a match that ended in `outcome`
    /// and moves each to the rating at the same position in `ratings`.
    pub fn credit(&mut self, team: &[u64], ratings: &[Rating], outcome: Outcome, default: Rating)
        requires
            ratings.len() >= team.len(),
        ensures
            final(self)@ == credited(old(self)@, default, team@, ratings@, outcome),
    {
        let mut i: usize = 0;
        while i < team.len()
            invariant
                i <= team.len(),
                ratings.len() >= team.len(),
                self@ == credited(old(self)@, default, team@.take(i as int), ratings@, outcome),
            decreases team.len() - i,
        {
            let player: u64 = team[i];
            let info = match self.get(player) {
                Some(info) => info,
                None => PlayerInfo::new(default),
            };
            self.insert(player, info.record(outcome, ratings[i]));
            proof {
                assert(team@.take(i + 1).drop_last() =~= team@.take(i as int));
            }
            i += 1;
        }
        assert(team@.take(team.len() as int) =~= team@);
    }

    /// The table before any match was played: see [`seeded`].
    pub fn from_seeds(seeds: &HashMap<u64, i64>, default: Rating) -> (r: Ratings)
        ensures
            r@ == seeded(seeds@, default),
    {
        broadcast use vstd::std_specs::hash::group_hash_axioms;

        let players = keys_of(seeds);
        let mut out = Ratings::new();
        let mut i: usize = 0;
        while i < players.len()
            invariant
                i <= players.len(),
                players@.to_set() == seeds@.dom(),
                forall|p: u64| out@.contains_key(p) <==> players@.take(i as int).contains(p),
                forall|p: u64| #[trigger]
                    out@.contains_key(p) ==> out@[p] == PlayerInfo::fresh(
                        Rating { mean: seeds@[p], variance: default.variance },
                    ),
            decreases players.len() - i,
        {
            let player: u64 = players[i];
            assert(players@.to_set().contains(player));
            let mean: i64 = match seeds.get(&player) {
                Some(m) => *m,
                None => 0,
            };
            out.insert(player, PlayerInfo::new(Rating::new(mean, default.variance)));
            proof {
                let done = players@.take(i as int);
                let next = players@.take(i + 1);
                assert(next =~= done.push(player));
                assert forall|p: u64| out@.contains_key(p) <==> next.contains(p) by {
                    if next.contains(p) {
                        let j = choose|j: int| 0 <= j < next.len() && next[j] == p;
                        if j < done.len() {
                            assert(done[j] == p);
                        }
                    }
                    if done.contains(p) {
                        let j = choose|j: int| 0 <= j < done.len() && done[j] == p;
                        assert(next[j] == p);
                    }
                    assert(next[done.len() as int] == player);
                }
            }
            i += 1;
        }
        proof {
            assert(players@.take(players.len() as int) =~= players@);
            assert forall|p: u64| out@.contains_key(p) <==> seeds@.contains_key(p) by {
                assert(players@.to_set().contains(p) <==> players@.contains(p));
            }
            assert(out@ =~= seeded(seeds@, default));
        }
        out
    }

    /// Rebuilds a lobby's ratings from scratch: starts from the seed ratings
    /// and takes every match of `games` in the order given, asking `update`
    /// for the new ratings of each rated match.
    ///
    /// For every function `model` that `update` computes, the result is
    /// `replay` of that function: it depends on nothing but the arguments.
    pub fn from_games<F: Fn(&Vec<Rating>, &Vec<Rating>, Outcome) -> (Vec<Rating>, Vec<Rating>)>(
        games: &[Game],
        seeds: &HashMap<u64, i64>,
        default: Rating,
        update: F,
    ) -> (r: Ratings)
        requires
            rates_everyone(update),
        ensures
            forall|model: spec_fn(Seq<Rating>, Seq<Rating>, Outcome) -> (Seq<Rating>, Seq<Rating>)|
                computes(update, model) ==> r@ == #[trigger] replay(
                    model,
                    seeded(seeds@, default),
                    default,
                    game_views(games@),
                ),
    {
        let mut table = Ratings::from_seeds(seeds, default);
        let mut i: usize = 0;
        while i < games.len()
            invariant
                i <= games.len(),
                rates_everyone(update),
                forall|model: spec_fn(Seq<Rating>, Seq<Rating>, Outcome) -> (Seq<Rating>, Seq<Rating>)|
                    computes(update, model) ==> table@ == #[trigger] replay(
                        model,
                        seeded(seeds@, default),
                        default,
                        game_views(games@).take(i as int),
                    ),
            decreases games.len() - i,
        {
            let ghost before = table@;
            table.play(&games[i], default, &update);
            proof {
                let views = game_views(games@);
                assert(views.take(i + 1).drop_last() =~= views.take(i as int));
                assert(views.take(i + 1).last() == games@[i as int]@);
                let start = seeded(seeds@, default);
                assert forall|
                    model: spec_fn(Seq<Rating>, Seq<Rating>, Outcome) -> (Seq<Rating>, Seq<Rating>),
                | computes(update, model) implies table@ == #[trigger] replay(
                    model,
                    start,
                    default,
                    views.take(i + 1),
                ) by {
                    assert(before == replay(model, start, default, views.take(i as int)));
                    assert(table@ == after_game(model, before, default, games@[i as int]@));
                }
            }
            i += 1;
        }
        assert(game_views(games@).take(games.len() as int) =~= game_views(games@));
        table
    }

    /// Takes one match into the table: see [`after_game`].
    pub fn play<F: Fn(&Vec<Rating>, &Vec<Rating>, Outcome) -> (Vec<Rating>, Vec<Rating>)>(
        &mut self,
        game: &Game,
        default: Rating,
        update: &F,
    )
        requires
            rates_everyone(*update),
        ensures
            forall|model: spec_fn(Seq<Rating>, Seq<Rating>, Outcome) -> (Seq<Rating>, Seq<Rating>)|
                computes(*update, model) ==> final(self)@ == #[trigger] after_game(
                    model,
                    old(self)@,
                    default,
                    game@,
                ),
    {
        match score_outcome(game.score) {
            None => {},
            Some(outcome) => {
                let team1 = self.team_ratings(&game.team1, default);
                let team2 = self.team_ratings(&game.team2, default);
                let updated = update(&team1, &team2, outcome);
                self.credit(&game.team1, &updated.0, outcome, default);
                self.credit(&game.team2, &updated.1, outcome.flip(), default);
            },
        }
    }
}

/// The records that `player` had after each time that crediting `team`
/// came to that player, in order: see [`credited`].
pub open spec fn appearances(
    table: Map<u64, PlayerInfo>,
    default: Rating,
    team: Seq<u64>,
    ratings: Seq<Rating>,
    outcome: Outcome,
    player: u64,
) -> Seq<PlayerInfo>
    decreases team.len(),
{
    if team.len() == 0 {
        Seq::empty()
    } else {
        let before = appearances(table, default, team.drop_last(), ratings, outcome, player);
        if team.last() == player {
            before.push(credited(table, default, team, ratings, outcome)[player])
        } else {
            before
        }
    }
}

/// The record with which `player` starts: the one in the table, or a fresh
/// one at the default rating.
pub open spec fn record_in(table: Map<u64, PlayerInfo>, default: Rating, player: u64) -> PlayerInfo {
    if table.contains_key(player) {
        table[player]
    } else {
        PlayerInfo::fresh(default)
    }
}

/// The records that `player` had in turn while `games` were taken into the
/// table `start`: the record at the start, then one for each time that the
/// player was credited with a match.
pub open spec fn history_of(
    model: spec_fn(Seq<Rating>, Seq<Rating>, Outcome) -> (Seq<Rating>, Seq<Rating>),
    start: Map<u64, PlayerInfo>,
    default: Rating,
    games: Seq<GameView>,
    player: u64,
) -> Seq<PlayerInfo>
    decreases games.len(),
{
    if games.len() == 0 {
        seq![record_in(start, default, player)]
    } else {
        let before = history_of(model, start, default, games.drop_last(), player);
        let table = replay(model, start, default, games.drop_last());
        let game = games.last();
        match outcome_of(game.score) {
            None => before,
            Some(outcome) => {
                let updated = model(
                    team_ratings(table, default, game.team1),
                    team_ratings(table, default, game.team2),
                    outcome,
                );
                before + appearances(table, default, game.team1, updated.0, outcome, player)
                    + appearances(
                    credited(table, default, game.team1, updated.0, outcome),
                    default,
                    game.team2,
                    updated.1,
                    outcome.reversed(),
                    player,
                )
            },
        }
    }
}

impl Ratings {
    /// Credits a team as [`Ratings::credit`] does, and appends to `trace`
    /// the record of `player` after each time that it was credited.
    fn credit_tracing(
        &mut self,
        team: &[u64],
        ratings: &[Rating],
        outcome: Outcome,
        default: Rating,
        player: u64,
        trace: &mut Vec<PlayerInfo>,
    )
        requires
            ratings.len() >= team.len(),
        ensures
            final(self)@ == credited(old(self)@, default, team@, ratings@, outcome),
            final(trace)@ == old(trace)@ + appearances(
                old(self)@,
                default,
                team@,
                ratings@,
                outcome,
                player,
            ),
    {
        let mut i: usize = 0;
        assert(trace@ =~= old(trace)@ + Seq::<PlayerInfo>::empty());
        while i < team.len()
            invariant
                i <= team.len(),
                ratings.len() >= team.len(),
                self@ == credited(old(self)@, default, team@.take(i as int), ratings@, outcome),
                trace@ == old(trace)@ + appearances(
                    old(self)@,
                    default,
                    team@.take(i as int),
                    ratings@,
                    outcome,
                    player,
                ),
            decreases team.len() - i,
        {
            let member: u64 = team[i];
            let info = match self.get(member) {
                Some(info) => info,
                None => PlayerInfo::new(default),
            };
            let after = info.record(outcome, ratings[i]);
            self.insert(member, after);
            let ghost seen = appearances(
                old(self)@,
                default,
                team@.take(i as int),
                ratings@,
                outcome,
                player,
            );
            if member == player {
                trace.push(after);
            }
            proof {
                assert(team@.take(i + 1).drop_last() =~= team@.take(i as int));
                if member == player {
                    assert(trace@ =~= old(trace)@ + seen.push(after));
                }
            }
            i += 1;
        }
        assert(team@.take(team.len() as int) =~= team@);
    }

    /// The records that `player` had in turn while a lobby's ratings were
    /// rebuilt as by [`Ratings::from_games`]: see [`history_of`].
    pub fn history<F: Fn(&Vec<Rating>, &Vec<Rating>, Outcome) -> (Vec<Rating>, Vec<Rating>)>(
        games: &[Game],
        seeds: &HashMap<u64, i64>,
        default: Rating,
        update: F,
        player: u64,
    ) -> (r: Vec<PlayerInfo>)
        requires
            rates_everyone(update),
        ensures
            forall|model: spec_fn(Seq<Rating>, Seq<Rating>, Outcome) -> (Seq<Rating>, Seq<Rating>)|
                computes(update, model) ==> r@ == #[trigger] history_of(
                    model,
                    seeded(seeds@, default),
                    default,
                    game_views(games@),
                    player,
                ),
    {
        let mut table = Ratings::from_seeds(seeds, default);
        let mut trace: Vec<PlayerInfo> = Vec::new();
        trace.push(
            match table.get(player) {
                Some(info) => info,
                None => PlayerInfo::new(default),
            },
        );
        let ghost start = seeded(seeds@, default);
        let ghost views = game_views(games@);
        assert(trace@ =~= seq![record_in(start, default, player)]);
        let mut i: usize = 0;
        while i < games.len()
            invariant
                i <= games.len(),
                rates_everyone(update),
                start == seeded(seeds@, default),
                views == game_views(games@),
                forall|model: spec_fn(Seq<Rating>, Seq<Rating>, Outcome) -> (Seq<Rating>, Seq<Rating>)|
                    computes(update, model) ==> table@ == #[trigger] replay(
                        model,
                        start,
                        default,
                        views.take(i as int),
                    ),
                forall|model: spec_fn(Seq<Rating>, Seq<Rating>, Outcome) -> (Seq<Rating>, Seq<Rating>)|
                    computes(update, model) ==> trace@ == #[trigger] history_of(
                        model,
                        start,
                        default,
                        views.take(i as int),
                        player,
                    ),
            decreases games.len() - i,
        {
            let game = &games[i];
            let ghost before = table@;
            let ghost seen = trace@;
            proof {
                assert(views.take(i + 1).drop_last() =~= views.take(i as int));
                assert(views.take(i + 1).last() == game@);
            }
            match score_outcome(game.score) {
                None => {},
                Some(outcome) => {
                    let team1 = table.team_ratings(&game.team1, default);
                    let team2 = table.team_ratings(&game.team2, default);
                    let updated = update(&team1, &team2, outcome);
                    table.credit_tracing(
                        &game.team1,
                        &updated.0,
                        outcome,
                        default,
                        player,
                        &mut trace,
                    );
                    table.credit_tracing(
                        &game.team2,
                        &updated.1,
                        outcome.flip(),
                        default,
                        player,
                        &mut trace,
                    );
                },
            }
            proof {
                assert forall|
                    model: spec_fn(Seq<Rating>, Seq<Rating>, Outcome) -> (Seq<Rating>, Seq<Rating>),
                | computes(update, model) implies table@ == #[trigger] replay(
                    model,
                    start,
                    default,
                    views.take(i + 1),
                ) by {
                    assert(before == replay(model, start, default, views.take(i as int)));
                    assert(table@ == after_game(model, before, default, game@));
                }
                assert forall|
                    model: spec_fn(Seq<Rating>, Seq<Rating>, Outcome) -> (Seq<Rating>, Seq<Rating>),
                | computes(update, model) implies trace@ == #[trigger] history_of(
                    model,
                    start,
                    default,
                    views.take(i + 1),
                    player,
                ) by {
                    assert(before == replay(model, start, default, views.take(i as int)));
                    assert(seen == history_of(model, start, default, views.take(i as int), player));
                }
            }
            i += 1;
        }
        assert(views.take(games.len() as int) =~= views);
        trace
    }
}

/// Where the part of a history of `len` records starts that shows the last
/// `limit` matches: the record before them and theirs. Without a limit, and
/// with one that the history does not reach, that is the whole history.
pub open spec fn window_start(len: nat, limit: Option<usize>) -> nat {
    match limit {
        Some(n) if n + 1 < len => (len - (n + 1)) as nat,
        _ => 0,
    }
}

/// Executable form of [`window_start`].
pub fn history_window(len: usize, limit: Option<usize>) -> (r: usize)
    ensures
        r == window_start(len as nat, limit),
        r <= len,
{
    match limit {
        Some(n) => {
            if n < len && n + 1 < len {
                len - (n + 1)
            } else {
                0
            }
        },
        None => 0,
    }
}

/// Whether two tables say the same of `player`.
pub open spec fn agree_on(a: Map<u64, PlayerInfo>, b: Map<u64, PlayerInfo>, player: u64) -> bool {
    a.contains_key(player) == b.contains_key(player) && (a.contains_key(player) ==> a[player]
        == b[player])
}

/// Whether no player takes part in both matches.
pub open spec fn no_shared_player(first: GameView, second: GameView) -> bool {
    forall|p: u64| !(#[trigger] first.has_player(p) && second.has_player(p))
}

/// Crediting a team gives each of its players a record and leaves every
/// other player as the table had it.
proof fn lemma_credited_frame(
    table: Map<u64, PlayerInfo>,
    default: Rating,
    team: Seq<u64>,
    ratings: Seq<Rating>,
    outcome: Outcome,
    player: u64,
)
    ensures
        team.contains(player) ==> credited(table, default, team, ratings, outcome).contains_key(
            player,
        ),
        !team.contains(player) ==> agree_on(
            credited(table, default, team, ratings, outcome),
            table,
            player,
        ),
    decreases team.len(),
{
    if team.len() > 0 {
        let rest = team.drop_last();
        lemma_credited_frame(table, default, rest, ratings, outcome, player);
        if team.contains(player) {
            let j = choose|j: int| 0 <= j < team.len() && team[j] == player;
            if j < rest.len() {
                assert(rest[j] == player);
            }
        } else {
            assert(team[team.len() - 1] != player);
            if rest.contains(player) {
                let j = choose|j: int| 0 <= j < rest.len() && rest[j] == player;
                assert(team[j] == player);
            }
        }
    }
}

/// What crediting a team makes of a player depends on nothing but what the
/// table says of that player and of the team.
proof fn lemma_credited_local(
    a: Map<u64, PlayerInfo>,
    b: Map<u64, PlayerInfo>,
    default: Rating,
    team: Seq<u64>,
    ratings: Seq<Rating>,
    outcome: Outcome,
    player: u64,
)
    requires
        forall|p: u64| #[trigger] team.contains(p) ==> agree_on(a, b, p),
        agree_on(a, b, player),
    ensures
        agree_on(
            credited(a, default, team, ratings, outcome),
            credited(b, default, team, ratings, outcome),
            player,
        ),
    decreases team.len(),
{
    if team.len() > 0 {
        let rest = team.drop_last();
        let last = team.last();
        assert forall|p: u64| #[trigger] rest.contains(p) implies agree_on(a, b, p) by {
            let j = choose|j: int| 0 <= j < rest.len() && rest[j] == p;
            assert(team[j] == p);
            assert(team.contains(p));
        }
        assert(team[team.len() - 1] == last);
        assert(team.contains(last));
        lemma_credited_local(a, b, default, rest, ratings, outcome, player);
        lemma_credited_local(a, b, default, rest, ratings, outcome, last);
    }
}

/// The ratings of a team depend on nothing but what the table says of its
/// players.
proof fn lemma_team_ratings_local(
    a: Map<u64, PlayerInfo>,
    b: Map<u64, PlayerInfo>,
    default: Rating,
    team: Seq<u64>,
)
    requires
        forall|p: u64| #[trigger] team.contains(p) ==> agree_on(a, b, p),
    ensures
        team_ratings(a, default, team) == team_ratings(b, default, team),
{
    assert forall|i: int| 0 <= i < team.len() implies rating_in(a, default, team[i]) == rating_in(
        b,
        default,
        team[i],
    ) by {
        assert(team.contains(team[i]));
    }
    assert(team_ratings(a, default, team) =~= team_ratings(b, default, team));
}

/// A match leaves the records of those who did not play it alone.
pub proof fn lemma_after_game_frame(
    model: spec_fn(Seq<Rating>, Seq<Rating>, Outcome) -> (Seq<Rating>, Seq<Rating>),
    table: Map<u64, PlayerInfo>,
    default: Rating,
    game: GameView,
    player: u64,
)
    requires
        !game.has_player(player),
    ensures
        agree_on(after_game(model, table, default, game), table, player),
{
    match outcome_of(game.score) {
        None => {},
        Some(outcome) => {
            let updated = model(
                team_ratings(table, default, game.team1),
                team_ratings(table, default, game.team2),
                outcome,
            );
            let first = credited(table, default, game.team1, updated.0, outcome);
            lemma_credited_frame(table, default, game.team1, updated.0, outcome, player);
            lemma_credited_frame(first, default, game.team2, updated.1, outcome.reversed(), player);
        },
    }
}

/// What a match makes of the record of a player depends on nothing but
/// that record and the records of those who played the match.
pub proof fn lemma_after_game_local(
    model: spec_fn(Seq<Rating>, Seq<Rating>, Outcome) -> (Seq<Rating>, Seq<Rating>),
    a: Map<u64, PlayerInfo>,
    b: Map<u64, PlayerInfo>,
    default: Rating,
    game: GameView,
    player: u64,
)
    requires
        forall|p: u64| #[trigger] game.has_player(p) ==> agree_on(a, b, p),
        agree_on(a, b, player),
    ensures
        agree_on(
            after_game(model, a, default, game),
            after_game(model, b, default, game),
            player,
        ),
{
    match outcome_of(game.score) {
        None => {},
        Some(outcome) => {
            assert forall|p: u64| #[trigger] game.team1.contains(p) implies agree_on(a, b, p) by {
                assert(game.has_player(p));
            }
            assert forall|p: u64| #[trigger] game.team2.contains(p) implies agree_on(a, b, p) by {
                assert(game.has_player(p));
            }
            lemma_team_ratings_local(a, b, default, game.team1);
            lemma_team_ratings_local(a, b, default, game.team2);
            let updated = model(
                team_ratings(a, default, game.team1),
                team_ratings(a, default, game.team2),
                outcome,
            );
            let first_a = credited(a, default, game.team1, updated.0, outcome);
            let first_b = credited(b, default, game.team1, updated.0, outcome);
            lemma_credited_local(a, b, default, game.team1, updated.0, outcome, player);
            assert forall|p: u64| #[trigger] game.team2.contains(p) implies agree_on(
                first_a,
                first_b,
                p,
            ) by {
                lemma_credited_local(a, b, default, game.team1, updated.0, outcome, p);
            }
            lemma_credited_local(
                first_a,
                first_b,
                default,
                game.team2,
                updated.1,
                outcome.reversed(),
                player,
            );
        },
    }
}

/// Two matches without a shared player can be taken in either order: the
/// table that results is the same.
pub proof fn lemma_disjoint_games_commute(
    model: spec_fn(Seq<Rating>, Seq<Rating>, Outcome) -> (Seq<Rating>, Seq<Rating>),
    table: Map<u64, PlayerInfo>,
    default: Rating,
    first: GameView,
    second: GameView,
)
    requires
        no_shared_player(first, second),
    ensures
        after_game(model, after_game(model, table, default, first), default, second) == after_game(
            model,
            after_game(model, table, default, second),
            default,
            first,
        ),
{
    let after_first = after_game(model, table, default, first);
    let after_second = after_game(model, table, default, second);
    let one = after_game(model, after_first, default, second);
    let other = after_game(model, after_second, default, first);
    assert forall|p: u64| #[trigger] agree_on(one, other, p) by {
        assert(!(first.has_player(p) && second.has_player(p)));
        assert forall|q: u64| #[trigger] first.has_player(q) implies agree_on(
            after_second,
            table,
            q,
        ) by {
            assert(!(first.has_player(q) && second.has_player(q)));
            lemma_after_game_frame(model, table, default, second, q);
        }
        assert forall|q: u64| #[trigger] second.has_player(q) implies agree_on(
            after_first,
            table,
            q,
        ) by {
            assert(!(first.has_player(q) && second.has_player(q)));
            lemma_after_game_frame(model, table, default, first, q);
        }
        if first.has_player(p) {
            lemma_after_game_frame(model, after_first, default, second, p);
            lemma_after_game_local(model, after_second, table, default, first, p);
        } else if second.has_player(p) {
            lemma_after_game_frame(model, after_second, default, first, p);
            lemma_after_game_local(model, after_first, table, default, second, p);
        } else {
            lemma_after_game_frame(model, table, default, first, p);
            lemma_after_game_frame(model, table, default, second, p);
            lemma_after_game_frame(model, after_first, default, second, p);
            lemma_after_game_frame(model, after_second, default, first, p);
        }
    }
    assert forall|p: u64| #[trigger] one.dom().contains(p) == other.dom().contains(p) by {
        assert(agree_on(one, other, p));
    }
    assert forall|p: u64| one.dom().contains(p) implies #[trigger] one[p] == other[p] by {
        assert(agree_on(one, other, p));
    }
    assert(one =~= other);
}

/// Taking a list of matches and then another is taking the two lists as
/// one.
pub proof fn lemma_replay_continues(
    model: spec_fn(Seq<Rating>, Seq<Rating>, Outcome) -> (Seq<Rating>, Seq<Rating>),
    start: Map<u64, PlayerInfo>,
    default: Rating,
    games: Seq<GameView>,
    more: Seq<GameView>,
)
    ensures
        replay(model, start, default, games + more) == replay(
            model,
            replay(model, start, default, games),
            default,
            more,
        ),
    decreases more.len(),
{
    if more.len() == 0 {
        assert(games + more =~= games);
    } else {
        lemma_replay_continues(model, start, default, games, more.drop_last());
        assert((games + more).drop_last() =~= games + more.drop_last());
        assert((games + more).last() == more.last());
    }
}

/// The list of matches with the two at `at` and `at + 1` in each other's
/// place.
pub open spec fn with_neighbours_swapped(games: Seq<GameView>, at: int) -> Seq<GameView> {
    games.update(at, games[at + 1]).update(at + 1, games[at])
}

/// Replay does not depend on the order of two neighbouring matches that
/// share no player: with the two in each other's place, the ratings that
/// result are the same.
pub proof fn lemma_replay_ignores_order_of_disjoint_games(
    model: spec_fn(Seq<Rating>, Seq<Rating>, Outcome) -> (Seq<Rating>, Seq<Rating>),
    start: Map<u64, PlayerInfo>,
    default: Rating,
    games: Seq<GameView>,
    at: int,
)
    requires
        0 <= at,
        at + 1 < games.len(),
        no_shared_player(games[at], games[at + 1]),
    ensures
        replay(model, start, default, with_neighbours_swapped(games, at)) == replay(
            model,
            start,
            default,
            games,
        ),
{
    let swapped = with_neighbours_swapped(games, at);
    let head = games.take(at);
    let tail = games.skip(at + 2);
    let pair = seq![games[at], games[at + 1]];
    let riap = seq![games[at + 1], games[at]];
    assert(games =~= (head + pair) + tail);
    assert(swapped =~= (head + riap) + tail);
    let table = replay(model, start, default, head);
    lemma_replay_continues(model, start, default, head + pair, tail);
    lemma_replay_continues(model, start, default, head + riap, tail);
    lemma_replay_continues(model, start, default, head, pair);
    lemma_replay_continues(model, start, default, head, riap);
    assert(pair.drop_last() =~= seq![games[at]]);
    assert(riap.drop_last() =~= seq![games[at + 1]]);
    assert(seq![games[at]].drop_last() =~= Seq::<GameView>::empty());
    assert(seq![games[at + 1]].drop_last() =~= Seq::<GameView>::empty());
    reveal_with_fuel(replay, 3);
    lemma_disjoint_games_commute(model, table, default, games[at], games[at + 1]);
}

} // verus!
