//! Match records and the lifecycle of their outcome.

use crate::collections::contains;
use crate::error::Error;
use vstd::prelude::*;

verus! {

/// Outcome of a match.
#[derive(Debug, Clone, Copy, PartialEq, Eq, Structural)]
pub enum Score {
    Undecided,
    Team1,
    Team2,
    Draw,
    Cancelled,
}

impl Score {
    /// Whether a match with this outcome changes ratings: true for a win of
    /// either team and for a draw.
    pub open spec fn is_rated(self) -> bool {
        self == Score::Team1 || self == Score::Team2 || self == Score::Draw
    }

    /// Executable form of [`Score::is_rated`].
    pub fn rated(self) -> (r: bool)
        ensures
            r == self.is_rated(),
    {
        match self {
            Score::Team1 | Score::Team2 | Score::Draw => true,
            Score::Undecided | Score::Cancelled => false,
        }
    }

    /// The name under which the outcome is shown to players.
    pub fn label(self) -> (r: &'static str)
        ensures
            r@ == match self {
                Score::Undecided => "undecided"@,
                Score::Team1 => "team 1"@,
                Score::Team2 => "team 2"@,
                Score::Draw => "draw"@,
                Score::Cancelled => "cancelled"@,
            },
    {
        match self {
            Score::Undecided => "undecided",
            Score::Team1 => "team 1",
            Score::Team2 => "team 2",
            Score::Draw => "draw",
            Score::Cancelled => "cancelled",
        }
    }
}

/// One of the two teams of a match.
#[derive(Debug, Clone, Copy, PartialEq, Eq, Structural)]
pub enum Team {
    One,
    Two,
}

/// What `Game::swap` did: the team that the first player left for the
/// second, and whether the second player was on the other team and took the
/// place of the first there.
#[derive(Debug, Clone, Copy, PartialEq, Eq, Structural)]
pub struct Swapped {
    pub from: Team,
    pub exchanged: bool,
}

/// What `Game::undo` found.
#[derive(Debug, Clone, Copy, PartialEq, Eq, Structural)]
pub enum Undone {
    /// The match was undecided or cancelled: ratings are unaffected.
    NothingChanged,
    /// A rated outcome was withdrawn: ratings and leaderboard must be rebuilt.
    RatingsChanged,
}

/// One match: two teams of players, an outcome, and the time it was created
/// at (seconds since the Unix epoch).
#[derive(Debug, Clone)]
pub struct Game {
    pub id: usize,
    pub team1: Vec<u64>,
    pub team2: Vec<u64>,
    pub score: Score,
    pub datetime: i64,
}

/// The mathematical value of a [`Game`].
pub struct GameView {
    pub id: nat,
    pub team1: Seq<u64>,
    pub team2: Seq<u64>,
    pub score: Score,
    pub datetime: int,
}

impl View for Game {
    type V = GameView;

    open spec fn view(&self) -> GameView {
        GameView {
            id: self.id as nat,
            team1: self.team1@,
            team2: self.team2@,
            score: self.score,
            datetime: self.datetime as int,
        }
    }
}

/// `team` with every occurrence of `from` replaced by `to`.
pub open spec fn substituted(team: Seq<u64>, from: u64, to: u64) -> Seq<u64> {
    Seq::new(team.len(), |i: int| if team[i] == from { to } else { team[i] })
}

impl GameView {
    /// Whether `player` is on either team.
    pub open spec fn has_player(self, player: u64) -> bool {
        self.team1.contains(player) || self.team2.contains(player)
    }

    /// The teams after `a` and `b` changed places: `a` leaves its team for
    /// `b`, and `b`, if on the other team, takes the place of `a`.
    pub open spec fn swapped(self, a: u64, b: u64) -> GameView {
        if self.team1.contains(a) {
            GameView {
                team1: substituted(self.team1, a, b),
                team2: substituted(self.team2, b, a),
                ..self
            }
        } else {
            GameView {
                team1: substituted(self.team1, b, a),
                team2: substituted(self.team2, a, b),
                ..self
            }
        }
    }

    /// What a swap of `a` and `b` that is not refused does.
    pub open spec fn swap_kind(self, a: u64, b: u64) -> Swapped {
        if self.team1.contains(a) {
            Swapped { from: Team::One, exchanged: self.team2.contains(b) }
        } else {
            Swapped { from: Team::Two, exchanged: self.team1.contains(b) }
        }
    }

    /// The error with which swapping `a` and `b` is refused, if it is.
    pub open spec fn swap_error(self, a: u64, b: u64) -> Option<Error> {
        if self.score != Score::Undecided {
            Some(Error::GameAlreadySet)
        } else if self.team1.contains(a) {
            if self.team1.contains(b) {
                Some(Error::SameTeam)
            } else {
                None
            }
        } else if self.team2.contains(a) {
            if self.team2.contains(b) {
                Some(Error::SameTeam)
            } else {
                None
            }
        } else {
            Some(Error::NotPlaying(a))
        }
    }
}

/// A copy of `team` with every occurrence of `from` replaced by `to`.
pub fn substitute(team: &[u64], from: u64, to: u64) -> (r: Vec<u64>)
    ensures
        r@ == substituted(team@, from, to),
{
    let mut out: Vec<u64> = Vec::new();
    let mut i: usize = 0;
    while i < team.len()
        invariant
            i <= team.len(),
            out@.len() == i,
            forall|j: int| 0 <= j < i ==> out@[j] == substituted(team@, from, to)[j],
        decreases team.len() - i,
    {
        let p: u64 = team[i];
        out.push(if p == from { to } else { p });
        i += 1;
    }
    assert(out@ =~= substituted(team@, from, to));
    out
}

impl Game {
    /// A new, undecided match without an id (0 stands for "not yet logged").
    pub fn create(team1: Vec<u64>, team2: Vec<u64>, datetime: i64) -> (g: Game)
        ensures
            g@ == (GameView {
                id: 0,
                team1: team1@,
                team2: team2@,
                score: Score::Undecided,
                datetime: datetime as int,
            }),
    {
        Game { id: 0, team1, team2, score: Score::Undecided, datetime }
    }

    /// A copy of the match.
    pub fn clone_game(&self) -> (r: Game)
        ensures
            r@ == self@,
    {
        Game {
            id: self.id,
            team1: self.team1.clone(),
            team2: self.team2.clone(),
            score: self.score,
            datetime: self.datetime,
        }
    }

    pub fn id(&self) -> (r: usize)
        ensures
            r == self@.id,
    {
        self.id
    }

    pub fn set_id(&mut self, id: usize)
        ensures
            final(self)@ == (GameView { id: id as nat, ..old(self)@ }),
    {
        self.id = id;
    }

    /// Both teams, team 1 first.
    pub fn teams(&self) -> (r: [&[u64]; 2])
        ensures
            r[0]@ == self@.team1,
            r[1]@ == self@.team2,
    {
        [self.team1.as_slice(), self.team2.as_slice()]
    }

    pub fn score(&self) -> (r: Score)
        ensures
            r == self@.score,
    {
        self.score
    }

    /// Overwrites the outcome, whatever it was. Commands go through
    /// [`Game::decide`], [`Game::cancel`] and [`Game::undo`] instead.
    pub fn set_score(&mut self, score: Score)
        ensures
            final(self)@ == (GameView { score, ..old(self)@ }),
    {
        self.score = score;
    }

    pub fn datetime(&self) -> (r: i64)
        ensures
            r == self@.datetime,
    {
        self.datetime
    }

    /// Replaces both teams, team 1 first.
    pub fn set_teams(&mut self, teams: [Vec<u64>; 2])
        ensures
            final(self)@ == (GameView { team1: teams[0]@, team2: teams[1]@, ..old(self)@ }),
    {
        let mut teams = teams;
        std::mem::swap(&mut self.team1, &mut teams[0]);
        std::mem::swap(&mut self.team2, &mut teams[1]);
    }

    /// Records the outcome `score` of an undecided match. A match that
    /// already has an outcome is left as it is and `GameAlreadySet` is returned.
    pub fn decide(&mut self, score: Score) -> (r: Result<(), Error>)
        ensures
            old(self)@.score == Score::Undecided ==> r is Ok && final(self)@ == (GameView {
                score,
                ..old(self)@
            }),
            old(self)@.score != Score::Undecided ==> r == Err::<(), Error>(
                Error::GameAlreadySet,
            ) && final(self)@ == old(self)@,
    {
        match self.score {
            Score::Undecided => {
                self.score = score;
                Ok(())
            },
            _ => Err(Error::GameAlreadySet),
        }
    }

    /// Cancels an undecided match; refused like [`Game::decide`] otherwise.
    pub fn cancel(&mut self) -> (r: Result<(), Error>)
        ensures
            old(self)@.score == Score::Undecided ==> r is Ok && final(self)@ == (GameView {
                score: Score::Cancelled,
                ..old(self)@
            }),
            old(self)@.score != Score::Undecided ==> r == Err::<(), Error>(
                Error::GameAlreadySet,
            ) && final(self)@ == old(self)@,
    {
        self.decide(Score::Cancelled)
    }

    /// Takes the outcome back, from any state. Tells whether ratings have to
    /// be rebuilt: only when the outcome withdrawn was a rated one.
    pub fn undo(&mut self) -> (r: Undone)
        ensures
            final(self)@ == (GameView { score: Score::Undecided, ..old(self)@ }),
            r == if old(self)@.score.is_rated() {
                Undone::RatingsChanged
            } else {
                Undone::NothingChanged
            },
    {
        let previous = self.score;
        self.score = Score::Undecided;
        if previous.rated() {
            Undone::RatingsChanged
        } else {
            Undone::NothingChanged
        }
    }

    /// Lets `a` and `b` change places in an undecided match.
    ///
    /// `a` must be playing. It is replaced by `b` on its team; where `b` is on
    /// the other team, `b` is replaced by `a` there, and where `b` is not
    /// playing at all, `a` simply leaves the match. On any error the match is
    /// unchanged.
    pub fn swap(&mut self, a: u64, b: u64) -> (r: Result<Swapped, Error>)
        ensures
            match old(self)@.swap_error(a, b) {
                Some(e) => r == Err::<Swapped, Error>(e) && final(self)@ == old(self)@,
                None => r == Ok::<Swapped, Error>(old(self)@.swap_kind(a, b)) && final(self)@
                    == old(self)@.swapped(a, b),
            },
    {
        if self.score != Score::Undecided {
            return Err(Error::GameAlreadySet);
        }
        let a_in_1 = contains(&self.team1, a);
        let a_in_2 = contains(&self.team2, a);
        if a_in_1 {
            if contains(&self.team1, b) {
                return Err(Error::SameTeam);
            }
            let exchanged = contains(&self.team2, b);
            let t1 = substitute(&self.team1, a, b);
            let t2 = substitute(&self.team2, b, a);
            self.team1 = t1;
            self.team2 = t2;
            Ok(Swapped { from: Team::One, exchanged })
        } else if a_in_2 {
            if contains(&self.team2, b) {
                return Err(Error::SameTeam);
            }
            let exchanged = contains(&self.team1, b);
            let t1 = substitute(&self.team1, b, a);
            let t2 = substitute(&self.team2, a, b);
            self.team1 = t1;
            self.team2 = t2;
            Ok(Swapped { from: Team::Two, exchanged })
        } else {
            Err(Error::NotPlaying(a))
        }
    }
}

} // verus!
