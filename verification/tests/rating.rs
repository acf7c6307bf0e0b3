use matchmaker::game::{Game, Score};
use matchmaker::collections::{contains, keys_of};
use matchmaker::rating::{history_window, score_outcome, Outcome, PlayerInfo, Rating, Ratings};
use std::collections::HashMap;

const DEFAULT: Rating = Rating { mean: 1500, variance: 400 };

// A toy model: every winner gains 10 and every loser loses 10, plus one for
// each point of mean that the other team's first player has more; a draw
// moves nobody; every variance shrinks by one.
fn update(team1: &Vec<Rating>, team2: &Vec<Rating>, outcome: Outcome) -> (Vec<Rating>, Vec<Rating>) {
    let lead1 = team2.first().map(|r| r.mean).unwrap_or(0) / 100;
    let lead2 = team1.first().map(|r| r.mean).unwrap_or(0) / 100;
    let step = |r: &Rating, sign: i64, bonus: i64| Rating::new(r.mean + sign * (10 + bonus), r.variance - 1);
    match outcome {
        Outcome::Win => (
            team1.iter().map(|r| step(r, 1, lead1)).collect(),
            team2.iter().map(|r| step(r, -1, lead2)).collect(),
        ),
        Outcome::Loss => (
            team1.iter().map(|r| step(r, -1, lead1)).collect(),
            team2.iter().map(|r| step(r, 1, lead2)).collect(),
        ),
        Outcome::Draw => (
            team1.iter().map(|r| Rating::new(r.mean, r.variance - 1)).collect(),
            team2.iter().map(|r| Rating::new(r.mean, r.variance - 1)).collect(),
        ),
    }
}

fn game(id: usize, team1: Vec<u64>, team2: Vec<u64>, score: Score) -> Game {
    let mut g = Game::create(team1, team2, 0);
    g.set_id(id);
    g.set_score(score);
    g
}

fn table(r: &Ratings) -> Vec<(u64, PlayerInfo)> {
    let mut players = r.players();
    players.sort();
    players.into_iter().map(|p| (p, r.get(p).unwrap())).collect()
}

#[test]
fn outcomes_of_scores() {
    assert_eq!(score_outcome(Score::Team1), Some(Outcome::Win));
    assert_eq!(score_outcome(Score::Team2), Some(Outcome::Loss));
    assert_eq!(score_outcome(Score::Draw), Some(Outcome::Draw));
    assert_eq!(score_outcome(Score::Undecided), None);
    assert_eq!(score_outcome(Score::Cancelled), None);
    assert_eq!(Outcome::Win.flip(), Outcome::Loss);
    assert_eq!(Outcome::Loss.flip(), Outcome::Win);
    assert_eq!(Outcome::Draw.flip(), Outcome::Draw);
}

#[test]
fn records_count_and_saturate() {
    let fresh = PlayerInfo::new(DEFAULT);
    assert_eq!((fresh.wins(), fresh.losses(), fresh.draws()), (0, 0, 0));
    assert_eq!(fresh.rating(), DEFAULT);
    let won = fresh.record(Outcome::Win, Rating::new(1510, 399));
    assert_eq!(won, PlayerInfo { rating: Rating::new(1510, 399), wins: 1, losses: 0, draws: 0 });
    let lost = won.record(Outcome::Loss, Rating::new(1500, 398));
    assert_eq!((lost.wins(), lost.losses(), lost.draws()), (1, 1, 0));
    let drew = lost.record(Outcome::Draw, Rating::new(1500, 397));
    assert_eq!((drew.wins(), drew.losses(), drew.draws()), (1, 1, 1));
    let full = PlayerInfo { rating: DEFAULT, wins: usize::MAX, losses: 0, draws: 0 };
    assert_eq!(full.record(Outcome::Win, DEFAULT).wins(), usize::MAX);
}

#[test]
fn empty_history_gives_the_seeds() {
    let mut seeds = HashMap::new();
    seeds.insert(5u64, 1800i64);
    let r = Ratings::from_games(&vec![], &seeds, DEFAULT, update);
    assert_eq!(table(&r), vec![(5, PlayerInfo::new(Rating::new(1800, 400)))]);
    assert_eq!(r.rating_or(5, DEFAULT), Rating::new(1800, 400));
    assert_eq!(r.rating_or(6, DEFAULT), DEFAULT);
    assert_eq!(r.get(6), None);
    assert_eq!(r.len(), 1);
    let none = Ratings::from_games(&vec![], &HashMap::new(), DEFAULT, update);
    assert_eq!(none.len(), 0);
}

#[test]
fn one_game_moves_both_teams() {
    let games = vec![game(1, vec![1, 2], vec![3, 4], Score::Team1)];
    let r = Ratings::from_games(&games, &HashMap::new(), DEFAULT, update);
    let up = PlayerInfo { rating: Rating::new(1525, 399), wins: 1, losses: 0, draws: 0 };
    let down = PlayerInfo { rating: Rating::new(1475, 399), wins: 0, losses: 1, draws: 0 };
    assert_eq!(table(&r), vec![(1, up), (2, up), (3, down), (4, down)]);
}

#[test]
fn team_two_wins_and_draws_are_counted() {
    let games = vec![
        game(1, vec![1], vec![2], Score::Team2),
        game(2, vec![1], vec![2], Score::Draw),
    ];
    let r = Ratings::from_games(&games, &HashMap::new(), DEFAULT, update);
    assert_eq!(
        table(&r),
        vec![
            (1, PlayerInfo { rating: Rating::new(1475, 398), wins: 0, losses: 1, draws: 1 }),
            (2, PlayerInfo { rating: Rating::new(1525, 398), wins: 1, losses: 0, draws: 1 }),
        ]
    );
}

#[test]
fn undecided_and_cancelled_games_are_skipped() {
    let games = vec![
        game(1, vec![1], vec![2], Score::Undecided),
        game(2, vec![3], vec![4], Score::Cancelled),
    ];
    let r = Ratings::from_games(&games, &HashMap::new(), DEFAULT, update);
    assert_eq!(r.len(), 0);
}

#[test]
fn seeds_are_the_base_of_the_first_game() {
    let mut seeds = HashMap::new();
    seeds.insert(1u64, 2000i64);
    seeds.insert(9u64, 100i64);
    let games = vec![game(1, vec![1], vec![2], Score::Team1)];
    let r = Ratings::from_games(&games, &seeds, DEFAULT, update);
    assert_eq!(
        table(&r),
        vec![
            (1, PlayerInfo { rating: Rating::new(2025, 399), wins: 1, losses: 0, draws: 0 }),
            (2, PlayerInfo { rating: Rating::new(1470, 399), wins: 0, losses: 1, draws: 0 }),
            (9, PlayerInfo::new(Rating::new(100, 400))),
        ]
    );
}

#[test]
fn replay_is_repeatable() {
    let mut seeds = HashMap::new();
    seeds.insert(3u64, 1700i64);
    let games = vec![
        game(1, vec![1, 2], vec![3, 4], Score::Team1),
        game(2, vec![1, 3], vec![2, 4], Score::Team2),
        game(3, vec![4, 1], vec![3, 2], Score::Draw),
        game(4, vec![4, 1], vec![3, 2], Score::Cancelled),
    ];
    let a = Ratings::from_games(&games, &seeds, DEFAULT, update);
    let b = Ratings::from_games(&games, &seeds, DEFAULT, update);
    assert_eq!(table(&a), table(&b));
    assert_eq!(a.len(), 4);
}

#[test]
fn disjoint_games_can_be_taken_in_either_order() {
    let first = game(1, vec![1, 2], vec![3, 4], Score::Team1);
    let second = game(2, vec![5, 6], vec![7, 8], Score::Team2);
    let third = game(3, vec![1, 5], vec![3, 7], Score::Team1);
    let one = vec![first.clone_game(), second.clone_game(), third.clone_game()];
    let other = vec![second, first, third];
    let a = Ratings::from_games(&one, &HashMap::new(), DEFAULT, update);
    let b = Ratings::from_games(&other, &HashMap::new(), DEFAULT, update);
    assert_eq!(table(&a), table(&b));
}

#[test]
fn undo_and_same_score_again_reproduces_the_ratings() {
    let mut games = vec![
        game(1, vec![1, 2], vec![3, 4], Score::Team1),
        game(2, vec![1, 3], vec![2, 4], Score::Team2),
    ];
    let before = Ratings::from_games(&games, &HashMap::new(), DEFAULT, update);
    games[0].undo();
    let between = Ratings::from_games(&games, &HashMap::new(), DEFAULT, update);
    assert_ne!(table(&before), table(&between));
    games[0].decide(Score::Team1).unwrap();
    let after = Ratings::from_games(&games, &HashMap::new(), DEFAULT, update);
    assert_eq!(table(&before), table(&after));
}

#[test]
fn a_player_on_both_teams_is_credited_twice() {
    let games = vec![game(1, vec![1], vec![1], Score::Team1)];
    let r = Ratings::from_games(&games, &HashMap::new(), DEFAULT, update);
    assert_eq!(
        table(&r),
        vec![(1, PlayerInfo { rating: Rating::new(1475, 399), wins: 1, losses: 1, draws: 0 })]
    );
}

#[test]
fn history_follows_one_player() {
    let mut seeds = HashMap::new();
    seeds.insert(1u64, 2000i64);
    let games = vec![
        game(1, vec![1], vec![2], Score::Team1),
        game(2, vec![3], vec![4], Score::Team1),
        game(3, vec![2], vec![1], Score::Team1),
        game(4, vec![2], vec![1], Score::Undecided),
    ];
    let h = Ratings::history(&games, &seeds, DEFAULT, update, 1);
    assert_eq!(
        h,
        vec![
            PlayerInfo::new(Rating::new(2000, 400)),
            PlayerInfo { rating: Rating::new(2025, 399), wins: 1, losses: 0, draws: 0 },
            PlayerInfo { rating: Rating::new(2001, 398), wins: 1, losses: 1, draws: 0 },
        ]
    );
    let stranger = Ratings::history(&games, &seeds, DEFAULT, update, 77);
    assert_eq!(stranger, vec![PlayerInfo::new(DEFAULT)]);
}

#[test]
fn a_history_is_shown_from_its_window() {
    assert_eq!(history_window(10, None), 0);
    assert_eq!(history_window(10, Some(3)), 6);
    assert_eq!(history_window(10, Some(0)), 9);
    assert_eq!(history_window(10, Some(9)), 0);
    assert_eq!(history_window(10, Some(8)), 1);
    assert_eq!(history_window(10, Some(usize::MAX)), 0);
    assert_eq!(history_window(0, Some(0)), 0);
    assert_eq!(history_window(1, Some(0)), 0);
}

#[test]
fn tables_can_be_built_by_hand() {
    let mut r = Ratings::new();
    r.insert(1, PlayerInfo::new(Rating::new(10, 1)));
    r.insert(2, PlayerInfo::new(Rating::new(20, 2)));
    r.insert(1, PlayerInfo::new(Rating::new(30, 3)));
    assert_eq!(r.len(), 2);
    assert_eq!(r.as_map().len(), 2);
    assert_eq!(r.get(1), Some(PlayerInfo::new(Rating::new(30, 3))));
    assert_eq!(r.team_ratings(&vec![2, 9, 1], DEFAULT), vec![Rating::new(20, 2), DEFAULT, Rating::new(30, 3)]);
    r.credit(&vec![2, 9], &vec![Rating::new(21, 2), Rating::new(1, 1)], Outcome::Draw, DEFAULT);
    assert_eq!(r.get(2), Some(PlayerInfo { rating: Rating::new(21, 2), wins: 0, losses: 0, draws: 1 }));
    assert_eq!(r.get(9), Some(PlayerInfo { rating: Rating::new(1, 1), wins: 0, losses: 0, draws: 1 }));
    let mut m: HashMap<u64, u8> = HashMap::new();
    m.insert(4, 0);
    m.insert(6, 0);
    let mut keys = keys_of(&m);
    keys.sort();
    assert_eq!(keys, vec![4, 6]);
    assert!(contains(&keys, 6));
    assert!(!contains(&keys, 5));
    assert!(!contains(&vec![], 5));
    assert_eq!(Rating::new(7, 8).mean(), 7);
    assert_eq!(Rating::new(7, 8).variance(), 8);
}
