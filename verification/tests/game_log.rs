use matchmaker::error::Error;
use matchmaker::game::{Game, Score};
use matchmaker::game_log::{GameLog, GameLogs};

fn game(id: usize, a: u64, b: u64) -> Game {
    let mut g = Game::create(vec![a], vec![b], 77);
    g.set_id(id);
    g
}

#[test]
fn ids_are_given_out_in_sequence() {
    let mut log = GameLog::new();
    assert_eq!(log.len(), 0);
    assert!(log.last().is_none());
    assert_eq!(log.append(Game::create(vec![1], vec![2], 5)), 1);
    assert_eq!(log.append(game(40, 3, 4)), 2);
    assert_eq!(log.append(Game::create(vec![5], vec![6], 5)), 3);
    assert_eq!(log.len(), 3);
    assert_eq!(log.games().iter().map(|g| g.id()).collect::<Vec<_>>(), vec![1, 2, 3]);
    assert_eq!(log.last().unwrap().id(), 3);
    assert_eq!(log.get(2).unwrap().teams()[0], &vec![3]);
    assert_eq!(log.get(2).unwrap().score(), Score::Undecided);
    assert_eq!(log.get(2).unwrap().datetime(), 77);
}

#[test]
fn the_latest_games_come_first() {
    let mut log = GameLog::new();
    assert!(log.latest(3).is_empty());
    for p in 1..=5 {
        log.append(Game::create(vec![p], vec![p + 10], 0));
    }
    assert_eq!(log.latest(3).iter().map(|g| g.id()).collect::<Vec<_>>(), vec![5, 4, 3]);
    assert_eq!(log.latest(20).iter().map(|g| g.id()).collect::<Vec<_>>(), vec![5, 4, 3, 2, 1]);
    assert!(log.latest(0).is_empty());
}

#[test]
fn a_missing_game_is_not_found() {
    let mut log = GameLog::new();
    assert!(matches!(log.get(1), Err(Error::GameNotFound(1))));
    log.append(Game::create(vec![1], vec![2], 5));
    assert!(log.get(1).is_ok());
    assert!(matches!(log.get(0), Err(Error::GameNotFound(0))));
    assert!(matches!(log.get(2), Err(Error::GameNotFound(2))));
}

#[test]
fn update_replaces_by_id() {
    let mut log = GameLog::new();
    log.append(Game::create(vec![1], vec![2], 5));
    log.append(Game::create(vec![3], vec![4], 5));
    let mut changed = log.get(2).unwrap().clone_game();
    changed.set_score(Score::Team2);
    changed.set_teams([vec![4], vec![3]]);
    assert!(log.update(changed));
    assert_eq!(log.get(2).unwrap().score(), Score::Team2);
    assert_eq!(log.get(2).unwrap().teams()[0], &vec![4]);
    assert_eq!(log.get(1).unwrap().score(), Score::Undecided);
    assert!(!log.update(game(9, 1, 2)));
    assert_eq!(log.len(), 2);
}

#[test]
fn a_log_is_restored_from_ascending_ids() {
    let log = GameLog::restore(vec![game(2, 1, 2), game(5, 3, 4), game(6, 5, 6)]).unwrap();
    assert_eq!(log.len(), 3);
    assert_eq!(log.get(5).unwrap().teams()[1], &vec![4]);
    let mut log = log;
    assert_eq!(log.append(Game::create(vec![7], vec![8], 0)), 7);
    assert!(GameLog::restore(vec![]).is_some());
    assert!(GameLog::restore(vec![game(0, 1, 2)]).is_none());
    assert!(GameLog::restore(vec![game(2, 1, 2), game(2, 3, 4)]).is_none());
    assert!(GameLog::restore(vec![game(3, 1, 2), game(2, 3, 4)]).is_none());
    assert!(GameLog::restore(vec![game(1, 1, 2), game(2, 3, 4), game(1, 5, 6)]).is_none());
}

#[test]
fn every_lobby_has_its_own_log() {
    let mut logs = GameLogs::new();
    assert!(logs.channels().is_empty());
    assert!(logs.list(10).is_none());
    assert!(matches!(logs.get(10, 1), Err(Error::GameNotFound(1))));
    assert_eq!(logs.append(10, Game::create(vec![1], vec![2], 0)), 1);
    assert_eq!(logs.append(20, Game::create(vec![3], vec![4], 0)), 1);
    assert_eq!(logs.append(10, Game::create(vec![5], vec![6], 0)), 2);
    let mut channels = logs.channels();
    channels.sort();
    assert_eq!(channels, vec![10, 20]);
    assert_eq!(logs.list(10).unwrap().len(), 2);
    assert_eq!(logs.get(10, 2).unwrap().teams()[0], &vec![5]);
    assert_eq!(logs.get(20, 1).unwrap().teams()[0], &vec![3]);
    assert!(matches!(logs.get(20, 2), Err(Error::GameNotFound(2))));
    let mut decided = logs.get(10, 1).unwrap().clone_game();
    decided.set_score(Score::Team1);
    assert!(logs.update(10, decided.clone_game()));
    assert!(!logs.update(30, decided.clone_game()));
    assert!(!logs.update(20, game(7, 1, 2)));
    assert_eq!(logs.get(10, 1).unwrap().score(), Score::Team1);
    assert_eq!(logs.get(20, 1).unwrap().score(), Score::Undecided);
    logs.insert(30, GameLog::restore(vec![game(4, 1, 2)]).unwrap());
    assert_eq!(logs.append(30, Game::create(vec![1], vec![2], 0)), 5);
    assert_eq!(logs.remove(30).unwrap().len(), 2);
    assert!(logs.remove(30).is_none());
    assert!(logs.list(30).is_none());
}
