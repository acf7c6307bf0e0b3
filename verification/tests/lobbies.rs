use matchmaker::error::Error;
use matchmaker::lobbies::Lobbies;
use matchmaker::lobby::{Lobby, LobbyError, SweepEvent};
use matchmaker::rating::Ratings;

fn lobbies() -> Lobbies {
    let mut all = Lobbies::new();
    all.insert(10, Lobby::new("a".to_string(), 2, Ratings::new()));
    all.insert(20, Lobby::new("b".to_string(), 4, Ratings::new()));
    all
}

fn sorted(mut v: Vec<u64>) -> Vec<u64> {
    v.sort();
    v
}

#[test]
fn lobbies_are_found_by_channel() {
    let mut all = lobbies();
    assert_eq!(sorted(all.channels()), vec![10, 20]);
    assert_eq!(all.get(20).unwrap().capacity(), 4);
    assert!(matches!(all.get(30), Err(Error::NotALobby(30))));
    let taken = all.remove(10).unwrap();
    assert_eq!(taken.name(), "a");
    assert!(all.remove(10).is_none());
    assert_eq!(all.channels(), vec![20]);
    all.insert(20, Lobby::new("c".to_string(), 6, Ratings::new()));
    assert_eq!(all.get(20).unwrap().name(), "c");
}

#[test]
fn joining_and_leaving_by_channel() {
    let mut all = lobbies();
    assert!(matches!(all.join(30, 1, 0, None, false), Err(Error::NotALobby(30))));
    assert!(matches!(all.leave(30, 1, false), Err(Error::NotALobby(30))));
    assert!(matches!(all.join(20, 1, 0, None, false), Ok(None)));
    assert!(matches!(
        all.join(20, 1, 0, None, false),
        Err(Error::Lobby(LobbyError::AlreadyInQueue(1)))
    ));
    assert!(matches!(all.leave(20, 2, false), Err(Error::Lobby(LobbyError::NotInQueue(2)))));
    assert!(matches!(all.leave(20, 1, false), Ok(None)));
    assert_eq!(all.get(20).unwrap().len(), 0);
    assert!(matches!(all.join(10, 1, 0, None, false), Ok(None)));
    let drained = all.join(10, 2, 0, None, false).unwrap().unwrap();
    assert_eq!(sorted(drained), vec![1, 2]);
    assert_eq!(all.get(10).unwrap().len(), 0);
}

#[test]
fn leaving_can_fill_a_queue() {
    let mut all = lobbies();
    for p in [1, 2, 3] {
        all.join(20, p, 0, None, false).unwrap();
    }
    assert!(matches!(all.set_team_size(20, 1), Ok(None)));
    assert_eq!(all.get(20).unwrap().capacity(), 2);
    let drained = all.leave(20, 3, false).unwrap().unwrap();
    assert_eq!(sorted(drained), vec![1, 2]);
    assert_eq!(all.get(20).unwrap().len(), 0);
}

#[test]
fn team_size_sets_the_capacity() {
    let mut all = lobbies();
    all.join(20, 1, 0, None, false).unwrap();
    all.join(20, 2, 0, None, false).unwrap();
    assert!(matches!(all.set_team_size(30, 2), Err(Error::NotALobby(30))));
    assert!(matches!(all.set_team_size(20, 0), Err(Error::BadArgument)));
    assert!(matches!(all.set_team_size(20, usize::MAX), Err(Error::BadArgument)));
    assert_eq!(all.get(20).unwrap().capacity(), 4);
    assert!(matches!(all.set_team_size(20, 3), Ok(None)));
    assert_eq!(all.get(20).unwrap().capacity(), 6);
    let drained = all.set_team_size(20, 1).unwrap().unwrap();
    assert_eq!(sorted(drained), vec![1, 2]);
}

#[test]
fn players_leave_every_queue() {
    let mut all = lobbies();
    all.insert(30, Lobby::new("c".to_string(), 8, Ratings::new()));
    all.join(10, 1, 0, None, false).unwrap();
    all.join(20, 1, 0, None, false).unwrap();
    all.join(20, 2, 0, None, false).unwrap();
    all.join(30, 3, 0, None, false).unwrap();
    let mut frozen = all.remove(20).unwrap();
    frozen.freeze();
    all.insert(20, frozen);
    let mut left = all.remove_players(&vec![1, 2, 7]);
    left.sort_by_key(|d| d.channel);
    assert_eq!(left.len(), 3);
    assert_eq!((left[0].channel, left[0].left.clone()), (10, vec![(1, 0)]));
    assert_eq!((left[1].channel, left[1].left.clone()), (20, vec![(1, 1), (2, 0)]));
    assert_eq!((left[2].channel, left[2].left.clone()), (30, vec![]));
    assert_eq!(all.get(10).unwrap().len(), 0);
    assert_eq!(all.get(20).unwrap().len(), 0);
    assert!(all.get(20).unwrap().is_frozen());
    assert_eq!(all.get(30).unwrap().players(), vec![3]);
    for d in all.remove_players(&vec![1, 2, 7]) {
        assert!(d.left.is_empty());
    }
}

#[test]
fn every_queue_is_swept() {
    let mut all = lobbies();
    all.join(10, 1, 50, None, false).unwrap();
    all.join(20, 1, 500, Some(100), false).unwrap();
    all.join(20, 2, 90, None, false).unwrap();
    let mut swept = all.sweep(100);
    swept.sort_by_key(|s| s.channel);
    assert_eq!(swept.len(), 2);
    assert_eq!(swept[0].events, vec![SweepEvent::TimedOut { user_id: 1, waiting: 0 }]);
    assert_eq!(swept[1].events.len(), 2);
    assert!(swept[1].events.contains(&SweepEvent::ExpiringSoon { user_id: 1, minutes: 7 }));
    assert!(swept[1].events.contains(&SweepEvent::TimedOut { user_id: 2, waiting: 1 }));
    assert_eq!(all.get(10).unwrap().len(), 0);
    assert_eq!(all.get(20).unwrap().players(), vec![1]);
    for s in all.sweep(100) {
        assert!(s.events.is_empty());
    }
}
