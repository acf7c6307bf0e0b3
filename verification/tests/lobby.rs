use matchmaker::config::Timeout;
use matchmaker::lobby::{
    grant, is_valid_capacity, minutes_until, Lobby, LobbyError, QueueUser, SweepEvent,
};
use matchmaker::rating::Ratings;

fn lobby(capacity: usize) -> Lobby {
    Lobby::new("ranked".to_string(), capacity, Ratings::new())
}

fn sorted(mut v: Vec<u64>) -> Vec<u64> {
    v.sort();
    v
}

#[test]
fn new_lobby_is_open_and_empty() {
    let l = lobby(4);
    assert_eq!(l.name(), "ranked");
    assert_eq!(l.capacity(), 4);
    assert_eq!(l.len(), 0);
    assert!(!l.is_frozen());
    assert!(l.webhook().is_none());
    assert!(l.players().is_empty());
}

#[test]
fn join_puts_the_player_in_the_queue() {
    let mut l = lobby(4);
    assert_eq!(l.join(7, 100, Some(40), false), Ok(None));
    assert_eq!(l.len(), 1);
    assert_eq!(l.entry(7), Some(QueueUser::new(100, Some(40))));
    assert_eq!(l.entry(8), None);
    assert_eq!(l.queue().get(&7).map(|e| e.expire()), Some(100));
}

#[test]
fn joining_twice_is_refused_and_changes_nothing() {
    let mut l = lobby(4);
    l.join(7, 100, Some(40), false).unwrap();
    assert_eq!(l.join(7, 999, None, false), Err(LobbyError::AlreadyInQueue(7)));
    assert_eq!(l.join(7, 999, None, true), Err(LobbyError::AlreadyInQueue(7)));
    assert_eq!(l.entry(7), Some(QueueUser::new(100, Some(40))));
    assert_eq!(l.len(), 1);
}

#[test]
fn frozen_lobby_takes_only_forced_requests() {
    let mut l = lobby(4);
    l.join(1, 100, None, false).unwrap();
    l.freeze();
    l.freeze();
    assert!(l.is_frozen());
    assert_eq!(l.join(2, 100, None, false), Err(LobbyError::Frozen));
    assert_eq!(l.leave(1, false), Err(LobbyError::Frozen));
    assert_eq!(l.len(), 1);
    assert_eq!(l.join(2, 100, None, true), Ok(None));
    assert_eq!(l.leave(1, true), Ok(()));
    assert_eq!(sorted(l.players()), vec![2]);
    l.unfreeze();
    l.unfreeze();
    assert!(!l.is_frozen());
    assert_eq!(l.leave(2, false), Ok(()));
}

#[test]
fn frozen_is_reported_before_membership() {
    let mut l = lobby(4);
    l.join(1, 100, None, false).unwrap();
    l.freeze();
    assert_eq!(l.join(1, 100, None, false), Err(LobbyError::Frozen));
    assert_eq!(l.leave(9, false), Err(LobbyError::Frozen));
}

#[test]
fn leaving_without_waiting_is_refused() {
    let mut l = lobby(4);
    assert_eq!(l.leave(3, false), Err(LobbyError::NotInQueue(3)));
    assert_eq!(l.leave(3, true), Err(LobbyError::NotInQueue(3)));
}

#[test]
fn join_then_leave_restores_the_queue() {
    let mut l = lobby(6);
    l.join(1, 100, Some(50), false).unwrap();
    l.join(2, 200, None, false).unwrap();
    let before = l.queue().clone();
    assert_eq!(l.join(3, 300, Some(1), false), Ok(None));
    assert_eq!(l.leave(3, false), Ok(()));
    assert_eq!(l.queue(), &before);
    assert_eq!(l.capacity(), 6);
}

#[test]
fn the_last_player_missing_drains_the_queue() {
    let mut l = lobby(4);
    assert_eq!(l.join(1, 10, None, false), Ok(None));
    assert_eq!(l.join(2, 10, None, false), Ok(None));
    assert_eq!(l.join(3, 10, None, false), Ok(None));
    let drained = l.join(4, 10, None, false).unwrap().unwrap();
    assert_eq!(drained.len(), 4);
    assert_eq!(sorted(drained), vec![1, 2, 3, 4]);
    assert_eq!(l.len(), 0);
    assert!(l.queue().is_empty());
    assert_eq!(l.leave(4, false), Err(LobbyError::NotInQueue(4)));
}

#[test]
fn drain_if_full_leaves_other_queues_alone() {
    let mut l = lobby(4);
    l.join(1, 10, None, false).unwrap();
    assert_eq!(l.drain_if_full(), None);
    assert_eq!(l.len(), 1);
}

#[test]
fn clear_hands_out_the_queue() {
    let mut l = lobby(4);
    l.join(1, 10, None, false).unwrap();
    l.join(2, 20, Some(5), false).unwrap();
    let taken = l.clear();
    assert_eq!(taken.len(), 2);
    assert_eq!(taken.get(&2), Some(&QueueUser::new(20, Some(5))));
    assert_eq!(l.len(), 0);
}

#[test]
fn capacity_must_be_even_and_positive() {
    let mut l = lobby(4);
    assert_eq!(l.set_capacity(0), Err(LobbyError::BadCapacity(0)));
    assert_eq!(l.set_capacity(1), Err(LobbyError::BadCapacity(1)));
    assert_eq!(l.set_capacity(7), Err(LobbyError::BadCapacity(7)));
    assert_eq!(l.capacity(), 4);
    assert_eq!(l.set_capacity(6), Ok(None));
    assert_eq!(l.capacity(), 6);
    assert!(is_valid_capacity(2));
    assert!(!is_valid_capacity(3));
    assert!(!is_valid_capacity(0));
}

#[test]
fn lowering_the_capacity_to_the_population_drains() {
    let mut l = lobby(6);
    l.join(1, 10, None, false).unwrap();
    l.join(2, 10, None, false).unwrap();
    let drained = l.set_capacity(2).unwrap().unwrap();
    assert_eq!(sorted(drained), vec![1, 2]);
    assert_eq!(l.len(), 0);
    assert_eq!(l.capacity(), 2);
}

#[test]
fn raising_the_capacity_averts_a_drain() {
    let mut l = lobby(4);
    l.join(1, 10, None, false).unwrap();
    l.join(2, 10, None, false).unwrap();
    l.join(3, 10, None, false).unwrap();
    assert_eq!(l.set_capacity(6), Ok(None));
    assert_eq!(l.join(4, 10, None, false), Ok(None));
    assert_eq!(l.len(), 4);
}

#[test]
fn sweep_removes_what_has_run_out() {
    let mut l = lobby(8);
    l.join(1, 100, None, false).unwrap();
    l.join(2, 200, None, false).unwrap();
    l.join(3, 99, Some(10), false).unwrap();
    let events = l.sweep(100);
    assert_eq!(events.len(), 2);
    let mut gone: Vec<u64> = events.iter().map(|e| e.user_id()).collect();
    gone.sort();
    assert_eq!(gone, vec![1, 3]);
    assert!(matches!(events[0], SweepEvent::TimedOut { waiting: 2, .. }));
    assert!(matches!(events[1], SweepEvent::TimedOut { waiting: 1, .. }));
    assert_eq!(sorted(l.players()), vec![2]);
    assert!(l.sweep(100).is_empty());
    assert!(l.sweep(150).is_empty());
    assert_eq!(sorted(l.players()), vec![2]);
}

#[test]
fn sweep_ignores_the_freeze() {
    let mut l = lobby(8);
    l.join(1, 100, None, false).unwrap();
    l.freeze();
    assert_eq!(l.sweep(100).len(), 1);
    assert_eq!(l.len(), 0);
}

#[test]
fn sweep_warns_once() {
    let mut l = lobby(8);
    l.join(1, 1000, Some(700), false).unwrap();
    assert!(l.sweep(699).is_empty());
    let events = l.sweep(700);
    assert_eq!(events, vec![SweepEvent::ExpiringSoon { user_id: 1, minutes: 5 }]);
    assert_eq!(l.entry(1), Some(QueueUser::new(1000, None)));
    assert!(l.sweep(760).is_empty());
    assert_eq!(l.sweep(1000), vec![SweepEvent::TimedOut { user_id: 1, waiting: 0 }]);
}

#[test]
fn minutes_are_rounded_up_to_the_interval() {
    assert_eq!(minutes_until(60, 0), 1);
    assert_eq!(minutes_until(61, 0), 2);
    assert_eq!(minutes_until(1, 0), 1);
    assert_eq!(minutes_until(119, 0), 2);
    assert_eq!(minutes_until(120, 0), 2);
    assert_eq!(minutes_until(i64::MAX, i64::MIN), 307445734561825861);
}

#[test]
fn places_start_from_the_settings() {
    let t = Timeout { default: 30, maximum: 120, warn: 5 };
    let e = QueueUser::starting(1000, t);
    assert_eq!(e.expire(), 1000 + 1800);
    assert_eq!(e.warn(), Some(1000 + 1800 - 300));
}

#[test]
fn granted_minutes_are_clamped() {
    assert_eq!(grant(45, 120), 45);
    assert_eq!(grant(500, 120), 120);
    assert_eq!(grant(0, 120), 1);
    assert_eq!(grant(-7, 120), 1);
    assert_eq!(grant(5, 0), 0);
    assert_eq!(grant(1, u64::MAX), 1);
}

#[test]
fn renew_replaces_the_place() {
    let t = Timeout { default: 30, maximum: 120, warn: 5 };
    let mut l = lobby(4);
    assert_eq!(l.renew(1, 0, 60, t), Err(LobbyError::NotInQueue(1)));
    l.join(1, 10, None, false).unwrap();
    assert_eq!(l.renew(1, 1000, 60, t), Ok(60));
    assert_eq!(l.entry(1), Some(QueueUser::new(4600, Some(4300))));
    assert_eq!(l.renew(1, 1000, 999, t), Ok(120));
    assert_eq!(l.entry(1), Some(QueueUser::new(8200, Some(7900))));
    assert_eq!(l.renew(1, 1000, 5, t), Ok(5));
    assert_eq!(l.entry(1), Some(QueueUser::new(1300, None)));
    assert_eq!(l.renew(1, 1000, -3, t), Ok(1));
    assert_eq!(l.entry(1), Some(QueueUser::new(1060, None)));
}

#[test]
fn leave_all_reports_who_left() {
    let mut l = lobby(8);
    l.join(1, 10, None, false).unwrap();
    l.join(2, 10, None, false).unwrap();
    l.join(3, 10, None, false).unwrap();
    l.freeze();
    let left = l.leave_all(&vec![3, 9, 1, 3]);
    assert_eq!(left, vec![(3, 2), (1, 1)]);
    assert_eq!(sorted(l.players()), vec![2]);
    assert!(l.leave_all(&vec![3, 9, 1]).is_empty());
}

#[test]
fn queue_and_webhook_can_be_changed_in_place() {
    let mut l = lobby(4);
    l.join(1, 10, None, false).unwrap();
    l.queue_mut().insert(2, QueueUser::new(20, None));
    l.queue_mut().remove(&1);
    assert_eq!(sorted(l.players()), vec![2]);
    assert_eq!(l.capacity(), 4);
    l.set_webhook(55, "token".to_string());
    if let Some(hook) = l.webhook_mut() {
        hook.messages.push(77);
    }
    assert_eq!(l.webhook().clone().unwrap().messages, vec![77]);
    *l.webhook_mut() = None;
    assert!(l.webhook().is_none());
}

#[test]
fn webhook_and_ratings_can_be_set() {
    let mut l = lobby(4);
    l.set_webhook(55, "token".to_string());
    let hook = l.webhook().clone().unwrap();
    assert_eq!(hook.id, 55);
    assert_eq!(hook.token, "token");
    assert!(hook.messages.is_empty());
    let mut r = Ratings::new();
    r.insert(1, matchmaker::rating::PlayerInfo::new(matchmaker::rating::Rating::new(5, 6)));
    l.set_ratings(r);
    assert_eq!(l.ratings().len(), 1);
}
