use nfrs::{Action, Session, Warning, INITIAL_SYNC_WAIT};

fn targets(owner: u64, targets: &[u64]) -> Action {
    Action::SetTargets { owner, targets: targets.to_vec() }
}

fn joined(ids: &[u64]) -> Session {
    let mut s = Session::new();
    for &id in ids {
        s.on_link_established(id);
        s.on_join_request(id, format!("player{}", id));
    }
    s
}

fn settle(s: &mut Session) {
    for _ in 0..=INITIAL_SYNC_WAIT {
        s.tick_initial_sync();
    }
}

fn assert_scope_complete(s: &Session) {
    let active = s.list_active();
    for &id in &active {
        if s.has_entity(id) {
            assert_eq!(s.replication_targets(id), Some(active.clone()));
        } else {
            assert_eq!(s.replication_targets(id), None);
        }
    }
}

#[test]
fn new_session_is_empty() {
    let s = Session::new();
    assert!(s.list_active().is_empty());
    assert_eq!(s.entity_count(), 0);
    assert!(!s.is_linked(1));
}

#[test]
fn link_waits_for_join_with_countdown() {
    let mut s = Session::new();
    let r = s.on_link_established(7);
    assert!(r.is_empty());
    assert!(s.is_linked(7));
    assert!(!s.has_entity(7));
    assert_eq!(s.sync_countdown(7), Some(3));
    assert_eq!(s.list_active(), vec![7]);
}

#[test]
fn linking_twice_changes_nothing() {
    let mut s = joined(&[1]);
    assert!(s.on_link_established(1).is_empty());
    assert_eq!(s.list_active(), vec![1]);
    assert_eq!(s.entity_count(), 1);
}

#[test]
fn scenario_link_then_leave_without_joining() {
    let mut s = Session::new();
    s.on_link_established(1);
    let r = s.on_link_teardown(1);
    assert_eq!(r, vec![Action::Warn(Warning::OrphanDisconnect)]);
    assert_eq!(s.entity_count(), 0);
    assert!(!s.is_linked(1));
    assert_eq!(s.sync_countdown(1), None);
    assert!(s.list_active().is_empty());
}

#[test]
fn scenario_two_players_join() {
    let mut s = Session::new();
    s.on_link_established(1);
    let r = s.on_join_request(1, "alice".to_string());
    assert_eq!(r, vec![Action::Spawn { owner: 1 }, targets(1, &[1])]);
    s.on_link_established(2);
    let r = s.on_join_request(2, "bob".to_string());
    assert_eq!(r, vec![Action::Spawn { owner: 2 }, targets(1, &[1, 2]), targets(2, &[1, 2])]);
    assert_eq!(s.entity_count(), 2);
    assert_eq!(s.replication_targets(1), Some(vec![1, 2]));
    assert_eq!(s.replication_targets(2), Some(vec![1, 2]));
    assert_eq!(s.player(1).unwrap().username, "alice");
    assert_eq!(s.player(2).unwrap().username, "bob");
    assert_eq!(s.player(1).unwrap().client_id, 1);
    assert_eq!(s.player(2).unwrap().hue, 275016);
}

#[test]
fn scenario_late_link_gets_scope_and_resync() {
    let mut s = joined(&[1]);
    settle(&mut s);
    assert_eq!(s.sync_countdown(1), None);
    let r = s.on_link_established(2);
    assert_eq!(r, vec![targets(1, &[1, 2])]);
    assert_eq!(s.replication_targets(1), Some(vec![1, 2]));
    for left in [2u8, 1, 0] {
        assert!(s.tick_initial_sync().is_empty());
        assert_eq!(s.sync_countdown(2), Some(left));
    }
    assert_eq!(s.tick_initial_sync(), vec![Action::ForceResync { owner: 1 }]);
    assert_eq!(s.sync_countdown(2), None);
    assert!(s.tick_initial_sync().is_empty());
}

#[test]
fn scenario_leave_among_three_others() {
    let mut s = joined(&[1, 2, 3, 4]);
    settle(&mut s);
    let r = s.on_link_teardown(1);
    assert_eq!(
        r,
        vec![
            Action::Despawn { owner: 1 },
            targets(2, &[2, 3, 4]),
            targets(3, &[2, 3, 4]),
            targets(4, &[2, 3, 4]),
        ]
    );
    assert_eq!(s.entity_count(), 3);
    for id in [2, 3, 4] {
        assert_eq!(s.replication_targets(id), Some(vec![2, 3, 4]));
    }
    assert!(s.tick_initial_sync().is_empty());
}

#[test]
fn second_join_is_ignored_with_warning() {
    let mut s = joined(&[5]);
    let r = s.on_join_request(5, "again".to_string());
    assert_eq!(r, vec![Action::Warn(Warning::DuplicateJoin)]);
    assert_eq!(s.entity_count(), 1);
    assert_eq!(s.player(5).unwrap().username, "player5");
}

#[test]
fn join_from_unlinked_connection_is_ignored() {
    let mut s = joined(&[1]);
    let r = s.on_join_request(9, "ghost".to_string());
    assert_eq!(r, vec![Action::Warn(Warning::UnlinkedJoin)]);
    assert_eq!(s.entity_count(), 1);
    assert!(!s.is_linked(9));
}

#[test]
fn teardown_leaves_no_trace() {
    let mut s = joined(&[1, 2, 3]);
    s.on_link_teardown(2);
    assert!(!s.is_linked(2));
    assert!(!s.has_entity(2));
    assert_eq!(s.sync_countdown(2), None);
    for id in [1, 3] {
        assert!(!s.replication_targets(id).unwrap().contains(&2));
    }
    assert_eq!(s.list_active(), vec![1, 3]);
}

#[test]
fn teardown_of_unknown_connection_only_warns() {
    let mut s = joined(&[1]);
    let r = s.on_link_teardown(42);
    assert_eq!(r, vec![Action::Warn(Warning::OrphanDisconnect), targets(1, &[1])]);
    assert_eq!(s.entity_count(), 1);
}

#[test]
fn scope_stays_complete_through_churn() {
    let mut s = Session::new();
    s.on_link_established(3);
    assert_scope_complete(&s);
    s.on_link_established(1);
    s.on_join_request(1, "a".to_string());
    assert_scope_complete(&s);
    s.on_link_established(2);
    s.on_join_request(3, "c".to_string());
    assert_scope_complete(&s);
    s.on_link_teardown(1);
    assert_scope_complete(&s);
    s.on_link_established(1);
    s.on_join_request(2, "b".to_string());
    assert_scope_complete(&s);
    assert_eq!(s.list_active(), vec![3, 2, 1]);
    assert_eq!(s.replication_targets(3), Some(vec![3, 2, 1]));
}

#[test]
fn countdowns_of_several_connections_run_independently() {
    let mut s = Session::new();
    s.on_link_established(1);
    s.on_join_request(1, "a".to_string());
    s.tick_initial_sync();
    s.tick_initial_sync();
    s.on_link_established(2);
    assert_eq!(s.sync_countdown(1), Some(1));
    assert_eq!(s.sync_countdown(2), Some(3));
    assert!(s.tick_initial_sync().is_empty());
    assert_eq!(s.tick_initial_sync(), vec![Action::ForceResync { owner: 1 }]);
    assert_eq!(s.sync_countdown(1), None);
    assert_eq!(s.sync_countdown(2), Some(1));
}

#[test]
fn resync_with_no_cars_is_empty() {
    let mut s = Session::new();
    s.on_link_established(1);
    for _ in 0..=INITIAL_SYNC_WAIT {
        assert!(s.tick_initial_sync().is_empty());
    }
    assert_eq!(s.sync_countdown(1), None);
}
