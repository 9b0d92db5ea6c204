use raf::store::{Store, StoreError};
use raf::types::{Channel, User};

fn user(id: i64) -> User {
    User {
        id,
        first_name: format!("user{}", id),
        last_name: None,
        username: None,
    }
}

fn channel(id: i64, owner: i64) -> Channel {
    Channel {
        id,
        registered_by: owner,
        link: format!("https://example.invalid/{}", id),
        name: format!("chan{}", id),
    }
}

/// A store with users 1..=5, channel 10 owned by user 1.
fn base_store() -> Store {
    let mut s = Store::new();
    for id in 1..=5 {
        s.ensure_user(user(id));
    }
    s.register_channel(channel(10, 1)).unwrap();
    s
}

#[test]
fn invitation_unique_regardless_of_contest() {
    let mut s = base_store();
    let a = s.create_contest("A".to_string(), "prize".to_string(), 1000, 10).unwrap();
    let b = s.create_contest("B".to_string(), "prize".to_string(), 1000, 10).unwrap();
    assert!(s.insert_invitation(1, 2, 10, a, 5).is_ok());
    // same (source, dest, chan), different contest: still refused
    assert_eq!(s.insert_invitation(1, 2, 10, b, 6), Err(StoreError::DuplicateInvitation));
    assert_eq!(s.insert_invitation(1, 2, 10, a, 7), Err(StoreError::DuplicateInvitation));
    assert_eq!(s.count_users(a), 1);
    assert_eq!(s.count_users(b), 0);
}

#[test]
fn self_invitation_always_fails() {
    let mut s = base_store();
    let a = s.create_contest("A".to_string(), "prize".to_string(), 1000, 10).unwrap();
    assert_eq!(s.insert_invitation(3, 3, 10, a, 5), Err(StoreError::SelfInvitation));
    assert_eq!(s.count_users(a), 0);
}

#[test]
fn start_contest_is_idempotent_in_failure() {
    let mut s = base_store();
    let a = s.create_contest("A".to_string(), "prize".to_string(), 1000, 10).unwrap();
    let started = s.start_contest(a, 77).unwrap();
    assert_eq!(started.started_at, Some(77));
    // the second start fails and changes nothing
    assert_eq!(s.start_contest(a, 99).err(), Some(StoreError::AlreadyStarted));
    let c = s.get_contest(a).unwrap();
    assert_eq!(c.started_at, Some(77));
}

#[test]
fn stop_contest_already_stopped() {
    let mut s = base_store();
    let a = s.create_contest("A".to_string(), "prize".to_string(), 1000, 10).unwrap();
    s.start_contest(a, 1).unwrap();
    let stopped = s.stop_contest(a).unwrap();
    assert!(stopped.stopped);
    assert_eq!(s.stop_contest(a).err(), Some(StoreError::AlreadyStopped));
}

#[test]
fn start_missing_contest() {
    let mut s = base_store();
    assert_eq!(s.start_contest(999, 1).err(), Some(StoreError::NotFound));
}

#[test]
fn delete_contest_with_participants_fails() {
    let mut s = base_store();
    let a = s.create_contest("A".to_string(), "prize".to_string(), 1000, 10).unwrap();
    s.insert_invitation(1, 2, 10, a, 5).unwrap();
    assert_eq!(s.delete_contest(a), Err(StoreError::Constraint));
    // the contest is still present afterward
    assert!(s.get_contest(a).is_some());
}

#[test]
fn delete_empty_contest_succeeds() {
    let mut s = base_store();
    let a = s.create_contest("A".to_string(), "prize".to_string(), 1000, 10).unwrap();
    assert_eq!(s.delete_contest(a), Ok(()));
    assert!(s.get_contest(a).is_none());
}

#[test]
fn duplicate_contest_name_per_channel() {
    let mut s = base_store();
    s.create_contest("A".to_string(), "p1".to_string(), 1000, 10).unwrap();
    assert_eq!(
        s.create_contest("A".to_string(), "p2".to_string(), 2000, 10),
        Err(StoreError::Constraint)
    );
}

#[test]
fn contest_for_unknown_channel() {
    let mut s = base_store();
    assert_eq!(
        s.create_contest("A".to_string(), "p".to_string(), 1000, 999),
        Err(StoreError::NotFound)
    );
}

#[test]
fn invitation_checks_references() {
    let mut s = base_store();
    let a = s.create_contest("A".to_string(), "p".to_string(), 1000, 10).unwrap();
    // unknown destination user
    assert_eq!(s.insert_invitation(1, 77, 10, a, 5), Err(StoreError::Constraint));
    // unknown contest
    assert_eq!(s.insert_invitation(1, 2, 10, 999, 5), Err(StoreError::Constraint));
}

#[test]
fn ensure_user_ignores_known_id() {
    let mut s = base_store();
    let before = s.users.len();
    let mut u = user(1);
    u.first_name = "другое".to_string();
    s.ensure_user(u);
    assert_eq!(s.users.len(), before);
    assert_eq!(s.get_user(1).unwrap().first_name, "user1");
}

#[test]
fn latest_pending_edit_wins() {
    let mut s = base_store();
    s.register_channel(channel(11, 1)).unwrap();
    s.upsert_pending_edit(10).unwrap();
    s.upsert_pending_edit(11).unwrap();
    assert_eq!(s.latest_pending_edit(1), Some(11));
    s.upsert_pending_edit(10).unwrap();
    assert_eq!(s.latest_pending_edit(1), Some(10));
    // another user owns nothing that is being managed
    assert_eq!(s.latest_pending_edit(2), None);
}

#[test]
fn pending_winner_contact_lifecycle() {
    let mut s = base_store();
    s.create_pending_contact(2, 1).unwrap();
    assert_eq!(s.latest_uncontacted_winner(1), Some(2));
    s.mark_winner_contacted(1, 2);
    assert_eq!(s.latest_uncontacted_winner(1), None);
}

#[test]
fn owners_are_distinct_registrants() {
    let mut s = base_store();
    s.register_channel(channel(11, 1)).unwrap();
    s.register_channel(channel(12, 3)).unwrap();
    let owners: Vec<i64> = s.owners().iter().map(|u| u.id).collect();
    assert_eq!(owners, vec![1, 3]);
}

#[test]
fn delete_invitation_prunes_all_rows_of_dest() {
    let mut s = base_store();
    let a = s.create_contest("A".to_string(), "p".to_string(), 1000, 10).unwrap();
    s.insert_invitation(1, 2, 10, a, 5).unwrap();
    s.insert_invitation(1, 3, 10, a, 5).unwrap();
    s.delete_invitation(2, a);
    assert_eq!(s.count_users(a), 1);
    assert_eq!(s.invites[0].dest, 3);
}

#[test]
fn check_wf_accepts_consistent_store() {
    let mut s = base_store();
    let a = s.create_contest("A".to_string(), "p".to_string(), 1000, 10).unwrap();
    s.insert_invitation(1, 2, 10, a, 5).unwrap();
    s.upsert_pending_edit(10).unwrap();
    s.create_pending_contact(2, 1).unwrap();
    assert!(s.check_wf());
}

#[test]
fn check_wf_rejects_corrupted_store() {
    // a duplicated user id
    let mut s = base_store();
    s.users.push(user(1));
    assert!(!s.check_wf());

    // a self-invitation smuggled in from outside
    let mut s = base_store();
    let a = s.create_contest("A".to_string(), "p".to_string(), 1000, 10).unwrap();
    s.invites.push(raf::types::Invite {
        id: 1,
        date: 0,
        source: 2,
        dest: 2,
        chan: 10,
        contest: a,
    });
    assert!(!s.check_wf());

    // an invitation referencing an unknown contest
    let mut s = base_store();
    s.invites.push(raf::types::Invite {
        id: 1,
        date: 0,
        source: 1,
        dest: 2,
        chan: 10,
        contest: 999,
    });
    assert!(!s.check_wf());
}
