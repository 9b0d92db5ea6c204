use raf::fsm::{
    accept_on_precheck, accept_on_recheck, finalize_stop, handle_callback, handle_free_text,
    handle_start_link, parse_event, AcceptOutcome, CallbackReply, Event, MembershipCheck,
    MessageOutcome, PrecheckDecision, StartOutcome, StopOutcome,
};
use raf::store::{Store, StoreError};
use raf::types::{Channel, User};

fn user(id: i64) -> User {
    User {
        id,
        first_name: format!("user{}", id),
        last_name: None,
        username: None,
    }
}

fn named_user(id: i64, username: &str) -> User {
    User {
        id,
        first_name: format!("user{}", id),
        last_name: None,
        username: Some(username.to_string()),
    }
}

fn channel(id: i64, owner: i64) -> Channel {
    Channel {
        id,
        registered_by: owner,
        link: format!("https://example.invalid/{}", id),
        name: format!("chan{}", id),
    }
}

fn base_store() -> Store {
    let mut s = Store::new();
    for id in 1..=5 {
        s.ensure_user(user(id));
    }
    s.register_channel(channel(10, 1)).unwrap();
    s
}

#[test]
fn parse_event_actions() {
    assert_eq!(parse_event("manage 5"), Event::Manage { chan: 5 });
    assert_eq!(parse_event("main -100"), Event::Main { chan: -100 });
    assert_eq!(parse_event("create 5"), Event::Create { chan: 5 });
    assert_eq!(parse_event("delete 5"), Event::Delete { chan: 5 });
    assert_eq!(parse_event("list 5"), Event::List { chan: 5 });
    assert_eq!(parse_event("start 5"), Event::Start { chan: 5 });
    assert_eq!(parse_event("stop 5"), Event::Stop { chan: 5 });
    assert_eq!(
        parse_event("delete_contest 5 7"),
        Event::DeleteContest { chan: 5, contest: 7 }
    );
    assert_eq!(
        parse_event("start_contest -100 7"),
        Event::StartContest { chan: -100, contest: 7 }
    );
    assert_eq!(
        parse_event("stop_contest 5 7"),
        Event::StopContest { chan: 5, contest: 7 }
    );
}

#[test]
fn parse_event_glyphs() {
    assert_eq!(
        parse_event("\u{2705} 1 2 3 4"),
        Event::Accept { source: 1, dest: 2, chan: 3, contest: 4 }
    );
    assert_eq!(parse_event("\u{274c}"), Event::Reject);
}

#[test]
fn parse_event_malformed() {
    assert_eq!(parse_event(""), Event::Unknown);
    assert_eq!(parse_event("   "), Event::Unknown);
    assert_eq!(parse_event("nonsense"), Event::Unknown);
    assert_eq!(parse_event("manage"), Event::Unknown);
    assert_eq!(parse_event("manage x"), Event::Unknown);
    assert_eq!(parse_event("start_contest 5"), Event::Unknown);
    assert_eq!(parse_event("\u{2705} 1 2 3"), Event::Unknown);
}

#[test]
fn precheck_decisions() {
    assert_eq!(accept_on_precheck(MembershipCheck::Member), PrecheckDecision::AlreadyMember);
    assert_eq!(accept_on_precheck(MembershipCheck::NotMember), PrecheckDecision::PromptJoin);
    assert_eq!(accept_on_precheck(MembershipCheck::Error), PrecheckDecision::ReportError);
}

#[test]
fn accept_timeout_leaves_no_row() {
    // the user never joined within the window: no invitation, no retry
    let mut s = base_store();
    let a = s.create_contest("A".to_string(), "p".to_string(), 1000, 10).unwrap();
    let before = s.invites.len();
    let r = accept_on_recheck(&mut s, 1, 2, 10, a, false, 100);
    assert_eq!(r, AcceptOutcome::Timeout);
    assert_eq!(s.invites.len(), before);
}

#[test]
fn accept_credits_when_joined_in_time() {
    let mut s = base_store();
    let a = s.create_contest("A".to_string(), "p".to_string(), 1000, 10).unwrap();
    let r = accept_on_recheck(&mut s, 1, 2, 10, a, true, 100);
    assert!(matches!(r, AcceptOutcome::Credited { .. }));
    assert_eq!(s.count_users(a), 1);
    // a second accept of the same pair is reported, not credited twice
    let r2 = accept_on_recheck(&mut s, 1, 2, 10, a, true, 101);
    assert_eq!(
        r2,
        AcceptOutcome::InsertFailed { reason: StoreError::DuplicateInvitation }
    );
    assert_eq!(s.count_users(a), 1);
}

#[test]
fn accept_after_contest_end() {
    let mut s = base_store();
    let a = s.create_contest("A".to_string(), "p".to_string(), 1000, 10).unwrap();
    let r = accept_on_recheck(&mut s, 1, 2, 10, a, true, 2000);
    assert_eq!(r, AcceptOutcome::ContestOver);
    assert_eq!(s.count_users(a), 0);
}

#[test]
fn accept_unknown_contest() {
    let mut s = base_store();
    let r = accept_on_recheck(&mut s, 1, 2, 10, 999, true, 100);
    assert_eq!(r, AcceptOutcome::NoSuchContest);
}

#[test]
fn stop_prunes_stale_members_and_recomputes_winner() {
    // three invitations; the pruned one tips the count and changes the winner
    let mut s = base_store();
    let a = s.create_contest("A".to_string(), "p".to_string(), 1000, 10).unwrap();
    s.start_contest(a, 1).unwrap();
    s.insert_invitation(1, 2, 10, a, 5).unwrap();
    s.insert_invitation(1, 3, 10, a, 5).unwrap();
    s.insert_invitation(4, 5, 10, a, 5).unwrap();
    // user 3 left the channel: exactly that invitation goes
    let stale = vec![3];
    let r = finalize_stop(&mut s, a, &stale, 1);
    match r {
        StopOutcome::Finished { contest, ranking, winner, direct } => {
            assert!(contest.stopped);
            assert_eq!(ranking.len(), 2);
            // counts tied at 1 after pruning: user 4 outranks user 1
            assert_eq!((ranking[0].rank, ranking[0].user, ranking[0].invites), (1, 4, 1));
            assert_eq!((ranking[1].rank, ranking[1].user, ranking[1].invites), (2, 1, 1));
            assert_eq!(winner.id, 4);
            assert!(!direct);
        }
        other => panic!("unexpected outcome: {:?}", other),
    }
    assert_eq!(s.count_users(a), 2);
    // the winner has no handle, so a pending contact was recorded
    assert_eq!(s.latest_uncontacted_winner(1), Some(4));
}

#[test]
fn stop_without_pruning_keeps_winner() {
    let mut s = base_store();
    let a = s.create_contest("A".to_string(), "p".to_string(), 1000, 10).unwrap();
    s.start_contest(a, 1).unwrap();
    s.insert_invitation(1, 2, 10, a, 5).unwrap();
    s.insert_invitation(1, 3, 10, a, 5).unwrap();
    s.insert_invitation(4, 5, 10, a, 5).unwrap();
    let r = finalize_stop(&mut s, a, &Vec::new(), 1);
    match r {
        StopOutcome::Finished { ranking, winner, .. } => {
            assert_eq!(winner.id, 1);
            assert_eq!(ranking[0].invites, 2);
        }
        other => panic!("unexpected outcome: {:?}", other),
    }
}

#[test]
fn stop_with_public_winner_needs_no_contact_row() {
    let mut s = base_store();
    s.ensure_user(named_user(9, "champion"));
    let a = s.create_contest("A".to_string(), "p".to_string(), 1000, 10).unwrap();
    s.insert_invitation(9, 2, 10, a, 5).unwrap();
    let r = finalize_stop(&mut s, a, &Vec::new(), 1);
    match r {
        StopOutcome::Finished { winner, direct, .. } => {
            assert_eq!(winner.id, 9);
            assert!(direct);
        }
        other => panic!("unexpected outcome: {:?}", other),
    }
    assert_eq!(s.latest_uncontacted_winner(1), None);
}

#[test]
fn stop_twice_is_an_idempotent_no_op() {
    let mut s = base_store();
    let a = s.create_contest("A".to_string(), "p".to_string(), 1000, 10).unwrap();
    s.insert_invitation(1, 2, 10, a, 5).unwrap();
    assert!(matches!(finalize_stop(&mut s, a, &Vec::new(), 1), StopOutcome::Finished { .. }));
    assert!(matches!(finalize_stop(&mut s, a, &Vec::new(), 1), StopOutcome::AlreadyStopped));
}

#[test]
fn stop_empty_contest_reports_no_participants() {
    let mut s = base_store();
    let a = s.create_contest("A".to_string(), "p".to_string(), 1000, 10).unwrap();
    match finalize_stop(&mut s, a, &Vec::new(), 1) {
        StopOutcome::NoParticipants { contest } => assert!(contest.stopped),
        other => panic!("unexpected outcome: {:?}", other),
    }
}

#[test]
fn end_to_end_contest_lifecycle() {
    // scenario: create "August", start it, two accepted invitations from two
    // sources, stop: two rows, a single winner, contest stopped
    let mut s = base_store();
    let now = 1000;
    let tomorrow = 87400;
    // the owner asks to create, then sends the three-line message
    let r = handle_callback(&mut s, Event::Create { chan: 10 }, now);
    assert!(matches!(r, CallbackReply::CreateInstructions { .. }));
    let text = "August\n2030-01-01 00:00 +01\nGift Card";
    let created = handle_free_text(&mut s, 1, text, now);
    let contest_id = match created {
        MessageOutcome::Created { contest, .. } => contest,
        other => panic!("unexpected outcome: {:?}", other),
    };
    let _ = tomorrow;
    // start it via the callback path
    let r = handle_callback(&mut s, Event::StartContest { chan: 10, contest: contest_id }, now);
    let token = match r {
        CallbackReply::Announce { contest, token } => {
            assert_eq!(contest.started_at, Some(now));
            token
        }
        other => panic!("unexpected reply: {:?}", other),
    };
    // a member mints a personal link from the announcement token
    let minted = handle_start_link(&mut s, &user(4), Some(&token));
    let personal = match minted {
        StartOutcome::MintLink { token, channel, contest } => {
            assert_eq!(channel.id, 10);
            assert_eq!(contest.id, contest_id);
            token
        }
        other => panic!("unexpected outcome: {:?}", other),
    };
    // a new user follows the personal link and is invited
    let mut invited_user = user(200);
    invited_user.first_name = "fresh".to_string();
    let invite = handle_start_link(&mut s, &invited_user, Some(&personal));
    match invite {
        StartOutcome::Invite { inviter, channel, contest } => {
            assert_eq!(inviter.id, 4);
            assert_eq!(channel.id, 10);
            assert_eq!(contest.id, contest_id);
        }
        other => panic!("unexpected outcome: {:?}", other),
    }
    // both referrals are verified after the waiting window
    assert!(matches!(
        accept_on_recheck(&mut s, 4, 200, 10, contest_id, true, now + 20),
        AcceptOutcome::Credited { .. }
    ));
    s.ensure_user(user(201));
    assert!(matches!(
        accept_on_recheck(&mut s, 1, 201, 10, contest_id, true, now + 30),
        AcceptOutcome::Credited { .. }
    ));
    assert_eq!(s.count_users(contest_id), 2);
    // stop: both members still present
    match finalize_stop(&mut s, contest_id, &Vec::new(), 1) {
        StopOutcome::Finished { contest, ranking, winner, .. } => {
            assert!(contest.stopped);
            assert_eq!(ranking.len(), 2);
            // 1-1 tie: the greater source id wins
            assert_eq!(winner.id, 4);
        }
        other => panic!("unexpected outcome: {:?}", other),
    }
}

#[test]
fn two_line_submission_is_rejected_and_marker_stays() {
    let mut s = base_store();
    handle_callback(&mut s, Event::Create { chan: 10 }, 1);
    let pending_before = s.pending_edits.len();
    let r = handle_free_text(&mut s, 1, "August\nGift Card", 1000);
    match r {
        MessageOutcome::ForwardToWinner { .. } | MessageOutcome::Created { .. } => {
            panic!("two lines must not create a contest")
        }
        _ => {}
    }
    // no contest was created and the pending marker remains for a retry
    assert!(s.contests.is_empty());
    assert_eq!(s.pending_edits.len(), pending_before);
    // the well-formed retry now succeeds
    let r = handle_free_text(&mut s, 1, "August\n2030-01-01 00:00 +01\nGift Card", 1000);
    assert!(matches!(r, MessageOutcome::Created { .. }));
}

#[test]
fn bad_date_and_past_date_are_rejected() {
    let mut s = base_store();
    handle_callback(&mut s, Event::Create { chan: 10 }, 1);
    let r = handle_free_text(&mut s, 1, "August\nnot a date\nGift Card", 1000);
    assert!(matches!(
        r,
        MessageOutcome::CreateRejected { reason: raf::contests::Error::ParseError, .. }
    ));
    let past = handle_free_text(&mut s, 1, "August\n1999-01-01 00:00 +00\nGift Card", 2_000_000_000);
    assert!(matches!(
        past,
        MessageOutcome::CreateRejected { reason: raf::contests::Error::PastEnd, .. }
    ));
    assert!(s.contests.is_empty());
}

#[test]
fn from_text_two_lines_is_a_validation_error() {
    assert_eq!(
        raf::contests::from_text("August\nGift Card", 10, 0),
        Err(raf::contests::Error::LineCount)
    );
}

#[test]
fn from_text_exact_timestamp() {
    // 2030-01-01T00:00:00Z
    let c = raf::contests::from_text("August\n2030-01-01 00:00 +00\nGift Card", 10, 1000).unwrap();
    assert_eq!(c.end, 1893456000);
    assert_eq!(c.name, "August");
    assert_eq!(c.prize, "Gift Card");
    assert_eq!(c.started_at, None);
    assert!(!c.stopped);
    // the +01 offset shifts the instant back an hour
    let c2 = raf::contests::from_text("August\n2030-01-01 00:00 +01\nGift Card", 10, 1000).unwrap();
    assert_eq!(c2.end, 1893456000 - 3600);
}

#[test]
fn free_text_from_non_owner_is_ignored() {
    let mut s = base_store();
    let r = handle_free_text(&mut s, 2, "hello\nthere\nyou", 1000);
    assert!(matches!(r, MessageOutcome::NotOwner));
}

#[test]
fn winner_forwarding_flow() {
    let mut s = base_store();
    s.create_pending_contact(2, 1).unwrap();
    let r = handle_free_text(&mut s, 1, "congratulations, contact me!", 1000);
    match r {
        MessageOutcome::ForwardToWinner { winner } => assert_eq!(winner.id, 2),
        other => panic!("unexpected outcome: {:?}", other),
    }
    // once the app delivered the text it marks the contact done
    s.mark_winner_contacted(1, 2);
    let r2 = handle_free_text(&mut s, 1, "one more message", 1000);
    assert!(matches!(r2, MessageOutcome::Dropped));
}

#[test]
fn callback_selectors_and_list() {
    let mut s = base_store();
    let a = s.create_contest("A".to_string(), "p".to_string(), 1000, 10).unwrap();
    let b = s.create_contest("B".to_string(), "p".to_string(), 1000, 10).unwrap();
    s.start_contest(a, 5).unwrap();
    match handle_callback(&mut s, Event::Start { chan: 10 }, 6) {
        CallbackReply::SelectStart { contests } => {
            assert_eq!(contests.len(), 1);
            assert_eq!(contests[0].id, b);
        }
        other => panic!("unexpected reply: {:?}", other),
    }
    match handle_callback(&mut s, Event::Stop { chan: 10 }, 6) {
        CallbackReply::SelectStop { contests } => {
            assert_eq!(contests.len(), 1);
            assert_eq!(contests[0].id, a);
        }
        other => panic!("unexpected reply: {:?}", other),
    }
    s.insert_invitation(1, 2, 10, a, 5).unwrap();
    match handle_callback(&mut s, Event::List { chan: 10 }, 6) {
        CallbackReply::ContestList { rows } => {
            assert_eq!(rows.len(), 2);
            assert_eq!(rows[0].1, 1);
            assert_eq!(rows[1].1, 0);
        }
        other => panic!("unexpected reply: {:?}", other),
    }
    // deleting the non-empty contest is refused, verbatim
    assert!(matches!(
        handle_callback(&mut s, Event::DeleteContest { chan: 10, contest: a }, 6),
        CallbackReply::DeleteRefused
    ));
    assert!(matches!(
        handle_callback(&mut s, Event::DeleteContest { chan: 10, contest: b }, 6),
        CallbackReply::DeleteDone
    ));
}

#[test]
fn callback_accept_and_misc() {
    let mut s = base_store();
    let r = handle_callback(
        &mut s,
        Event::Accept { source: 1, dest: 2, chan: 10, contest: 3 },
        6,
    );
    match r {
        CallbackReply::AwaitJoin { source, dest, channel, contest } => {
            assert_eq!((source, dest, channel.id, contest), (1, 2, 10, 3));
        }
        other => panic!("unexpected reply: {:?}", other),
    }
    assert!(matches!(
        handle_callback(&mut s, Event::Reject, 6),
        CallbackReply::RejectAck
    ));
    assert!(matches!(
        handle_callback(&mut s, Event::Unknown, 6),
        CallbackReply::Ack
    ));
    assert!(matches!(
        handle_callback(&mut s, Event::Manage { chan: 99 }, 6),
        CallbackReply::Ignore
    ));
    assert!(matches!(
        handle_callback(&mut s, Event::StartContest { chan: 10, contest: 99 }, 6),
        CallbackReply::ContestNotFound
    ));
}

#[test]
fn callback_stop_contest_is_two_phase() {
    let mut s = base_store();
    let a = s.create_contest("A".to_string(), "p".to_string(), 1000, 10).unwrap();
    s.start_contest(a, 5).unwrap();
    s.insert_invitation(1, 2, 10, a, 5).unwrap();
    match handle_callback(&mut s, Event::StopContest { chan: 10, contest: a }, 6) {
        CallbackReply::StopNeedsCheck { contest, dests } => {
            assert_eq!(contest.id, a);
            assert_eq!(dests, vec![2]);
        }
        other => panic!("unexpected reply: {:?}", other),
    }
    // nothing was mutated yet
    assert!(!s.get_contest(a).unwrap().stopped);
    finalize_stop(&mut s, a, &Vec::new(), 1);
    assert!(s.get_contest(a).unwrap().stopped);
    assert!(matches!(
        handle_callback(&mut s, Event::StopContest { chan: 10, contest: a }, 6),
        CallbackReply::AlreadyStoppedReply
    ));
}

#[test]
fn start_link_without_parameter_greets() {
    let mut s = base_store();
    assert!(matches!(
        handle_start_link(&mut s, &user(50), None),
        StartOutcome::Hello
    ));
    // the sender is now known
    assert!(s.get_user(50).is_some());
}

#[test]
fn start_link_with_garbage_fails_to_decode() {
    let mut s = base_store();
    assert!(matches!(
        handle_start_link(&mut s, &user(50), Some("!!!")),
        StartOutcome::DecodeFailed { .. }
    ));
}

#[test]
fn start_link_with_unknown_references_is_bad() {
    let mut s = base_store();
    let token = raf::codec::encode_token(&raf::codec::TokenPayload {
        source: Some(777),
        chan: Some(888),
        contest: Some(9),
    });
    assert!(matches!(
        handle_start_link(&mut s, &user(50), Some(&token)),
        StartOutcome::BadLink
    ));
}
