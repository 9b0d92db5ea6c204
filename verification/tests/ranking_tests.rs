use raf::ranking::{contest_ranking, count_for, my_ranks};
use raf::types::Invite;

fn invite(id: i64, source: i64, dest: i64, contest: i64) -> Invite {
    Invite { id, date: 0, source, dest, chan: 10, contest }
}

#[test]
fn ranking_orders_by_count_descending() {
    let invs = vec![
        invite(1, 1, 2, 7),
        invite(2, 1, 3, 7),
        invite(3, 4, 5, 7),
    ];
    let r = contest_ranking(&invs, 7);
    assert_eq!(r.len(), 2);
    assert_eq!((r[0].rank, r[0].user, r[0].invites), (1, 1, 2));
    assert_eq!((r[1].rank, r[1].user, r[1].invites), (2, 4, 1));
}

#[test]
fn ranking_tie_breaks_to_greater_user_id() {
    let invs = vec![invite(1, 5, 2, 7), invite(2, 9, 3, 7)];
    let r = contest_ranking(&invs, 7);
    assert_eq!(r.len(), 2);
    // equal counts: the greater id is the single winner
    assert_eq!((r[0].rank, r[0].user), (1, 9));
    assert_eq!((r[1].rank, r[1].user), (2, 5));
}

#[test]
fn ranking_is_dense_with_single_rank_one() {
    let invs = vec![
        invite(1, 1, 2, 7),
        invite(2, 2, 3, 7),
        invite(3, 3, 4, 7),
    ];
    let r = contest_ranking(&invs, 7);
    assert_eq!(r.len(), 3);
    for (i, row) in r.iter().enumerate() {
        assert_eq!(row.rank, (i + 1) as i64);
    }
    assert_eq!(r.iter().filter(|row| row.rank == 1).count(), 1);
}

#[test]
fn ranking_repeated_calls_agree() {
    let invs = vec![
        invite(1, 1, 2, 7),
        invite(2, 2, 3, 7),
        invite(3, 1, 4, 7),
        invite(4, 3, 5, 8),
    ];
    let a = contest_ranking(&invs, 7);
    let b = contest_ranking(&invs, 7);
    assert_eq!(a, b);
}

#[test]
fn ranking_of_empty_contest_is_empty() {
    let invs = vec![invite(1, 1, 2, 8)];
    assert!(contest_ranking(&invs, 7).is_empty());
}

#[test]
fn count_for_counts_only_that_contest() {
    let invs = vec![
        invite(1, 1, 2, 7),
        invite(2, 1, 3, 8),
        invite(3, 1, 4, 7),
    ];
    assert_eq!(count_for(&invs, 7, 1), 2);
    assert_eq!(count_for(&invs, 8, 1), 1);
    assert_eq!(count_for(&invs, 9, 1), 0);
}

#[test]
fn my_ranks_reports_each_joined_contest() {
    let invs = vec![
        invite(1, 1, 2, 7),
        invite(2, 9, 3, 7),
        invite(3, 9, 4, 7),
        invite(4, 1, 5, 8),
    ];
    let r = my_ranks(&invs, 1);
    assert_eq!(r.len(), 2);
    let seven = r.iter().find(|e| e.contest == 7).unwrap();
    assert_eq!(seven.rank, 2);
    let eight = r.iter().find(|e| e.contest == 8).unwrap();
    assert_eq!(eight.rank, 1);
    assert!(my_ranks(&invs, 99).is_empty());
}

#[test]
fn store_ranking_matches_free_function() {
    let mut s = raf::store::Store::new();
    for id in 1..=4 {
        s.ensure_user(raf::types::User {
            id,
            first_name: format!("user{}", id),
            last_name: None,
            username: None,
        });
    }
    s.register_channel(raf::types::Channel {
        id: 10,
        registered_by: 1,
        link: "https://example.invalid/10".to_string(),
        name: "chan10".to_string(),
    })
    .unwrap();
    let a = s.create_contest("A".to_string(), "p".to_string(), 1000, 10).unwrap();
    s.insert_invitation(1, 2, 10, a, 5).unwrap();
    s.insert_invitation(3, 4, 10, a, 5).unwrap();
    assert_eq!(s.ranking(a), contest_ranking(&s.invites, a));
    assert_eq!(s.rank_of_user(1), my_ranks(&s.invites, 1));
}
