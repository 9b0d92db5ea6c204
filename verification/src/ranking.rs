//! Ranking engine: orders the inviters of a contest by credited-invitation
//! count, descending, with ties broken by the greater user id, and assigns
//! dense ranks 1..N.
//!
//! The rank of a participant is fixed by [`spec_rank`]: one more than the
//! number of participants strictly ahead in the `(count, user id)` order.
//! Because that order is total and strict on distinct participants, rank 1 is
//! held by exactly one participant: the winner is never ambiguous, and two
//! rankings of the same invitation table are equal ([`lemma_ranking_deterministic`]).

use vstd::prelude::*;
use vstd::set_lib::group_set_properties;

use crate::types::{Invite, Rank, RankContest};

verus! {

/// Number of invitations credited to `src` in `contest`.
pub open spec fn cnt_src(invs: Seq<Invite>, contest: i64, src: i64) -> nat
    decreases invs.len(),
{
    if invs.len() == 0 {
        0
    } else {
        cnt_src(invs.drop_last(), contest, src) + (if invs.last().contest == contest
            && invs.last().source == src {
            1nat
        } else {
            0nat
        })
    }
}

/// The users with at least one credited invitation in `contest`.
pub open spec fn participants(invs: Seq<Invite>, contest: i64) -> Set<i64>
    decreases invs.len(),
{
    if invs.len() == 0 {
        Set::empty()
    } else {
        let p = participants(invs.drop_last(), contest);
        if invs.last().contest == contest {
            p.insert(invs.last().source)
        } else {
            p
        }
    }
}

/// Strictly ahead in the ranking order: more invitations, or as many and the
/// greater user id.
pub open spec fn lex_gt(c1: nat, u1: i64, c2: nat, u2: i64) -> bool {
    c1 > c2 || (c1 == c2 && u1 > u2)
}

/// The participants strictly ahead of `u`.
pub open spec fn greater_set(invs: Seq<Invite>, contest: i64, u: i64) -> Set<i64> {
    participants(invs, contest).filter(
        |t: i64|
            lex_gt(cnt_src(invs, contest, t), t, cnt_src(invs, contest, u), u),
    )
}

/// The dense rank of `u` in `contest`: 1 plus the number of participants
/// strictly ahead.
pub open spec fn spec_rank(invs: Seq<Invite>, contest: i64, u: i64) -> int {
    1 + greater_set(invs, contest, u).len() as int
}

/// What a correct ranking of `contest` looks like.
pub open spec fn ranking_ok(invs: Seq<Invite>, contest: i64, r: Seq<Rank>) -> bool {
    &&& r.len() == participants(invs, contest).len()
    &&& forall|i: int| 0 <= i < r.len() ==> (#[trigger] r[i]).rank == i + 1
    &&& forall|i: int|
        0 <= i < r.len() ==> participants(invs, contest).contains((#[trigger] r[i]).user)
    &&& forall|i: int|
        0 <= i < r.len() ==> (#[trigger] r[i]).invites == cnt_src(invs, contest, r[i].user)
    &&& forall|i: int| 0 <= i < r.len() ==> spec_rank(invs, contest, (#[trigger] r[i]).user) == i + 1
    &&& forall|i: int, j: int|
        0 <= i < j < r.len() ==> lex_gt(
            cnt_src(invs, contest, (#[trigger] r[i]).user),
            r[i].user,
            cnt_src(invs, contest, (#[trigger] r[j]).user),
            r[j].user,
        )
    &&& forall|s: i64|
        #[trigger] participants(invs, contest).contains(s) ==> exists|i: int|
            0 <= i < r.len() && (#[trigger] r[i]).user == s
}

/// Participation is having a positive invitation count; and there are never
/// more participants than invitations.
pub proof fn lemma_participants(invs: Seq<Invite>, contest: i64)
    ensures
        participants(invs, contest).finite(),
        participants(invs, contest).len() <= invs.len(),
        forall|s: i64|
            #[trigger] participants(invs, contest).contains(s) <==> cnt_src(invs, contest, s) > 0,
    decreases invs.len(),
{
    broadcast use group_set_properties;

    if invs.len() > 0 {
        lemma_participants(invs.drop_last(), contest);
    }
}

/// Every count is bounded by the number of invitations.
pub proof fn lemma_cnt_le_len(invs: Seq<Invite>, contest: i64, src: i64)
    ensures
        cnt_src(invs, contest, src) <= invs.len(),
    decreases invs.len(),
{
    if invs.len() > 0 {
        lemma_cnt_le_len(invs.drop_last(), contest, src);
    }
}

/// Two correct rankings of the same invitation table are the same ranking:
/// the published result does not depend on how it was computed, and repeated
/// calls agree.
pub proof fn lemma_ranking_deterministic(invs: Seq<Invite>, contest: i64, a: Seq<Rank>, b: Seq<Rank>)
    requires
        ranking_ok(invs, contest, a),
        ranking_ok(invs, contest, b),
    ensures
        a == b,
{
    assert forall|i: int| 0 <= i < a.len() implies a[i] == b[i] by {
        let u = a[i].user;
        assert(participants(invs, contest).contains(u));
        let j = choose|j: int| 0 <= j < b.len() && (#[trigger] b[j]).user == u;
        assert(spec_rank(invs, contest, u) == j + 1);
        assert(j == i);
    }
    assert(a =~= b);
}

/// In a non-empty ranking there is exactly one winner: rank 1 is the first
/// row, and no other row carries rank 1.
pub proof fn lemma_single_winner(invs: Seq<Invite>, contest: i64, r: Seq<Rank>)
    requires
        ranking_ok(invs, contest, r),
        r.len() > 0,
    ensures
        r[0].rank == 1,
        forall|i: int| 0 < i < r.len() ==> (#[trigger] r[i]).rank != 1,
        forall|i: int|
            0 < i < r.len() ==> lex_gt(
                cnt_src(invs, contest, r[0].user),
                r[0].user,
                cnt_src(invs, contest, (#[trigger] r[i]).user),
                r[i].user,
            ),
{
}

fn lex_gt_exec(c1: usize, u1: i64, c2: usize, u2: i64) -> (r: bool)
    ensures
        r == lex_gt(c1 as nat, u1, c2 as nat, u2),
{
    c1 > c2 || (c1 == c2 && u1 > u2)
}

/// Counts the invitations credited to `src` in `contest`.
#[verifier::loop_isolation(false)]
pub fn count_for(invs: &Vec<Invite>, contest: i64, src: i64) -> (n: usize)
    ensures
        n == cnt_src(invs@, contest, src),
        n <= invs@.len(),
{
    let mut n: usize = 0;
    let mut i: usize = 0;
    while i < invs.len()
        invariant
            0 <= i <= invs@.len(),
            n == cnt_src(invs@.take(i as int), contest, src),
            n <= i,
        decreases invs@.len() - i,
    {
        proof {
            assert(invs@.take(i + 1).drop_last() =~= invs@.take(i as int));
            assert(invs@.take(i + 1).last() == invs@[i as int]);
        }
        let v = invs[i];
        if v.contest == contest && v.source == src {
            n += 1;
        }
        i += 1;
    }
    proof {
        assert(invs@.take(invs@.len() as int) =~= invs@);
    }
    n
}

/// The distinct inviters of `contest`, in order of first appearance.
#[verifier::loop_isolation(false)]
fn distinct_sources(invs: &Vec<Invite>, contest: i64) -> (out: Vec<i64>)
    ensures
        out@.no_duplicates(),
        out@.len() <= invs@.len(),
        forall|k: int|
            0 <= k < out@.len() ==> participants(invs@, contest).contains(#[trigger] out@[k]),
        forall|s: i64| #[trigger] participants(invs@, contest).contains(s) ==> out@.contains(s),
{
    broadcast use group_set_properties;

    let mut out: Vec<i64> = Vec::new();
    let mut i: usize = 0;
    while i < invs.len()
        invariant
            0 <= i <= invs@.len(),
            out@.no_duplicates(),
            out@.len() <= i,
            forall|k: int|
                0 <= k < out@.len() ==> participants(invs@.take(i as int), contest).contains(
                    #[trigger] out@[k],
                ),
            forall|s: i64|
                #[trigger] participants(invs@.take(i as int), contest).contains(s) ==> out@.contains(
                    s,
                ),
        decreases invs@.len() - i,
    {
        let ghost pre = invs@.take(i as int);
        let ghost post = invs@.take(i + 1);
        proof {
            assert(post.drop_last() =~= pre);
            assert(post.last() == invs@[i as int]);
        }
        let v = invs[i];
        let ghost out0 = out@;
        if v.contest == contest {
            // is the source already listed?
            let mut seen: bool = false;
            let mut k: usize = 0;
            while k < out.len()
                invariant
                    0 <= k <= out@.len(),
                    seen == exists|q: int| 0 <= q < k && out@[q] == v.source,
                decreases out@.len() - k,
            {
                if out[k] == v.source {
                    seen = true;
                    proof {
                        assert(out@[k as int] == v.source);
                    }
                    k = out.len();
                } else {
                    proof {
                        if exists|q: int| 0 <= q < k + 1 && out@[q] == v.source {
                            let q = choose|q: int| 0 <= q < k + 1 && out@[q] == v.source;
                            assert(0 <= q < k);
                        }
                    }
                    k += 1;
                }
            }
            if !seen {
                out.push(v.source);
                proof {
                    assert forall|q: int|
                        0 <= q < out@.len() - 1 implies #[trigger] out@[q] != out@[out@.len()
                        - 1] by {
                    }
                }
            }
            proof {
                assert(out@.contains(v.source)) by {
                    if seen {
                        let q = choose|q: int| 0 <= q < out0.len() && out0[q] == v.source;
                        assert(out@[q] == v.source);
                    } else {
                        assert(out@[out@.len() - 1] == v.source);
                    }
                }
                assert forall|s: i64|
                    #[trigger] participants(post, contest).contains(s) implies out@.contains(
                    s,
                ) by {
                    if participants(pre, contest).contains(s) {
                        assert(out0.contains(s));
                        let q = choose|q: int| 0 <= q < out0.len() && out0[q] == s;
                        assert(out@[q] == s);
                    } else {
                        assert(s == invs@[i as int].source);
                    }
                }
                assert forall|k: int|
                    0 <= k < out@.len() implies participants(post, contest).contains(
                    #[trigger] out@[k],
                ) by {
                    if k < out0.len() {
                        assert(participants(pre, contest).contains(out0[k]));
                    }
                }
            }
        } else {
            proof {
                assert(participants(post, contest) == participants(pre, contest));
            }
        }
        i += 1;
    }
    proof {
        assert(invs@.take(invs@.len() as int) =~= invs@);
    }
    out
}

/// Computes the ranking of a contest: participants ordered by invitation
/// count descending, ties to the greater user id, dense ranks from 1.
#[verifier::loop_isolation(false)]
#[verifier::rlimit(100)]
pub fn contest_ranking(invs: &Vec<Invite>, contest: i64) -> (r: Vec<Rank>)
    requires
        invs@.len() <= i64::MAX,
    ensures
        ranking_ok(invs@, contest, r@),
{
    broadcast use group_set_properties;

    proof {
        lemma_participants(invs@, contest);
    }
    let sources = distinct_sources(invs, contest);
    // tally the counts
    let mut tally: Vec<(i64, usize)> = Vec::new();
    let mut k: usize = 0;
    while k < sources.len()
        invariant
            0 <= k <= sources@.len(),
            tally@.len() == k,
            forall|a: int| 0 <= a < k ==> (#[trigger] tally@[a]).0 == sources@[a],
            forall|a: int|
                0 <= a < k ==> (#[trigger] tally@[a]).1 == cnt_src(invs@, contest, tally@[a].0),
        decreases sources@.len() - k,
    {
        let s = sources[k];
        let c = count_for(invs, contest, s);
        tally.push((s, c));
        k += 1;
    }
    proof {
        assert forall|a: int, b: int|
            0 <= a < b < tally@.len() implies (#[trigger] tally@[a]).0 != (
            #[trigger] tally@[b]).0 by {
            assert(sources@[a] != sources@[b]);
        }
    }
    // insertion sort, descending in the (count, user) order
    let mut sorted: Vec<(i64, usize)> = Vec::new();
    let mut k2: usize = 0;
    while k2 < tally.len()
        invariant
            0 <= k2 <= tally@.len(),
            sorted@.len() == k2,
            forall|a: int|
                0 <= a < sorted@.len() ==> tally@.take(k2 as int).contains(#[trigger] sorted@[a]),
            forall|b: int| 0 <= b < k2 ==> sorted@.contains(#[trigger] tally@[b]),
            forall|a: int, b: int|
                0 <= a < b < sorted@.len() ==> lex_gt(
                    (#[trigger] sorted@[a]).1 as nat,
                    sorted@[a].0,
                    (#[trigger] sorted@[b]).1 as nat,
                    sorted@[b].0,
                ),
        decreases tally@.len() - k2,
    {
        let t = tally[k2];
        let ghost prev = sorted@;
        // position of the first entry not strictly ahead of t
        let mut pos: usize = 0;
        while pos < sorted.len() && lex_gt_exec(sorted[pos].1, sorted[pos].0, t.1, t.0)
            invariant
                0 <= pos <= sorted@.len(),
                forall|q: int|
                    0 <= q < pos ==> lex_gt(
                        (#[trigger] sorted@[q]).1 as nat,
                        sorted@[q].0,
                        t.1 as nat,
                        t.0,
                    ),
            decreases sorted@.len() - pos,
        {
            pos += 1;
        }
        proof {
            // t's user differs from every user already placed
            assert forall|q: int| 0 <= q < sorted@.len() implies (#[trigger] sorted@[q]).0 != t.0
                && (#[trigger] sorted@[q]).1 == cnt_src(invs@, contest, sorted@[q].0) by {
                assert(tally@.take(k2 as int).contains(sorted@[q]));
                let b = choose|b: int|
                    0 <= b < k2 && tally@.take(k2 as int)[b] == sorted@[q];
                assert(tally@[b] == sorted@[q]);
                assert(tally@[b].0 != tally@[k2 as int].0);
            }
        }
        sorted.insert(pos, t);
        proof {
            let cur = sorted@;
            assert(cur.len() == prev.len() + 1);
            assert(forall|q: int| 0 <= q < pos ==> cur[q] == prev[q]);
            assert(cur[pos as int] == t);
            assert(forall|q: int| pos < q < cur.len() ==> cur[q] == prev[q - 1]);
            // order restored
            assert forall|a: int, b: int|
                0 <= a < b < cur.len() implies lex_gt(
                    (#[trigger] cur[a]).1 as nat,
                    cur[a].0,
                    (#[trigger] cur[b]).1 as nat,
                    cur[b].0,
                ) by {
                if b == pos {
                    assert(cur[a] == prev[a]);
                } else if a == pos {
                    assert(cur[b] == prev[b - 1]);
                    assert(b - 1 >= pos);
                    if pos < prev.len() {
                        assert(!lex_gt(prev[pos as int].1 as nat, prev[pos as int].0, t.1 as nat, t.0));
                        assert(prev[pos as int].0 != t.0);
                        assert(lex_gt(t.1 as nat, t.0, prev[pos as int].1 as nat, prev[pos as int].0));
                        if b - 1 > pos {
                            assert(lex_gt(
                                prev[pos as int].1 as nat,
                                prev[pos as int].0,
                                prev[b - 1].1 as nat,
                                prev[b - 1].0,
                            ));
                        }
                    }
                } else if a < pos && b > pos {
                    assert(cur[a] == prev[a]);
                    assert(cur[b] == prev[b - 1]);
                    if b - 1 == a {
                        assert(lex_gt(prev[a].1 as nat, prev[a].0, t.1 as nat, t.0));
                        assert(false);
                    }
                } else if a < pos && b < pos {
                    assert(cur[a] == prev[a]);
                    assert(cur[b] == prev[b]);
                } else {
                    assert(cur[a] == prev[a - 1]);
                    assert(cur[b] == prev[b - 1]);
                }
            }
            // membership both ways
            assert forall|a: int|
                0 <= a < cur.len() implies tally@.take(k2 + 1).contains(#[trigger] cur[a]) by {
                if a == pos {
                    assert(tally@.take(k2 + 1)[k2 as int] == t);
                } else {
                    let e = if a < pos {
                        prev[a]
                    } else {
                        prev[a - 1]
                    };
                    assert(tally@.take(k2 as int).contains(e));
                    let b = choose|b: int| 0 <= b < k2 && tally@.take(k2 as int)[b] == e;
                    assert(tally@.take(k2 + 1)[b] == e);
                }
            }
            assert forall|b: int| 0 <= b < k2 + 1 implies cur.contains(#[trigger] tally@[b]) by {
                if b == k2 {
                    assert(cur[pos as int] == tally@[b]);
                } else {
                    assert(prev.contains(tally@[b]));
                    let q = choose|q: int| 0 <= q < prev.len() && prev[q] == tally@[b];
                    if q < pos {
                        assert(cur[q] == tally@[b]);
                    } else {
                        assert(cur[q + 1] == tally@[b]);
                    }
                }
            }
        }
        k2 += 1;
    }
    proof {
        assert(tally@.take(tally@.len() as int) =~= tally@);
    }
    // assign dense ranks
    let ghost pset = participants(invs@, contest);
    proof {
        // sorted holds exactly the participants, one row each
        assert forall|a: int, b: int|
            0 <= a < b < sorted@.len() implies (#[trigger] sorted@[a]).0 != (
            #[trigger] sorted@[b]).0 by {
            assert(lex_gt(sorted@[a].1 as nat, sorted@[a].0, sorted@[b].1 as nat, sorted@[b].0));
            let x = choose|x: int| 0 <= x < tally@.len() && tally@[x] == sorted@[a];
            let y = choose|y: int| 0 <= y < tally@.len() && tally@[y] == sorted@[b];
            assert(tally@[x].1 == cnt_src(invs@, contest, tally@[x].0));
            assert(tally@[y].1 == cnt_src(invs@, contest, tally@[y].0));
        }
        // the user sequence of sorted is a permutation of sources
        assert(sorted@.len() == sources@.len());
        assert forall|s: i64| #[trigger] pset.contains(s) implies exists|a: int|
            0 <= a < sorted@.len() && (#[trigger] sorted@[a]).0 == s by {
            assert(sources@.contains(s));
            let b = choose|b: int| 0 <= b < sources@.len() && sources@[b] == s;
            assert(tally@[b].0 == s);
            assert(sorted@.contains(tally@[b]));
            let a = choose|a: int| 0 <= a < sorted@.len() && sorted@[a] == tally@[b];
            assert(sorted@[a].0 == s);
        }
        assert forall|a: int| 0 <= a < sorted@.len() implies pset.contains(
            (#[trigger] sorted@[a]).0,
        ) && sorted@[a].1 == cnt_src(invs@, contest, sorted@[a].0) by {
            assert(tally@.contains(sorted@[a]));
            let b = choose|b: int| 0 <= b < tally@.len() && tally@[b] == sorted@[a];
            assert(tally@[b].0 == sources@[b]);
            assert(pset.contains(sources@[b]));
        }
        // participants count equals the number of rows
        let usersq = Seq::new(sorted@.len(), |a: int| sorted@[a].0);
        assert(usersq.no_duplicates());
        assert forall|s: i64| usersq.contains(s) implies #[trigger] pset.contains(s) by {
            let a = choose|a: int| 0 <= a < usersq.len() && usersq[a] == s;
            assert(sorted@[a].0 == s);
        }
        assert forall|s: i64| #[trigger] pset.contains(s) implies usersq.contains(s) by {
            let a = choose|a: int| 0 <= a < sorted@.len() && (#[trigger] sorted@[a]).0 == s;
            assert(usersq[a] == s);
        }
        assert(usersq.to_set() =~= pset);
        usersq.unique_seq_to_set();
        assert(pset.len() == sorted@.len());
    }
    let mut out: Vec<Rank> = Vec::new();
    let mut i: usize = 0;
    while i < sorted.len()
        invariant
            0 <= i <= sorted@.len(),
            sorted@.len() <= i64::MAX,
            out@.len() == i,
            forall|a: int|
                0 <= a < i ==> #[trigger] out@[a] == (Rank {
                    rank: (a + 1) as i64,
                    invites: sorted@[a].1 as i64,
                    user: sorted@[a].0,
                }),
        decreases sorted@.len() - i,
    {
        proof {
            assert(sorted@[i as int].1 == cnt_src(invs@, contest, sorted@[i as int].0));
            lemma_cnt_le_len(invs@, contest, sorted@[i as int].0);
        }
        let e = sorted[i];
        out.push(Rank { rank: (i as i64) + 1, invites: e.1 as i64, user: e.0 });
        i += 1;
    }
    proof {
        // the spec_rank of row i is i + 1
        assert forall|i: int|
            0 <= i < sorted@.len() implies spec_rank(invs@, contest, (#[trigger] sorted@[i]).0) == i
            + 1 by {
            let u = sorted@[i].0;
            let cu = cnt_src(invs@, contest, u);
            let gs = greater_set(invs@, contest, u);
            let ahead = Seq::new(i as nat, |a: int| sorted@[a].0);
            assert(ahead.no_duplicates());
            assert forall|s: i64| #[trigger] gs.contains(s) implies ahead.contains(s) by {
                assert(pset.contains(s));
                assert(lex_gt(cnt_src(invs@, contest, s), s, cu, u));
                let a = choose|a: int| 0 <= a < sorted@.len() && (#[trigger] sorted@[a]).0 == s;
                assert(sorted@[a].1 == cnt_src(invs@, contest, s));
                if a == i {
                    assert(false);
                } else if a > i {
                    assert(lex_gt(sorted@[i].1 as nat, u, sorted@[a].1 as nat, s));
                    assert(sorted@[i].1 == cu);
                    assert(false);
                }
                assert(ahead[a] == s);
            }
            assert forall|s: i64| ahead.contains(s) implies #[trigger] gs.contains(s) by {
                let a = choose|a: int| 0 <= a < ahead.len() && ahead[a] == s;
                assert(sorted@[a].0 == s);
                assert(lex_gt(sorted@[a].1 as nat, s, sorted@[i].1 as nat, u));
                assert(sorted@[a].1 == cnt_src(invs@, contest, s));
                assert(sorted@[i].1 == cu);
                assert(pset.contains(s));
            }
            assert(ahead.to_set() =~= gs);
            ahead.unique_seq_to_set();
            assert(gs.len() == i);
        }
        assert forall|i: int|
            0 <= i < out@.len() implies spec_rank(invs@, contest, (#[trigger] out@[i]).user) == i
            + 1 by {
            assert(out@[i].user == sorted@[i].0);
        }
        assert forall|s: i64| #[trigger] pset.contains(s) implies exists|i: int|
            0 <= i < out@.len() && (#[trigger] out@[i]).user == s by {
            let a = choose|a: int| 0 <= a < sorted@.len() && (#[trigger] sorted@[a]).0 == s;
            assert(out@[a].user == s);
        }
        assert forall|i: int|
            0 <= i < out@.len() implies ((#[trigger] out@[i]).rank == i + 1 && pset.contains(
                out@[i].user,
            ) && out@[i].invites == cnt_src(invs@, contest, out@[i].user)) by {
            assert(out@[i].user == sorted@[i].0);
            assert(sorted@[i].1 == cnt_src(invs@, contest, sorted@[i].0));
            lemma_cnt_le_len(invs@, contest, sorted@[i].0);
        }
        assert forall|i: int, j: int|
            0 <= i < j < out@.len() implies lex_gt(
                cnt_src(invs@, contest, (#[trigger] out@[i]).user),
                out@[i].user,
                cnt_src(invs@, contest, (#[trigger] out@[j]).user),
                out@[j].user,
            ) by {
            assert(out@[i].user == sorted@[i].0);
            assert(out@[j].user == sorted@[j].0);
            assert(sorted@[i].1 == cnt_src(invs@, contest, sorted@[i].0));
            assert(sorted@[j].1 == cnt_src(invs@, contest, sorted@[j].0));
            assert(lex_gt(sorted@[i].1 as nat, sorted@[i].0, sorted@[j].1 as nat, sorted@[j].0));
        }
    }
    out
}


/// A count over a prefix never exceeds the count over the whole table.
pub proof fn lemma_cnt_take_le(invs: Seq<Invite>, contest: i64, src: i64, i: int)
    requires
        0 <= i <= invs.len(),
    ensures
        cnt_src(invs.take(i), contest, src) <= cnt_src(invs, contest, src),
    decreases invs.len() - i,
{
    if i == invs.len() {
        assert(invs.take(i) =~= invs);
    } else {
        assert(invs.take(i + 1).drop_last() =~= invs.take(i));
        lemma_cnt_take_le(invs, contest, src, i + 1);
    }
}

/// The user's own dense rank in every contest they hold an invitation in,
/// one row per such contest.
#[verifier::loop_isolation(false)]
#[verifier::rlimit(100)]
pub fn my_ranks(invs: &Vec<Invite>, user: i64) -> (r: Vec<RankContest>)
    requires
        invs@.len() <= i64::MAX,
    ensures
        forall|k: int|
            0 <= k < r@.len() ==> (cnt_src(invs@, (#[trigger] r@[k]).contest, user) > 0 && r@[k].rank
                == spec_rank(invs@, r@[k].contest, user)),
        forall|k1: int, k2: int|
            0 <= k1 < k2 < r@.len() ==> (#[trigger] r@[k1]).contest != (#[trigger] r@[k2]).contest,
        forall|c: i64|
            #[trigger] cnt_src(invs@, c, user) > 0 ==> exists|k: int|
                0 <= k < r@.len() && (#[trigger] r@[k]).contest == c,
{
    // the distinct contests the user has an invitation in
    let mut contests: Vec<i64> = Vec::new();
    let mut i: usize = 0;
    while i < invs.len()
        invariant
            0 <= i <= invs@.len(),
            contests@.no_duplicates(),
            forall|k: int|
                0 <= k < contests@.len() ==> cnt_src(
                    invs@.take(i as int),
                    #[trigger] contests@[k],
                    user,
                ) > 0,
            forall|c: i64|
                #[trigger] cnt_src(invs@.take(i as int), c, user) > 0 ==> contests@.contains(c),
        decreases invs@.len() - i,
    {
        let ghost pre = invs@.take(i as int);
        let ghost post = invs@.take(i + 1);
        proof {
            assert(post.drop_last() =~= pre);
            assert(post.last() == invs@[i as int]);
        }
        let v = invs[i];
        let ghost cs0 = contests@;
        if v.source == user {
            let mut seen: bool = false;
            let mut k: usize = 0;
            while k < contests.len()
                invariant
                    0 <= k <= contests@.len(),
                    seen == exists|q: int| 0 <= q < k && contests@[q] == v.contest,
                decreases contests@.len() - k,
            {
                if contests[k] == v.contest {
                    seen = true;
                    proof {
                        assert(contests@[k as int] == v.contest);
                    }
                    k = contests.len();
                } else {
                    proof {
                        if exists|q: int| 0 <= q < k + 1 && contests@[q] == v.contest {
                            let q = choose|q: int| 0 <= q < k + 1 && contests@[q] == v.contest;
                            assert(0 <= q < k);
                        }
                    }
                    k += 1;
                }
            }
            if !seen {
                contests.push(v.contest);
                proof {
                    assert forall|q: int|
                        0 <= q < contests@.len() - 1 implies #[trigger] contests@[q]
                        != contests@[contests@.len() - 1] by {
                    }
                }
            }
            proof {
                assert(contests@.contains(v.contest)) by {
                    if seen {
                        let q = choose|q: int| 0 <= q < cs0.len() && cs0[q] == v.contest;
                        assert(contests@[q] == v.contest);
                    } else {
                        assert(contests@[contests@.len() - 1] == v.contest);
                    }
                }
                assert forall|c: i64|
                    #[trigger] cnt_src(post, c, user) > 0 implies contests@.contains(c) by {
                    if cnt_src(pre, c, user) > 0 {
                        assert(cs0.contains(c));
                        let q = choose|q: int| 0 <= q < cs0.len() && cs0[q] == c;
                        assert(contests@[q] == c);
                    } else {
                        assert(c == v.contest);
                    }
                }
                assert forall|k2: int|
                    0 <= k2 < contests@.len() implies cnt_src(
                    post,
                    #[trigger] contests@[k2],
                    user,
                ) > 0 by {
                    if k2 < cs0.len() {
                        assert(cnt_src(pre, cs0[k2], user) > 0);
                    }
                }
            }
        } else {
            proof {
                assert forall|c: i64|
                    #[trigger] cnt_src(post, c, user) > 0 implies contests@.contains(c) by {
                    assert(cnt_src(pre, c, user) == cnt_src(post, c, user));
                }
            }
        }
        i += 1;
    }
    proof {
        assert(invs@.take(invs@.len() as int) =~= invs@);
    }
    // the user's rank in each of those contests
    let mut out: Vec<RankContest> = Vec::new();
    let mut k: usize = 0;
    while k < contests.len()
        invariant
            0 <= k <= contests@.len(),
            out@.len() == k,
            forall|a: int| 0 <= a < k ==> (#[trigger] out@[a]).contest == contests@[a],
            forall|a: int|
                0 <= a < k ==> (#[trigger] out@[a]).rank == spec_rank(invs@, out@[a].contest, user),
        decreases contests@.len() - k,
    {
        let c = contests[k];
        proof {
            lemma_participants(invs@, c);
        }
        let rk = contest_ranking(invs, c);
        let mut idx: usize = 0;
        let mut found: bool = false;
        while idx < rk.len() && !found
            invariant
                0 <= idx <= rk@.len(),
                found ==> (idx >= 1 && (#[trigger] rk@[idx - 1]).user == user && rk@[idx - 1].rank
                    == idx),
                !found ==> forall|j: int| 0 <= j < idx ==> (#[trigger] rk@[j]).user != user,
            decreases rk@.len() - idx,
        {
            if rk[idx].user == user {
                found = true;
            }
            idx += 1;
        }
        if found {
            let row = rk[idx - 1];
            proof {
                assert(rk@[idx - 1].rank == idx);
                assert(spec_rank(invs@, c, user) == idx);
            }
            out.push(RankContest { rank: row.rank, contest: c });
        } else {
            proof {
                assert(participants(invs@, c).contains(user));
                let w = choose|w: int| 0 <= w < rk@.len() && (#[trigger] rk@[w]).user == user;
                assert(false);
            }
        }
        k += 1;
    }
    proof {
        assert forall|k1: int, k2: int|
            0 <= k1 < k2 < out@.len() implies (#[trigger] out@[k1]).contest != (
            #[trigger] out@[k2]).contest by {
            assert(contests@[k1] != contests@[k2]);
        }
        assert forall|c: i64|
            #[trigger] cnt_src(invs@, c, user) > 0 implies exists|a: int|
                0 <= a < out@.len() && (#[trigger] out@[a]).contest == c by {
            assert(contests@.contains(c));
            let q = choose|q: int| 0 <= q < contests@.len() && contests@[q] == c;
            assert(out@[q].contest == c);
        }
        assert forall|a: int|
            0 <= a < out@.len() implies cnt_src(invs@, (#[trigger] out@[a]).contest, user) > 0 by {
            assert(cnt_src(invs@, contests@[a], user) > 0);
        }
    }
    out
}

} // verus!
