//! The contest finite-state machine: the single callback entry point, the
//! accept-invitation flow with its delayed membership re-check, contest
//! finalization with pruning, and the free-text message routing.
//!
//! Everything that talks to the messaging platform (sending, pinning,
//! membership lookups, the 10-second wait) happens outside; these functions
//! take the platform's answers as plain values and decide the next store
//! mutation and reply.

use vstd::prelude::*;

use crate::dec::{parse_i64_bytes, spec_parse_i64};
use crate::ranking::{contest_ranking, lemma_participants, participants, ranking_ok, cnt_src};
use crate::codec::{b64_of, b64_decode_of, decode_token, encode_token, qs_of, spec_parse_qs, DecodeError, TokenPayload};
use crate::contests::{content_rows, from_text, spec_from_text};
use crate::store::{
    channel_owned_by, contest_index, contest_is_stopped, has_contest_id, has_contest_named,
    has_triple, has_user_id, has_channel_id, is_owner_of_some, latest_edit_chan, latest_winner,
    same_except_contests, same_except_edits, same_except_invites, Store, StoreError, StoreV,
};
use crate::text::{chars_of, r_views, split_whitespace_chars, ws_tokens};
use crate::types::{Channel, Contest, ContestV, Invite, PendingContact, PendingEdit, Rank, User};

verus! {

/// A decoded interaction event: the closed set of actions the callback
/// entry point can be asked to perform.
#[derive(Debug, Clone, Copy, PartialEq, Eq, Structural)]
pub enum Event {
    /// The invited user accepted an invitation.
    Accept { source: i64, dest: i64, chan: i64, contest: i64 },
    /// The invited user rejected an invitation.
    Reject,
    /// Show the management menu of a channel.
    Manage { chan: i64 },
    /// Back to the main menu.
    Main { chan: i64 },
    /// Begin creating a contest for a channel.
    Create { chan: i64 },
    /// Show the selector of contests to delete.
    Delete { chan: i64 },
    /// Delete one contest.
    DeleteContest { chan: i64, contest: i64 },
    /// Show the selector of contests to start.
    Start { chan: i64 },
    /// Start one contest.
    StartContest { chan: i64, contest: i64 },
    /// Show the selector of contests to stop.
    Stop { chan: i64 },
    /// Stop one contest and finalize it.
    StopContest { chan: i64, contest: i64 },
    /// List the contests of a channel.
    List { chan: i64 },
    /// Anything malformed or unrecognized: acknowledged and ignored.
    Unknown,
}

/// The bytes of an all-ASCII token.
pub open spec fn to_bytes(s: Seq<char>) -> Seq<u8> {
    s.map_values(|c: char| ((c as u32) as u8))
}

pub open spec fn all_ascii(s: Seq<char>) -> bool {
    forall|i: int| 0 <= i < s.len() ==> (#[trigger] s[i] as u32) < 128
}

/// The integer value of a token, if it is one.
pub open spec fn tok_i64(t: Seq<char>) -> Option<i64> {
    if all_ascii(t) {
        spec_parse_i64(to_bytes(t))
    } else {
        None
    }
}

pub open spec fn kw_manage() -> Seq<char> {
    seq!['m', 'a', 'n', 'a', 'g', 'e']
}

pub open spec fn kw_main() -> Seq<char> {
    seq!['m', 'a', 'i', 'n']
}

pub open spec fn kw_create() -> Seq<char> {
    seq!['c', 'r', 'e', 'a', 't', 'e']
}

pub open spec fn kw_delete() -> Seq<char> {
    seq!['d', 'e', 'l', 'e', 't', 'e']
}

pub open spec fn kw_delete_contest() -> Seq<char> {
    seq!['d', 'e', 'l', 'e', 't', 'e', '_', 'c', 'o', 'n', 't', 'e', 's', 't']
}

pub open spec fn kw_start() -> Seq<char> {
    seq!['s', 't', 'a', 'r', 't']
}

pub open spec fn kw_start_contest() -> Seq<char> {
    seq!['s', 't', 'a', 'r', 't', '_', 'c', 'o', 'n', 't', 'e', 's', 't']
}

pub open spec fn kw_stop() -> Seq<char> {
    seq!['s', 't', 'o', 'p']
}

pub open spec fn kw_stop_contest() -> Seq<char> {
    seq!['s', 't', 'o', 'p', '_', 'c', 'o', 'n', 't', 'e', 's', 't']
}

pub open spec fn kw_list() -> Seq<char> {
    seq!['l', 'i', 's', 't']
}

pub open spec fn glyph_accept() -> Seq<char> {
    seq!['\u{2705}']
}

pub open spec fn glyph_reject() -> Seq<char> {
    seq!['\u{274c}']
}

/// One integer argument after the action token, or `Unknown`.
pub open spec fn arg1(ts: Seq<Seq<char>>, mk: spec_fn(i64) -> Event) -> Event {
    if ts.len() >= 2 && tok_i64(ts[1]) is Some {
        mk(tok_i64(ts[1]).unwrap())
    } else {
        Event::Unknown
    }
}

/// Two integer arguments after the action token, or `Unknown`.
pub open spec fn arg2(ts: Seq<Seq<char>>, mk: spec_fn(i64, i64) -> Event) -> Event {
    if ts.len() >= 3 && tok_i64(ts[1]) is Some && tok_i64(ts[2]) is Some {
        mk(tok_i64(ts[1]).unwrap(), tok_i64(ts[2]).unwrap())
    } else {
        Event::Unknown
    }
}

/// What a raw callback string means: the first whitespace token names the
/// action (or is a sentinel glyph), the rest are decimal integer arguments in
/// a fixed per-action order. Anything else is `Unknown`.
pub open spec fn spec_parse_event(s: Seq<char>) -> Event {
    let ts = ws_tokens(s);
    if ts.len() == 0 {
        Event::Unknown
    } else if ts[0] == glyph_accept() {
        if ts.len() >= 5 && tok_i64(ts[1]) is Some && tok_i64(ts[2]) is Some && tok_i64(ts[3])
            is Some && tok_i64(ts[4]) is Some {
            Event::Accept {
                source: tok_i64(ts[1]).unwrap(),
                dest: tok_i64(ts[2]).unwrap(),
                chan: tok_i64(ts[3]).unwrap(),
                contest: tok_i64(ts[4]).unwrap(),
            }
        } else {
            Event::Unknown
        }
    } else if ts[0] == glyph_reject() {
        Event::Reject
    } else if ts[0] == kw_manage() {
        arg1(ts, |chan: i64| Event::Manage { chan })
    } else if ts[0] == kw_main() {
        arg1(ts, |chan: i64| Event::Main { chan })
    } else if ts[0] == kw_create() {
        arg1(ts, |chan: i64| Event::Create { chan })
    } else if ts[0] == kw_delete_contest() {
        arg2(ts, |chan: i64, contest: i64| Event::DeleteContest { chan, contest })
    } else if ts[0] == kw_start_contest() {
        arg2(ts, |chan: i64, contest: i64| Event::StartContest { chan, contest })
    } else if ts[0] == kw_stop_contest() {
        arg2(ts, |chan: i64, contest: i64| Event::StopContest { chan, contest })
    } else if ts[0] == kw_delete() {
        arg1(ts, |chan: i64| Event::Delete { chan })
    } else if ts[0] == kw_start() {
        arg1(ts, |chan: i64| Event::Start { chan })
    } else if ts[0] == kw_stop() {
        arg1(ts, |chan: i64| Event::Stop { chan })
    } else if ts[0] == kw_list() {
        arg1(ts, |chan: i64| Event::List { chan })
    } else {
        Event::Unknown
    }
}

/// Do the token's characters spell exactly this keyword?
#[verifier::loop_isolation(false)]
fn token_eq(t: &Vec<char>, kw: &Vec<char>) -> (r: bool)
    ensures
        r == (t@ == kw@),
{
    if t.len() != kw.len() {
        proof {
            if t@ == kw@ {
                assert(t@.len() == kw@.len());
            }
        }
        return false;
    }
    let mut i: usize = 0;
    while i < t.len()
        invariant
            0 <= i <= t@.len(),
            t@.len() == kw@.len(),
            forall|j: int| 0 <= j < i ==> t@[j] == kw@[j],
        decreases t@.len() - i,
    {
        if t[i] != kw[i] {
            proof {
                if t@ == kw@ {
                    assert(t@[i as int] == kw@[i as int]);
                }
            }
            return false;
        }
        i += 1;
    }
    proof {
        assert(t@ =~= kw@);
    }
    true
}

/// The integer value of a token, exactly as `tok_i64` says.
#[verifier::loop_isolation(false)]
fn token_i64(t: &Vec<char>) -> (r: Option<i64>)
    ensures
        r == tok_i64(t@),
{
    let mut bytes: Vec<u8> = Vec::new();
    let mut i: usize = 0;
    while i < t.len()
        invariant
            0 <= i <= t@.len(),
            forall|j: int| 0 <= j < i ==> (#[trigger] t@[j] as u32) < 128,
            bytes@ == t@.take(i as int).map_values(|c: char| ((c as u32) as u8)),
        decreases t@.len() - i,
    {
        let c = t[i];
        let code = c as u32;
        if code >= 128 {
            proof {
                assert(!all_ascii(t@));
            }
            return None;
        }
        bytes.push(code as u8);
        proof {
            assert(bytes@ =~= t@.take(i + 1).map_values(|c: char| ((c as u32) as u8)));
        }
        i += 1;
    }
    proof {
        assert(t@.take(t@.len() as int) =~= t@);
        assert(all_ascii(t@));
    }
    parse_i64_bytes(&bytes)
}

/// Parses a raw callback string into an [`Event`], exactly as
/// [`spec_parse_event`] says.
#[verifier::loop_isolation(false)]
#[verifier::rlimit(100)]
pub fn parse_event(data: &str) -> (r: Event)
    ensures
        r == spec_parse_event(data@),
{
    let chars = chars_of(data);
    let toks = split_whitespace_chars(&chars);
    let ghost ts = ws_tokens(data@);
    proof {
        assert(r_views(toks@) == ts);
    }
    if toks.len() == 0 {
        return Event::Unknown;
    }
    proof {
        assert(toks@[0]@ == ts[0]);
    }
    let t0 = &toks[0];
    let v_accept = vec!['\u{2705}'];
    let v_reject = vec!['\u{274c}'];
    let v_manage = vec!['m', 'a', 'n', 'a', 'g', 'e'];
    let v_main = vec!['m', 'a', 'i', 'n'];
    let v_create = vec!['c', 'r', 'e', 'a', 't', 'e'];
    let v_delete = vec!['d', 'e', 'l', 'e', 't', 'e'];
    let v_delete_contest = vec![
        'd',
        'e',
        'l',
        'e',
        't',
        'e',
        '_',
        'c',
        'o',
        'n',
        't',
        'e',
        's',
        't',
    ];
    let v_start = vec!['s', 't', 'a', 'r', 't'];
    let v_start_contest = vec!['s', 't', 'a', 'r', 't', '_', 'c', 'o', 'n', 't', 'e', 's', 't'];
    let v_stop = vec!['s', 't', 'o', 'p'];
    let v_stop_contest = vec!['s', 't', 'o', 'p', '_', 'c', 'o', 'n', 't', 'e', 's', 't'];
    let v_list = vec!['l', 'i', 's', 't'];
    proof {
        assert(v_accept@ =~= glyph_accept());
        assert(v_reject@ =~= glyph_reject());
        assert(v_manage@ =~= kw_manage());
        assert(v_main@ =~= kw_main());
        assert(v_create@ =~= kw_create());
        assert(v_delete@ =~= kw_delete());
        assert(v_delete_contest@ =~= kw_delete_contest());
        assert(v_start@ =~= kw_start());
        assert(v_start_contest@ =~= kw_start_contest());
        assert(v_stop@ =~= kw_stop());
        assert(v_stop_contest@ =~= kw_stop_contest());
        assert(v_list@ =~= kw_list());
    }
    if token_eq(t0, &v_accept) {
        if toks.len() >= 5 {
            proof {
                assert(toks@[1]@ == ts[1]);
                assert(toks@[2]@ == ts[2]);
                assert(toks@[3]@ == ts[3]);
                assert(toks@[4]@ == ts[4]);
            }
            let a1 = token_i64(&toks[1]);
            let a2 = token_i64(&toks[2]);
            let a3 = token_i64(&toks[3]);
            let a4 = token_i64(&toks[4]);
            match (a1, a2, a3, a4) {
                (Some(source), Some(dest), Some(chan), Some(contest)) => Event::Accept {
                    source,
                    dest,
                    chan,
                    contest,
                },
                _ => Event::Unknown,
            }
        } else {
            Event::Unknown
        }
    } else if token_eq(t0, &v_reject) {
        Event::Reject
    } else if token_eq(t0, &v_manage) {
        match get_arg1(&toks) {
            Some(chan) => Event::Manage { chan },
            None => Event::Unknown,
        }
    } else if token_eq(t0, &v_main) {
        match get_arg1(&toks) {
            Some(chan) => Event::Main { chan },
            None => Event::Unknown,
        }
    } else if token_eq(t0, &v_create) {
        match get_arg1(&toks) {
            Some(chan) => Event::Create { chan },
            None => Event::Unknown,
        }
    } else if token_eq(t0, &v_delete_contest) {
        match get_arg2(&toks) {
            Some((chan, contest)) => Event::DeleteContest { chan, contest },
            None => Event::Unknown,
        }
    } else if token_eq(t0, &v_start_contest) {
        match get_arg2(&toks) {
            Some((chan, contest)) => Event::StartContest { chan, contest },
            None => Event::Unknown,
        }
    } else if token_eq(t0, &v_stop_contest) {
        match get_arg2(&toks) {
            Some((chan, contest)) => Event::StopContest { chan, contest },
            None => Event::Unknown,
        }
    } else if token_eq(t0, &v_delete) {
        match get_arg1(&toks) {
            Some(chan) => Event::Delete { chan },
            None => Event::Unknown,
        }
    } else if token_eq(t0, &v_start) {
        match get_arg1(&toks) {
            Some(chan) => Event::Start { chan },
            None => Event::Unknown,
        }
    } else if token_eq(t0, &v_stop) {
        match get_arg1(&toks) {
            Some(chan) => Event::Stop { chan },
            None => Event::Unknown,
        }
    } else if token_eq(t0, &v_list) {
        match get_arg1(&toks) {
            Some(chan) => Event::List { chan },
            None => Event::Unknown,
        }
    } else {
        Event::Unknown
    }
}

/// The single integer argument of a one-argument action, if present.
fn get_arg1(toks: &Vec<Vec<char>>) -> (r: Option<i64>)
    ensures
        (match r {
            Some(v) => r_views(toks@).len() >= 2 && tok_i64(r_views(toks@)[1]) == Some(v),
            None => !(r_views(toks@).len() >= 2 && tok_i64(r_views(toks@)[1]) is Some),
        }),
{
    if toks.len() < 2 {
        return None;
    }
    proof {
        assert(r_views(toks@)[1] == toks@[1]@);
    }
    token_i64(&toks[1])
}

/// The two integer arguments of a two-argument action, if present.
fn get_arg2(toks: &Vec<Vec<char>>) -> (r: Option<(i64, i64)>)
    ensures
        (match r {
            Some((a, b)) => r_views(toks@).len() >= 3 && tok_i64(r_views(toks@)[1]) == Some(a)
                && tok_i64(r_views(toks@)[2]) == Some(b),
            None => !(r_views(toks@).len() >= 3 && tok_i64(r_views(toks@)[1]) is Some && tok_i64(
                r_views(toks@)[2],
            ) is Some),
        }),
{
    if toks.len() < 3 {
        return None;
    }
    proof {
        assert(r_views(toks@)[1] == toks@[1]@);
        assert(r_views(toks@)[2] == toks@[2]@);
    }
    let a = token_i64(&toks[1]);
    let b = token_i64(&toks[2]);
    match (a, b) {
        (Some(a), Some(b)) => Some((a, b)),
        _ => None,
    }
}


// --- the accept-invitation flow ---

/// What the platform answered to a membership lookup, reduced to the three
/// cases the flow distinguishes.
#[derive(Debug, Clone, Copy, PartialEq, Eq, Structural)]
pub enum MembershipCheck {
    /// The user is in the channel (member, administrator, creator or
    /// restricted).
    Member,
    /// The user is not in the channel (left or kicked).
    NotMember,
    /// The platform answered with an error; distinguishable, and never a
    /// reason to credit.
    Error,
}

/// The first decision of the accept flow, before any waiting.
#[derive(Debug, Clone, Copy, PartialEq, Eq, Structural)]
pub enum PrecheckDecision {
    /// Already a member: inform and stop, no credit.
    AlreadyMember,
    /// The platform failed: report the failure and stop.
    ReportError,
    /// Not yet a member: prompt to join, wait the fixed window, re-check.
    PromptJoin,
}

/// Decides what to do with the first membership check of an accepted
/// invitation: members are told so, platform errors are surfaced, and only a
/// confirmed non-member is prompted to join within the window.
pub fn accept_on_precheck(m: MembershipCheck) -> (r: PrecheckDecision)
    ensures
        m == MembershipCheck::Member ==> r == PrecheckDecision::AlreadyMember,
        m == MembershipCheck::NotMember ==> r == PrecheckDecision::PromptJoin,
        m == MembershipCheck::Error ==> r == PrecheckDecision::ReportError,
{
    match m {
        MembershipCheck::Member => PrecheckDecision::AlreadyMember,
        MembershipCheck::NotMember => PrecheckDecision::PromptJoin,
        MembershipCheck::Error => PrecheckDecision::ReportError,
    }
}

/// How the accept flow ends after the delayed membership re-check.
#[derive(Debug, Clone, Copy, PartialEq, Eq, Structural)]
pub enum AcceptOutcome {
    /// The user did not join within the window; nothing is credited and no
    /// retry is scheduled.
    Timeout,
    /// The contest of the link does not exist.
    NoSuchContest,
    /// The contest is past its end; no credit.
    ContestOver,
    /// The referral was credited under this invitation id.
    Credited { invite: i64 },
    /// The store refused the credit, typically a duplicate.
    InsertFailed { reason: StoreError },
}

/// Everything the insert needs of the store.
pub open spec fn can_credit(s: StoreV, source: i64, dest: i64, chan: i64, contest: i64) -> bool {
    &&& has_user_id(s.users, source)
    &&& has_user_id(s.users, dest)
    &&& has_channel_id(s.channels, chan)
    &&& has_contest_id(s.contests, contest)
    &&& s.next_invite_id < i64::MAX
}

/// The end timestamp of the contest with this id.
pub open spec fn contest_end(contests: Seq<ContestV>, id: i64) -> i64 {
    contests[contest_index(contests, id)].end
}

/// The single delayed re-check of the accept flow: credits the referral only
/// when the user joined in time, the contest exists, and the contest has not
/// ended; never retries.
pub fn accept_on_recheck(
    store: &mut Store,
    source: i64,
    dest: i64,
    chan: i64,
    contest: i64,
    joined: bool,
    now: i64,
) -> (r: AcceptOutcome)
    requires
        old(store).wf(),
    ensures
        final(store).wf(),
        !joined ==> r == AcceptOutcome::Timeout && final(store)@ == old(store)@,
        joined && !has_contest_id(old(store)@.contests, contest) ==> r
            == AcceptOutcome::NoSuchContest && final(store)@ == old(store)@,
        joined && has_contest_id(old(store)@.contests, contest) && now > contest_end(
            old(store)@.contests,
            contest,
        ) ==> r == AcceptOutcome::ContestOver && final(store)@ == old(store)@,
        joined && has_contest_id(old(store)@.contests, contest) && now <= contest_end(
            old(store)@.contests,
            contest,
        ) ==> ({
            &&& source == dest ==> r == (AcceptOutcome::InsertFailed {
                reason: StoreError::SelfInvitation,
            }) && final(store)@ == old(store)@
            &&& source != dest && has_triple(old(store)@.invites, source, dest, chan) ==> r == (
            AcceptOutcome::InsertFailed { reason: StoreError::DuplicateInvitation }) && final(store)@ == old(store)@
            &&& source != dest && !has_triple(old(store)@.invites, source, dest, chan)
                && !can_credit(old(store)@, source, dest, chan, contest) ==> r == (
            AcceptOutcome::InsertFailed { reason: StoreError::Constraint }) && final(store)@ == old(store)@
            &&& source != dest && !has_triple(old(store)@.invites, source, dest, chan)
                && can_credit(old(store)@, source, dest, chan, contest) ==> r == (
            AcceptOutcome::Credited { invite: old(store)@.next_invite_id }) && final(store)@.invites
                == old(store)@.invites.push(
                (Invite {
                    id: old(store)@.next_invite_id,
                    date: now,
                    source: source,
                    dest: dest,
                    chan: chan,
                    contest: contest,
                }),
            ) && final(store)@.next_invite_id == old(store)@.next_invite_id + 1
                && same_except_invites(final(store)@, old(store)@)
        }),
{
    if !joined {
        return AcceptOutcome::Timeout;
    }
    let ghost pre = store@;
    let end: i64;
    match store.get_contest(contest) {
        None => {
            return AcceptOutcome::NoSuchContest;
        },
        Some(c) => {
            proof {
                let w = choose|w: int|
                    0 <= w < pre.contests.len() && pre.contests[w] == c@;
                assert(has_contest_id(pre.contests, contest));
                let j = contest_index(pre.contests, contest);
                assert(0 <= j < pre.contests.len() && pre.contests[j].id == contest);
                if j != w {
                    assert(pre.contests[j].id != pre.contests[w].id);
                }
                assert(contest_end(pre.contests, contest) == c@.end);
            }
            end = c.end;
        },
    }
    if now > end {
        return AcceptOutcome::ContestOver;
    }
    match store.insert_invitation(source, dest, chan, contest, now) {
        Ok(id) => AcceptOutcome::Credited { invite: id },
        Err(e) => AcceptOutcome::InsertFailed { reason: e },
    }
}

// --- stopping a contest: prune, stop, rank, pick the winner ---

/// The invitations that survive pruning: everything but this contest's rows
/// whose invited user is in the stale list.
pub open spec fn pruned(invs: Seq<Invite>, contest: i64, stale: Seq<i64>) -> Seq<Invite> {
    invs.filter(|v: Invite| !(v.contest == contest && stale.contains(v.dest)))
}

/// Filtering twice is filtering by the conjunction.
proof fn lemma_filter_filter<A>(
    s: Seq<A>,
    p: spec_fn(A) -> bool,
    q: spec_fn(A) -> bool,
    pq: spec_fn(A) -> bool,
)
    requires
        forall|x: A| #[trigger] pq(x) == (p(x) && q(x)),
    ensures
        s.filter(p).filter(q) == s.filter(pq),
    decreases s.len(),
{
    reveal(Seq::filter);
    if s.len() == 0 {
    } else {
        let t = s.drop_last();
        lemma_filter_filter(t, p, q, pq);
        if p(s.last()) {
            assert(s.filter(p) == t.filter(p).push(s.last()));
            assert(t.filter(p).push(s.last()).drop_last() =~= t.filter(p));
            if q(s.last()) {
                assert(s.filter(p).filter(q) == t.filter(p).filter(q).push(s.last()));
            } else {
                assert(s.filter(p).filter(q) == t.filter(p).filter(q));
            }
        } else {
            assert(s.filter(p) == t.filter(p));
        }
    }
}

/// A positive count names at least one surviving invitation of that inviter.
proof fn lemma_cnt_pos_witness(invs: Seq<Invite>, contest: i64, src: i64)
    requires
        cnt_src(invs, contest, src) > 0,
    ensures
        exists|j: int|
            0 <= j < invs.len() && (#[trigger] invs[j]).contest == contest && invs[j].source == src,
    decreases invs.len(),
{
    if invs.last().contest == contest && invs.last().source == src {
        assert(invs[invs.len() - 1].contest == contest && invs[invs.len() - 1].source == src);
    } else {
        lemma_cnt_pos_witness(invs.drop_last(), contest, src);
        let j = choose|j: int|
            0 <= j < invs.drop_last().len() && (#[trigger] invs.drop_last()[j]).contest == contest
                && invs.drop_last()[j].source == src;
        assert(invs[j].contest == contest && invs[j].source == src);
    }
}

/// How stopping a contest ends.
#[derive(Debug)]
pub enum StopOutcome {
    /// No contest with that id.
    NotFound,
    /// Already stopped: an idempotent no-op, reported as such.
    AlreadyStopped,
    /// Stopped, but nobody participated: nothing to announce.
    NoParticipants { contest: Contest },
    /// Stopped: the leaderboard to publish, and the winner; `direct` says the
    /// winner has a public handle, else a pending-contact row was recorded
    /// for the owner's one forwarded message.
    Finished { contest: Contest, ranking: Vec<Rank>, winner: User, direct: bool },
}

/// Finalizes a stop: prunes the invitations whose invited user left the
/// channel (`stale`), marks the contest stopped, computes the final ranking,
/// and decides how the owner reaches the winner.
#[verifier::loop_isolation(false)]
#[verifier::rlimit(100)]
pub fn finalize_stop(store: &mut Store, contest_id: i64, stale: &Vec<i64>, owner: i64) -> (r:
    StopOutcome)
    requires
        old(store).wf(),
        old(store)@.invites.len() <= i64::MAX,
    ensures
        final(store).wf(),
        !has_contest_id(old(store)@.contests, contest_id) ==> r is NotFound && final(store)@ == old(store)@,
        has_contest_id(old(store)@.contests, contest_id) && contest_is_stopped(
            old(store)@.contests,
            contest_id,
        ) ==> r is AlreadyStopped && final(store)@ == old(store)@,
        has_contest_id(old(store)@.contests, contest_id) && !contest_is_stopped(
            old(store)@.contests,
            contest_id,
        ) ==> ({
            let j = contest_index(old(store)@.contests, contest_id);
            let cv = (ContestV { stopped: true, ..old(store)@.contests[j] });
            let survivors = pruned(old(store)@.invites, contest_id, stale@);
            &&& final(store)@.invites == survivors
            &&& final(store)@.contests == old(store)@.contests.update(j, cv)
            &&& final(store)@.users == old(store)@.users
            &&& final(store)@.channels == old(store)@.channels
            &&& final(store)@.pending_edits == old(store)@.pending_edits
            &&& final(store)@.next_contest_id == old(store)@.next_contest_id
            &&& final(store)@.next_invite_id == old(store)@.next_invite_id
            &&& final(store)@.next_edit_id == old(store)@.next_edit_id
            &&& (match r {
                StopOutcome::NoParticipants { contest } => contest@ == cv && participants(
                    survivors,
                    contest_id,
                ).len() == 0 && final(store)@.pending_contacts == old(store)@.pending_contacts
                    && final(store)@.next_contact_id == old(store)@.next_contact_id,
                StopOutcome::Finished { contest, ranking, winner, direct } => {
                    &&& contest@ == cv
                    &&& ranking_ok(survivors, contest_id, ranking@)
                    &&& ranking@.len() > 0
                    &&& winner@.id == ranking@[0].user
                    &&& final(store)@.users.contains(winner@)
                    &&& direct == (winner@.username is Some)
                    &&& (direct ==> final(store)@.pending_contacts == old(store)@.pending_contacts && final(store)@.next_contact_id == old(store)@.next_contact_id)
                    &&& (!direct && has_user_id(old(store)@.users, owner) && old(store)@.next_contact_id < i64::MAX ==> final(store)@.pending_contacts == old(store)@.pending_contacts.push(
                        (PendingContact {
                            id: old(store)@.next_contact_id,
                            user: winner@.id,
                            owner: owner,
                            contacted: false,
                        }),
                    ) && final(store)@.next_contact_id == old(store)@.next_contact_id + 1)
                    &&& (!direct && !(has_user_id(old(store)@.users, owner) && old(store)@.next_contact_id < i64::MAX) ==> final(store)@.pending_contacts == old(store)@.pending_contacts && final(store)@.next_contact_id == old(store)@.next_contact_id)
                },
                _ => false,
            })
        }),
{
    let ghost pre = store@;
    match store.get_contest(contest_id) {
        None => {
            return StopOutcome::NotFound;
        },
        Some(c) => {
            proof {
                let w = choose|w: int|
                    0 <= w < pre.contests.len() && pre.contests[w] == c@;
                assert(has_contest_id(pre.contests, contest_id));
            }
            if c.stopped {
                proof {
                    let w = choose|w: int|
                        0 <= w < pre.contests.len() && pre.contests[w] == c@;
                    assert(contest_is_stopped(pre.contests, contest_id));
                }
                return StopOutcome::AlreadyStopped;
            }
            proof {
                let w = choose|w: int|
                    0 <= w < pre.contests.len() && pre.contests[w] == c@;
                assert forall|j: int|
                    0 <= j < pre.contests.len() && (#[trigger] pre.contests[j]).id
                        == contest_id implies !pre.contests[j].stopped by {
                    if j != w {
                        assert(pre.contests[j].id != pre.contests[w].id);
                    }
                }
                assert(!contest_is_stopped(pre.contests, contest_id));
            }
        },
    }
    // prune invitations of users that left the channel
    let mut k: usize = 0;
    proof {
        let p0 = |v: Invite| !(v.contest == contest_id && stale@.take(0).contains(v.dest));
        assert forall|v: Invite| #[trigger] p0(v) == true by {
            assert(stale@.take(0) =~= Seq::<i64>::empty());
            if stale@.take(0).contains(v.dest) {
                let q = choose|q: int| 0 <= q < 0 && #[trigger] stale@.take(0)[q] == v.dest;
            }
        }
        crate::store::lemma_filter_all(pre.invites, p0);
        assert(store@.invites == pruned(pre.invites, contest_id, stale@.take(0)));
    }
    while k < stale.len()
        invariant
            0 <= k <= stale@.len(),
            store.wf(),
            store@.invites == pruned(pre.invites, contest_id, stale@.take(k as int)),
            store@.users == pre.users,
            store@.channels == pre.channels,
            store@.contests == pre.contests,
            store@.pending_edits == pre.pending_edits,
            store@.pending_contacts == pre.pending_contacts,
            store@.next_contest_id == pre.next_contest_id,
            store@.next_invite_id == pre.next_invite_id,
            store@.next_edit_id == pre.next_edit_id,
            store@.next_contact_id == pre.next_contact_id,
        decreases stale@.len() - k,
    {
        let ghost cur = store@.invites;
        let d = stale[k];
        store.delete_invitation(d, contest_id);
        proof {
            let pk = |v: Invite| !(v.contest == contest_id && stale@.take(k as int).contains(
                v.dest,
            ));
            let dq = |v: Invite| !(v.dest == d && v.contest == contest_id);
            let pk1 = |v: Invite| !(v.contest == contest_id && stale@.take(k + 1).contains(v.dest));
            assert forall|v: Invite| #[trigger] pk1(v) == (pk(v) && dq(v)) by {
                assert(stale@.take(k + 1) =~= stale@.take(k as int).push(d));
                if stale@.take(k + 1).contains(v.dest) {
                    let q = choose|q: int| 0 <= q < k + 1 && #[trigger] stale@.take(k + 1)[q] == v.dest;
                    if q < k {
                        assert(stale@.take(k as int)[q] == v.dest);
                    }
                }
                if stale@.take(k as int).contains(v.dest) {
                    let q = choose|q: int| 0 <= q < k && #[trigger] stale@.take(k as int)[q] == v.dest;
                    assert(stale@.take(k + 1)[q] == v.dest);
                }
                if v.dest == d {
                    assert(stale@.take(k + 1)[k as int] == v.dest);
                }
            }
            lemma_filter_filter(pre.invites, pk, dq, pk1);
        }
        k += 1;
    }
    proof {
        assert(stale@.take(stale@.len() as int) =~= stale@);
    }
    let ghost survivors = pruned(pre.invites, contest_id, stale@);
    // stop the contest
    let stopped = store.stop_contest(contest_id);
    let c2 = match stopped {
        Ok(c2) => c2,
        Err(_) => {
            proof {
                assert(false);
            }
            return StopOutcome::NotFound;
        },
    };
    // final ranking over the surviving invitations
    proof {
        pre.invites.lemma_filter_len(
            |v: Invite| !(v.contest == contest_id && stale@.contains(v.dest)),
        );
        lemma_participants(survivors, contest_id);
    }
    let ranking = contest_ranking(&store.invites, contest_id);
    if ranking.len() == 0 {
        proof {
            assert(participants(survivors, contest_id).len() == 0);
        }
        return StopOutcome::NoParticipants { contest: c2 };
    }
    let winner_id = ranking[0].user;
    proof {
        assert(participants(survivors, contest_id).contains(winner_id));
        assert(cnt_src(survivors, contest_id, winner_id) > 0);
        lemma_cnt_pos_witness(survivors, contest_id, winner_id);
        let j = choose|j: int|
            0 <= j < survivors.len() && (#[trigger] survivors[j]).contest == contest_id
                && survivors[j].source == winner_id;
        assert(has_user_id(store@.users, winner_id));
    }
    let winner = match store.get_user(winner_id) {
        Some(u) => u.duplicate(),
        None => {
            proof {
                assert(false);
            }
            return StopOutcome::NotFound;
        },
    };
    let direct = winner.username.is_some();
    proof {
        assert(direct == (winner@.username is Some));
    }
    if !direct {
        let _ = store.create_pending_contact(winner_id, owner);
    }
    StopOutcome::Finished { contest: c2, ranking: ranking, winner: winner, direct: direct }
}


// --- free-text messages: contest submissions and winner forwarding ---

/// What to do with a free-text message.
#[derive(Debug)]
pub enum MessageOutcome {
    /// A slash command: routed elsewhere, nothing decided here.
    CommandPassthrough,
    /// The sender owns no channel: free text from non-owners is ignored.
    NotOwner,
    /// Three lines, but no channel of the sender is awaiting contest data.
    NoPendingChannel,
    /// A contest was created from the message, in draft state.
    Created { contest: i64, chan: Channel },
    /// The message did not parse as contest data; the pending marker stays,
    /// so the owner can retry.
    CreateRejected { reason: crate::contests::Error, chan: Channel },
    /// The parsed contest was refused by the store (duplicate name).
    CreateFailed { reason: StoreError, chan: Channel },
    /// Forward this text, verbatim, to the winner; mark the contact done
    /// with [`Store::mark_winner_contacted`] once it was delivered.
    ForwardToWinner { winner: User },
    /// Nothing was expected from this owner: silently dropped.
    Dropped,
}

/// A `latest_edit_chan` hit names a channel the owner registered.
proof fn lemma_latest_edit_owned(
    edits: Seq<PendingEdit>,
    channels: Seq<crate::types::ChannelV>,
    owner: i64,
)
    ensures
        latest_edit_chan(edits, channels, owner) matches Some(ch) ==> channel_owned_by(
            channels,
            ch,
            owner,
        ),
    decreases edits.len(),
{
    if edits.len() > 0 && !channel_owned_by(channels, edits.last().chan, owner) {
        lemma_latest_edit_owned(edits.drop_last(), channels, owner);
    }
}

/// A `latest_winner` hit names a recorded, not yet contacted winner row.
proof fn lemma_latest_winner_row(contacts: Seq<PendingContact>, owner: i64)
    ensures
        latest_winner(contacts, owner) matches Some(u) ==> exists|j: int|
            0 <= j < contacts.len() && (#[trigger] contacts[j]).user == u && contacts[j].owner
                == owner && !contacts[j].contacted,
    decreases contacts.len(),
{
    if contacts.len() > 0 {
        if contacts.last().owner == owner && !contacts.last().contacted {
            assert(contacts[contacts.len() - 1].user == contacts.last().user);
        } else {
            lemma_latest_winner_row(contacts.drop_last(), owner);
            match latest_winner(contacts, owner) {
                Some(u) => {
                    let j = choose|j: int|
                        0 <= j < contacts.drop_last().len() && (
                        #[trigger] contacts.drop_last()[j]).user == u
                            && contacts.drop_last()[j].owner == owner
                            && !contacts.drop_last()[j].contacted;
                    assert(contacts[j].user == u && contacts[j].owner == owner
                        && !contacts[j].contacted);
                },
                None => {},
            }
        }
    }
}

/// Routes a free-text message: only channel owners are listened to; a
/// three-line message is a contest submission against the most recent
/// pending-edit channel; anything else may be the one message forwarded to a
/// pending winner, and is otherwise dropped.
#[verifier::loop_isolation(false)]
#[verifier::rlimit(100)]
pub fn handle_free_text(store: &mut Store, sender: i64, text: &str, now: i64) -> (r: MessageOutcome)
    requires
        old(store).wf(),
    ensures
        final(store).wf(),
        text@.len() > 0 && text@[0] == '/' ==> r is CommandPassthrough && final(store)@ == old(store)@,
        !(text@.len() > 0 && text@[0] == '/') && !is_owner_of_some(old(store)@.channels, sender)
            ==> r is NotOwner && final(store)@ == old(store)@,
        !(text@.len() > 0 && text@[0] == '/') && is_owner_of_some(old(store)@.channels, sender)
            && content_rows(text@).len() == 3 ==> ({
            match latest_edit_chan(old(store)@.pending_edits, old(store)@.channels, sender) {
                None => r is NoPendingChannel && final(store)@ == old(store)@,
                Some(chid) => {
                    match spec_from_text(text@, chid, now) {
                        Err(e) => (r matches MessageOutcome::CreateRejected { reason, chan } &&
                            reason == e && chan@.id == chid) && final(store)@ == old(store)@,
                        Ok(cv) => {
                            &&& (has_contest_named(old(store)@.contests, cv.name, chid) || old(store)@.next_contest_id == i64::MAX) ==> (r matches
                                MessageOutcome::CreateFailed { reason, chan } && reason
                                == StoreError::Constraint && chan@.id == chid) && final(store)@
                                == old(store)@
                            &&& !(has_contest_named(old(store)@.contests, cv.name, chid) || old(store)@.next_contest_id == i64::MAX) ==> (r matches
                                MessageOutcome::Created { contest, chan } && contest == old(store)@.next_contest_id && chan@.id == chid) && final(store)@.contests
                                == old(store)@.contests.push(
                                (ContestV {
                                    id: old(store)@.next_contest_id,
                                    name: cv.name,
                                    prize: cv.prize,
                                    end: cv.end,
                                    started_at: None,
                                    stopped: false,
                                    chan: chid,
                                }),
                            ) && final(store)@.next_contest_id == old(store)@.next_contest_id + 1
                                && same_except_contests(final(store)@, old(store)@)
                        },
                    }
                },
            }
        }),
        !(text@.len() > 0 && text@[0] == '/') && is_owner_of_some(old(store)@.channels, sender)
            && content_rows(text@).len() != 3 ==> final(store)@ == old(store)@ && (match
            latest_winner(old(store)@.pending_contacts, sender) {
            None => r is Dropped,
            Some(uid) => r matches MessageOutcome::ForwardToWinner { winner } && winner@.id == uid
                && old(store)@.users.contains(winner@),
        }),
{
    let ghost pre = store@;
    let chars = chars_of(text);
    if chars.len() > 0 && chars[0] == '/' {
        proof {
            assert(text@[0] == '/');
        }
        return MessageOutcome::CommandPassthrough;
    }
    proof {
        if text@.len() > 0 {
            assert(chars@[0] == text@[0]);
        }
    }
    if !store.registered_some_channel(sender) {
        return MessageOutcome::NotOwner;
    }
    // count the content lines the way the parser will
    let lines = crate::text::split_on_char(&chars, '\n');
    let ghost all_rows = crate::text::split_ch(text@, '\n');
    proof {
        assert(r_views(lines@) == all_rows);
        assert(all_rows.skip(0) =~= all_rows);
    }
    let mut z: usize = 0;
    while z < lines.len() && lines[z].len() == 0
        invariant
            0 <= z <= lines@.len(),
            crate::contests::drop_leading_empty(all_rows) == crate::contests::drop_leading_empty(
                all_rows.skip(z as int),
            ),
        decreases lines@.len() - z,
    {
        proof {
            let cur = all_rows.skip(z as int);
            assert(cur[0] == lines@[z as int]@);
            assert(cur.drop_first() =~= all_rows.skip(z as int + 1));
        }
        z += 1;
    }
    proof {
        let cur = all_rows.skip(z as int);
        if z < lines@.len() {
            assert(cur[0] == lines@[z as int]@);
            assert(cur[0].len() > 0);
        }
        assert(crate::contests::drop_leading_empty(cur) == cur);
        assert(content_rows(text@) == all_rows.skip(z as int));
    }
    if lines.len() - z == 3 {
        // a contest submission, if some channel of the sender awaits one
        let chan_id = match store.latest_pending_edit(sender) {
            None => {
                return MessageOutcome::NoPendingChannel;
            },
            Some(chid) => chid,
        };
        proof {
            lemma_latest_edit_owned(pre.pending_edits, pre.channels, sender);
            assert(channel_owned_by(pre.channels, chan_id, sender));
            let j = choose|j: int|
                0 <= j < pre.channels.len() && (#[trigger] pre.channels[j]).id == chan_id
                    && pre.channels[j].registered_by == sender;
            assert(has_channel_id(pre.channels, chan_id));
        }
        let chan = match store.get_channel(chan_id) {
            Some(c) => c.duplicate(),
            None => {
                proof {
                    assert(false);
                }
                return MessageOutcome::Dropped;
            },
        };
        match from_text(text, chan_id, now) {
            Err(e) => MessageOutcome::CreateRejected { reason: e, chan: chan },
            Ok(c) => {
                let ghost cv = match spec_from_text(text@, chan_id, now) {
                    Ok(cv) => cv,
                    Err(_) => c@,
                };
                proof {
                    assert(c@ == cv);
                    assert(c.name@ == cv.name);
                    assert(c.prize@ == cv.prize);
                    assert(c.end == cv.end);
                }
                match store.create_contest(c.name, c.prize, c.end, chan_id) {
                    Ok(id) => {
                        proof {
                            assert(!(has_contest_named(pre.contests, cv.name, chan_id)
                                || pre.next_contest_id == i64::MAX));
                        }
                        MessageOutcome::Created { contest: id, chan: chan }
                    },
                    Err(e) => {
                        proof {
                            assert(e == StoreError::Constraint);
                            assert(has_contest_named(pre.contests, cv.name, chan_id)
                                || pre.next_contest_id == i64::MAX);
                        }
                        MessageOutcome::CreateFailed { reason: e, chan: chan }
                    },
                }
            },
        }
    } else {
        // maybe the one free-text message owed to a winner
        match store.latest_uncontacted_winner(sender) {
            None => MessageOutcome::Dropped,
            Some(uid) => {
                proof {
                    lemma_latest_winner_row(pre.pending_contacts, sender);
                    let j = choose|j: int|
                        0 <= j < pre.pending_contacts.len() && (
                        #[trigger] pre.pending_contacts[j]).user == uid
                            && pre.pending_contacts[j].owner == sender
                            && !pre.pending_contacts[j].contacted;
                    assert(has_user_id(pre.users, uid));
                }
                match store.get_user(uid) {
                    Some(u) => MessageOutcome::ForwardToWinner { winner: u.duplicate() },
                    None => {
                        proof {
                            assert(false);
                        }
                        MessageOutcome::Dropped
                    },
                }
            },
        }
    }
}

// --- the /start deep link ---

/// What to do with a `/start` message.
#[derive(Debug)]
pub enum StartOutcome {
    /// No parameter: greet (registration of groups is a separate flow).
    Hello,
    /// The parameter is not a valid referral token.
    DecodeFailed { reason: DecodeError },
    /// Neither the inviting user nor the channel is known.
    BadLink,
    /// A personal invitation: offer accept and reject buttons carrying
    /// `(inviter, sender, channel, contest)`.
    Invite { inviter: User, channel: Channel, contest: Contest },
    /// The channel's own announcement link: mint the sender's personal
    /// referral token for the same channel and contest.
    MintLink { token: String, channel: Channel, contest: Contest },
    /// A token with any other combination of fields: nothing to do.
    NoAction,
}

/// A token field is supplied when present and not the `-1` sentinel.
pub open spec fn supplied(v: Option<i64>) -> bool {
    v matches Some(x) && x != -1
}

fn supplied_exec(v: Option<i64>) -> (r: bool)
    ensures
        r == supplied(v),
{
    match v {
        Some(x) => x != -1,
        None => false,
    }
}

/// Handles `/start`, recording the sender as a known user, and decides among
/// the three meanings of the optional payload: a personal invitation, the
/// channel's own link (mint a personal one), or nothing actionable.
#[verifier::rlimit(100)]
pub fn handle_start_link(store: &mut Store, sender: &User, arg: Option<&str>) -> (r: StartOutcome)
    requires
        old(store).wf(),
    ensures
        final(store).wf(),
        // the sender is recorded exactly as ensure_user does
        has_user_id(old(store)@.users, sender.id) ==> final(store)@ == old(store)@,
        !has_user_id(old(store)@.users, sender.id) ==> final(store)@.users == old(store)@.users.push(sender@) && crate::store::same_except_users(final(store)@, old(store)@),
        (match arg {
            None => r is Hello,
            Some(tok) => {
                match b64_decode_of(tok@) {
                    None => r == (StartOutcome::DecodeFailed { reason: DecodeError::Base64 }),
                    Some(bs) => {
                        match spec_parse_qs(bs) {
                            None => r == (StartOutcome::DecodeFailed {
                                reason: DecodeError::Query,
                            }),
                            Some(p) => {
                                let u_found = supplied(p.source) && has_user_id(
                                    final(store)@.users,
                                    p.source.unwrap(),
                                );
                                let c_found = supplied(p.chan) && has_channel_id(
                                    old(store)@.channels,
                                    p.chan.unwrap(),
                                );
                                let t_found = supplied(p.contest) && has_contest_id(
                                    old(store)@.contests,
                                    p.contest.unwrap(),
                                );
                                &&& !u_found && !c_found ==> r is BadLink
                                &&& u_found && c_found && t_found ==> (r matches
                                    StartOutcome::Invite { inviter, channel, contest } && final(store)@.users.contains(inviter@) && inviter@.id == p.source.unwrap()
                                    && channel@.id == p.chan.unwrap() && contest@.id
                                    == p.contest.unwrap())
                                &&& !u_found && c_found && t_found ==> (r matches
                                    StartOutcome::MintLink { token, channel, contest } && token@
                                    == b64_of(
                                    qs_of(
                                        (TokenPayload {
                                            source: Some(sender.id),
                                            chan: p.chan,
                                            contest: p.contest,
                                        }),
                                    ),
                                ) && channel@.id == p.chan.unwrap() && contest@.id
                                    == p.contest.unwrap())
                                &&& u_found && !c_found ==> r is NoAction
                                &&& c_found && !t_found ==> r is NoAction
                            },
                        }
                    },
                }
            },
        }),
{
    store.ensure_user(sender.duplicate());
    let tok = match arg {
        None => {
            return StartOutcome::Hello;
        },
        Some(t) => t,
    };
    let payload = match decode_token(tok) {
        Err(e) => {
            return StartOutcome::DecodeFailed { reason: e };
        },
        Ok(p) => p,
    };
    let inviter_entity: Option<User> = if supplied_exec(payload.source) {
        match store.get_user(payload.source.unwrap()) {
            Some(u) => Some(u.duplicate()),
            None => None,
        }
    } else {
        None
    };
    let channel_entity: Option<Channel> = if supplied_exec(payload.chan) {
        match store.get_channel(payload.chan.unwrap()) {
            Some(c) => Some(c.duplicate()),
            None => None,
        }
    } else {
        None
    };
    let contest_entity: Option<Contest> = if supplied_exec(payload.contest) {
        match store.get_contest(payload.contest.unwrap()) {
            Some(c) => Some(c.duplicate()),
            None => None,
        }
    } else {
        None
    };
    proof {
        match &inviter_entity {
            Some(u) => {
                let w = choose|w: int|
                    0 <= w < store@.users.len() && store@.users[w] == u@;
                assert(has_user_id(store@.users, u@.id));
            },
            None => {},
        }
        match &channel_entity {
            Some(c) => {
                let w = choose|w: int|
                    0 <= w < store@.channels.len() && store@.channels[w] == c@;
                assert(has_channel_id(store@.channels, c@.id));
            },
            None => {},
        }
        match &contest_entity {
            Some(c) => {
                let w = choose|w: int|
                    0 <= w < store@.contests.len() && store@.contests[w] == c@;
                assert(has_contest_id(store@.contests, c@.id));
            },
            None => {},
        }
    }
    match (inviter_entity, channel_entity, contest_entity) {
        (None, None, _) => StartOutcome::BadLink,
        (Some(u), Some(ch), Some(ct)) => StartOutcome::Invite {
            inviter: u,
            channel: ch,
            contest: ct,
        },
        (None, Some(ch), Some(ct)) => {
            let p2 = TokenPayload {
                source: Some(sender.id),
                chan: payload.chan,
                contest: payload.contest,
            };
            let token = encode_token(&p2);
            StartOutcome::MintLink { token: token, channel: ch, contest: ct }
        },
        _ => StartOutcome::NoAction,
    }
}


// --- the callback entry point ---

/// The reply the callback entry point decided on; the caller renders and
/// sends it.
#[derive(Debug)]
pub enum CallbackReply {
    /// Unrecognized or malformed: acknowledge so the pending indicator
    /// clears, otherwise ignore.
    Ack,
    /// A rejected invitation: acknowledge and do nothing.
    RejectAck,
    /// The channel of the event is unknown: nothing to do.
    Ignore,
    /// Show the root menu.
    ShowMain,
    /// Show the management menu of the channel.
    ShowManage { chan: Channel },
    /// Instructions for the free-text contest format; the next three-line
    /// message of this owner will be parsed as contest data.
    CreateInstructions { chan: Channel },
    /// No draft contest to start.
    NothingToStart,
    /// Offer these draft contests to start.
    SelectStart { contests: Vec<Contest> },
    /// No running contest to stop.
    NothingToStop,
    /// Offer these running contests to stop.
    SelectStop { contests: Vec<Contest> },
    /// No contest to delete.
    NothingToDelete,
    /// Offer every contest of the channel for deletion.
    SelectDelete { contests: Vec<Contest> },
    /// No contests at all: an alert instead of an empty table.
    NoContests,
    /// The channel's contests with their participant counts.
    ContestList { rows: Vec<(Contest, usize)> },
    /// A started contest cannot be started again.
    CantStartStarted,
    /// The named contest does not exist.
    ContestNotFound,
    /// The contest started: publish and pin this announcement, whose
    /// referral token carries the channel and contest.
    Announce { contest: Contest, token: String },
    /// The contest was deleted.
    DeleteDone,
    /// The contest still has participants and cannot be deleted.
    DeleteRefused,
    /// The contest was already stopped: an idempotent no-op.
    AlreadyStoppedReply,
    /// Stopping may proceed: verify that each of these invited users is
    /// still a member, then call [`finalize_stop`] with the ones that left.
    StopNeedsCheck { contest: Contest, dests: Vec<i64> },
    /// An accepted invitation: check membership, prompt, wait the window,
    /// re-check, then call [`accept_on_recheck`].
    AwaitJoin { source: i64, dest: i64, channel: Channel, contest: i64 },
}

/// The draft contests of a channel.
pub open spec fn drafts_of(s: StoreV, chan: i64) -> Seq<ContestV> {
    s.contests.filter(|c: ContestV| c.chan == chan && c.started_at is None)
}

/// The running contests of a channel.
pub open spec fn actives_of(s: StoreV, chan: i64) -> Seq<ContestV> {
    s.contests.filter(|c: ContestV| c.chan == chan && c.started_at is Some && !c.stopped)
}

/// All contests of a channel.
pub open spec fn of_chan(s: StoreV, chan: i64) -> Seq<ContestV> {
    s.contests.filter(|c: ContestV| c.chan == chan)
}

pub open spec fn contest_views(v: Seq<Contest>) -> Seq<ContestV> {
    v.map_values(|c: Contest| c@)
}

/// The single callback entry point: decodes nothing itself (see
/// [`parse_event`]), re-reads the store, and decides the reply and the store
/// mutation for every action of the closed event set.
#[verifier::loop_isolation(false)]
#[verifier::rlimit(100)]
pub fn handle_callback(store: &mut Store, ev: Event, now: i64) -> (r: CallbackReply)
    requires
        old(store).wf(),
    ensures
        final(store).wf(),
        (match ev {
            Event::Unknown => r is Ack && final(store)@ == old(store)@,
            Event::Reject => r is RejectAck && final(store)@ == old(store)@,
            Event::Main { chan } => r is ShowMain && final(store)@ == old(store)@,
            Event::Accept { source, dest, chan, contest } => final(store)@ == old(store)@ && (if
                !has_channel_id(old(store)@.channels, chan) {
                r is Ignore
            } else {
                r matches CallbackReply::AwaitJoin { source: s2, dest: d2, channel, contest: c2 }
                    && s2 == source && d2 == dest && channel@.id == chan && c2 == contest
            }),
            Event::Manage { chan } => final(store)@ == old(store)@ && (if !has_channel_id(
                old(store)@.channels,
                chan,
            ) {
                r is Ignore
            } else {
                r matches CallbackReply::ShowManage { chan: e } && e@.id == chan
            }),
            Event::Create { chan } => (if !has_channel_id(old(store)@.channels, chan) {
                r is Ignore && final(store)@ == old(store)@
            } else {
                &&& r matches CallbackReply::CreateInstructions { chan: e } && e@.id == chan
                &&& old(store)@.next_edit_id < i64::MAX ==> final(store)@.pending_edits == old(
                    store,
                )@.pending_edits.push(
                    (PendingEdit { id: old(store)@.next_edit_id, chan: chan }),
                ) && final(store)@.next_edit_id == old(store)@.next_edit_id + 1
                    && same_except_edits(final(store)@, old(store)@)
                &&& old(store)@.next_edit_id == i64::MAX ==> final(store)@ == old(store)@
            }),
            Event::Start { chan } => final(store)@ == old(store)@ && (if !has_channel_id(
                old(store)@.channels,
                chan,
            ) {
                r is Ignore
            } else if drafts_of(old(store)@, chan).len() == 0 {
                r is NothingToStart
            } else {
                r matches CallbackReply::SelectStart { contests } && contest_views(contests@)
                    == drafts_of(old(store)@, chan)
            }),
            Event::Stop { chan } => final(store)@ == old(store)@ && (if !has_channel_id(
                old(store)@.channels,
                chan,
            ) {
                r is Ignore
            } else if actives_of(old(store)@, chan).len() == 0 {
                r is NothingToStop
            } else {
                r matches CallbackReply::SelectStop { contests } && contest_views(contests@)
                    == actives_of(old(store)@, chan)
            }),
            Event::Delete { chan } => final(store)@ == old(store)@ && (if !has_channel_id(
                old(store)@.channels,
                chan,
            ) {
                r is Ignore
            } else if of_chan(old(store)@, chan).len() == 0 {
                r is NothingToDelete
            } else {
                r matches CallbackReply::SelectDelete { contests } && contest_views(contests@)
                    == of_chan(old(store)@, chan)
            }),
            Event::List { chan } => final(store)@ == old(store)@ && (if !has_channel_id(
                old(store)@.channels,
                chan,
            ) {
                r is Ignore
            } else if of_chan(old(store)@, chan).len() == 0 {
                r is NoContests
            } else {
                r matches CallbackReply::ContestList { rows } && rows@.len() == of_chan(
                    old(store)@,
                    chan,
                ).len() && (forall|i: int|
                    0 <= i < rows@.len() ==> ((#[trigger] rows@[i]).0@ == of_chan(
                        old(store)@,
                        chan,
                    )[i] && rows@[i].1 == old(store)@.invites.filter(
                        |v: Invite| v.contest == of_chan(old(store)@, chan)[i].id,
                    ).len()))
            }),
            Event::StartContest { chan, contest } => (if !has_channel_id(
                old(store)@.channels,
                chan,
            ) {
                r is Ignore && final(store)@ == old(store)@
            } else if !has_contest_id(old(store)@.contests, contest) {
                r is ContestNotFound && final(store)@ == old(store)@
            } else if crate::store::contest_is_started(old(store)@.contests, contest) {
                r is CantStartStarted && final(store)@ == old(store)@
            } else {
                let j = contest_index(old(store)@.contests, contest);
                let cv = (ContestV { started_at: Some(now), ..old(store)@.contests[j] });
                &&& final(store)@.contests == old(store)@.contests.update(j, cv)
                &&& final(store)@.next_contest_id == old(store)@.next_contest_id
                &&& same_except_contests(final(store)@, old(store)@)
                &&& r matches CallbackReply::Announce { contest: e, token } && e@ == cv && token@
                    == b64_of(
                    qs_of(
                        (TokenPayload { source: None, chan: Some(chan), contest: Some(contest) }),
                    ),
                )
            }),
            Event::DeleteContest { chan, contest } => (if !has_channel_id(
                old(store)@.channels,
                chan,
            ) {
                r is Ignore && final(store)@ == old(store)@
            } else if crate::store::contest_has_invites(old(store)@.invites, contest) {
                r is DeleteRefused && final(store)@ == old(store)@
            } else {
                r is DeleteDone && final(store)@.contests == old(store)@.contests.filter(
                    |c: ContestV| c.id != contest,
                ) && final(store)@.next_contest_id == old(store)@.next_contest_id
                    && same_except_contests(final(store)@, old(store)@)
            }),
            Event::StopContest { chan, contest } => final(store)@ == old(store)@ && (if
                !has_channel_id(old(store)@.channels, chan) {
                r is Ignore
            } else if !has_contest_id(old(store)@.contests, contest) {
                r is ContestNotFound
            } else if contest_is_stopped(old(store)@.contests, contest) {
                r is AlreadyStoppedReply
            } else {
                r matches CallbackReply::StopNeedsCheck { contest: e, dests } && e@.id == contest
                    && dests@ == old(store)@.invites.filter(
                    |v: Invite| v.contest == contest,
                ).map_values(|v: Invite| v.dest)
            }),
        }),
{
    let ghost pre = store@;
    match ev {
        Event::Unknown => CallbackReply::Ack,
        Event::Reject => CallbackReply::RejectAck,
        Event::Main { chan: _ } => CallbackReply::ShowMain,
        Event::Accept { source, dest, chan, contest } => {
            match store.get_channel(chan) {
                None => CallbackReply::Ignore,
                Some(c) => {
                    proof {
                        let w = choose|w: int|
                            0 <= w < pre.channels.len() && pre.channels[w] == c@;
                        assert(has_channel_id(pre.channels, chan));
                    }
                    CallbackReply::AwaitJoin {
                        source: source,
                        dest: dest,
                        channel: c.duplicate(),
                        contest: contest,
                    }
                },
            }
        },
        Event::Manage { chan } => {
            match store.get_channel(chan) {
                None => CallbackReply::Ignore,
                Some(c) => {
                    proof {
                        let w = choose|w: int|
                            0 <= w < pre.channels.len() && pre.channels[w] == c@;
                        assert(has_channel_id(pre.channels, chan));
                    }
                    CallbackReply::ShowManage { chan: c.duplicate() }
                },
            }
        },
        Event::Create { chan } => {
            let entity = match store.get_channel(chan) {
                None => {
                    return CallbackReply::Ignore;
                },
                Some(c) => c.duplicate(),
            };
            proof {
                let w = choose|w: int|
                    0 <= w < pre.channels.len() && pre.channels[w] == entity@;
                assert(has_channel_id(pre.channels, chan));
            }
            let _ = store.upsert_pending_edit(chan);
            CallbackReply::CreateInstructions { chan: entity }
        },
        Event::Start { chan } => {
            if store.get_channel(chan).is_none() {
                return CallbackReply::Ignore;
            }
            proof {
                assert(has_channel_id(pre.channels, chan)) by {
                    if !has_channel_id(pre.channels, chan) {
                        assert(false);
                    }
                }
            }
            let contests = store.list_contests_to_start(chan);
            if contests.len() == 0 {
                proof {
                    assert(drafts_of(pre, chan).len() == 0);
                }
                CallbackReply::NothingToStart
            } else {
                CallbackReply::SelectStart { contests: contests }
            }
        },
        Event::Stop { chan } => {
            if store.get_channel(chan).is_none() {
                return CallbackReply::Ignore;
            }
            let contests = store.list_contests_to_stop(chan);
            if contests.len() == 0 {
                CallbackReply::NothingToStop
            } else {
                CallbackReply::SelectStop { contests: contests }
            }
        },
        Event::Delete { chan } => {
            if store.get_channel(chan).is_none() {
                return CallbackReply::Ignore;
            }
            let contests = store.list_contests(chan);
            if contests.len() == 0 {
                CallbackReply::NothingToDelete
            } else {
                CallbackReply::SelectDelete { contests: contests }
            }
        },
        Event::List { chan } => {
            if store.get_channel(chan).is_none() {
                return CallbackReply::Ignore;
            }
            let contests = store.list_contests(chan);
            if contests.len() == 0 {
                CallbackReply::NoContests
            } else {
                let ghost cl = of_chan(pre, chan);
                let mut rows: Vec<(Contest, usize)> = Vec::new();
                let mut i: usize = 0;
                while i < contests.len()
                    invariant
                        0 <= i <= contests@.len(),
                        store@ == pre,
                        store.wf(),
                        contest_views(contests@) == cl,
                        rows@.len() == i,
                        forall|a: int|
                            0 <= a < i ==> ((#[trigger] rows@[a]).0@ == cl[a] && rows@[a].1
                                == pre.invites.filter(|v: Invite| v.contest == cl[a].id).len()),
                    decreases contests@.len() - i,
                {
                    proof {
                        assert(contests@[i as int]@ == cl[i as int]);
                    }
                    let c = contests[i].duplicate();
                    let n = store.count_users(c.id);
                    rows.push((c, n));
                    i += 1;
                }
                CallbackReply::ContestList { rows: rows }
            }
        },
        Event::StartContest { chan, contest } => {
            if store.get_channel(chan).is_none() {
                return CallbackReply::Ignore;
            }
            match store.start_contest(contest, now) {
                Err(StoreError::NotFound) => CallbackReply::ContestNotFound,
                Err(_) => CallbackReply::CantStartStarted,
                Ok(c) => {
                    let payload = TokenPayload {
                        source: None,
                        chan: Some(chan),
                        contest: Some(contest),
                    };
                    let token = encode_token(&payload);
                    CallbackReply::Announce { contest: c, token: token }
                },
            }
        },
        Event::DeleteContest { chan, contest } => {
            if store.get_channel(chan).is_none() {
                return CallbackReply::Ignore;
            }
            match store.delete_contest(contest) {
                Err(_) => CallbackReply::DeleteRefused,
                Ok(_) => CallbackReply::DeleteDone,
            }
        },
        Event::StopContest { chan, contest } => {
            if store.get_channel(chan).is_none() {
                return CallbackReply::Ignore;
            }
            let entity = match store.get_contest(contest) {
                None => {
                    return CallbackReply::ContestNotFound;
                },
                Some(c) => c.duplicate(),
            };
            proof {
                let w = choose|w: int|
                    0 <= w < pre.contests.len() && pre.contests[w] == entity@;
                assert(has_contest_id(pre.contests, contest));
            }
            if entity.stopped {
                proof {
                    let w = choose|w: int|
                        0 <= w < pre.contests.len() && pre.contests[w] == entity@;
                    assert(contest_is_stopped(pre.contests, contest));
                }
                return CallbackReply::AlreadyStoppedReply;
            }
            proof {
                let w = choose|w: int|
                    0 <= w < pre.contests.len() && pre.contests[w] == entity@;
                assert forall|j: int|
                    0 <= j < pre.contests.len() && (#[trigger] pre.contests[j]).id
                        == contest implies !pre.contests[j].stopped by {
                    if j != w {
                        assert(pre.contests[j].id != pre.contests[w].id);
                    }
                }
                assert(!contest_is_stopped(pre.contests, contest));
            }
            let dests = store.invited_dests(contest);
            CallbackReply::StopNeedsCheck { contest: entity, dests: dests }
        },
    }
}

} // verus!
