//! The contest store: users, channels, contests, invitations and the two
//! pending-operation tables, with the integrity rules the rest of the system
//! relies on (unique ids, unique `(source, dest, chan)` referral triples,
//! `source != dest`, foreign keys, and a contest's one-way lifecycle).
//!
//! Every operation states exactly when it succeeds and how the store changes;
//! the well-formedness predicate [`StoreV::wf`] is established by
//! [`Store::new`] and preserved by every operation.

use vstd::prelude::*;

use crate::ranking::{contest_ranking, my_ranks, ranking_ok};
use crate::types::{
    Channel, ChannelV, Contest, ContestV, Invite, PendingContact, PendingEdit, Rank, RankContest,
    User, UserV,
};

verus! {

/// The persistent state of the system.
#[derive(Debug)]
pub struct Store {
    pub users: Vec<User>,
    pub channels: Vec<Channel>,
    pub contests: Vec<Contest>,
    pub invites: Vec<Invite>,
    pub pending_edits: Vec<PendingEdit>,
    pub pending_contacts: Vec<PendingContact>,
    /// Next locally generated contest id.
    pub next_contest_id: i64,
    /// Next locally generated invitation id.
    pub next_invite_id: i64,
    /// Next locally generated pending-edit id.
    pub next_edit_id: i64,
    /// Next locally generated pending-contact id.
    pub next_contact_id: i64,
}

/// Mathematical view of a [`Store`].
pub struct StoreV {
    pub users: Seq<UserV>,
    pub channels: Seq<ChannelV>,
    pub contests: Seq<ContestV>,
    pub invites: Seq<Invite>,
    pub pending_edits: Seq<PendingEdit>,
    pub pending_contacts: Seq<PendingContact>,
    pub next_contest_id: i64,
    pub next_invite_id: i64,
    pub next_edit_id: i64,
    pub next_contact_id: i64,
}

impl View for Store {
    type V = StoreV;

    open spec fn view(&self) -> StoreV {
        StoreV {
            users: self.users@.map_values(|u: User| u@),
            channels: self.channels@.map_values(|c: Channel| c@),
            contests: self.contests@.map_values(|c: Contest| c@),
            invites: self.invites@,
            pending_edits: self.pending_edits@,
            pending_contacts: self.pending_contacts@,
            next_contest_id: self.next_contest_id,
            next_invite_id: self.next_invite_id,
            next_edit_id: self.next_edit_id,
            next_contact_id: self.next_contact_id,
        }
    }
}

// --- membership helpers ---

pub open spec fn has_user_id(users: Seq<UserV>, id: i64) -> bool {
    exists|j: int| 0 <= j < users.len() && (#[trigger] users[j]).id == id
}

pub open spec fn has_channel_id(channels: Seq<ChannelV>, id: i64) -> bool {
    exists|j: int| 0 <= j < channels.len() && (#[trigger] channels[j]).id == id
}

pub open spec fn has_contest_id(contests: Seq<ContestV>, id: i64) -> bool {
    exists|j: int| 0 <= j < contests.len() && (#[trigger] contests[j]).id == id
}

/// Some contest of the given channel already carries this name.
pub open spec fn has_contest_named(contests: Seq<ContestV>, name: Seq<char>, chan: i64) -> bool {
    exists|j: int|
        0 <= j < contests.len() && (#[trigger] contests[j]).name == name && contests[j].chan == chan
}

/// A referral `(source, dest, chan)` is already credited, for any contest.
pub open spec fn has_triple(invites: Seq<Invite>, source: i64, dest: i64, chan: i64) -> bool {
    exists|j: int|
        0 <= j < invites.len() && (#[trigger] invites[j]).source == source && invites[j].dest
            == dest && invites[j].chan == chan
}

/// The user registered at least one channel.
pub open spec fn is_owner_of_some(channels: Seq<ChannelV>, user: i64) -> bool {
    exists|j: int| 0 <= j < channels.len() && (#[trigger] channels[j]).registered_by == user
}

// --- well-formedness ---

impl StoreV {
    pub open spec fn users_wf(self) -> bool {
        forall|i: int, j: int|
            0 <= i < j < self.users.len() ==> (#[trigger] self.users[i]).id != (
            #[trigger] self.users[j]).id
    }

    pub open spec fn channels_wf(self) -> bool {
        &&& forall|i: int, j: int|
            0 <= i < j < self.channels.len() ==> (#[trigger] self.channels[i]).id != (
            #[trigger] self.channels[j]).id
        &&& forall|i: int|
            0 <= i < self.channels.len() ==> has_user_id(
                self.users,
                (#[trigger] self.channels[i]).registered_by,
            )
    }

    pub open spec fn contests_wf(self) -> bool {
        &&& forall|i: int, j: int|
            0 <= i < j < self.contests.len() ==> (#[trigger] self.contests[i]).id != (
            #[trigger] self.contests[j]).id
        &&& forall|i: int, j: int|
            0 <= i < j < self.contests.len() ==> !((#[trigger] self.contests[i]).name == (
            #[trigger] self.contests[j]).name && self.contests[i].chan == self.contests[j].chan)
        &&& forall|i: int|
            0 <= i < self.contests.len() ==> has_channel_id(
                self.channels,
                (#[trigger] self.contests[i]).chan,
            )
        &&& forall|i: int|
            0 <= i < self.contests.len() ==> (#[trigger] self.contests[i]).id
                < self.next_contest_id
    }

    pub open spec fn invites_wf(self) -> bool {
        &&& forall|i: int, j: int|
            0 <= i < j < self.invites.len() ==> (#[trigger] self.invites[i]).id != (
            #[trigger] self.invites[j]).id
        &&& forall|i: int, j: int|
            0 <= i < j < self.invites.len() ==> !((#[trigger] self.invites[i]).source == (
            #[trigger] self.invites[j]).source && self.invites[i].dest == self.invites[j].dest
                && self.invites[i].chan == self.invites[j].chan)
        &&& forall|i: int| 0 <= i < self.invites.len() ==> (#[trigger] self.invites[i]).source != self.invites[i].dest
        &&& forall|i: int|
            0 <= i < self.invites.len() ==> has_user_id(
                self.users,
                (#[trigger] self.invites[i]).source,
            )
        &&& forall|i: int|
            0 <= i < self.invites.len() ==> has_user_id(
                self.users,
                (#[trigger] self.invites[i]).dest,
            )
        &&& forall|i: int|
            0 <= i < self.invites.len() ==> has_channel_id(
                self.channels,
                (#[trigger] self.invites[i]).chan,
            )
        &&& forall|i: int|
            0 <= i < self.invites.len() ==> has_contest_id(
                self.contests,
                (#[trigger] self.invites[i]).contest,
            )
        &&& forall|i: int|
            0 <= i < self.invites.len() ==> (#[trigger] self.invites[i]).id < self.next_invite_id
    }

    pub open spec fn pending_edits_wf(self) -> bool {
        &&& forall|i: int, j: int|
            0 <= i < j < self.pending_edits.len() ==> (#[trigger] self.pending_edits[i]).id < (
            #[trigger] self.pending_edits[j]).id
        &&& forall|i: int|
            0 <= i < self.pending_edits.len() ==> (#[trigger] self.pending_edits[i]).id
                < self.next_edit_id
        &&& forall|i: int|
            0 <= i < self.pending_edits.len() ==> has_channel_id(
                self.channels,
                (#[trigger] self.pending_edits[i]).chan,
            )
    }

    pub open spec fn pending_contacts_wf(self) -> bool {
        &&& forall|i: int, j: int|
            0 <= i < j < self.pending_contacts.len() ==> (#[trigger] self.pending_contacts[i]).id
                < (#[trigger] self.pending_contacts[j]).id
        &&& forall|i: int|
            0 <= i < self.pending_contacts.len() ==> (#[trigger] self.pending_contacts[i]).id
                < self.next_contact_id
        &&& forall|i: int|
            0 <= i < self.pending_contacts.len() ==> has_user_id(
                self.users,
                (#[trigger] self.pending_contacts[i]).user,
            )
        &&& forall|i: int|
            0 <= i < self.pending_contacts.len() ==> has_user_id(
                self.users,
                (#[trigger] self.pending_contacts[i]).owner,
            )
    }

    /// Integrity of the whole store.
    pub open spec fn wf(self) -> bool {
        &&& self.users_wf()
        &&& self.channels_wf()
        &&& self.contests_wf()
        &&& self.invites_wf()
        &&& self.pending_edits_wf()
        &&& self.pending_contacts_wf()
    }
}

/// Why a store operation was refused.
#[derive(Debug, Clone, Copy, PartialEq, Eq, Structural)]
pub enum StoreError {
    /// A referenced entity does not exist.
    NotFound,
    /// The contest was already started.
    AlreadyStarted,
    /// The contest was already stopped.
    AlreadyStopped,
    /// A uniqueness or foreign-key rule would be broken.
    Constraint,
    /// The `(source, dest, chan)` referral was already credited.
    DuplicateInvitation,
    /// A user cannot invite themselves.
    SelfInvitation,
}

impl Store {
    /// Shorthand for the view's well-formedness.
    pub open spec fn wf(&self) -> bool {
        self@.wf()
    }

    /// An empty store.
    pub fn new() -> (r: Store)
        ensures
            r.wf(),
            r@.users == Seq::<UserV>::empty(),
            r@.channels == Seq::<ChannelV>::empty(),
            r@.contests == Seq::<ContestV>::empty(),
            r@.invites == Seq::<Invite>::empty(),
            r@.pending_edits == Seq::<PendingEdit>::empty(),
            r@.pending_contacts == Seq::<PendingContact>::empty(),
    {
        let r = Store {
            users: Vec::new(),
            channels: Vec::new(),
            contests: Vec::new(),
            invites: Vec::new(),
            pending_edits: Vec::new(),
            pending_contacts: Vec::new(),
            next_contest_id: 1,
            next_invite_id: 1,
            next_edit_id: 1,
            next_contact_id: 1,
        };
        proof {
            assert(r@.users =~= Seq::<UserV>::empty());
            assert(r@.channels =~= Seq::<ChannelV>::empty());
            assert(r@.contests =~= Seq::<ContestV>::empty());
        }
        r
    }

    /// Looks a user up by id.
    pub fn get_user(&self, id: i64) -> (r: Option<&User>)
        ensures
            (match r {
                Some(u) => self@.users.contains(u@) && u@.id == id,
                None => !has_user_id(self@.users, id),
            }),
    {
        let mut i: usize = 0;
        while i < self.users.len()
            invariant
                0 <= i <= self.users.len(),
                forall|j: int| 0 <= j < i ==> (#[trigger] self@.users[j]).id != id,
            decreases self.users.len() - i,
        {
            if self.users[i].id == id {
                assert(self@.users[i as int] == self.users@[i as int]@);
                return Some(&self.users[i]);
            }
            assert(self@.users[i as int] == self.users@[i as int]@);
            i += 1;
        }
        None
    }

    /// Looks a channel up by id.
    pub fn get_channel(&self, id: i64) -> (r: Option<&Channel>)
        ensures
            (match r {
                Some(c) => self@.channels.contains(c@) && c@.id == id,
                None => !has_channel_id(self@.channels, id),
            }),
    {
        let mut i: usize = 0;
        while i < self.channels.len()
            invariant
                0 <= i <= self.channels.len(),
                forall|j: int| 0 <= j < i ==> (#[trigger] self@.channels[j]).id != id,
            decreases self.channels.len() - i,
        {
            if self.channels[i].id == id {
                assert(self@.channels[i as int] == self.channels@[i as int]@);
                return Some(&self.channels[i]);
            }
            assert(self@.channels[i as int] == self.channels@[i as int]@);
            i += 1;
        }
        None
    }

    /// Looks a contest up by id.
    pub fn get_contest(&self, id: i64) -> (r: Option<&Contest>)
        ensures
            (match r {
                Some(c) => self@.contests.contains(c@) && c@.id == id,
                None => !has_contest_id(self@.contests, id),
            }),
    {
        let mut i: usize = 0;
        while i < self.contests.len()
            invariant
                0 <= i <= self.contests.len(),
                forall|j: int| 0 <= j < i ==> (#[trigger] self@.contests[j]).id != id,
            decreases self.contests.len() - i,
        {
            if self.contests[i].id == id {
                assert(self@.contests[i as int] == self.contests@[i as int]@);
                return Some(&self.contests[i]);
            }
            assert(self@.contests[i as int] == self.contests@[i as int]@);
            i += 1;
        }
        None
    }

    /// All contests of a channel, in store order.
    pub fn list_contests(&self, chan: i64) -> (r: Vec<Contest>)
        ensures
            r@.map_values(|c: Contest| c@) == self@.contests.filter(|c: ContestV| c.chan == chan),
    {
        let mut out: Vec<Contest> = Vec::new();
        let mut i: usize = 0;
        while i < self.contests.len()
            invariant
                0 <= i <= self.contests.len(),
                out@.map_values(|c: Contest| c@) == self@.contests.take(i as int).filter(
                    |c: ContestV| c.chan == chan,
                ),
            decreases self.contests.len() - i,
        {
            let ghost pre = self@.contests.take(i as int);
            let ghost post = self@.contests.take(i + 1);
            proof {
                assert(post.drop_last() =~= pre);
                assert(post.last() == self@.contests[i as int]);
                assert(self@.contests[i as int] == self.contests@[i as int]@);
                reveal(Seq::filter);
            }
            let c = &self.contests[i];
            if c.chan == chan {
                let d = c.duplicate();
                out.push(d);
                proof {
                    assert(out@.map_values(|c: Contest| c@) =~= post.filter(
                        |c: ContestV| c.chan == chan,
                    ));
                }
            } else {
                proof {
                    assert(out@.map_values(|c: Contest| c@) =~= post.filter(
                        |c: ContestV| c.chan == chan,
                    ));
                }
            }
            i += 1;
        }
        proof {
            assert(self@.contests.take(self.contests@.len() as int) =~= self@.contests);
        }
        out
    }

    /// The distinct users that registered at least one channel.
    pub fn owners(&self) -> (r: Vec<User>)
        ensures
            r@.map_values(|u: User| u@) == self@.users.filter(
                |u: UserV| is_owner_of_some(self@.channels, u.id),
            ),
    {
        let ghost pred = |u: UserV| is_owner_of_some(self@.channels, u.id);
        let mut out: Vec<User> = Vec::new();
        let mut i: usize = 0;
        while i < self.users.len()
            invariant
                0 <= i <= self.users.len(),
                pred == (|u: UserV| is_owner_of_some(self@.channels, u.id)),
                out@.map_values(|u: User| u@) == self@.users.take(i as int).filter(pred),
            decreases self.users.len() - i,
        {
            let ghost pre = self@.users.take(i as int);
            let ghost post = self@.users.take(i + 1);
            proof {
                assert(post.drop_last() =~= pre);
                assert(post.last() == self@.users[i as int]);
                assert(self@.users[i as int] == self.users@[i as int]@);
                reveal(Seq::filter);
            }
            let u = &self.users[i];
            if self.registered_some_channel(u.id) {
                let d = u.duplicate();
                out.push(d);
                proof {
                    assert(out@.map_values(|u: User| u@) =~= post.filter(pred));
                }
            } else {
                proof {
                    assert(out@.map_values(|u: User| u@) =~= post.filter(pred));
                }
            }
            i += 1;
        }
        proof {
            assert(self@.users.take(self.users@.len() as int) =~= self@.users);
        }
        out
    }

    /// Whether this user registered at least one channel (an "owner").
    pub fn registered_some_channel(&self, user: i64) -> (r: bool)
        ensures
            r == is_owner_of_some(self@.channels, user),
    {
        let mut i: usize = 0;
        while i < self.channels.len()
            invariant
                0 <= i <= self.channels.len(),
                forall|j: int| 0 <= j < i ==> (#[trigger] self@.channels[j]).registered_by != user,
            decreases self.channels.len() - i,
        {
            if self.channels[i].registered_by == user {
                assert(self@.channels[i as int] == self.channels@[i as int]@);
                return true;
            }
            assert(self@.channels[i as int] == self.channels@[i as int]@);
            i += 1;
        }
        false
    }

    /// Number of credited invitations of a contest.
    pub fn count_users(&self, contest: i64) -> (r: usize)
        ensures
            r == self@.invites.filter(|v: Invite| v.contest == contest).len(),
    {
        let mut n: usize = 0;
        let mut i: usize = 0;
        while i < self.invites.len()
            invariant
                0 <= i <= self.invites.len(),
                n == self@.invites.take(i as int).filter(|v: Invite| v.contest == contest).len(),
                n <= i,
            decreases self.invites.len() - i,
        {
            let ghost pre = self@.invites.take(i as int);
            let ghost post = self@.invites.take(i + 1);
            proof {
                assert(post.drop_last() =~= pre);
                assert(post.last() == self@.invites[i as int]);
                reveal(Seq::filter);
            }
            if self.invites[i].contest == contest {
                n += 1;
            }
            i += 1;
        }
        proof {
            assert(self@.invites.take(self.invites@.len() as int) =~= self@.invites);
        }
        n
    }
}


// --- relating filtered sequences to their source ---

/// Every element of a filtered sequence comes from the source sequence, and
/// pairs keep their order: the index embedding exists.
pub proof fn lemma_filter_embedding<A>(s: Seq<A>, pred: spec_fn(A) -> bool)
    ensures
        forall|i: int|
            0 <= i < s.filter(pred).len() ==> exists|a: int|
                0 <= a < s.len() && s[a] == #[trigger] s.filter(pred)[i],
        forall|i: int, j: int|
            0 <= i < j < s.filter(pred).len() ==> exists|a: int, b: int|
                0 <= a < b < s.len() && s[a] == #[trigger] s.filter(pred)[i] && s[b] == #[trigger] s.filter(
                    pred,
                )[j],
    decreases s.len(),
{
    reveal(Seq::filter);
    if s.len() == 0 {
    } else {
        let t = s.drop_last();
        let f = s.filter(pred);
        let ft = t.filter(pred);
        lemma_filter_embedding(t, pred);
        assert forall|i: int|
            0 <= i < f.len() implies exists|a: int| 0 <= a < s.len() && s[a] == #[trigger] f[i] by {
            if pred(s.last()) && i == f.len() - 1 {
                assert(s[s.len() - 1] == f[i]);
            } else {
                let a = choose|a: int| 0 <= a < t.len() && t[a] == ft[i];
                assert(s[a] == f[i]);
            }
        }
        assert forall|i: int, j: int|
            0 <= i < j < f.len() implies exists|a: int, b: int|
                0 <= a < b < s.len() && s[a] == #[trigger] f[i] && s[b] == #[trigger] f[j] by {
            if pred(s.last()) && j == f.len() - 1 {
                let a = choose|a: int| 0 <= a < t.len() && t[a] == ft[i];
                assert(s[a] == f[i]);
                assert(s[s.len() - 1] == f[j]);
                assert(0 <= a < s.len() - 1 < s.len());
            } else {
                let (a, b) = choose|a: int, b: int|
                    0 <= a < b < t.len() && t[a] == ft[i] && t[b] == ft[j];
                assert(s[a] == f[i] && s[b] == f[j]);
            }
        }
    }
}

/// A sequence in which every element satisfies the predicate filters to
/// itself.
pub proof fn lemma_filter_all<A>(s: Seq<A>, pred: spec_fn(A) -> bool)
    requires
        forall|i: int| 0 <= i < s.len() ==> pred(#[trigger] s[i]),
    ensures
        s.filter(pred) == s,
    decreases s.len(),
{
    reveal(Seq::filter);
    if s.len() > 0 {
        lemma_filter_all(s.drop_last(), pred);
        assert(s.drop_last().push(s.last()) =~= s);
    }
}

// --- unchanged-parts helpers ---

/// All store parts other than users and invitations agree.
pub open spec fn same_except_users(a: StoreV, b: StoreV) -> bool {
    &&& a.channels == b.channels
    &&& a.contests == b.contests
    &&& a.invites == b.invites
    &&& a.pending_edits == b.pending_edits
    &&& a.pending_contacts == b.pending_contacts
    &&& a.next_contest_id == b.next_contest_id
    &&& a.next_invite_id == b.next_invite_id
    &&& a.next_edit_id == b.next_edit_id
    &&& a.next_contact_id == b.next_contact_id
}

pub open spec fn same_except_channels(a: StoreV, b: StoreV) -> bool {
    &&& a.users == b.users
    &&& a.contests == b.contests
    &&& a.invites == b.invites
    &&& a.pending_edits == b.pending_edits
    &&& a.pending_contacts == b.pending_contacts
    &&& a.next_contest_id == b.next_contest_id
    &&& a.next_invite_id == b.next_invite_id
    &&& a.next_edit_id == b.next_edit_id
    &&& a.next_contact_id == b.next_contact_id
}

pub open spec fn same_except_contests(a: StoreV, b: StoreV) -> bool {
    &&& a.users == b.users
    &&& a.channels == b.channels
    &&& a.invites == b.invites
    &&& a.pending_edits == b.pending_edits
    &&& a.pending_contacts == b.pending_contacts
    &&& a.next_invite_id == b.next_invite_id
    &&& a.next_edit_id == b.next_edit_id
    &&& a.next_contact_id == b.next_contact_id
}

pub open spec fn same_except_invites(a: StoreV, b: StoreV) -> bool {
    &&& a.users == b.users
    &&& a.channels == b.channels
    &&& a.contests == b.contests
    &&& a.pending_edits == b.pending_edits
    &&& a.pending_contacts == b.pending_contacts
    &&& a.next_contest_id == b.next_contest_id
    &&& a.next_edit_id == b.next_edit_id
    &&& a.next_contact_id == b.next_contact_id
}

pub open spec fn same_except_edits(a: StoreV, b: StoreV) -> bool {
    &&& a.users == b.users
    &&& a.channels == b.channels
    &&& a.contests == b.contests
    &&& a.invites == b.invites
    &&& a.pending_contacts == b.pending_contacts
    &&& a.next_contest_id == b.next_contest_id
    &&& a.next_invite_id == b.next_invite_id
    &&& a.next_contact_id == b.next_contact_id
}

pub open spec fn same_except_contacts(a: StoreV, b: StoreV) -> bool {
    &&& a.users == b.users
    &&& a.channels == b.channels
    &&& a.contests == b.contests
    &&& a.invites == b.invites
    &&& a.pending_edits == b.pending_edits
    &&& a.next_contest_id == b.next_contest_id
    &&& a.next_invite_id == b.next_invite_id
    &&& a.next_edit_id == b.next_edit_id
}

/// The index of the contest with this id.
pub open spec fn contest_index(contests: Seq<ContestV>, id: i64) -> int {
    choose|j: int| 0 <= j < contests.len() && (#[trigger] contests[j]).id == id
}

/// The contest with this id is already started.
pub open spec fn contest_is_started(contests: Seq<ContestV>, id: i64) -> bool {
    exists|j: int|
        0 <= j < contests.len() && (#[trigger] contests[j]).id == id && contests[j].started_at
            is Some
}

/// The contest with this id is already stopped.
pub open spec fn contest_is_stopped(contests: Seq<ContestV>, id: i64) -> bool {
    exists|j: int|
        0 <= j < contests.len() && (#[trigger] contests[j]).id == id && contests[j].stopped
}

/// Some invitation is credited to this contest.
pub open spec fn contest_has_invites(invites: Seq<Invite>, contest: i64) -> bool {
    exists|j: int| 0 <= j < invites.len() && (#[trigger] invites[j]).contest == contest
}


/// Filtering out exactly one element is removal at its index.
pub proof fn lemma_filter_except_one<A>(s: Seq<A>, pred: spec_fn(A) -> bool, idx: int)
    requires
        0 <= idx < s.len(),
        !pred(s[idx]),
        forall|j: int| 0 <= j < s.len() && j != idx ==> pred(#[trigger] s[j]),
    ensures
        s.filter(pred) == s.remove(idx),
    decreases s.len(),
{
    reveal(Seq::filter);
    let t = s.drop_last();
    if idx == s.len() - 1 {
        assert forall|j: int| 0 <= j < t.len() implies pred(#[trigger] t[j]) by {
            assert(t[j] == s[j]);
        }
        lemma_filter_all(t, pred);
        assert(s.remove(idx) =~= t);
    } else {
        assert forall|j: int| 0 <= j < t.len() && j != idx implies pred(#[trigger] t[j]) by {
            assert(t[j] == s[j]);
        }
        assert(t[idx] == s[idx]);
        lemma_filter_except_one(t, pred, idx);
        assert(pred(s.last()));
        assert(s.filter(pred) == t.filter(pred).push(s.last()));
        assert(t.remove(idx).push(s.last()) =~= s.remove(idx));
    }
}

/// Integrity survives a change of contests that keeps length, ids, names and
/// channels (starting or stopping a contest).
proof fn lemma_wf_after_contest_tweak(pre: StoreV, post: StoreV)
    requires
        pre.wf(),
        same_except_contests(post, pre),
        post.next_contest_id == pre.next_contest_id,
        post.contests.len() == pre.contests.len(),
        forall|i: int|
            0 <= i < pre.contests.len() ==> ((#[trigger] post.contests[i]).id == pre.contests[i].id
                && post.contests[i].name == pre.contests[i].name && post.contests[i].chan
                == pre.contests[i].chan),
    ensures
        post.wf(),
{
    assert forall|x: i64| has_contest_id(pre.contests, x) implies has_contest_id(
        post.contests,
        x,
    ) by {
        let j = choose|j: int| 0 <= j < pre.contests.len() && (#[trigger] pre.contests[j]).id == x;
        assert(post.contests[j].id == x);
    }
    assert(post.contests_wf());
    assert(post.invites_wf());
}

/// Integrity survives dropping invitations.
proof fn lemma_wf_after_invite_filter(pre: StoreV, post: StoreV, pred: spec_fn(Invite) -> bool)
    requires
        pre.wf(),
        same_except_invites(post, pre),
        post.next_invite_id == pre.next_invite_id,
        post.invites == pre.invites.filter(pred),
    ensures
        post.wf(),
{
    lemma_filter_embedding(pre.invites, pred);
    let f = post.invites;
    assert forall|i: int, j: int|
        0 <= i < j < f.len() implies ((#[trigger] f[i]).id != (#[trigger] f[j]).id && !(f[i].source
            == f[j].source && f[i].dest == f[j].dest && f[i].chan == f[j].chan)) by {
        let (a, b) = choose|a: int, b: int|
            0 <= a < b < pre.invites.len() && pre.invites[a] == f[i] && pre.invites[b] == f[j];
        assert(pre.invites[a].id != pre.invites[b].id);
    }
    assert forall|i: int|
        0 <= i < f.len() implies ((#[trigger] f[i]).source != f[i].dest && has_user_id(
            post.users,
            f[i].source,
        ) && has_user_id(post.users, f[i].dest) && has_channel_id(post.channels, f[i].chan)
            && has_contest_id(post.contests, f[i].contest) && f[i].id < post.next_invite_id) by {
        let a = choose|a: int| 0 <= a < pre.invites.len() && pre.invites[a] == f[i];
        assert(pre.invites[a].source != pre.invites[a].dest);
        assert(has_user_id(pre.users, pre.invites[a].source));
        assert(has_user_id(pre.users, pre.invites[a].dest));
        assert(has_channel_id(pre.channels, pre.invites[a].chan));
        assert(has_contest_id(pre.contests, pre.invites[a].contest));
    }
    assert(post.invites_wf());
}

impl Store {
    /// Records the user if not yet known; a known id is left untouched.
    pub fn ensure_user(&mut self, u: User)
        requires
            old(self).wf(),
        ensures
            final(self).wf(),
            has_user_id(old(self)@.users, u.id) ==> final(self)@ == old(self)@,
            !has_user_id(old(self)@.users, u.id) ==> final(self)@.users == old(self)@.users.push(
                u@,
            ) && same_except_users(final(self)@, old(self)@),
            has_user_id(final(self)@.users, u.id),
    {
        let ghost uid = u.id;
        let present = self.get_user(u.id).is_some();
        if present {
            proof {
                let w = choose|j: int|
                    0 <= j < self@.users.len() && (#[trigger] self@.users[j]).id == uid;
                assert(has_user_id(self@.users, uid));
            }
        } else {
            let ghost pre = self@;
            proof {
                assert(pre == old(self)@);
                assert(pre.wf());
                assert(!has_user_id(pre.users, uid));
            }
            let ghost uv = u@;
            self.users.push(u);
            proof {
                assert(self@.channels == pre.channels);
                assert(self@.invites == pre.invites);
                assert(self@.pending_contacts == pre.pending_contacts);
            }
            proof {
                assert(self@.users =~= pre.users.push(uv));
                assert forall|x: i64| has_user_id(pre.users, x) implies has_user_id(
                    self@.users,
                    x,
                ) by {
                    let j = choose|j: int|
                        0 <= j < pre.users.len() && (#[trigger] pre.users[j]).id == x;
                    assert(self@.users[j].id == x);
                }
                assert(self@.users[pre.users.len() as int].id == uid);
                assert(has_user_id(self@.users, uid));
                assert(self@.users_wf()) by {
                    assert forall|i: int, j: int|
                        0 <= i < j < self@.users.len() implies (#[trigger] self@.users[i]).id != (
                        #[trigger] self@.users[j]).id by {
                        if j == self@.users.len() - 1 {
                            assert(self@.users[i] == pre.users[i]);
                            if self@.users[i].id == uid {
                                assert(has_user_id(pre.users, uid));
                            }
                        }
                    }
                }
                assert(self@.channels_wf()) by {
                    assert forall|i: int|
                        0 <= i < self@.channels.len() implies has_user_id(
                            self@.users,
                            (#[trigger] self@.channels[i]).registered_by,
                        ) by {
                        assert(has_user_id(pre.users, pre.channels[i].registered_by));
                    }
                }
                assert(self@.invites_wf()) by {
                    assert forall|i: int|
                        0 <= i < self@.invites.len() implies has_user_id(
                            self@.users,
                            (#[trigger] self@.invites[i]).source,
                        ) && has_user_id(self@.users, self@.invites[i].dest) by {
                        assert(has_user_id(pre.users, pre.invites[i].source));
                        assert(has_user_id(pre.users, pre.invites[i].dest));
                    }
                }
                assert(self@.pending_contacts_wf()) by {
                    assert forall|i: int|
                        0 <= i < self@.pending_contacts.len() implies has_user_id(
                            self@.users,
                            (#[trigger] self@.pending_contacts[i]).user,
                        ) && has_user_id(self@.users, self@.pending_contacts[i].owner) by {
                        assert(has_user_id(pre.users, pre.pending_contacts[i].user));
                        assert(has_user_id(pre.users, pre.pending_contacts[i].owner));
                    }
                }
                assert(self@.contests == pre.contests);
                assert(self@.pending_edits == pre.pending_edits);
                assert(self@.contests_wf());
                assert(self@.pending_edits_wf());
                assert(self.wf());
            }
        }
    }

    /// Registers a channel; the registering user must be known and the id new.
    pub fn register_channel(&mut self, c: Channel) -> (r: Result<(), StoreError>)
        requires
            old(self).wf(),
        ensures
            final(self).wf(),
            r is Ok <==> (!has_channel_id(old(self)@.channels, c.id) && has_user_id(
                old(self)@.users,
                c.registered_by,
            )),
            r is Ok ==> final(self)@.channels == old(self)@.channels.push(c@)
                && same_except_channels(final(self)@, old(self)@),
            r is Err ==> final(self)@ == old(self)@ && r == Err::<(), StoreError>(
                StoreError::Constraint,
            ),
    {
        let ghost cid = c.id;
        let ghost owner = c.registered_by;
        let dup = match self.get_channel(c.id) {
            Some(_) => true,
            None => false,
        };
        proof {
            if dup {
                let w = choose|j: int|
                    0 <= j < self@.channels.len() && (#[trigger] self@.channels[j]).id == cid;
                assert(has_channel_id(self@.channels, cid));
            }
        }
        if dup {
            return Err(StoreError::Constraint);
        }
        let known = self.get_user(c.registered_by).is_some();
        proof {
            if known {
                let w = choose|j: int|
                    0 <= j < self@.users.len() && (#[trigger] self@.users[j]).id == owner;
                assert(has_user_id(self@.users, owner));
            }
        }
        if !known {
            return Err(StoreError::Constraint);
        }
        let ghost pre = self@;
        let ghost cv = c@;
        self.channels.push(c);
        proof {
            assert(self@.users == pre.users);
            assert(self@.contests == pre.contests);
            assert(self@.invites == pre.invites);
            assert(self@.pending_edits == pre.pending_edits);
            assert(self@.pending_contacts == pre.pending_contacts);
            assert(self@.channels =~= pre.channels.push(cv));
            assert forall|x: i64| has_channel_id(pre.channels, x) implies has_channel_id(
                self@.channels,
                x,
            ) by {
                let j = choose|j: int|
                    0 <= j < pre.channels.len() && (#[trigger] pre.channels[j]).id == x;
                assert(self@.channels[j].id == x);
            }
            assert(self@.channels[pre.channels.len() as int] == cv);
            assert(self@.channels_wf()) by {
                assert forall|i: int, j: int|
                    0 <= i < j < self@.channels.len() implies (#[trigger] self@.channels[i]).id != (
                    #[trigger] self@.channels[j]).id by {
                    if j == self@.channels.len() - 1 {
                        assert(self@.channels[i] == pre.channels[i]);
                        if self@.channels[i].id == cid {
                            assert(has_channel_id(pre.channels, cid));
                        }
                    }
                }
                assert forall|i: int|
                    0 <= i < self@.channels.len() implies has_user_id(
                        self@.users,
                        (#[trigger] self@.channels[i]).registered_by,
                    ) by {
                    if i < self@.channels.len() - 1 {
                        assert(self@.channels[i] == pre.channels[i]);
                        assert(has_user_id(pre.users, pre.channels[i].registered_by));
                    }
                }
            }
            assert forall|i: int|
                0 <= i < self@.contests.len() implies has_channel_id(
                    self@.channels,
                    (#[trigger] self@.contests[i]).chan,
                ) by {
                assert(has_channel_id(pre.channels, pre.contests[i].chan));
            }
            assert forall|i: int|
                0 <= i < self@.invites.len() implies has_channel_id(
                    self@.channels,
                    (#[trigger] self@.invites[i]).chan,
                ) by {
                assert(has_channel_id(pre.channels, pre.invites[i].chan));
            }
            assert forall|i: int|
                0 <= i < self@.pending_edits.len() implies has_channel_id(
                    self@.channels,
                    (#[trigger] self@.pending_edits[i]).chan,
                ) by {
                assert(has_channel_id(pre.channels, pre.pending_edits[i].chan));
            }
            assert(self@.users_wf());
            assert(self@.contests_wf());
            assert(self@.invites_wf());
            assert(self@.pending_edits_wf());
            assert(self@.pending_contacts_wf());
            assert(self.wf());
        }
        Ok(())
    }
}




impl Store {
    /// Is some contest of this channel already named `name`?
    fn contest_name_taken(&self, name: &String, chan: i64) -> (r: bool)
        ensures
            r == has_contest_named(self@.contests, name@, chan),
    {
        let mut i: usize = 0;
        while i < self.contests.len()
            invariant
                0 <= i <= self.contests.len(),
                forall|j: int|
                    0 <= j < i ==> !((#[trigger] self@.contests[j]).name == name@
                        && self@.contests[j].chan == chan),
            decreases self.contests.len() - i,
        {
            proof {
                assert(self@.contests[i as int] == self.contests@[i as int]@);
            }
            if self.contests[i].chan == chan && self.contests[i].name == *name {
                return true;
            }
            i += 1;
        }
        false
    }

    /// Creates a draft contest for a channel and returns its id.
    ///
    /// Fails with `NotFound` when the channel is unknown, and with
    /// `Constraint` when the channel already has a contest of that name or
    /// the id space is exhausted.
    pub fn create_contest(&mut self, name: String, prize: String, end: i64, chan: i64) -> (r:
        Result<i64, StoreError>)
        requires
            old(self).wf(),
        ensures
            final(self).wf(),
            r == Err::<i64, StoreError>(StoreError::NotFound) <==> !has_channel_id(
                old(self)@.channels,
                chan,
            ),
            r == Err::<i64, StoreError>(StoreError::Constraint) <==> (has_channel_id(
                old(self)@.channels,
                chan,
            ) && (has_contest_named(old(self)@.contests, name@, chan) || old(self)@.next_contest_id
                == i64::MAX)),
            r is Err ==> (r == Err::<i64, StoreError>(StoreError::NotFound) || r == Err::<
                i64,
                StoreError,
            >(StoreError::Constraint)),
            r is Err ==> final(self)@ == old(self)@,
            r matches Ok(id) ==> id == old(self)@.next_contest_id && final(self)@.contests == old(
                self,
            )@.contests.push(
                (ContestV {
                    id: old(self)@.next_contest_id,
                    name: name@,
                    prize: prize@,
                    end: end,
                    started_at: None,
                    stopped: false,
                    chan: chan,
                }),
            ) && final(self)@.next_contest_id == old(self)@.next_contest_id + 1
                && same_except_contests(final(self)@, old(self)@),
    {
        let ghost pre = self@;
        let known = self.get_channel(chan).is_some();
        proof {
            if known {
                let w = choose|j: int|
                    0 <= j < pre.channels.len() && (#[trigger] pre.channels[j]).id == chan;
                assert(has_channel_id(pre.channels, chan));
            }
        }
        if !known {
            return Err(StoreError::NotFound);
        }
        if self.contest_name_taken(&name, chan) {
            return Err(StoreError::Constraint);
        }
        if self.next_contest_id == i64::MAX {
            return Err(StoreError::Constraint);
        }
        let id = self.next_contest_id;
        let ghost cv = ContestV {
            id: id,
            name: name@,
            prize: prize@,
            end: end,
            started_at: None,
            stopped: false,
            chan: chan,
        };
        let c = Contest {
            id: id,
            name: name,
            prize: prize,
            end: end,
            started_at: None,
            stopped: false,
            chan: chan,
        };
        self.contests.push(c);
        self.next_contest_id = id + 1;
        proof {
            assert(self@.users == pre.users);
            assert(self@.channels == pre.channels);
            assert(self@.invites == pre.invites);
            assert(self@.pending_edits == pre.pending_edits);
            assert(self@.pending_contacts == pre.pending_contacts);
            assert(self@.contests =~= pre.contests.push(cv));
            assert forall|x: i64| has_contest_id(pre.contests, x) implies has_contest_id(
                self@.contests,
                x,
            ) by {
                let j = choose|j: int|
                    0 <= j < pre.contests.len() && (#[trigger] pre.contests[j]).id == x;
                assert(self@.contests[j].id == x);
            }
            assert(self@.contests_wf()) by {
                assert forall|i: int, j: int|
                    0 <= i < j < self@.contests.len() implies ((#[trigger] self@.contests[i]).id
                        != (#[trigger] self@.contests[j]).id && !(self@.contests[i].name
                        == self@.contests[j].name && self@.contests[i].chan
                        == self@.contests[j].chan)) by {
                    if j == self@.contests.len() - 1 {
                        assert(self@.contests[i] == pre.contests[i]);
                        assert(pre.contests[i].id < pre.next_contest_id);
                        if self@.contests[i].name == name@ && self@.contests[i].chan == chan {
                            assert(has_contest_named(pre.contests, name@, chan));
                        }
                    }
                }
                assert forall|i: int|
                    0 <= i < self@.contests.len() implies has_channel_id(
                        self@.channels,
                        (#[trigger] self@.contests[i]).chan,
                    ) by {
                    if i < self@.contests.len() - 1 {
                        assert(self@.contests[i] == pre.contests[i]);
                        assert(has_channel_id(pre.channels, pre.contests[i].chan));
                    }
                }
            }
            assert(self@.invites_wf()) by {
                assert forall|i: int|
                    0 <= i < self@.invites.len() implies has_contest_id(
                        self@.contests,
                        (#[trigger] self@.invites[i]).contest,
                    ) by {
                    assert(has_contest_id(pre.contests, pre.invites[i].contest));
                }
            }
            assert(self@.users_wf());
            assert(self@.channels_wf());
            assert(self@.pending_edits_wf());
            assert(self@.pending_contacts_wf());
            assert(self.wf());
        }
        Ok(id)
    }

    /// Starts a contest, stamping the start time; irreversible.
    ///
    /// Fails with `NotFound` for an unknown id and `AlreadyStarted` when the
    /// start time was already set; the store is unchanged on failure, and the
    /// second of two start calls changes nothing.
    pub fn start_contest(&mut self, id: i64, now: i64) -> (r: Result<Contest, StoreError>)
        requires
            old(self).wf(),
        ensures
            final(self).wf(),
            r == Err::<Contest, StoreError>(StoreError::NotFound) <==> !has_contest_id(
                old(self)@.contests,
                id,
            ),
            r == Err::<Contest, StoreError>(StoreError::AlreadyStarted) <==> contest_is_started(
                old(self)@.contests,
                id,
            ),
            r is Err <==> (!has_contest_id(old(self)@.contests, id) || contest_is_started(
                old(self)@.contests,
                id,
            )),
            r is Err ==> final(self)@ == old(self)@,
            r matches Ok(c) ==> ({
                let j = contest_index(old(self)@.contests, id);
                &&& c@ == (ContestV { started_at: Some(now), ..old(self)@.contests[j] })
                &&& final(self)@.contests == old(self)@.contests.update(j, c@)
                &&& final(self)@.next_contest_id == old(self)@.next_contest_id
                &&& same_except_contests(final(self)@, old(self)@)
            }),
    {
        let ghost pre = self@;
        let mut idx: usize = 0;
        let n = self.contests.len();
        while idx < n && self.contests[idx].id != id
            invariant
                0 <= idx <= n,
                n == self.contests.len(),
                forall|j: int| 0 <= j < idx ==> (#[trigger] self@.contests[j]).id != id,
            decreases n - idx,
        {
            proof {
                assert(self@.contests[idx as int] == self.contests@[idx as int]@);
            }
            idx += 1;
        }
        if idx == n {
            return Err(StoreError::NotFound);
        }
        proof {
            assert(self@.contests[idx as int] == self.contests@[idx as int]@);
            assert(self@.contests[idx as int].id == id);
            assert(has_contest_id(pre.contests, id));
        }
        if self.contests[idx].started_at.is_some() {
            proof {
                assert(contest_is_started(pre.contests, id));
            }
            return Err(StoreError::AlreadyStarted);
        }
        proof {
            assert forall|j: int|
                0 <= j < pre.contests.len() && (#[trigger] pre.contests[j]).id
                    == id implies pre.contests[j].started_at is None by {
                if j != idx {
                    assert(pre.contests[j].id != pre.contests[idx as int].id);
                }
            }
            assert(!contest_is_started(pre.contests, id));
            assert(contest_index(pre.contests, id) == idx as int) by {
                let j = contest_index(pre.contests, id);
                assert(0 <= j < pre.contests.len() && pre.contests[j].id == id);
                if j != idx {
                    assert(pre.contests[j].id != pre.contests[idx as int].id);
                }
            }
        }
        let mut c = self.contests.remove(idx);
        c.started_at = Some(now);
        let out = c.duplicate();
        self.contests.insert(idx, c);
        proof {
            assert(self@.users == pre.users);
            assert(self@.channels == pre.channels);
            assert(self@.invites == pre.invites);
            assert(self@.pending_edits == pre.pending_edits);
            assert(self@.pending_contacts == pre.pending_contacts);
            assert(self@.contests =~= pre.contests.update(idx as int, out@));
            lemma_wf_after_contest_tweak(pre, self@);
        }
        Ok(out)
    }

    /// Stops a contest; irreversible.
    ///
    /// Fails with `NotFound` for an unknown id and `AlreadyStopped` when the
    /// contest is already stopped; the store is unchanged on failure.
    pub fn stop_contest(&mut self, id: i64) -> (r: Result<Contest, StoreError>)
        requires
            old(self).wf(),
        ensures
            final(self).wf(),
            r == Err::<Contest, StoreError>(StoreError::NotFound) <==> !has_contest_id(
                old(self)@.contests,
                id,
            ),
            r == Err::<Contest, StoreError>(StoreError::AlreadyStopped) <==> contest_is_stopped(
                old(self)@.contests,
                id,
            ),
            r is Err <==> (!has_contest_id(old(self)@.contests, id) || contest_is_stopped(
                old(self)@.contests,
                id,
            )),
            r is Err ==> final(self)@ == old(self)@,
            r matches Ok(c) ==> ({
                let j = contest_index(old(self)@.contests, id);
                &&& c@ == (ContestV { stopped: true, ..old(self)@.contests[j] })
                &&& final(self)@.contests == old(self)@.contests.update(j, c@)
                &&& final(self)@.next_contest_id == old(self)@.next_contest_id
                &&& same_except_contests(final(self)@, old(self)@)
            }),
    {
        let ghost pre = self@;
        let mut idx: usize = 0;
        let n = self.contests.len();
        while idx < n && self.contests[idx].id != id
            invariant
                0 <= idx <= n,
                n == self.contests.len(),
                forall|j: int| 0 <= j < idx ==> (#[trigger] self@.contests[j]).id != id,
            decreases n - idx,
        {
            proof {
                assert(self@.contests[idx as int] == self.contests@[idx as int]@);
            }
            idx += 1;
        }
        if idx == n {
            return Err(StoreError::NotFound);
        }
        proof {
            assert(self@.contests[idx as int] == self.contests@[idx as int]@);
            assert(self@.contests[idx as int].id == id);
            assert(has_contest_id(pre.contests, id));
        }
        if self.contests[idx].stopped {
            proof {
                assert(contest_is_stopped(pre.contests, id));
            }
            return Err(StoreError::AlreadyStopped);
        }
        proof {
            assert forall|j: int|
                0 <= j < pre.contests.len() && (#[trigger] pre.contests[j]).id
                    == id implies !pre.contests[j].stopped by {
                if j != idx {
                    assert(pre.contests[j].id != pre.contests[idx as int].id);
                }
            }
            assert(!contest_is_stopped(pre.contests, id));
            assert(contest_index(pre.contests, id) == idx as int) by {
                let j = contest_index(pre.contests, id);
                assert(0 <= j < pre.contests.len() && pre.contests[j].id == id);
                if j != idx {
                    assert(pre.contests[j].id != pre.contests[idx as int].id);
                }
            }
        }
        let mut c = self.contests.remove(idx);
        c.stopped = true;
        let out = c.duplicate();
        self.contests.insert(idx, c);
        proof {
            assert(self@.users == pre.users);
            assert(self@.channels == pre.channels);
            assert(self@.invites == pre.invites);
            assert(self@.pending_edits == pre.pending_edits);
            assert(self@.pending_contacts == pre.pending_contacts);
            assert(self@.contests =~= pre.contests.update(idx as int, out@));
            lemma_wf_after_contest_tweak(pre, self@);
        }
        Ok(out)
    }

    /// Deletes a contest; refused while any invitation still references it.
    ///
    /// Deleting an id that is absent changes nothing and succeeds, matching a
    /// relational `DELETE` with no matching row.
    #[verifier::loop_isolation(false)]
    pub fn delete_contest(&mut self, id: i64) -> (r: Result<(), StoreError>)
        requires
            old(self).wf(),
        ensures
            final(self).wf(),
            r is Err <==> contest_has_invites(old(self)@.invites, id),
            r is Err ==> r == Err::<(), StoreError>(StoreError::Constraint) && final(self)@ == old(
                self,
            )@,
            r is Ok ==> final(self)@.contests == old(self)@.contests.filter(
                |c: ContestV| c.id != id,
            ) && final(self)@.next_contest_id == old(self)@.next_contest_id && same_except_contests(
                final(self)@,
                old(self)@,
            ),
    {
        let ghost pre = self@;
        let ghost pred = |c: ContestV| c.id != id;
        // refuse while invitations reference the contest
        let mut k: usize = 0;
        while k < self.invites.len()
            invariant
                0 <= k <= self.invites.len(),
                forall|j: int| 0 <= j < k ==> (#[trigger] self@.invites[j]).contest != id,
            decreases self.invites.len() - k,
        {
            if self.invites[k].contest == id {
                proof {
                    assert(contest_has_invites(pre.invites, id));
                }
                return Err(StoreError::Constraint);
            }
            k += 1;
        }
        proof {
            assert(!contest_has_invites(pre.invites, id));
        }
        let mut idx: usize = 0;
        let n = self.contests.len();
        while idx < n && self.contests[idx].id != id
            invariant
                0 <= idx <= n,
                n == self.contests.len(),
                forall|j: int| 0 <= j < idx ==> (#[trigger] self@.contests[j]).id != id,
            decreases n - idx,
        {
            proof {
                assert(self@.contests[idx as int] == self.contests@[idx as int]@);
            }
            idx += 1;
        }
        if idx == n {
            proof {
                lemma_filter_all(pre.contests, pred);
            }
            return Ok(());
        }
        proof {
            assert(self@.contests[idx as int] == self.contests@[idx as int]@);
            assert(self@.contests[idx as int].id == id);
            assert forall|j: int| 0 <= j < pre.contests.len() && j != idx as int implies pred(
                #[trigger] pre.contests[j],
            ) by {
                if j > idx {
                    assert(pre.contests[j].id != pre.contests[idx as int].id);
                }
            }
            lemma_filter_except_one(pre.contests, pred, idx as int);
        }
        let _removed = self.contests.remove(idx);
        proof {
            assert(self@.users == pre.users);
            assert(self@.channels == pre.channels);
            assert(self@.invites == pre.invites);
            assert(self@.pending_edits == pre.pending_edits);
            assert(self@.pending_contacts == pre.pending_contacts);
            assert(self@.contests == pre.contests.remove(idx as int));
            assert forall|x: i64| has_contest_id(pre.contests, x) && x != id implies has_contest_id(
                self@.contests,
                x,
            ) by {
                let j = choose|j: int|
                    0 <= j < pre.contests.len() && (#[trigger] pre.contests[j]).id == x;
                if j < idx {
                    assert(self@.contests[j].id == x);
                } else {
                    assert(j != idx as int);
                    assert(self@.contests[j - 1] == pre.contests[j]);
                }
            }
            assert(self@.contests_wf()) by {
                assert forall|i: int, j: int|
                    0 <= i < j < self@.contests.len() implies ((#[trigger] self@.contests[i]).id
                        != (#[trigger] self@.contests[j]).id && !(self@.contests[i].name
                        == self@.contests[j].name && self@.contests[i].chan
                        == self@.contests[j].chan)) by {
                    let a: int = if i < idx {
                        i
                    } else {
                        i + 1
                    };
                    let b: int = if j < idx {
                        j
                    } else {
                        j + 1
                    };
                    assert(self@.contests[i] == pre.contests[a]);
                    assert(self@.contests[j] == pre.contests[b]);
                }
                assert forall|i: int|
                    0 <= i < self@.contests.len() implies (has_channel_id(
                        self@.channels,
                        (#[trigger] self@.contests[i]).chan,
                    ) && self@.contests[i].id < self@.next_contest_id) by {
                    let a: int = if i < idx {
                        i
                    } else {
                        i + 1
                    };
                    assert(self@.contests[i] == pre.contests[a]);
                    assert(has_channel_id(pre.channels, pre.contests[a].chan));
                }
            }
            assert(self@.invites_wf()) by {
                assert forall|i: int|
                    0 <= i < self@.invites.len() implies has_contest_id(
                        self@.contests,
                        (#[trigger] self@.invites[i]).contest,
                    ) by {
                    assert(has_contest_id(pre.contests, pre.invites[i].contest));
                    assert(pre.invites[i].contest != id);
                }
            }
            assert(self@.users_wf());
            assert(self@.channels_wf());
            assert(self@.pending_edits_wf());
            assert(self@.pending_contacts_wf());
            assert(self.wf());
        }
        Ok(())
    }
}


impl Store {
    /// Is the `(source, dest, chan)` referral already credited?
    pub fn triple_exists(&self, source: i64, dest: i64, chan: i64) -> (r: bool)
        ensures
            r == has_triple(self@.invites, source, dest, chan),
    {
        let mut i: usize = 0;
        while i < self.invites.len()
            invariant
                0 <= i <= self.invites.len(),
                forall|j: int|
                    0 <= j < i ==> !((#[trigger] self@.invites[j]).source == source
                        && self@.invites[j].dest == dest && self@.invites[j].chan == chan),
            decreases self.invites.len() - i,
        {
            let v = self.invites[i];
            if v.source == source && v.dest == dest && v.chan == chan {
                return true;
            }
            i += 1;
        }
        false
    }

    /// Credits a referral.
    ///
    /// Fails with `SelfInvitation` when a user invites themselves, with
    /// `DuplicateInvitation` when the `(source, dest, chan)` referral exists
    /// for any contest, and with `Constraint` when a referenced user, channel
    /// or contest is unknown or the id space is exhausted.
    #[verifier::loop_isolation(false)]
    pub fn insert_invitation(&mut self, source: i64, dest: i64, chan: i64, contest: i64, date: i64)
        -> (r: Result<i64, StoreError>)
        requires
            old(self).wf(),
        ensures
            final(self).wf(),
            r == Err::<i64, StoreError>(StoreError::SelfInvitation) <==> source == dest,
            r == Err::<i64, StoreError>(StoreError::DuplicateInvitation) <==> (source != dest
                && has_triple(old(self)@.invites, source, dest, chan)),
            r == Err::<i64, StoreError>(StoreError::Constraint) <==> (source != dest && !has_triple(
                old(self)@.invites,
                source,
                dest,
                chan,
            ) && !(has_user_id(old(self)@.users, source) && has_user_id(old(self)@.users, dest)
                && has_channel_id(old(self)@.channels, chan) && has_contest_id(
                old(self)@.contests,
                contest,
            ) && old(self)@.next_invite_id < i64::MAX)),
            r is Ok <==> insert_allowed(old(self)@, source, dest, chan, contest),
            r is Err ==> final(self)@ == old(self)@,
            r matches Ok(id) ==> id == old(self)@.next_invite_id && final(self)@.invites == old(
                self,
            )@.invites.push(
                (Invite {
                    id: old(self)@.next_invite_id,
                    date: date,
                    source: source,
                    dest: dest,
                    chan: chan,
                    contest: contest,
                }),
            ) && final(self)@.next_invite_id == old(self)@.next_invite_id + 1
                && same_except_invites(final(self)@, old(self)@),
    {
        let ghost pre = self@;
        if source == dest {
            return Err(StoreError::SelfInvitation);
        }
        if self.triple_exists(source, dest, chan) {
            return Err(StoreError::DuplicateInvitation);
        }
        let src_known = self.get_user(source).is_some();
        proof {
            if src_known {
                let w = choose|j: int|
                    0 <= j < pre.users.len() && (#[trigger] pre.users[j]).id == source;
                assert(has_user_id(pre.users, source));
            }
        }
        let dst_known = self.get_user(dest).is_some();
        proof {
            if dst_known {
                let w = choose|j: int|
                    0 <= j < pre.users.len() && (#[trigger] pre.users[j]).id == dest;
                assert(has_user_id(pre.users, dest));
            }
        }
        let chan_known = self.get_channel(chan).is_some();
        proof {
            if chan_known {
                let w = choose|j: int|
                    0 <= j < pre.channels.len() && (#[trigger] pre.channels[j]).id == chan;
                assert(has_channel_id(pre.channels, chan));
            }
        }
        let contest_known = self.get_contest(contest).is_some();
        proof {
            if contest_known {
                let w = choose|j: int|
                    0 <= j < pre.contests.len() && (#[trigger] pre.contests[j]).id == contest;
                assert(has_contest_id(pre.contests, contest));
            }
        }
        if !(src_known && dst_known && chan_known && contest_known) {
            return Err(StoreError::Constraint);
        }
        if self.next_invite_id == i64::MAX {
            return Err(StoreError::Constraint);
        }
        let id = self.next_invite_id;
        let v = Invite { id: id, date: date, source: source, dest: dest, chan: chan, contest:
            contest };
        self.invites.push(v);
        self.next_invite_id = id + 1;
        proof {
            assert(self@.users == pre.users);
            assert(self@.channels == pre.channels);
            assert(self@.contests == pre.contests);
            assert(self@.pending_edits == pre.pending_edits);
            assert(self@.pending_contacts == pre.pending_contacts);
            assert(self@.invites =~= pre.invites.push(v));
            assert(self@.invites_wf()) by {
                assert forall|i: int, j: int|
                    0 <= i < j < self@.invites.len() implies ((#[trigger] self@.invites[i]).id != (
                    #[trigger] self@.invites[j]).id && !(self@.invites[i].source
                        == self@.invites[j].source && self@.invites[i].dest
                        == self@.invites[j].dest && self@.invites[i].chan
                        == self@.invites[j].chan)) by {
                    if j == self@.invites.len() - 1 {
                        assert(self@.invites[i] == pre.invites[i]);
                        assert(pre.invites[i].id < pre.next_invite_id);
                        if self@.invites[i].source == source && self@.invites[i].dest == dest
                            && self@.invites[i].chan == chan {
                            assert(has_triple(pre.invites, source, dest, chan));
                        }
                    }
                }
                assert forall|i: int|
                    0 <= i < self@.invites.len() implies ((#[trigger] self@.invites[i]).source
                        != self@.invites[i].dest && has_user_id(
                        self@.users,
                        self@.invites[i].source,
                    ) && has_user_id(self@.users, self@.invites[i].dest) && has_channel_id(
                        self@.channels,
                        self@.invites[i].chan,
                    ) && has_contest_id(self@.contests, self@.invites[i].contest)
                        && self@.invites[i].id < self@.next_invite_id) by {
                    if i < self@.invites.len() - 1 {
                        assert(self@.invites[i] == pre.invites[i]);
                        assert(has_user_id(pre.users, pre.invites[i].source));
                        assert(has_user_id(pre.users, pre.invites[i].dest));
                        assert(has_channel_id(pre.channels, pre.invites[i].chan));
                        assert(has_contest_id(pre.contests, pre.invites[i].contest));
                    }
                }
            }
            assert(self@.users_wf());
            assert(self@.channels_wf());
            assert(self@.contests_wf());
            assert(self@.pending_edits_wf());
            assert(self@.pending_contacts_wf());
            assert(self.wf());
        }
        Ok(id)
    }

    /// Drops every invitation of `dest` for this contest (the pruning step
    /// when a credited user left the channel).
    #[verifier::loop_isolation(false)]
    pub fn delete_invitation(&mut self, dest: i64, contest: i64)
        requires
            old(self).wf(),
        ensures
            final(self).wf(),
            final(self)@.invites == old(self)@.invites.filter(
                |v: Invite| !(v.dest == dest && v.contest == contest),
            ),
            final(self)@.next_invite_id == old(self)@.next_invite_id,
            same_except_invites(final(self)@, old(self)@),
    {
        let ghost pre = self@;
        let ghost pred = |v: Invite| !(v.dest == dest && v.contest == contest);
        let mut kept: Vec<Invite> = Vec::new();
        let mut i: usize = 0;
        while i < self.invites.len()
            invariant
                0 <= i <= self.invites.len(),
                kept@ == pre.invites.take(i as int).filter(pred),
            decreases self.invites.len() - i,
        {
            let ghost prefix = pre.invites.take(i as int);
            let ghost prefix2 = pre.invites.take(i + 1);
            proof {
                assert(prefix2.drop_last() =~= prefix);
                assert(prefix2.last() == pre.invites[i as int]);
                reveal(Seq::filter);
            }
            let v = self.invites[i];
            if !(v.dest == dest && v.contest == contest) {
                kept.push(v);
            }
            proof {
                assert(kept@ =~= prefix2.filter(pred));
            }
            i += 1;
        }
        proof {
            assert(pre.invites.take(pre.invites.len() as int) =~= pre.invites);
        }
        self.invites = kept;
        proof {
            assert(self@.users == pre.users);
            assert(self@.channels == pre.channels);
            assert(self@.contests == pre.contests);
            assert(self@.pending_edits == pre.pending_edits);
            assert(self@.pending_contacts == pre.pending_contacts);
            assert(self@.invites == pre.invites.filter(pred));
            lemma_wf_after_invite_filter(pre, self@, pred);
        }
    }

    /// Marks the channel as "being managed": the owner's next free-text
    /// message is contest data. The most recent row per owner wins.
    #[verifier::loop_isolation(false)]
    pub fn upsert_pending_edit(&mut self, chan: i64) -> (r: Result<(), StoreError>)
        requires
            old(self).wf(),
        ensures
            final(self).wf(),
            r is Ok <==> (has_channel_id(old(self)@.channels, chan) && old(self)@.next_edit_id
                < i64::MAX),
            r is Err ==> final(self)@ == old(self)@ && r == Err::<(), StoreError>(
                StoreError::Constraint,
            ),
            r is Ok ==> final(self)@.pending_edits == old(self)@.pending_edits.push(
                (PendingEdit { id: old(self)@.next_edit_id, chan: chan }),
            ) && final(self)@.next_edit_id == old(self)@.next_edit_id + 1 && same_except_edits(
                final(self)@,
                old(self)@,
            ),
    {
        let ghost pre = self@;
        let known = self.get_channel(chan).is_some();
        proof {
            if known {
                let w = choose|j: int|
                    0 <= j < pre.channels.len() && (#[trigger] pre.channels[j]).id == chan;
                assert(has_channel_id(pre.channels, chan));
            }
        }
        if !known {
            return Err(StoreError::Constraint);
        }
        if self.next_edit_id == i64::MAX {
            return Err(StoreError::Constraint);
        }
        let id = self.next_edit_id;
        self.pending_edits.push(PendingEdit { id: id, chan: chan });
        self.next_edit_id = id + 1;
        proof {
            assert(self@.users == pre.users);
            assert(self@.channels == pre.channels);
            assert(self@.contests == pre.contests);
            assert(self@.invites == pre.invites);
            assert(self@.pending_contacts == pre.pending_contacts);
            assert(self@.pending_edits =~= pre.pending_edits.push(
                PendingEdit { id: id, chan: chan },
            ));
            assert(self@.pending_edits_wf()) by {
                assert forall|i: int, j: int|
                    0 <= i < j < self@.pending_edits.len() implies (
                    #[trigger] self@.pending_edits[i]).id < (
                    #[trigger] self@.pending_edits[j]).id by {
                    if j == self@.pending_edits.len() - 1 {
                        assert(self@.pending_edits[i] == pre.pending_edits[i]);
                        assert(pre.pending_edits[i].id < pre.next_edit_id);
                    }
                }
                assert forall|i: int|
                    0 <= i < self@.pending_edits.len() implies ((#[trigger] self@.pending_edits[i]).id
                        < self@.next_edit_id && has_channel_id(
                        self@.channels,
                        self@.pending_edits[i].chan,
                    )) by {
                    if i < self@.pending_edits.len() - 1 {
                        assert(self@.pending_edits[i] == pre.pending_edits[i]);
                        assert(has_channel_id(pre.channels, pre.pending_edits[i].chan));
                    }
                }
            }
            assert(self@.users_wf());
            assert(self@.channels_wf());
            assert(self@.contests_wf());
            assert(self@.invites_wf());
            assert(self@.pending_contacts_wf());
            assert(self.wf());
        }
        Ok(())
    }

    /// The channel of the most recent pending edit whose channel the user
    /// owns, if any.
    #[verifier::loop_isolation(false)]
    pub fn latest_pending_edit(&self, owner: i64) -> (r: Option<i64>)
        requires
            self.wf(),
        ensures
            r == latest_edit_chan(self@.pending_edits, self@.channels, owner),
    {
        let mut i: usize = self.pending_edits.len();
        assert(self@.pending_edits.take(i as int) =~= self@.pending_edits);
        while i > 0
            invariant
                0 <= i <= self.pending_edits.len(),
                latest_edit_chan(self@.pending_edits, self@.channels, owner) == latest_edit_chan(
                    self@.pending_edits.take(i as int),
                    self@.channels,
                    owner,
                ),
            decreases i,
        {
            let ghost cur = self@.pending_edits.take(i as int);
            proof {
                assert(cur.drop_last() =~= self@.pending_edits.take(i - 1));
                assert(cur.last() == self@.pending_edits[i - 1]);
            }
            i -= 1;
            let e = self.pending_edits[i];
            let owned = match self.get_channel(e.chan) {
                Some(c) => c.registered_by == owner,
                None => false,
            };
            proof {
                if owned {
                    assert(channel_owned_by(self@.channels, e.chan, owner));
                } else {
                    assert(!channel_owned_by(self@.channels, e.chan, owner)) by {
                        if channel_owned_by(self@.channels, e.chan, owner) {
                            let j = choose|j: int|
                                0 <= j < self@.channels.len() && (#[trigger] self@.channels[j]).id
                                    == e.chan && self@.channels[j].registered_by == owner;
                            assert(has_channel_id(self@.channels, e.chan));
                        }
                    }
                }
            }
            if owned {
                return Some(e.chan);
            }
        }
        proof {
            assert(self@.pending_edits.take(0) =~= Seq::<PendingEdit>::empty());
        }
        None
    }

    /// Records that the owner owes the winner one forwarded message.
    #[verifier::loop_isolation(false)]
    pub fn create_pending_contact(&mut self, user: i64, owner: i64) -> (r: Result<(), StoreError>)
        requires
            old(self).wf(),
        ensures
            final(self).wf(),
            r is Ok <==> (has_user_id(old(self)@.users, user) && has_user_id(
                old(self)@.users,
                owner,
            ) && old(self)@.next_contact_id < i64::MAX),
            r is Err ==> final(self)@ == old(self)@ && r == Err::<(), StoreError>(
                StoreError::Constraint,
            ),
            r is Ok ==> final(self)@.pending_contacts == old(self)@.pending_contacts.push(
                (PendingContact {
                    id: old(self)@.next_contact_id,
                    user: user,
                    owner: owner,
                    contacted: false,
                }),
            ) && final(self)@.next_contact_id == old(self)@.next_contact_id + 1
                && same_except_contacts(final(self)@, old(self)@),
    {
        let ghost pre = self@;
        let user_known = self.get_user(user).is_some();
        proof {
            if user_known {
                let w = choose|j: int|
                    0 <= j < pre.users.len() && (#[trigger] pre.users[j]).id == user;
                assert(has_user_id(pre.users, user));
            }
        }
        let owner_known = self.get_user(owner).is_some();
        proof {
            if owner_known {
                let w = choose|j: int|
                    0 <= j < pre.users.len() && (#[trigger] pre.users[j]).id == owner;
                assert(has_user_id(pre.users, owner));
            }
        }
        if !(user_known && owner_known) {
            return Err(StoreError::Constraint);
        }
        if self.next_contact_id == i64::MAX {
            return Err(StoreError::Constraint);
        }
        let id = self.next_contact_id;
        self.pending_contacts.push(
            PendingContact { id: id, user: user, owner: owner, contacted: false },
        );
        self.next_contact_id = id + 1;
        proof {
            assert(self@.users == pre.users);
            assert(self@.channels == pre.channels);
            assert(self@.contests == pre.contests);
            assert(self@.invites == pre.invites);
            assert(self@.pending_edits == pre.pending_edits);
            assert(self@.pending_contacts =~= pre.pending_contacts.push(
                PendingContact { id: id, user: user, owner: owner, contacted: false },
            ));
            assert(self@.pending_contacts_wf()) by {
                assert forall|i: int, j: int|
                    0 <= i < j < self@.pending_contacts.len() implies (
                    #[trigger] self@.pending_contacts[i]).id < (
                    #[trigger] self@.pending_contacts[j]).id by {
                    if j == self@.pending_contacts.len() - 1 {
                        assert(self@.pending_contacts[i] == pre.pending_contacts[i]);
                        assert(pre.pending_contacts[i].id < pre.next_contact_id);
                    }
                }
                assert forall|i: int|
                    0 <= i < self@.pending_contacts.len() implies ((
                    #[trigger] self@.pending_contacts[i]).id < self@.next_contact_id && has_user_id(
                        self@.users,
                        self@.pending_contacts[i].user,
                    ) && has_user_id(self@.users, self@.pending_contacts[i].owner)) by {
                    if i < self@.pending_contacts.len() - 1 {
                        assert(self@.pending_contacts[i] == pre.pending_contacts[i]);
                        assert(has_user_id(pre.users, pre.pending_contacts[i].user));
                        assert(has_user_id(pre.users, pre.pending_contacts[i].owner));
                    }
                }
            }
            assert(self@.users_wf());
            assert(self@.channels_wf());
            assert(self@.contests_wf());
            assert(self@.invites_wf());
            assert(self@.pending_edits_wf());
            assert(self.wf());
        }
        Ok(())
    }

    /// The most recent winner this owner still has to contact, if any.
    #[verifier::loop_isolation(false)]
    pub fn latest_uncontacted_winner(&self, owner: i64) -> (r: Option<i64>)
        ensures
            r == latest_winner(self@.pending_contacts, owner),
    {
        let mut i: usize = self.pending_contacts.len();
        assert(self@.pending_contacts.take(i as int) =~= self@.pending_contacts);
        while i > 0
            invariant
                0 <= i <= self.pending_contacts.len(),
                latest_winner(self@.pending_contacts, owner) == latest_winner(
                    self@.pending_contacts.take(i as int),
                    owner,
                ),
            decreases i,
        {
            let ghost cur = self@.pending_contacts.take(i as int);
            proof {
                assert(cur.drop_last() =~= self@.pending_contacts.take(i - 1));
                assert(cur.last() == self@.pending_contacts[i - 1]);
            }
            i -= 1;
            let pc = self.pending_contacts[i];
            if pc.owner == owner && !pc.contacted {
                return Some(pc.user);
            }
        }
        proof {
            assert(self@.pending_contacts.take(0) =~= Seq::<PendingContact>::empty());
        }
        None
    }

    /// Marks the owner's pending contact with this winner as done.
    #[verifier::loop_isolation(false)]
    pub fn mark_winner_contacted(&mut self, owner: i64, user: i64)
        requires
            old(self).wf(),
        ensures
            final(self).wf(),
            final(self)@.pending_contacts.len() == old(self)@.pending_contacts.len(),
            forall|i: int|
                0 <= i < old(self)@.pending_contacts.len() ==> final(self)@.pending_contacts[i]
                    == (if (#[trigger] old(self)@.pending_contacts[i]).owner == owner && old(
                    self,
                )@.pending_contacts[i].user == user {
                    (PendingContact { contacted: true, ..old(self)@.pending_contacts[i] })
                } else {
                    old(self)@.pending_contacts[i]
                }),
            same_except_contacts(final(self)@, old(self)@),
            final(self)@.next_contact_id == old(self)@.next_contact_id,
    {
        let ghost pre = self@;
        let mut out: Vec<PendingContact> = Vec::new();
        let mut i: usize = 0;
        while i < self.pending_contacts.len()
            invariant
                0 <= i <= self.pending_contacts.len(),
                out@.len() == i,
                forall|j: int|
                    0 <= j < i ==> out@[j] == (if (#[trigger] pre.pending_contacts[j]).owner
                        == owner && pre.pending_contacts[j].user == user {
                        (PendingContact { contacted: true, ..pre.pending_contacts[j] })
                    } else {
                        pre.pending_contacts[j]
                    }),
            decreases self.pending_contacts.len() - i,
        {
            let mut pc = self.pending_contacts[i];
            if pc.owner == owner && pc.user == user {
                pc.contacted = true;
            }
            out.push(pc);
            i += 1;
        }
        self.pending_contacts = out;
        proof {
            assert(self@.users == pre.users);
            assert(self@.channels == pre.channels);
            assert(self@.contests == pre.contests);
            assert(self@.invites == pre.invites);
            assert(self@.pending_edits == pre.pending_edits);
            assert(self@.pending_contacts_wf()) by {
                assert forall|a: int, b: int|
                    0 <= a < b < self@.pending_contacts.len() implies (
                    #[trigger] self@.pending_contacts[a]).id < (
                    #[trigger] self@.pending_contacts[b]).id by {
                    assert(pre.pending_contacts[a].id < pre.pending_contacts[b].id);
                }
                assert forall|a: int|
                    0 <= a < self@.pending_contacts.len() implies ((
                    #[trigger] self@.pending_contacts[a]).id < self@.next_contact_id && has_user_id(
                        self@.users,
                        self@.pending_contacts[a].user,
                    ) && has_user_id(self@.users, self@.pending_contacts[a].owner)) by {
                    assert(pre.pending_contacts[a].id < pre.next_contact_id);
                    assert(has_user_id(pre.users, pre.pending_contacts[a].user));
                    assert(has_user_id(pre.users, pre.pending_contacts[a].owner));
                }
            }
            assert(self@.users_wf());
            assert(self@.channels_wf());
            assert(self@.contests_wf());
            assert(self@.invites_wf());
            assert(self@.pending_edits_wf());
            assert(self.wf());
        }
    }
}


/// Exactly when crediting a referral succeeds: distinct users, a fresh
/// `(source, dest, chan)` triple, every reference known, and id space left.
pub open spec fn insert_allowed(s: StoreV, source: i64, dest: i64, chan: i64, contest: i64) -> bool {
    &&& source != dest
    &&& !has_triple(s.invites, source, dest, chan)
    &&& has_user_id(s.users, source)
    &&& has_user_id(s.users, dest)
    &&& has_channel_id(s.channels, chan)
    &&& has_contest_id(s.contests, contest)
    &&& s.next_invite_id < i64::MAX
}

/// The channel is registered and owned by this user.
pub open spec fn channel_owned_by(channels: Seq<ChannelV>, chan: i64, owner: i64) -> bool {
    exists|j: int|
        0 <= j < channels.len() && (#[trigger] channels[j]).id == chan && channels[j].registered_by
            == owner
}

/// The channel of the most recent pending edit owned by `owner`, scanning
/// from the newest row backwards.
pub open spec fn latest_edit_chan(edits: Seq<PendingEdit>, channels: Seq<ChannelV>, owner: i64)
    -> Option<i64>
    decreases edits.len(),
{
    if edits.len() == 0 {
        None
    } else if channel_owned_by(channels, edits.last().chan, owner) {
        Some(edits.last().chan)
    } else {
        latest_edit_chan(edits.drop_last(), channels, owner)
    }
}

/// The most recent not-yet-contacted winner owed a message by `owner`.
pub open spec fn latest_winner(contacts: Seq<PendingContact>, owner: i64) -> Option<i64>
    decreases contacts.len(),
{
    if contacts.len() == 0 {
        None
    } else if contacts.last().owner == owner && !contacts.last().contacted {
        Some(contacts.last().user)
    } else {
        latest_winner(contacts.drop_last(), owner)
    }
}


impl Store {
    /// The draft contests of a channel: not yet started.
    pub fn list_contests_to_start(&self, chan: i64) -> (r: Vec<Contest>)
        ensures
            r@.map_values(|c: Contest| c@) == self@.contests.filter(
                |c: ContestV| c.chan == chan && c.started_at is None,
            ),
    {
        let ghost pred = |c: ContestV| c.chan == chan && c.started_at is None;
        let mut out: Vec<Contest> = Vec::new();
        let mut i: usize = 0;
        while i < self.contests.len()
            invariant
                0 <= i <= self.contests.len(),
                pred == (|c: ContestV| c.chan == chan && c.started_at is None),
                out@.map_values(|c: Contest| c@) == self@.contests.take(i as int).filter(pred),
            decreases self.contests.len() - i,
        {
            let ghost pre = self@.contests.take(i as int);
            let ghost post = self@.contests.take(i + 1);
            proof {
                assert(post.drop_last() =~= pre);
                assert(post.last() == self@.contests[i as int]);
                assert(self@.contests[i as int] == self.contests@[i as int]@);
                reveal(Seq::filter);
            }
            let c = &self.contests[i];
            if c.chan == chan && c.started_at.is_none() {
                let d = c.duplicate();
                out.push(d);
                proof {
                    assert(out@.map_values(|c: Contest| c@) =~= post.filter(pred));
                }
            } else {
                proof {
                    assert(out@.map_values(|c: Contest| c@) =~= post.filter(pred));
                }
            }
            i += 1;
        }
        proof {
            assert(self@.contests.take(self.contests@.len() as int) =~= self@.contests);
        }
        out
    }

    /// The running contests of a channel: started and not yet stopped.
    pub fn list_contests_to_stop(&self, chan: i64) -> (r: Vec<Contest>)
        ensures
            r@.map_values(|c: Contest| c@) == self@.contests.filter(
                |c: ContestV| c.chan == chan && c.started_at is Some && !c.stopped,
            ),
    {
        let ghost pred = |c: ContestV| c.chan == chan && c.started_at is Some && !c.stopped;
        let mut out: Vec<Contest> = Vec::new();
        let mut i: usize = 0;
        while i < self.contests.len()
            invariant
                0 <= i <= self.contests.len(),
                pred == (|c: ContestV| c.chan == chan && c.started_at is Some && !c.stopped),
                out@.map_values(|c: Contest| c@) == self@.contests.take(i as int).filter(pred),
            decreases self.contests.len() - i,
        {
            let ghost pre = self@.contests.take(i as int);
            let ghost post = self@.contests.take(i + 1);
            proof {
                assert(post.drop_last() =~= pre);
                assert(post.last() == self@.contests[i as int]);
                assert(self@.contests[i as int] == self.contests@[i as int]@);
                reveal(Seq::filter);
            }
            let c = &self.contests[i];
            if c.chan == chan && c.started_at.is_some() && !c.stopped {
                let d = c.duplicate();
                out.push(d);
                proof {
                    assert(out@.map_values(|c: Contest| c@) =~= post.filter(pred));
                }
            } else {
                proof {
                    assert(out@.map_values(|c: Contest| c@) =~= post.filter(pred));
                }
            }
            i += 1;
        }
        proof {
            assert(self@.contests.take(self.contests@.len() as int) =~= self@.contests);
        }
        out
    }

    /// The invited users of a contest's credited invitations, in store order.
    pub fn invited_dests(&self, contest: i64) -> (r: Vec<i64>)
        ensures
            r@ == self@.invites.filter(|v: Invite| v.contest == contest).map_values(
                |v: Invite| v.dest,
            ),
    {
        let ghost pred = |v: Invite| v.contest == contest;
        let mut out: Vec<i64> = Vec::new();
        let mut i: usize = 0;
        while i < self.invites.len()
            invariant
                0 <= i <= self.invites.len(),
                pred == (|v: Invite| v.contest == contest),
                out@ == self@.invites.take(i as int).filter(pred).map_values(|v: Invite| v.dest),
            decreases self.invites.len() - i,
        {
            let ghost pre = self@.invites.take(i as int);
            let ghost post = self@.invites.take(i + 1);
            proof {
                assert(post.drop_last() =~= pre);
                assert(post.last() == self@.invites[i as int]);
                reveal(Seq::filter);
            }
            let v = self.invites[i];
            if v.contest == contest {
                out.push(v.dest);
                proof {
                    assert(out@ =~= post.filter(pred).map_values(|v: Invite| v.dest));
                }
            } else {
                proof {
                    assert(out@ =~= post.filter(pred).map_values(|v: Invite| v.dest));
                }
            }
            i += 1;
        }
        proof {
            assert(self@.invites.take(self.invites@.len() as int) =~= self@.invites);
        }
        out
    }
}


/// Invitation uniqueness: in any store that already holds a credited
/// `(source, dest, chan)` referral — in particular right after a successful
/// insert of that triple — inserting the same triple again cannot succeed,
/// whatever contest the second insert names.
pub proof fn lemma_invitation_unique(s: StoreV, source: i64, dest: i64, chan: i64, contest: i64)
    requires
        has_triple(s.invites, source, dest, chan),
    ensures
        !insert_allowed(s, source, dest, chan, contest),
{
}

/// Self-invitation rejection: inserting an invitation from a user to
/// themselves can never succeed, whatever channel or contest.
pub proof fn lemma_self_invitation_rejected(s: StoreV, user: i64, chan: i64, contest: i64)
    ensures
        !insert_allowed(s, user, user, chan, contest),
{
}

/// Start idempotency: a first successful start leaves the contest started,
/// so a second start of the same contest must fail with `AlreadyStarted`
/// (and, by [`Store::start_contest`]'s contract, leaves the store — and the
/// start time — unchanged).
pub proof fn lemma_start_idempotent(pre: StoreV, post: StoreV, id: i64, now: i64)
    requires
        pre.wf(),
        has_contest_id(pre.contests, id),
        !contest_is_started(pre.contests, id),
        post.contests == pre.contests.update(
            contest_index(pre.contests, id),
            (ContestV { started_at: Some(now), ..pre.contests[contest_index(pre.contests, id)] }),
        ),
    ensures
        has_contest_id(post.contests, id),
        contest_is_started(post.contests, id),
{
    let j = contest_index(pre.contests, id);
    assert(0 <= j < pre.contests.len() && pre.contests[j].id == id) by {
        let w = choose|w: int|
            0 <= w < pre.contests.len() && (#[trigger] pre.contests[w]).id == id;
    }
    assert(post.contests[j].id == id);
    assert(post.contests[j].started_at is Some);
}


impl Store {
    /// The channels registered by this user, in store order.
    pub fn list_channels(&self, owner: i64) -> (r: Vec<Channel>)
        ensures
            r@.map_values(|c: Channel| c@) == self@.channels.filter(
                |c: ChannelV| c.registered_by == owner,
            ),
    {
        let ghost pred = |c: ChannelV| c.registered_by == owner;
        let mut out: Vec<Channel> = Vec::new();
        let mut i: usize = 0;
        while i < self.channels.len()
            invariant
                0 <= i <= self.channels.len(),
                pred == (|c: ChannelV| c.registered_by == owner),
                out@.map_values(|c: Channel| c@) == self@.channels.take(i as int).filter(pred),
            decreases self.channels.len() - i,
        {
            let ghost pre = self@.channels.take(i as int);
            let ghost post = self@.channels.take(i + 1);
            proof {
                assert(post.drop_last() =~= pre);
                assert(post.last() == self@.channels[i as int]);
                assert(self@.channels[i as int] == self.channels@[i as int]@);
                reveal(Seq::filter);
            }
            let c = &self.channels[i];
            if c.registered_by == owner {
                let d = c.duplicate();
                out.push(d);
                proof {
                    assert(out@.map_values(|c: Channel| c@) =~= post.filter(pred));
                }
            } else {
                proof {
                    assert(out@.map_values(|c: Channel| c@) =~= post.filter(pred));
                }
            }
            i += 1;
        }
        proof {
            assert(self@.channels.take(self.channels@.len() as int) =~= self@.channels);
        }
        out
    }
}


impl Store {
    /// The final ranking of a contest over the current invitation table.
    pub fn ranking(&self, contest: i64) -> (r: Vec<Rank>)
        requires
            self@.invites.len() <= i64::MAX,
        ensures
            ranking_ok(self@.invites, contest, r@),
    {
        contest_ranking(&self.invites, contest)
    }

    /// The user's own dense rank in every contest they joined.
    pub fn rank_of_user(&self, user: i64) -> (r: Vec<RankContest>)
        requires
            self@.invites.len() <= i64::MAX,
        ensures
            forall|k: int|
                0 <= k < r@.len() ==> (crate::ranking::cnt_src(
                    self@.invites,
                    (#[trigger] r@[k]).contest,
                    user,
                ) > 0 && r@[k].rank == crate::ranking::spec_rank(self@.invites, r@[k].contest, user)),
            forall|c: i64|
                #[trigger] crate::ranking::cnt_src(self@.invites, c, user) > 0 ==> exists|k: int|
                    0 <= k < r@.len() && (#[trigger] r@[k]).contest == c,
    {
        my_ranks(&self.invites, user)
    }
}


impl Store {
    /// Pairwise distinctness of user ids.
    #[verifier::loop_isolation(false)]
    fn users_check(&self) -> (r: bool)
        ensures
            r == self@.users_wf(),
    {
        let n = self.users.len();
        let mut i: usize = 0;
        while i < n
            invariant
                0 <= i <= n,
                n == self.users.len(),
                forall|a: int, b: int|
                    0 <= a < b < n && a < i ==> (#[trigger] self@.users[a]).id != (
                    #[trigger] self@.users[b]).id,
            decreases n - i,
        {
            let mut j: usize = i + 1;
            while j < n
                invariant
                    i < j <= n,
                    forall|b: int| i < b < j ==> (#[trigger] self@.users[b]).id != self@.users[i as int].id,
                decreases n - j,
            {
                proof {
                    assert(self@.users[i as int] == self.users@[i as int]@);
                    assert(self@.users[j as int] == self.users@[j as int]@);
                }
                if self.users[i].id == self.users[j].id {
                    return false;
                }
                j += 1;
            }
            i += 1;
        }
        true
    }

    /// Pairwise distinctness of channel ids, and their registrants known.
    #[verifier::loop_isolation(false)]
    fn channels_check(&self) -> (r: bool)
        ensures
            r == self@.channels_wf(),
    {
        let n = self.channels.len();
        let mut i: usize = 0;
        while i < n
            invariant
                0 <= i <= n,
                n == self.channels.len(),
                forall|a: int, b: int|
                    0 <= a < b < n && a < i ==> (#[trigger] self@.channels[a]).id != (
                    #[trigger] self@.channels[b]).id,
                forall|a: int|
                    0 <= a < i ==> has_user_id(self@.users, (#[trigger] self@.channels[a]).registered_by),
            decreases n - i,
        {
            proof {
                assert(self@.channels[i as int] == self.channels@[i as int]@);
            }
            let reg = self.channels[i].registered_by;
            match self.get_user(reg) {
                Some(u) => {
                    proof {
                        let w = choose|w: int|
                            0 <= w < self@.users.len() && self@.users[w] == u@;
                        assert(has_user_id(self@.users, reg));
                    }
                },
                None => {
                    return false;
                },
            }
            let mut j: usize = i + 1;
            while j < n
                invariant
                    i < j <= n,
                    forall|b: int|
                        i < b < j ==> (#[trigger] self@.channels[b]).id != self@.channels[i as int].id,
                decreases n - j,
            {
                proof {
                    assert(self@.channels[j as int] == self.channels@[j as int]@);
                }
                if self.channels[i].id == self.channels[j].id {
                    return false;
                }
                j += 1;
            }
            i += 1;
        }
        true
    }

    /// Contest ids and `(name, chan)` pairs distinct, channels known, ids
    /// below the allocator.
    #[verifier::loop_isolation(false)]
    fn contests_check(&self) -> (r: bool)
        ensures
            r == self@.contests_wf(),
    {
        let n = self.contests.len();
        let mut i: usize = 0;
        while i < n
            invariant
                0 <= i <= n,
                n == self.contests.len(),
                forall|a: int, b: int|
                    0 <= a < b < n && a < i ==> ((#[trigger] self@.contests[a]).id != (
                    #[trigger] self@.contests[b]).id && !(self@.contests[a].name
                        == self@.contests[b].name && self@.contests[a].chan
                        == self@.contests[b].chan)),
                forall|a: int|
                    0 <= a < i ==> (has_channel_id(self@.channels, (#[trigger] self@.contests[a]).chan)
                        && self@.contests[a].id < self@.next_contest_id),
            decreases n - i,
        {
            proof {
                assert(self@.contests[i as int] == self.contests@[i as int]@);
            }
            if self.contests[i].id >= self.next_contest_id {
                return false;
            }
            match self.get_channel(self.contests[i].chan) {
                Some(c) => {
                    proof {
                        let w = choose|w: int|
                            0 <= w < self@.channels.len() && self@.channels[w] == c@;
                        assert(has_channel_id(self@.channels, self@.contests[i as int].chan));
                    }
                },
                None => {
                    return false;
                },
            }
            let mut j: usize = i + 1;
            while j < n
                invariant
                    i < j <= n,
                    forall|b: int|
                        i < b < j ==> ((#[trigger] self@.contests[b]).id
                            != self@.contests[i as int].id && !(self@.contests[b].name
                            == self@.contests[i as int].name && self@.contests[b].chan
                            == self@.contests[i as int].chan)),
                decreases n - j,
            {
                proof {
                    assert(self@.contests[j as int] == self.contests@[j as int]@);
                }
                if self.contests[i].id == self.contests[j].id {
                    return false;
                }
                if self.contests[i].name == self.contests[j].name && self.contests[i].chan
                    == self.contests[j].chan {
                    return false;
                }
                j += 1;
            }
            i += 1;
        }
        true
    }

    /// Invitation integrity: distinct ids, distinct referral triples, no
    /// self-invitation, every reference known, ids below the allocator.
    #[verifier::loop_isolation(false)]
    fn invites_check(&self) -> (r: bool)
        ensures
            r == self@.invites_wf(),
    {
        let n = self.invites.len();
        let mut i: usize = 0;
        while i < n
            invariant
                0 <= i <= n,
                n == self.invites.len(),
                forall|a: int, b: int|
                    0 <= a < b < n && a < i ==> ((#[trigger] self@.invites[a]).id != (
                    #[trigger] self@.invites[b]).id && !(self@.invites[a].source
                        == self@.invites[b].source && self@.invites[a].dest
                        == self@.invites[b].dest && self@.invites[a].chan
                        == self@.invites[b].chan)),
                forall|a: int|
                    0 <= a < i ==> ((#[trigger] self@.invites[a]).source != self@.invites[a].dest
                        && has_user_id(self@.users, self@.invites[a].source) && has_user_id(
                        self@.users,
                        self@.invites[a].dest,
                    ) && has_channel_id(self@.channels, self@.invites[a].chan) && has_contest_id(
                        self@.contests,
                        self@.invites[a].contest,
                    ) && self@.invites[a].id < self@.next_invite_id),
            decreases n - i,
        {
            let v = self.invites[i];
            proof {
                assert(self@.invites[i as int] == v);
            }
            if v.source == v.dest || v.id >= self.next_invite_id {
                proof {
                    assert(!self@.invites_wf());
                }
                return false;
            }
            match self.get_user(v.source) {
                Some(u) => {
                    proof {
                        let w = choose|w: int|
                            0 <= w < self@.users.len() && self@.users[w] == u@;
                        assert(has_user_id(self@.users, v.source));
                    }
                },
                None => {
                    return false;
                },
            }
            match self.get_user(v.dest) {
                Some(u) => {
                    proof {
                        let w = choose|w: int|
                            0 <= w < self@.users.len() && self@.users[w] == u@;
                        assert(has_user_id(self@.users, v.dest));
                    }
                },
                None => {
                    return false;
                },
            }
            match self.get_channel(v.chan) {
                Some(c) => {
                    proof {
                        let w = choose|w: int|
                            0 <= w < self@.channels.len() && self@.channels[w] == c@;
                        assert(has_channel_id(self@.channels, v.chan));
                    }
                },
                None => {
                    return false;
                },
            }
            match self.get_contest(v.contest) {
                Some(c) => {
                    proof {
                        let w = choose|w: int|
                            0 <= w < self@.contests.len() && self@.contests[w] == c@;
                        assert(has_contest_id(self@.contests, v.contest));
                    }
                },
                None => {
                    return false;
                },
            }
            let mut j: usize = i + 1;
            while j < n
                invariant
                    i < j <= n,
                    forall|b: int|
                        i < b < j ==> ((#[trigger] self@.invites[b]).id != self@.invites[i as int].id
                            && !(self@.invites[b].source == self@.invites[i as int].source
                            && self@.invites[b].dest == self@.invites[i as int].dest
                            && self@.invites[b].chan == self@.invites[i as int].chan)),
                decreases n - j,
            {
                let u = self.invites[j];
                proof {
                    assert(self@.invites[j as int] == u);
                }
                if v.id == u.id {
                    proof {
                        assert(!self@.invites_wf());
                    }
                    return false;
                }
                if v.source == u.source && v.dest == u.dest && v.chan == u.chan {
                    proof {
                        assert(!self@.invites_wf());
                    }
                    return false;
                }
                j += 1;
            }
            i += 1;
        }
        true
    }

    /// Pending-edit rows: strictly increasing ids below the allocator, and
    /// their channels known.
    #[verifier::loop_isolation(false)]
    fn edits_check(&self) -> (r: bool)
        ensures
            r == self@.pending_edits_wf(),
    {
        let n = self.pending_edits.len();
        let mut i: usize = 0;
        while i < n
            invariant
                0 <= i <= n,
                n == self.pending_edits.len(),
                forall|a: int, b: int|
                    0 <= a < b < n && a < i ==> (#[trigger] self@.pending_edits[a]).id < (
                    #[trigger] self@.pending_edits[b]).id,
                forall|a: int|
                    0 <= a < i ==> ((#[trigger] self@.pending_edits[a]).id < self@.next_edit_id
                        && has_channel_id(self@.channels, self@.pending_edits[a].chan)),
            decreases n - i,
        {
            let e = self.pending_edits[i];
            proof {
                assert(self@.pending_edits[i as int] == e);
            }
            if e.id >= self.next_edit_id {
                proof {
                    assert(!self@.pending_edits_wf());
                }
                return false;
            }
            match self.get_channel(e.chan) {
                Some(c) => {
                    proof {
                        let w = choose|w: int|
                            0 <= w < self@.channels.len() && self@.channels[w] == c@;
                        assert(has_channel_id(self@.channels, e.chan));
                    }
                },
                None => {
                    return false;
                },
            }
            let mut j: usize = i + 1;
            while j < n
                invariant
                    i < j <= n,
                    forall|b: int|
                        i < b < j ==> self@.pending_edits[i as int].id < (
                        #[trigger] self@.pending_edits[b]).id,
                decreases n - j,
            {
                if self.pending_edits[i].id >= self.pending_edits[j].id {
                    proof {
                        assert(self@.pending_edits[i as int].id >= self@.pending_edits[j as int].id);
                        assert(!self@.pending_edits_wf());
                    }
                    return false;
                }
                j += 1;
            }
            i += 1;
        }
        true
    }

    /// Pending-contact rows: strictly increasing ids below the allocator,
    /// winner and owner known.
    #[verifier::loop_isolation(false)]
    fn contacts_check(&self) -> (r: bool)
        ensures
            r == self@.pending_contacts_wf(),
    {
        let n = self.pending_contacts.len();
        let mut i: usize = 0;
        while i < n
            invariant
                0 <= i <= n,
                n == self.pending_contacts.len(),
                forall|a: int, b: int|
                    0 <= a < b < n && a < i ==> (#[trigger] self@.pending_contacts[a]).id < (
                    #[trigger] self@.pending_contacts[b]).id,
                forall|a: int|
                    0 <= a < i ==> ((#[trigger] self@.pending_contacts[a]).id
                        < self@.next_contact_id && has_user_id(
                        self@.users,
                        self@.pending_contacts[a].user,
                    ) && has_user_id(self@.users, self@.pending_contacts[a].owner)),
            decreases n - i,
        {
            let p = self.pending_contacts[i];
            proof {
                assert(self@.pending_contacts[i as int] == p);
            }
            if p.id >= self.next_contact_id {
                proof {
                    assert(!self@.pending_contacts_wf());
                }
                return false;
            }
            match self.get_user(p.user) {
                Some(u) => {
                    proof {
                        let w = choose|w: int|
                            0 <= w < self@.users.len() && self@.users[w] == u@;
                        assert(has_user_id(self@.users, p.user));
                    }
                },
                None => {
                    return false;
                },
            }
            match self.get_user(p.owner) {
                Some(u) => {
                    proof {
                        let w = choose|w: int|
                            0 <= w < self@.users.len() && self@.users[w] == u@;
                        assert(has_user_id(self@.users, p.owner));
                    }
                },
                None => {
                    return false;
                },
            }
            let mut j: usize = i + 1;
            while j < n
                invariant
                    i < j <= n,
                    forall|b: int|
                        i < b < j ==> self@.pending_contacts[i as int].id < (
                        #[trigger] self@.pending_contacts[b]).id,
                decreases n - j,
            {
                if self.pending_contacts[i].id >= self.pending_contacts[j].id {
                    proof {
                        assert(self@.pending_contacts[i as int].id >= self@.pending_contacts[j
                            as int].id);
                        assert(!self@.pending_contacts_wf());
                    }
                    return false;
                }
                j += 1;
            }
            i += 1;
        }
        true
    }

    /// Decides well-formedness of the whole store at run time: true exactly
    /// when [`StoreV::wf`] holds, so externally loaded data can be validated
    /// before any operation relies on it.
    pub fn check_wf(&self) -> (r: bool)
        ensures
            r == self.wf(),
    {
        self.users_check() && self.channels_check() && self.contests_check()
            && self.invites_check() && self.edits_check() && self.contacts_check()
    }
}

} // verus!
