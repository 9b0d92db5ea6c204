//! Data model of the contest system: users, channels, contests, invitations,
//! and the two pending-operation markers that route free-text messages.
//!
//! Timestamps are Unix seconds; all identifiers are `i64` as assigned by the
//! messaging platform (users, channels) or generated locally (contests,
//! invitations, pending rows). Types that carry strings have a mathematical
//! view (`UserV`, `ChannelV`, `ContestV`) used by all contracts.

use vstd::prelude::*;

verus! {

/// A human interacting with the bot.
#[derive(Debug, Clone, PartialEq, Eq)]
pub struct User {
    /// Platform-assigned unique id.
    pub id: i64,
    /// Mandatory first name.
    pub first_name: String,
    /// Optional last name.
    pub last_name: Option<String>,
    /// Optional public handle; a winner without one must be contacted
    /// through the bot.
    pub username: Option<String>,
}

/// Mathematical view of a [`User`].
pub struct UserV {
    pub id: i64,
    pub first_name: Seq<char>,
    pub last_name: Option<Seq<char>>,
    pub username: Option<Seq<char>>,
}

impl View for User {
    type V = UserV;

    open spec fn view(&self) -> UserV {
        UserV {
            id: self.id,
            first_name: self.first_name@,
            last_name: match self.last_name {
                Some(s) => Some(s@),
                None => None,
            },
            username: match self.username {
                Some(s) => Some(s@),
                None => None,
            },
        }
    }
}

impl User {
    /// An equal copy of this user.
    pub fn duplicate(&self) -> (r: User)
        ensures
            r@ == self@,
    {
        User {
            id: self.id,
            first_name: self.first_name.clone(),
            last_name: match &self.last_name {
                Some(s) => Some(s.clone()),
                None => None,
            },
            username: match &self.username {
                Some(s) => Some(s.clone()),
                None => None,
            },
        }
    }
}

/// A channel (or group) registered to the bot.
#[derive(Debug, Clone, PartialEq, Eq)]
pub struct Channel {
    /// Platform-assigned unique id.
    pub id: i64,
    /// The user that registered the channel.
    pub registered_by: i64,
    /// Invite link of the channel.
    pub link: String,
    /// Channel name.
    pub name: String,
}

/// Mathematical view of a [`Channel`].
pub struct ChannelV {
    pub id: i64,
    pub registered_by: i64,
    pub link: Seq<char>,
    pub name: Seq<char>,
}

impl View for Channel {
    type V = ChannelV;

    open spec fn view(&self) -> ChannelV {
        ChannelV {
            id: self.id,
            registered_by: self.registered_by,
            link: self.link@,
            name: self.name@,
        }
    }
}

impl Channel {
    /// An equal copy of this channel.
    pub fn duplicate(&self) -> (r: Channel)
        ensures
            r@ == self@,
    {
        Channel {
            id: self.id,
            registered_by: self.registered_by,
            link: self.link.clone(),
            name: self.name.clone(),
        }
    }
}

/// A referral contest tied to one channel.
#[derive(Debug, Clone, PartialEq, Eq)]
pub struct Contest {
    /// Locally generated unique id.
    pub id: i64,
    /// Contest name, unique per channel.
    pub name: String,
    /// The prize for the winner.
    pub prize: String,
    /// End of the contest (Unix seconds); invitations are not credited after it.
    pub end: i64,
    /// Set once when the owner starts the contest; irreversible.
    pub started_at: Option<i64>,
    /// Set once when the owner stops the contest; irreversible.
    pub stopped: bool,
    /// The channel this contest belongs to.
    pub chan: i64,
}

/// Mathematical view of a [`Contest`].
pub struct ContestV {
    pub id: i64,
    pub name: Seq<char>,
    pub prize: Seq<char>,
    pub end: i64,
    pub started_at: Option<i64>,
    pub stopped: bool,
    pub chan: i64,
}

impl View for Contest {
    type V = ContestV;

    open spec fn view(&self) -> ContestV {
        ContestV {
            id: self.id,
            name: self.name@,
            prize: self.prize@,
            end: self.end,
            started_at: self.started_at,
            stopped: self.stopped,
            chan: self.chan,
        }
    }
}

impl Contest {
    /// An equal copy of this contest.
    pub fn duplicate(&self) -> (r: Contest)
        ensures
            r@ == self@,
    {
        Contest {
            id: self.id,
            name: self.name.clone(),
            prize: self.prize.clone(),
            end: self.end,
            started_at: self.started_at,
            stopped: self.stopped,
            chan: self.chan,
        }
    }
}

/// A credited, verified referral from `source` to `dest` for a contest.
#[derive(Debug, Clone, Copy, PartialEq, Eq, Structural)]
pub struct Invite {
    /// Locally generated unique id.
    pub id: i64,
    /// Creation time (Unix seconds).
    pub date: i64,
    /// The inviting user.
    pub source: i64,
    /// The invited user.
    pub dest: i64,
    /// The channel `dest` joined.
    pub chan: i64,
    /// The contest the referral is credited to.
    pub contest: i64,
}

/// Marker: the next free-text message from this channel's owner is contest data.
#[derive(Debug, Clone, Copy, PartialEq, Eq, Structural)]
pub struct PendingEdit {
    /// Locally generated id; rows with greater ids are more recent.
    pub id: i64,
    /// The channel being managed.
    pub chan: i64,
}

/// Marker: the owner still has one free-text message to forward to a winner
/// that has no public handle.
#[derive(Debug, Clone, Copy, PartialEq, Eq, Structural)]
pub struct PendingContact {
    /// Locally generated id; rows with greater ids are more recent.
    pub id: i64,
    /// The winner to contact.
    pub user: i64,
    /// The contest owner who must send the message.
    pub owner: i64,
    /// True once the message was forwarded; such rows are ignored by lookup.
    pub contacted: bool,
}

/// One row of a contest ranking.
#[derive(Debug, Clone, Copy, PartialEq, Eq, Structural)]
pub struct Rank {
    /// Dense position in the chart, starting at 1.
    pub rank: i64,
    /// Number of credited invitations for `user` in this contest.
    pub invites: i64,
    /// The inviting user holding this position.
    pub user: i64,
}

/// A user's own rank in one contest, as reported by `my_ranks`.
#[derive(Debug, Clone, Copy, PartialEq, Eq, Structural)]
pub struct RankContest {
    /// Dense position of the user in that contest.
    pub rank: i64,
    /// The contest id.
    pub contest: i64,
}

} // verus!
