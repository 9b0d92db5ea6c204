//! Verified core of a referral-contest ("refer a friend") chat bot.
//!
//! Channel owners create time-boxed contests; members mint referral links;
//! accepted invitations are credited to the inviting user after a delayed
//! membership check, and at contest end a deterministic ranking selects the
//! winner.
//!
//! - [`codec`]: the referral token (URL-safe base64 of a query string), with
//!   its round-trip law.
//! - [`store`]: users, channels, contests, invitations and the two
//!   pending-operation tables, with the integrity rules every operation
//!   preserves.
//! - [`ranking`]: invitation counts, the dense ranking with its deterministic
//!   tie-break, and a user's own ranks.
//! - [`contests`]: the three-line free-text contest submission.
//! - [`fsm`]: the callback event grammar and the orchestrating state machine:
//!   menu actions, the accept-invitation flow with its single delayed
//!   re-check, and contest finalization with pruning.
//! - [`dec`], [`text`], [`types`]: decimal numbers, character utilities, and
//!   the data model.
//!
//! Everything that talks to the outside world (the messaging platform, the
//! clock, persistence) stays outside; these functions take such answers as
//! plain values.

pub mod codec;
pub mod contests;
pub mod dec;
pub mod fsm;
pub mod ranking;
pub mod store;
pub mod text;
pub mod types;
