use vstd::prelude::*;

use crate::jam_types::JamType;

verus! {

/// A chat-platform user.
#[derive(Clone, Copy, Debug, PartialEq, Eq, Hash, Structural)]
pub struct UserId(pub u64);

/// A chat-platform guild (community).
#[derive(Clone, Copy, Debug, PartialEq, Eq, Hash, Structural)]
pub struct GuildId(pub u64);

/// A channel of a guild.
#[derive(Clone, Copy, Debug, PartialEq, Eq, Hash, Structural)]
pub struct ChannelId(pub u64);

#[derive(Clone, Copy, Debug, PartialEq, Eq, Hash, Structural)]
pub struct ExchangeId(pub u64);

#[derive(Clone, Copy, Debug, PartialEq, Eq, Hash, Structural)]
pub struct SubmissionId(pub u64);

#[derive(Clone, Copy, Debug, PartialEq, Eq, Hash, Structural)]
pub struct PlayedGameId(pub u64);

/// A point in time, in UTC, as nanoseconds since the Unix epoch.
#[derive(Clone, Copy, Debug, PartialEq, Eq, Hash, Structural)]
pub struct UtcDateTime {
    pub unix_nanos: i128,
}

/// Nanoseconds in a second.
pub const NANOS_PER_SECOND: i128 = 1_000_000_000;

impl UtcDateTime {
    pub fn from_unix_nanos(unix_nanos: i128) -> (r: UtcDateTime)
        ensures
            r.unix_nanos == unix_nanos,
    {
        UtcDateTime { unix_nanos }
    }

    /// Whole seconds since the Unix epoch, rounded towards negative infinity.
    pub fn unix_timestamp(&self) -> (r: i128)
        ensures
            r == self.unix_nanos as int / NANOS_PER_SECOND as int,
    {
        let q = self.unix_nanos / NANOS_PER_SECOND;
        let r = self.unix_nanos % NANOS_PER_SECOND;
        if r < 0 {
            q - 1
        } else {
            q
        }
    }

    /// How far `self` lies after `earlier`, in nanoseconds, as a mathematical difference.
    pub open spec fn spec_since(&self, earlier: UtcDateTime) -> int {
        self.unix_nanos - earlier.unix_nanos
    }

    /// `self` lies more than `threshold` nanoseconds after `earlier`.
    pub fn is_later_than_by(&self, earlier: UtcDateTime, threshold: i128) -> (r: bool)
        requires
            threshold >= 0,
        ensures
            r == (self.spec_since(earlier) > threshold),
    {
        match self.unix_nanos.checked_sub(earlier.unix_nanos) {
            Some(d) => d > threshold,
            None => self.unix_nanos > earlier.unix_nanos,
        }
    }
}

/// The lifecycle state of an exchange.
#[derive(Clone, Copy, Debug, PartialEq, Eq, Hash, Structural)]
pub enum ExchangeState {
    NotStartedYet,
    AcceptingSubmissions,
    AssignmentsSent,
    MissedByBot,
    AssignmentError,
}

impl ExchangeState {
    /// Once here, an exchange never changes state again.
    pub open spec fn spec_is_terminal(&self) -> bool {
        match self {
            ExchangeState::AssignmentsSent | ExchangeState::MissedByBot
            | ExchangeState::AssignmentError => true,
            _ => false,
        }
    }

    pub fn is_terminal(&self) -> (r: bool)
        ensures
            r == self.spec_is_terminal(),
    {
        match self {
            ExchangeState::AssignmentsSent | ExchangeState::MissedByBot
            | ExchangeState::AssignmentError => true,
            _ => false,
        }
    }
}

/// One scheduled rating round within a guild and channel.
#[derive(Clone, Debug)]
pub struct Exchange {
    pub id: ExchangeId,
    pub guild: GuildId,
    pub channel: ChannelId,
    pub jam_type: JamType,
    pub jam_link: String,
    pub slug: String,
    pub display_name: String,
    pub state: ExchangeState,
    pub submissions_start: UtcDateTime,
    pub submissions_end: UtcDateTime,
    pub games_per_member: u8,
}

impl Exchange {
    /// The submission window is non-empty and each member rates between 1 and 32 games.
    pub open spec fn wf(&self) -> bool {
        &&& self.submissions_start.unix_nanos < self.submissions_end.unix_nanos
        &&& 1 <= self.games_per_member <= 32
    }
}

/// An exchange about to be created.
#[derive(Clone, Debug)]
pub struct NewExchange {
    pub guild: GuildId,
    pub channel: ChannelId,
    pub jam_type: JamType,
    pub jam_link: String,
    pub slug: String,
    pub display_name: String,
    pub state: ExchangeState,
    pub submissions_start: UtcDateTime,
    pub submissions_end: UtcDateTime,
    pub games_per_member: u8,
}

/// A member's entry into an exchange.
#[derive(Clone, Debug, PartialEq, Eq)]
pub struct Submission {
    pub id: SubmissionId,
    pub exchange_id: ExchangeId,
    pub link: String,
    pub submitter: UserId,
    pub submitted_at: UtcDateTime,
}

impl Submission {
    /// A copy with the same fields.
    pub fn copy(&self) -> (r: Submission)
        ensures
            r == *self,
    {
        Submission {
            id: self.id,
            exchange_id: self.exchange_id,
            link: self.link.clone(),
            submitter: self.submitter,
            submitted_at: self.submitted_at,
        }
    }
}

/// A submission about to be stored.
#[derive(Clone, Debug)]
pub struct NewSubmission {
    pub exchange_id: ExchangeId,
    pub link: String,
    pub submitter: UserId,
    pub submitted_at: UtcDateTime,
}

/// A "do-not-assign" record: `member` has already played the game at `link`.
#[derive(Clone, Debug, PartialEq, Eq)]
pub struct PlayedGame {
    pub id: PlayedGameId,
    pub link: String,
    pub member: UserId,
    pub is_manual: bool,
}

} // verus!
