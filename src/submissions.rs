use vstd::prelude::*;

use crate::commands::{
    CommandError, ExchangeSlug, all_slug_chars, ascii_stream, camel, is_slug_char, slugify_camel,
};
use crate::jam_types::{
    JamType, known_entry_link, spec_entry_of_any_jam, spec_normalize_jam_entry_link,
    spec_normalize_jam_link,
};
use crate::models::{
    ChannelId, Exchange, ExchangeState, GuildId, NewExchange, NewSubmission, Submission, UserId,
    UtcDateTime,
};
use crate::text::push_str;

verus! {

/// What storing a new submission amounts to, given the stored submission that conflicts with it.
#[derive(Clone, Debug, PartialEq, Eq)]
pub enum SubmitOutcome {
    /// Nothing conflicts: a new submission.
    Inserted,
    /// The submitter replaces their earlier link.
    Updated { previous_link: String },
    /// Someone else already submitted this link (one submission per team).
    LinkTakenByOtherUser,
}

/// Decides a submission against the stored one with the same submitter or the same link: the
/// same submitter updates their entry; the same link from someone else is refused.
pub fn submit_outcome(submitter: UserId, link: &String, conflict: Option<&Submission>) -> (r: SubmitOutcome)
    ensures
        conflict is None ==> r == SubmitOutcome::Inserted,
        conflict is Some && conflict->0.submitter == submitter ==> r == (SubmitOutcome::Updated {
            previous_link: conflict->0.link,
        }),
        conflict is Some && conflict->0.submitter != submitter && conflict->0.link@ == link@ ==> r
            == SubmitOutcome::LinkTakenByOtherUser,
        conflict is Some && conflict->0.submitter != submitter && conflict->0.link@ != link@ ==> r
            == SubmitOutcome::Inserted,
{
    match conflict {
        None => SubmitOutcome::Inserted,
        Some(c) => {
            if c.submitter == submitter {
                SubmitOutcome::Updated { previous_link: c.link.clone() }
            } else if c.link == *link {
                SubmitOutcome::LinkTakenByOtherUser
            } else {
                SubmitOutcome::Inserted
            }
        },
    }
}

/// The submission a user's link makes in a running exchange: the link normalised for the
/// exchange's jam, or a user error showing what an entry link looks like.
pub fn prepare_submission(exchange: &Exchange, link: &str, submitter: UserId, now: UtcDateTime) -> (r: Result<
    NewSubmission,
    CommandError,
>)
    ensures
        r is Ok <==> spec_normalize_jam_entry_link(exchange.jam_type, exchange.jam_link@, link@) is Some,
        r matches Ok(s) ==> s.exchange_id == exchange.id && s.submitter == submitter && s.submitted_at
            == now && s.link@ == spec_normalize_jam_entry_link(
            exchange.jam_type,
            exchange.jam_link@,
            link@,
        )->0,
        r matches Err(e) ==> e is User,
{
    match exchange.jam_type.normalize_jam_entry_link(exchange.jam_link.as_str(), link) {
        Some(normalized) => Ok(
            NewSubmission { exchange_id: exchange.id, link: normalized, submitter, submitted_at: now },
        ),
        None => {
            let example = exchange.jam_type.jam_entry_link_example(exchange.jam_link.as_str());
            let mut message = String::new();
            push_str(&mut message, "**Your entry link is invalid.**\nIt should look like this: `");
            push_str(&mut message, example.as_str());
            push_str(&mut message, "`.\nMake sure to use the correct submission page.");
            Err(CommandError::User { message })
        },
    }
}

/// The link a member marks as played: the canonical form of an entry of a known jam, or a user
/// error.
pub fn prepare_played(link: &str) -> (r: Result<String, CommandError>)
    ensures
        r is Ok <==> (spec_entry_of_any_jam(JamType::Itch, link@) is Some || spec_entry_of_any_jam(
            JamType::LudumDare,
            link@,
        ) is Some),
        r matches Ok(l) ==> l@ == (if spec_entry_of_any_jam(JamType::Itch, link@) is Some {
            spec_entry_of_any_jam(JamType::Itch, link@)->0
        } else {
            spec_entry_of_any_jam(JamType::LudumDare, link@)->0
        }),
        r matches Err(e) ==> e is User,
{
    match known_entry_link(link) {
        Some(l) => Ok(l),
        None => {
            let mut message = String::new();
            push_str(&mut message, "Invalid entry link, does not match any of known jams");
            Err(CommandError::User { message })
        },
    }
}

/// Most games a member can be assigned.
pub const MAX_GAMES_PER_MEMBER: u8 = 32;

/// Games per member where none is given.
pub const DEFAULT_GAMES_PER_MEMBER: u8 = 5;

/// Length of an exchange where none is given: 24 hours.
pub const DEFAULT_DURATION_NANOS: i128 = 86_400_000_000_000;

/// The slug an exchange gets: the one given, or the camel-case slug of its display name.
pub open spec fn chosen_slug(slug: Option<Seq<char>>, display_name: Seq<char>) -> Seq<char> {
    match slug {
        Some(s) => s,
        None => camel(ascii_stream(display_name), false),
    }
}

/// Checks the arguments of an exchange to be created and fills in the defaults: 5 games per
/// member, a start of `now`, a length of 24 hours, a slug made from the display name.
pub fn prepare_new_exchange(
    guild: GuildId,
    channel: ChannelId,
    jam_type: JamType,
    jam_link: &str,
    display_name: &str,
    games_per_member: Option<u8>,
    start: Option<UtcDateTime>,
    duration_nanos: Option<i128>,
    slug: Option<ExchangeSlug>,
    now: UtcDateTime,
) -> (r: Result<NewExchange, CommandError>)
    ensures
        ({
            let games = match games_per_member {
                Some(g) => g,
                None => DEFAULT_GAMES_PER_MEMBER,
            };
            let begin = match start {
                Some(s) => s,
                None => now,
            };
            let length = match duration_nanos {
                Some(d) => d as int,
                None => DEFAULT_DURATION_NANOS as int,
            };
            let slug_text = chosen_slug(
                match slug {
                    Some(s) => Some(s@),
                    None => None,
                },
                display_name@,
            );
            &&& r is Ok <==> (spec_normalize_jam_link(jam_type, jam_link@) is Some && 1 <= games
                <= MAX_GAMES_PER_MEMBER && length > 0 && begin.unix_nanos + length <= i128::MAX
                && slug_text.len() > 0 && all_slug_chars(slug_text))
            &&& r matches Ok(e) ==> {
                &&& e.guild == guild && e.channel == channel && e.jam_type == jam_type
                &&& e.jam_link@ == spec_normalize_jam_link(jam_type, jam_link@)->0
                &&& e.display_name@ == display_name@
                &&& e.slug@ == slug_text
                &&& e.state == ExchangeState::NotStartedYet
                &&& e.submissions_start == begin
                &&& e.submissions_end.unix_nanos == begin.unix_nanos + length
                &&& e.games_per_member == games
            }
            &&& r matches Err(e) ==> !(e is Internal)
        }),
{
    let link = match jam_type.normalize_jam_link(jam_link) {
        Some(l) => l,
        None => {
            let mut message = String::new();
            push_str(&mut message, "Invalid jam link: `");
            push_str(&mut message, jam_link);
            push_str(&mut message, "`.\nIt should look like this: `");
            push_str(&mut message, jam_type.jam_link_example());
            push_str(&mut message, "`");
            return Err(CommandError::User { message });
        },
    };
    let games = match games_per_member {
        Some(g) => g,
        None => DEFAULT_GAMES_PER_MEMBER,
    };
    if games < 1 || games > MAX_GAMES_PER_MEMBER {
        let mut message = String::new();
        push_str(&mut message, "Games per member must be between 1 and 32.");
        return Err(CommandError::InvalidArgument { message });
    }
    let begin = match start {
        Some(s) => s,
        None => now,
    };
    let length = match duration_nanos {
        Some(d) => d,
        None => DEFAULT_DURATION_NANOS,
    };
    if length <= 0 || begin.unix_nanos > i128::MAX - length {
        let mut message = String::new();
        push_str(&mut message, "The exchange must last a positive time.");
        return Err(CommandError::InvalidArgument { message });
    }
    let slug_text = match slug {
        Some(s) => s.into_string(),
        None => slugify_camel(display_name),
    };
    if !slug_text_ok(slug_text.as_str()) {
        let mut message = String::new();
        push_str(&mut message, "Invalid exchange slug: `");
        push_str(&mut message, slug_text.as_str());
        push_str(&mut message, "`.\nIt can only contain a-z, A-Z, 0-9, a dash (-) or an underscore (_).");
        return Err(CommandError::InvalidArgument { message });
    }
    Ok(NewExchange {
        guild,
        channel,
        jam_type,
        jam_link: link,
        slug: slug_text,
        display_name: display_name.to_owned(),
        state: ExchangeState::NotStartedYet,
        submissions_start: begin,
        submissions_end: UtcDateTime::from_unix_nanos(begin.unix_nanos + length),
        games_per_member: games,
    })
}

/// Whether `s` is a non-empty run of slug characters.
fn slug_text_ok(s: &str) -> (r: bool)
    ensures
        r == (s@.len() > 0 && all_slug_chars(s@)),
{
    let n = s.unicode_len();
    if n == 0 {
        return false;
    }
    let mut i: usize = 0;
    while i < n
        invariant
            n == s@.len(),
            i <= n,
            forall|j: int| 0 <= j < i ==> is_slug_char(#[trigger] s@[j]),
        decreases n - i,
    {
        let c = s.get_char(i);
        if !(('a' <= c && c <= 'z') || ('A' <= c && c <= 'Z') || ('0' <= c && c <= '9') || c == '-' || c == '_') {
            return false;
        }
        i += 1;
    }
    true
}

} // verus!
