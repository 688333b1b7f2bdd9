use rating_exchange::commands::{CommandError, ExchangeSlug};
use rating_exchange::jam_types::JamType;
use rating_exchange::models::{
    ChannelId, Exchange, ExchangeId, ExchangeState, GuildId, Submission, SubmissionId, UserId,
    UtcDateTime,
};
use rating_exchange::submissions::{
    prepare_played,
    prepare_new_exchange, prepare_submission, submit_outcome, SubmitOutcome,
    DEFAULT_DURATION_NANOS,
};

const NOON_2024: i128 = 1_704_110_400 * 1_000_000_000;
const MINUTE: i128 = 60 * 1_000_000_000;

fn instant(nanos: i128) -> UtcDateTime {
    UtcDateTime::from_unix_nanos(nanos)
}

fn running_exchange() -> Exchange {
    Exchange {
        id: ExchangeId(1),
        guild: GuildId(2),
        channel: ChannelId(3),
        jam_type: JamType::Itch,
        jam_link: "https://itch.io/jam/jam1".to_string(),
        slug: "jam1".to_string(),
        display_name: "Jam One".to_string(),
        state: ExchangeState::AcceptingSubmissions,
        submissions_start: instant(NOON_2024),
        submissions_end: instant(NOON_2024 + 60 * MINUTE),
        games_per_member: 2,
    }
}

fn stored(user: u64, link: &str) -> Submission {
    Submission {
        id: SubmissionId(10),
        exchange_id: ExchangeId(1),
        link: link.to_string(),
        submitter: UserId(user),
        submitted_at: instant(NOON_2024 + 10 * MINUTE),
    }
}

#[test]
fn first_submission_is_inserted() {
    assert_eq!(submit_outcome(UserId(7), &"/rate/1".to_string(), None), SubmitOutcome::Inserted);
}

#[test]
fn same_user_new_link_updates() {
    let previous = stored(7, "https://itch.io/jam/jam1/rate/1");
    let link = "https://itch.io/jam/jam1/rate/2".to_string();
    assert_eq!(
        submit_outcome(UserId(7), &link, Some(&previous)),
        SubmitOutcome::Updated { previous_link: "https://itch.io/jam/jam1/rate/1".to_string() }
    );
}

#[test]
fn same_user_same_link_updates() {
    let previous = stored(7, "https://itch.io/jam/jam1/rate/1");
    let link = "https://itch.io/jam/jam1/rate/1".to_string();
    assert!(matches!(submit_outcome(UserId(7), &link, Some(&previous)), SubmitOutcome::Updated { .. }));
}

#[test]
fn other_user_same_link_is_refused() {
    let previous = stored(7, "https://itch.io/jam/jam1/rate/1");
    let link = "https://itch.io/jam/jam1/rate/1".to_string();
    assert_eq!(submit_outcome(UserId(8), &link, Some(&previous)), SubmitOutcome::LinkTakenByOtherUser);
}

#[test]
fn prepare_submission_normalises() {
    let now = instant(NOON_2024 + 30 * MINUTE);
    let s = prepare_submission(&running_exchange(), "https://itch.io/jam/jam1/rate/3/", UserId(9), now).unwrap();
    assert_eq!(s.link, "https://itch.io/jam/jam1/rate/3");
    assert_eq!(s.submitter, UserId(9));
    assert_eq!(s.exchange_id, ExchangeId(1));
    assert_eq!(s.submitted_at, now);
}

#[test]
fn prepare_submission_rejects_foreign_link() {
    let now = instant(NOON_2024);
    match prepare_submission(&running_exchange(), "https://itch.io/jam/other/rate/3", UserId(9), now) {
        Err(CommandError::User { message }) => assert!(message.contains("https://itch.io/jam/jam1/rate/123456")),
        other => panic!("unexpected {:?}", other),
    }
}

#[test]
fn new_exchange_defaults() {
    let now = instant(NOON_2024);
    let e = prepare_new_exchange(
        GuildId(1),
        ChannelId(2),
        JamType::Itch,
        " https://itch.io/jam/bevy-jam-2/".trim(),
        "JEEZ Game Jam 2023",
        None,
        None,
        None,
        None,
        now,
    )
    .unwrap();
    assert_eq!(e.jam_link, "https://itch.io/jam/bevy-jam-2");
    assert_eq!(e.slug, "JEEZGameJam2023");
    assert_eq!(e.games_per_member, 5);
    assert_eq!(e.submissions_start, now);
    assert_eq!(e.submissions_end.unix_nanos, NOON_2024 + DEFAULT_DURATION_NANOS);
    assert_eq!(e.state, ExchangeState::NotStartedYet);
}

#[test]
fn new_exchange_with_arguments() {
    let now = instant(NOON_2024);
    let slug = ExchangeSlug::from_str("jam1").unwrap();
    let e = prepare_new_exchange(
        GuildId(1),
        ChannelId(2),
        JamType::LudumDare,
        "https://ldjam.com/events/ludum-dare/49",
        "Ludum",
        Some(2),
        Some(instant(NOON_2024 + MINUTE)),
        Some(60 * MINUTE),
        Some(slug),
        now,
    )
    .unwrap();
    assert_eq!(e.slug, "jam1");
    assert_eq!(e.games_per_member, 2);
    assert_eq!(e.submissions_start, instant(NOON_2024 + MINUTE));
    assert_eq!(e.submissions_end, instant(NOON_2024 + 61 * MINUTE));
}

#[test]
fn new_exchange_errors() {
    let now = instant(NOON_2024);
    let make = |link: &str, name: &str, games: Option<u8>, duration: Option<i128>| {
        prepare_new_exchange(GuildId(1), ChannelId(2), JamType::Itch, link, name, games, None, duration, None, now)
    };
    let link = "https://itch.io/jam/x";
    assert!(matches!(make("https://itch.io/x", "Name", None, None), Err(CommandError::User { .. })));
    assert!(matches!(make(link, "Name", Some(0), None), Err(CommandError::InvalidArgument { .. })));
    assert!(matches!(make(link, "Name", Some(33), None), Err(CommandError::InvalidArgument { .. })));
    assert!(make(link, "Name", Some(32), None).is_ok());
    assert!(matches!(make(link, "Name", None, Some(0)), Err(CommandError::InvalidArgument { .. })));
    assert!(matches!(make(link, "!!!", None, None), Err(CommandError::InvalidArgument { .. })));
}

#[test]
fn played_links() {
    assert_eq!(
        prepare_played("https://itch.io/jam/bevy-jam-2/rate/1675016/").unwrap(),
        "https://itch.io/jam/bevy-jam-2/rate/1675016"
    );
    assert_eq!(
        prepare_played("https://ldjam.com/events/ludum-dare/49/unstable98-exe").unwrap(),
        "https://ldjam.com/events/ludum-dare/49/unstable98-exe"
    );
    assert!(matches!(prepare_played("https://ldjam.com/events/ludum-dare/49/results"), Err(CommandError::User { .. })));
    assert!(prepare_played("https://itch.io/jam/bevy-jam-2").is_err());
    assert!(prepare_played("https://redteapot.itch.io/one-clicker").is_err());
}
