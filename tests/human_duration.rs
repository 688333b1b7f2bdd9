use rating_exchange::commands::CommandError;
use rating_exchange::human_duration::HumanDuration;

const EXAMPLE_1: &str = "1 day 3 hours 2 minutes 59 seconds";
const EXAMPLE_2: &str = "1d 3h 2m 59s";

const DAY: i64 = 86_400;
const HOUR: i64 = 3_600;
const MINUTE: i64 = 60;

#[test]
fn human_duration_simple() {
    assert_eq!(
        HumanDuration::from_str(" 1 day 3h 20 min 30s ").unwrap().seconds,
        DAY + 3 * HOUR + 20 * MINUTE + 30
    );
}

#[test]
fn human_duration_example_1() {
    assert_eq!(
        HumanDuration::from_str(EXAMPLE_1).unwrap().seconds,
        DAY + 3 * HOUR + 2 * MINUTE + 59
    );
}

#[test]
fn human_duration_example_2() {
    assert_eq!(
        HumanDuration::from_str(EXAMPLE_2).unwrap().seconds,
        DAY + 3 * HOUR + 2 * MINUTE + 59
    );
}

#[test]
fn duration_units_and_case() {
    assert_eq!(HumanDuration::from_str("2 D").unwrap().seconds, 2 * DAY);
    assert_eq!(HumanDuration::from_str("90S").unwrap().seconds, 90);
    assert_eq!(HumanDuration::from_str("").unwrap().seconds, 0);
    assert_eq!(HumanDuration::from_str("1 m").unwrap().seconds, MINUTE);
    assert_eq!(HumanDuration::from_str("1d 1d").unwrap().seconds, 2 * DAY);
    assert_eq!(HumanDuration::from_str("5 min").unwrap().nanos(), 300_000_000_000);
}

#[test]
fn duration_errors() {
    for text in ["1", "1 day 2", "day 1", "1 weeks", "1d3h", "1.5h", "-1h", "99999999999 s"] {
        assert!(
            matches!(HumanDuration::from_str(text), Err(CommandError::InvalidArgument { .. })),
            "{text}"
        );
    }
}
