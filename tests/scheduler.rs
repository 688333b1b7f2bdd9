use rating_exchange::models::{ExchangeState, UtcDateTime};
use rating_exchange::scheduler::{
    ExchangeStorageEvent,
    announce, closing_action, on_event, sleep_nanos, transition, ClosingAction, ExchangeEvent,
    SchedulerAction, SchedulerEvent, DEFAULT_SLEEP_NANOS, HOUR_NANOS,
};

const NOON_2024: i128 = 1_704_110_400 * 1_000_000_000;
const MINUTE: i128 = 60 * 1_000_000_000;

fn t(nanos: i128) -> UtcDateTime {
    UtcDateTime::from_unix_nanos(nanos)
}

#[test]
fn announce_at_start_opens() {
    assert_eq!(announce(t(NOON_2024), t(NOON_2024)), ExchangeState::AcceptingSubmissions);
}

#[test]
fn announce_at_threshold_still_opens() {
    assert_eq!(announce(t(NOON_2024 + HOUR_NANOS), t(NOON_2024)), ExchangeState::AcceptingSubmissions);
}

#[test]
fn announce_past_threshold_misses() {
    assert_eq!(announce(t(NOON_2024 + HOUR_NANOS + 1), t(NOON_2024)), ExchangeState::MissedByBot);
}

#[test]
fn missed_start_two_hours_late() {
    let now = t(NOON_2024 + 2 * HOUR_NANOS + MINUTE);
    assert_eq!(announce(now, t(NOON_2024)), ExchangeState::MissedByBot);
}

#[test]
fn closing_actions() {
    let end = t(NOON_2024 + HOUR_NANOS);
    assert_eq!(closing_action(end, end), ClosingAction::Assign);
    assert_eq!(closing_action(t(NOON_2024 + 2 * HOUR_NANOS), end), ClosingAction::Assign);
    assert_eq!(closing_action(t(NOON_2024 + 2 * HOUR_NANOS + 1), end), ClosingAction::MarkMissed);
}

#[test]
fn extreme_times_do_not_overflow() {
    assert_eq!(announce(t(i128::MAX), t(i128::MIN)), ExchangeState::MissedByBot);
    assert_eq!(announce(t(i128::MIN), t(i128::MAX)), ExchangeState::AcceptingSubmissions);
}

#[test]
fn lifecycle_transitions() {
    assert_eq!(transition(ExchangeState::NotStartedYet, ExchangeEvent::StartReached { late: false }), Some(ExchangeState::AcceptingSubmissions));
    assert_eq!(transition(ExchangeState::NotStartedYet, ExchangeEvent::StartReached { late: true }), Some(ExchangeState::MissedByBot));
    assert_eq!(transition(ExchangeState::AcceptingSubmissions, ExchangeEvent::EndReached { late: true }), Some(ExchangeState::MissedByBot));
    assert_eq!(transition(ExchangeState::AcceptingSubmissions, ExchangeEvent::EndReached { late: false }), None);
    assert_eq!(transition(ExchangeState::AcceptingSubmissions, ExchangeEvent::AssignmentFinished { ok: true }), Some(ExchangeState::AssignmentsSent));
    assert_eq!(transition(ExchangeState::AcceptingSubmissions, ExchangeEvent::AssignmentFinished { ok: false }), Some(ExchangeState::AssignmentError));
    assert_eq!(transition(ExchangeState::NotStartedYet, ExchangeEvent::AssignmentFinished { ok: true }), None);
}

#[test]
fn terminal_states_never_move() {
    let events = [
        ExchangeEvent::StartReached { late: false },
        ExchangeEvent::StartReached { late: true },
        ExchangeEvent::EndReached { late: false },
        ExchangeEvent::EndReached { late: true },
        ExchangeEvent::AssignmentFinished { ok: true },
        ExchangeEvent::AssignmentFinished { ok: false },
    ];
    for state in [ExchangeState::AssignmentsSent, ExchangeState::MissedByBot, ExchangeState::AssignmentError] {
        assert!(state.is_terminal());
        for event in events {
            assert_eq!(transition(state, event), None);
        }
    }
    assert!(!ExchangeState::NotStartedYet.is_terminal());
    assert!(!ExchangeState::AcceptingSubmissions.is_terminal());
}

#[test]
fn scheduler_events() {
    assert_eq!(on_event(SchedulerEvent::Tick), SchedulerAction::RunDueWork);
    assert_eq!(on_event(SchedulerEvent::ExchangesUpdated), SchedulerAction::Reschedule);
    assert_eq!(on_event(SchedulerEvent::Shutdown), SchedulerAction::Exit);
}

#[test]
fn sleep_lengths() {
    let now = t(NOON_2024);
    assert_eq!(sleep_nanos(None, now), DEFAULT_SLEEP_NANOS);
    assert_eq!(sleep_nanos(Some(t(NOON_2024 + MINUTE)), now), MINUTE);
    assert_eq!(sleep_nanos(Some(t(NOON_2024 - MINUTE)), now), 0);
    assert_eq!(sleep_nanos(Some(t(i128::MAX)), t(i128::MIN)), i128::MAX);
}

#[test]
fn unix_timestamp_rounds_down() {
    assert_eq!(t(1_500_000_000).unix_timestamp(), 1);
    assert_eq!(t(-1).unix_timestamp(), -1);
    assert_eq!(t(NOON_2024).unix_timestamp(), 1_704_110_400);
}

#[test]
fn storage_events_wake_the_scheduler() {
    let event = ExchangeStorageEvent::ExchangesUpdated.to_scheduler_event();
    assert_eq!(event, SchedulerEvent::ExchangesUpdated);
    assert_eq!(on_event(event), SchedulerAction::Reschedule);
}
