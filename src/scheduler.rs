use vstd::prelude::*;

use crate::models::{ExchangeState, UtcDateTime};

verus! {

/// Nanoseconds in an hour.
pub const HOUR_NANOS: i128 = 3_600_000_000_000;

/// How late past its start an exchange may still be opened.
pub const START_THRESHOLD_NANOS: i128 = HOUR_NANOS;

/// How late past its end an exchange may still be assigned.
pub const END_THRESHOLD_NANOS: i128 = HOUR_NANOS;

/// How long the scheduler sleeps when nothing is scheduled.
pub const DEFAULT_SLEEP_NANOS: i128 = HOUR_NANOS;

/// What happens to an exchange.
#[derive(Clone, Copy, Debug, PartialEq, Eq, Structural)]
pub enum ExchangeEvent {
    /// Its submissions start has passed; `late` when by more than the start threshold.
    StartReached { late: bool },
    /// Its submissions end has passed; `late` when by more than the end threshold.
    EndReached { late: bool },
    /// Its assignment was computed and delivered (`ok`), or failed.
    AssignmentFinished { ok: bool },
}

/// The state an exchange moves to on `event`; `None` where the event does not move it.
pub open spec fn spec_transition(state: ExchangeState, event: ExchangeEvent) -> Option<ExchangeState> {
    match (state, event) {
        (ExchangeState::NotStartedYet, ExchangeEvent::StartReached { late }) => Some(
            if late {
                ExchangeState::MissedByBot
            } else {
                ExchangeState::AcceptingSubmissions
            },
        ),
        (ExchangeState::AcceptingSubmissions, ExchangeEvent::EndReached { late: true }) => Some(
            ExchangeState::MissedByBot,
        ),
        (ExchangeState::AcceptingSubmissions, ExchangeEvent::AssignmentFinished { ok }) => Some(
            if ok {
                ExchangeState::AssignmentsSent
            } else {
                ExchangeState::AssignmentError
            },
        ),
        _ => None,
    }
}

/// The exchange lifecycle: the state an exchange moves to on `event`, if any.
pub fn transition(state: ExchangeState, event: ExchangeEvent) -> (r: Option<ExchangeState>)
    ensures
        r == spec_transition(state, event),
        state.spec_is_terminal() ==> r is None,
{
    match (state, event) {
        (ExchangeState::NotStartedYet, ExchangeEvent::StartReached { late }) => Some(
            if late {
                ExchangeState::MissedByBot
            } else {
                ExchangeState::AcceptingSubmissions
            },
        ),
        (ExchangeState::AcceptingSubmissions, ExchangeEvent::EndReached { late: true }) => Some(
            ExchangeState::MissedByBot,
        ),
        (ExchangeState::AcceptingSubmissions, ExchangeEvent::AssignmentFinished { ok }) => Some(
            if ok {
                ExchangeState::AssignmentsSent
            } else {
                ExchangeState::AssignmentError
            },
        ),
        _ => None,
    }
}

/// The state after a sequence of events; an event that does not apply leaves the state as it is.
pub open spec fn run_events(state: ExchangeState, events: Seq<ExchangeEvent>) -> ExchangeState
    decreases events.len(),
{
    if events.len() == 0 {
        state
    } else {
        let prev = run_events(state, events.drop_last());
        match spec_transition(prev, events.last()) {
            Some(next) => next,
            None => prev,
        }
    }
}

/// No exchange leaves a terminal state, whatever events follow.
pub proof fn lemma_terminal_is_final(state: ExchangeState, events: Seq<ExchangeEvent>)
    requires
        state.spec_is_terminal(),
    ensures
        run_events(state, events) == state,
    decreases events.len(),
{
    if events.len() > 0 {
        lemma_terminal_is_final(state, events.drop_last());
    }
}

/// Whether an exchange whose submissions start has passed is opened late: more than the start
/// threshold after its start.
pub fn start_is_late(now: UtcDateTime, submissions_start: UtcDateTime) -> (r: bool)
    ensures
        r == (now.spec_since(submissions_start) > START_THRESHOLD_NANOS),
{
    now.is_later_than_by(submissions_start, START_THRESHOLD_NANOS)
}

/// Whether an exchange whose submissions end has passed is closed late: more than the end
/// threshold after its end.
pub fn end_is_late(now: UtcDateTime, submissions_end: UtcDateTime) -> (r: bool)
    ensures
        r == (now.spec_since(submissions_end) > END_THRESHOLD_NANOS),
{
    now.is_later_than_by(submissions_end, END_THRESHOLD_NANOS)
}

/// The state an exchange that has not started yet moves to when announced at `now`, at or after
/// its submissions start: accepting submissions, or missed where too late.
pub fn announce(now: UtcDateTime, submissions_start: UtcDateTime) -> (r: ExchangeState)
    ensures
        r == (if now.spec_since(submissions_start) > START_THRESHOLD_NANOS {
            ExchangeState::MissedByBot
        } else {
            ExchangeState::AcceptingSubmissions
        }),
        Some(r) == spec_transition(
            ExchangeState::NotStartedYet,
            ExchangeEvent::StartReached { late: now.spec_since(submissions_start) > START_THRESHOLD_NANOS },
        ),
{
    let late = start_is_late(now, submissions_start);
    match transition(ExchangeState::NotStartedYet, ExchangeEvent::StartReached { late }) {
        Some(next) => next,
        None => ExchangeState::NotStartedYet,
    }
}

/// What to do with an exchange accepting submissions whose end has passed.
#[derive(Clone, Copy, Debug, PartialEq, Eq, Structural)]
pub enum ClosingAction {
    /// Too late: mark it missed.
    MarkMissed,
    /// Compute and deliver the assignment.
    Assign,
}

pub fn closing_action(now: UtcDateTime, submissions_end: UtcDateTime) -> (r: ClosingAction)
    ensures
        r == (if now.spec_since(submissions_end) > END_THRESHOLD_NANOS {
            ClosingAction::MarkMissed
        } else {
            ClosingAction::Assign
        }),
{
    if end_is_late(now, submissions_end) {
        ClosingAction::MarkMissed
    } else {
        ClosingAction::Assign
    }
}

/// What wakes the scheduler.
#[derive(Clone, Copy, Debug, PartialEq, Eq, Structural)]
pub enum SchedulerEvent {
    /// The sleep until the next deadline elapsed.
    Tick,
    /// Exchanges were created or deleted.
    ExchangesUpdated,
    /// The process is shutting down.
    Shutdown,
}

/// What the exchange store announces after a committed change.
#[derive(Clone, Copy, Debug, PartialEq, Eq, Structural)]
pub enum ExchangeStorageEvent {
    /// Exchanges were created or deleted.
    ExchangesUpdated,
}

impl ExchangeStorageEvent {
    /// The scheduler wake-up this announcement causes.
    pub fn to_scheduler_event(&self) -> (r: SchedulerEvent)
        ensures
            r == SchedulerEvent::ExchangesUpdated,
    {
        SchedulerEvent::ExchangesUpdated
    }
}

/// What the scheduler does when woken.
#[derive(Clone, Copy, Debug, PartialEq, Eq, Structural)]
pub enum SchedulerAction {
    /// Open starting exchanges, then close and assign ending ones, then reschedule.
    RunDueWork,
    /// Only recompute the next wake-up.
    Reschedule,
    /// Leave the loop.
    Exit,
}

pub fn on_event(event: SchedulerEvent) -> (r: SchedulerAction)
    ensures
        r == match event {
            SchedulerEvent::Tick => SchedulerAction::RunDueWork,
            SchedulerEvent::ExchangesUpdated => SchedulerAction::Reschedule,
            SchedulerEvent::Shutdown => SchedulerAction::Exit,
        },
{
    match event {
        SchedulerEvent::Tick => SchedulerAction::RunDueWork,
        SchedulerEvent::ExchangesUpdated => SchedulerAction::Reschedule,
        SchedulerEvent::Shutdown => SchedulerAction::Exit,
    }
}

/// How long to sleep at `now`: until the next wake-up, never less than 0, or the default sleep
/// where none is scheduled. Capped at the largest `i128`.
pub fn sleep_nanos(next_wakeup: Option<UtcDateTime>, now: UtcDateTime) -> (r: i128)
    ensures
        r >= 0,
        next_wakeup is None ==> r == DEFAULT_SLEEP_NANOS,
        next_wakeup is Some ==> r == (if next_wakeup->0.spec_since(now) <= 0 {
            0
        } else if next_wakeup->0.spec_since(now) > i128::MAX {
            i128::MAX as int
        } else {
            next_wakeup->0.spec_since(now)
        }),
{
    match next_wakeup {
        None => DEFAULT_SLEEP_NANOS,
        Some(at) => {
            if at.unix_nanos <= now.unix_nanos {
                0
            } else {
                match at.unix_nanos.checked_sub(now.unix_nanos) {
                    Some(d) => d,
                    None => i128::MAX,
                }
            }
        },
    }
}

} // verus!
