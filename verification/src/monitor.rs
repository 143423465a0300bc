//! The monitor loop as a state machine. The owner of the sockets performs
//! each action and reports what came of it as the next event; this module
//! decides.

use crate::errors::VirtualDesktopError;
use crate::hyprland::{is_desktop_event, is_vdesk_event};
use crate::retry::{
    backoff_delay_with, expected_delay, jitter_span, jittered, random_between, should_give_up,
    MAX_DELAY_MS,
};
use vstd::prelude::*;

verus! {

/// After this many failed refreshes in a row the connection counts as
/// failed.
pub const MAX_APPLY_FAILURES: u32 = 3;

/// Where the monitor loop stands.
#[derive(Debug, Clone, Copy, PartialEq, Eq, Structural)]
pub enum MonitorState {
    /// Opening the event stream, or waiting to try again.
    Connecting,
    /// Waiting for the next event line.
    Listening,
    /// Fetching the state after a relevant event.
    Applying,
    /// The event stream broke; waiting before a new connection is made.
    Reconnecting,
    /// Shutdown was asked for; the connection is being closed.
    ShuttingDown,
    /// The session is over.
    Stopped,
}

/// What the owner of the sockets reports.
#[derive(Debug)]
pub enum MonitorEvent {
    /// The event stream is open and, where asked for, the state is fresh.
    Connected,
    /// The event stream could not be opened.
    ConnectFailed { error: String },
    /// A line was read from the event stream.
    Line { text: String },
    /// The event stream ended or failed.
    StreamFailed { error: String },
    /// The state was fetched and the store took it.
    Applied,
    /// The state could not be fetched, or the store refused it.
    ApplyFailed { error: String },
    /// The delay that was asked for has passed.
    DelayElapsed,
    /// The owner asks the loop to end.
    Shutdown,
    /// The connection is closed.
    Closed,
}

/// What the owner of the sockets is to do next.
#[derive(Debug)]
pub enum MonitorAction {
    /// Drop any connection and open a new event stream; refresh the state
    /// first where `refresh_state` is set.
    Connect { refresh_state: bool },
    /// Read the next line of the event stream.
    ReadLine,
    /// Fetch the full state and hand it to the store.
    FetchState,
    /// Wait, unless shutdown is asked for first.
    Wait { delay_ms: u64 },
    /// Close the connection; no further socket operation follows.
    Close,
    /// End the session and report the error to the owner.
    GiveUp { error: VirtualDesktopError },
    /// The session is over; there is nothing to do.
    Stop,
    /// The event does not belong to the state; there is nothing to do.
    Ignore,
}

impl MonitorAction {
    /// Whether the action touches a socket.
    pub open spec fn is_socket_operation(self) -> bool {
        self is Connect || self is ReadLine || self is FetchState
    }
}

/// The mathematical value of the monitor loop.
pub struct MonitorModel {
    pub state: MonitorState,
    /// Failures of the connection since the last refresh that succeeded. A
    /// run of failed refreshes counts as one more where it reaches
    /// `MAX_APPLY_FAILURES`, and again for every failed refresh after that.
    pub failures: u32,
    /// Failed refreshes in a row.
    pub apply_failures: u32,
    /// Whether the store has taken a state at least once.
    pub has_snapshot: bool,
    pub retry_max: u32,
    pub retry_base_delay_ms: u64,
}

/// One more, without leaving 32 bits.
pub open spec fn bumped(count: u32) -> u32 {
    if count == u32::MAX {
        count
    } else {
        (count + 1) as u32
    }
}

/// The delay before retry number `attempt` when `draw` decides the jitter.
pub open spec fn retry_delay(attempt: u32, base_delay: u64, draw: u64) -> u64 {
    let delay = expected_delay(attempt as nat, base_delay as nat, MAX_DELAY_MS as nat);
    jittered(delay, (draw as nat) % (jitter_span(delay) + 1)) as u64
}

/// What follows a failure of the connection: one more failure is counted;
/// beyond `retry_max` the session ends with `RetryExhausted`, else the loop
/// waits in `waiting` for the backoff delay.
pub open spec fn after_failure(
    model: MonitorModel,
    waiting: MonitorState,
    error: String,
    draw: u64,
) -> (MonitorModel, MonitorAction) {
    let failures = bumped(model.failures);
    if failures > model.retry_max {
        (
            MonitorModel { state: MonitorState::Stopped, failures, ..model },
            MonitorAction::GiveUp {
                error: VirtualDesktopError::RetryExhausted { attempts: failures, last_error: error },
            },
        )
    } else {
        (
            MonitorModel { state: waiting, failures, ..model },
            MonitorAction::Wait {
                delay_ms: retry_delay(failures, model.retry_base_delay_ms, draw),
            },
        )
    }
}

/// The transition function: the next value of the loop and the action to
/// perform, for every state and every event. `draw` decides the jitter of a
/// delay.
///
/// The failure counter goes back to zero only when an event has been
/// received and its refresh has succeeded. A relevant line alone does not
/// reset it: so failed refreshes, which each follow such a line, add up
/// and can end the session like failures of the connection.
pub open spec fn next(model: MonitorModel, event: MonitorEvent, draw: u64) -> (
    MonitorModel,
    MonitorAction,
) {
    match (model.state, event) {
        (MonitorState::Stopped, _) => (model, MonitorAction::Stop),
        (MonitorState::ShuttingDown, _) => (
            MonitorModel { state: MonitorState::Stopped, ..model },
            MonitorAction::Stop,
        ),
        (_, MonitorEvent::Shutdown) => (
            MonitorModel { state: MonitorState::ShuttingDown, ..model },
            MonitorAction::Close,
        ),
        (MonitorState::Connecting, MonitorEvent::Connected) => (
            MonitorModel { state: MonitorState::Listening, has_snapshot: true, ..model },
            MonitorAction::ReadLine,
        ),
        (MonitorState::Connecting, MonitorEvent::ConnectFailed { error }) => after_failure(
            model,
            MonitorState::Connecting,
            error,
            draw,
        ),
        (MonitorState::Connecting, MonitorEvent::DelayElapsed) => (
            model,
            MonitorAction::Connect { refresh_state: !model.has_snapshot },
        ),
        (MonitorState::Reconnecting, MonitorEvent::DelayElapsed) => (
            MonitorModel { state: MonitorState::Connecting, ..model },
            MonitorAction::Connect { refresh_state: !model.has_snapshot },
        ),
        (MonitorState::Listening, MonitorEvent::Line { text }) => if is_desktop_event(text@) {
            (MonitorModel { state: MonitorState::Applying, ..model }, MonitorAction::FetchState)
        } else {
            (model, MonitorAction::ReadLine)
        },
        (MonitorState::Listening, MonitorEvent::StreamFailed { error }) => after_failure(
            model,
            MonitorState::Reconnecting,
            error,
            draw,
        ),
        (MonitorState::Applying, MonitorEvent::Applied) => (
            MonitorModel {
                state: MonitorState::Listening,
                failures: 0,
                apply_failures: 0,
                has_snapshot: true,
                ..model
            },
            MonitorAction::ReadLine,
        ),
        (MonitorState::Applying, MonitorEvent::ApplyFailed { error }) => {
            let counted = MonitorModel { apply_failures: bumped(model.apply_failures), ..model };
            if counted.apply_failures >= MAX_APPLY_FAILURES {
                after_failure(counted, MonitorState::Connecting, error, draw)
            } else {
                (MonitorModel { state: MonitorState::Listening, ..counted }, MonitorAction::ReadLine)
            }
        },
        _ => (model, MonitorAction::Ignore),
    }
}

/// Shutdown is final: once it has been asked for, the loop is shutting down
/// or stopped.
pub open spec fn winding_down(model: MonitorModel) -> bool {
    model.state == MonitorState::ShuttingDown || model.state == MonitorState::Stopped
}

/// A shutdown request is answered without a socket operation and without a
/// wait, whatever the loop was doing, and leaves the loop winding down.
pub proof fn lemma_shutdown_is_prompt(model: MonitorModel, draw: u64)
    ensures
        winding_down(next(model, MonitorEvent::Shutdown, draw).0),
        !next(model, MonitorEvent::Shutdown, draw).1.is_socket_operation(),
        !(next(model, MonitorEvent::Shutdown, draw).1 is Wait),
{
}

/// A loop that is winding down performs no socket operation and no wait
/// ever again, and is stopped after the next event.
pub proof fn lemma_winding_down_is_quiet(model: MonitorModel, event: MonitorEvent, draw: u64)
    requires
        winding_down(model),
    ensures
        next(model, event, draw).0.state == MonitorState::Stopped,
        next(model, event, draw).1 is Stop,
{
}

/// A failed refresh below the limit drops one update and keeps the
/// connection: the loop goes back to listening.
pub proof fn lemma_failed_refresh_keeps_connection(model: MonitorModel, error: String, draw: u64)
    requires
        model.state == MonitorState::Applying,
        bumped(model.apply_failures) < MAX_APPLY_FAILURES,
    ensures
        next(model, MonitorEvent::ApplyFailed { error }, draw).0.state == MonitorState::Listening,
        next(model, MonitorEvent::ApplyFailed { error }, draw).1 is ReadLine,
        next(model, MonitorEvent::ApplyFailed { error }, draw).0.failures == model.failures,
{
}

/// Failed refreshes count toward giving up: from the third in a row on,
/// each one is counted like a failure of the connection, and ends the
/// session where that is one failure too many.
pub proof fn lemma_failed_refreshes_count(model: MonitorModel, error: String, draw: u64)
    requires
        model.state == MonitorState::Applying,
        bumped(model.apply_failures) >= MAX_APPLY_FAILURES,
    ensures
        ({
            let (after, action) = next(model, MonitorEvent::ApplyFailed { error }, draw);
            &&& after.failures == bumped(model.failures)
            &&& after.apply_failures == bumped(model.apply_failures)
            &&& if bumped(model.failures) > model.retry_max {
                after.state == MonitorState::Stopped && action is GiveUp
            } else {
                after.state == MonitorState::Connecting && action is Wait
            }
        }),
{
}

/// Only a refresh that succeeds forgets earlier failures: every other
/// event leaves the failure counter as it is or raises it.
pub proof fn lemma_failures_are_kept(model: MonitorModel, event: MonitorEvent, draw: u64)
    ensures
        next(model, event, draw).0.failures < model.failures ==> model.state
            == MonitorState::Applying && event is Applied,
{
}

/// Giving up is terminal: it comes only with a failure beyond the limit,
/// reports `RetryExhausted` with the number of failures and the last error,
/// and leaves the loop stopped, where no event starts it again.
pub proof fn lemma_give_up_is_terminal(model: MonitorModel, event: MonitorEvent, draw: u64)
    ensures
        next(model, event, draw).1 matches MonitorAction::GiveUp { error } ==> ({
            let after = next(model, event, draw).0;
            &&& after.state == MonitorState::Stopped
            &&& after.failures > model.retry_max
            &&& error matches VirtualDesktopError::RetryExhausted { attempts, .. }
            &&& attempts == after.failures
        }),
        model.state == MonitorState::Stopped ==> next(model, event, draw).0 == model,
{
}

/// Every wait is a backoff delay: it follows a failure that is within the
/// limit, and lies within a quarter of the delay expected for that failure,
/// which is never above `MAX_DELAY_MS`.
pub proof fn lemma_wait_is_bounded(model: MonitorModel, event: MonitorEvent, draw: u64)
    ensures
        next(model, event, draw).1 matches MonitorAction::Wait { delay_ms } ==> ({
            let after = next(model, event, draw).0;
            let expected = expected_delay(
                after.failures as nat,
                model.retry_base_delay_ms as nat,
                MAX_DELAY_MS as nat,
            );
            &&& 1 <= after.failures <= model.retry_max
            &&& expected <= MAX_DELAY_MS
            &&& 3 * expected <= 4 * delay_ms <= 5 * expected
        }),
{
    let failures = bumped(model.failures);
    let expected = expected_delay(
        failures as nat,
        model.retry_base_delay_ms as nat,
        MAX_DELAY_MS as nat,
    );
    let jitter = (draw as nat) % (jitter_span(expected) + 1);
    assert(jitter <= jitter_span(expected));
    assert(3 * expected <= 4 * jittered(expected, jitter) <= 5 * expected);
}

/// The monitor loop: its state and its counters.
#[derive(Debug)]
pub struct MonitorLoop {
    state: MonitorState,
    failures: u32,
    apply_failures: u32,
    has_snapshot: bool,
    retry_max: u32,
    retry_base_delay_ms: u64,
}

impl View for MonitorLoop {
    type V = MonitorModel;

    closed spec fn view(&self) -> MonitorModel {
        MonitorModel {
            state: self.state,
            failures: self.failures,
            apply_failures: self.apply_failures,
            has_snapshot: self.has_snapshot,
            retry_max: self.retry_max,
            retry_base_delay_ms: self.retry_base_delay_ms,
        }
    }
}

impl MonitorLoop {
    /// A loop that is about to connect for the first time.
    pub fn new(retry_max: u32, retry_base_delay_ms: u64) -> (monitor: Self)
        ensures
            monitor@ == (MonitorModel {
                state: MonitorState::Connecting,
                failures: 0,
                apply_failures: 0,
                has_snapshot: false,
                retry_max,
                retry_base_delay_ms,
            }),
    {
        MonitorLoop {
            state: MonitorState::Connecting,
            failures: 0,
            apply_failures: 0,
            has_snapshot: false,
            retry_max,
            retry_base_delay_ms,
        }
    }

    /// Where the loop stands.
    pub fn state(&self) -> (state: MonitorState)
        ensures
            state == self@.state,
    {
        self.state
    }

    /// Failures of the connection since the last refresh that succeeded.
    pub fn failures(&self) -> (count: u32)
        ensures
            count == self@.failures,
    {
        self.failures
    }

    /// Failed refreshes in a row.
    pub fn apply_failures(&self) -> (count: u32)
        ensures
            count == self@.apply_failures,
    {
        self.apply_failures
    }

    /// The action that opens a session: to connect.
    pub fn start(&self) -> (action: MonitorAction)
        ensures
            action == (MonitorAction::Connect { refresh_state: !self@.has_snapshot }),
    {
        MonitorAction::Connect { refresh_state: !self.has_snapshot }
    }

    fn fail(&mut self, waiting: MonitorState, error: String, draw: u64) -> (action: MonitorAction)
        ensures
            (final(self)@, action) == after_failure(old(self)@, waiting, error, draw),
    {
        if self.failures < u32::MAX {
            self.failures = self.failures + 1;
        }
        if should_give_up(self.failures, self.retry_max) {
            self.state = MonitorState::Stopped;
            MonitorAction::GiveUp {
                error: VirtualDesktopError::RetryExhausted {
                    attempts: self.failures,
                    last_error: error,
                },
            }
        } else {
            self.state = waiting;
            MonitorAction::Wait {
                delay_ms: backoff_delay_with(
                    self.failures,
                    self.retry_base_delay_ms,
                    MAX_DELAY_MS,
                    draw,
                ),
            }
        }
    }

    /// Takes one event and decides what to do next. `draw` decides the
    /// jitter where a delay is computed, so the same loop, event and draw
    /// give the same result.
    pub fn step_with(&mut self, event: MonitorEvent, draw: u64) -> (action: MonitorAction)
        ensures
            (final(self)@, action) == next(old(self)@, event, draw),
    {
        match self.state {
            MonitorState::Stopped => {
                return MonitorAction::Stop;
            },
            MonitorState::ShuttingDown => {
                self.state = MonitorState::Stopped;
                return MonitorAction::Stop;
            },
            _ => {},
        }
        match event {
            MonitorEvent::Shutdown => {
                self.state = MonitorState::ShuttingDown;
                MonitorAction::Close
            },
            MonitorEvent::Connected => match self.state {
                MonitorState::Connecting => {
                    self.state = MonitorState::Listening;
                    self.has_snapshot = true;
                    MonitorAction::ReadLine
                },
                _ => MonitorAction::Ignore,
            },
            MonitorEvent::ConnectFailed { error } => match self.state {
                MonitorState::Connecting => self.fail(MonitorState::Connecting, error, draw),
                _ => MonitorAction::Ignore,
            },
            MonitorEvent::DelayElapsed => match self.state {
                MonitorState::Connecting | MonitorState::Reconnecting => {
                    self.state = MonitorState::Connecting;
                    MonitorAction::Connect { refresh_state: !self.has_snapshot }
                },
                _ => MonitorAction::Ignore,
            },
            MonitorEvent::Line { text } => match self.state {
                MonitorState::Listening => {
                    if is_vdesk_event(text.as_str()) {
                        self.state = MonitorState::Applying;
                        MonitorAction::FetchState
                    } else {
                        MonitorAction::ReadLine
                    }
                },
                _ => MonitorAction::Ignore,
            },
            MonitorEvent::StreamFailed { error } => match self.state {
                MonitorState::Listening => self.fail(MonitorState::Reconnecting, error, draw),
                _ => MonitorAction::Ignore,
            },
            MonitorEvent::Applied => match self.state {
                MonitorState::Applying => {
                    self.state = MonitorState::Listening;
                    self.failures = 0;
                    self.apply_failures = 0;
                    self.has_snapshot = true;
                    MonitorAction::ReadLine
                },
                _ => MonitorAction::Ignore,
            },
            MonitorEvent::ApplyFailed { error } => match self.state {
                MonitorState::Applying => {
                    if self.apply_failures < u32::MAX {
                        self.apply_failures = self.apply_failures + 1;
                    }
                    if self.apply_failures >= MAX_APPLY_FAILURES {
                        self.fail(MonitorState::Connecting, error, draw)
                    } else {
                        self.state = MonitorState::Listening;
                        MonitorAction::ReadLine
                    }
                },
                _ => MonitorAction::Ignore,
            },
            MonitorEvent::Closed => MonitorAction::Ignore,
        }
    }

    /// Takes one event and decides what to do next, with a jitter drawn at
    /// random where a delay is computed.
    pub fn step(&mut self, event: MonitorEvent) -> (action: MonitorAction)
        ensures
            exists|draw: u64| (final(self)@, action) == #[trigger] next(old(self)@, event, draw),
    {
        let draw = random_between(0, u64::MAX);
        self.step_with(event, draw)
    }
}

} // verus!
