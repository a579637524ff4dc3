//! The expiry sweeper: a cancellable periodic task bound to one backend
//! adapter, for engines without native per-record expiration. The decisions
//! live here as a verified state machine; a runtime loop performs the waits
//! and the bulk-delete calls and feeds the outcomes back as events.
use vstd::prelude::*;

verus! {

/// The sweeper's state: waiting between ticks, a sweep in progress, or
/// stopped for good after cancellation.
#[derive(Clone, Copy, Debug, PartialEq, Eq, Structural)]
pub enum SweeperState {
    Idle,
    Running,
    Stopped,
}

/// What the runtime observed since the last decision.
#[derive(Clone, Copy, Debug, PartialEq, Eq, Structural)]
pub enum SweeperEvent {
    /// The inter-sweep interval elapsed.
    IntervalElapsed,
    /// The backend's bulk delete finished cleanly.
    SweepSucceeded,
    /// The backend's bulk delete failed; the failure is reported to the
    /// caller, never fatal to the loop.
    SweepFailed,
    /// Cancellation was requested.
    CancelRequested,
}

/// What the runtime must do next.
#[derive(Clone, Copy, Debug, PartialEq, Eq, Structural)]
pub enum SweeperAction {
    /// Wait for the next tick or a cancellation.
    Wait,
    /// Invoke the backend's bulk delete of expired records.
    BeginSweep,
    /// Leave the loop: the sweeper is stopped.
    Exit,
}

/// The transition table. Cancellation is honored in every state, at once and
/// terminally; a failed sweep returns to idle exactly like a successful one,
/// so no failure can wedge the loop; `Stopped` is absorbing.
pub open spec fn spec_step(s: SweeperState, e: SweeperEvent) -> (SweeperState, SweeperAction) {
    match (s, e) {
        (SweeperState::Stopped, _) => (SweeperState::Stopped, SweeperAction::Exit),
        (_, SweeperEvent::CancelRequested) => (SweeperState::Stopped, SweeperAction::Exit),
        (SweeperState::Idle, SweeperEvent::IntervalElapsed) => (
            SweeperState::Running,
            SweeperAction::BeginSweep,
        ),
        (SweeperState::Idle, _) => (SweeperState::Idle, SweeperAction::Wait),
        (SweeperState::Running, SweeperEvent::SweepSucceeded) => (
            SweeperState::Idle,
            SweeperAction::Wait,
        ),
        (SweeperState::Running, SweeperEvent::SweepFailed) => (
            SweeperState::Idle,
            SweeperAction::Wait,
        ),
        (SweeperState::Running, SweeperEvent::IntervalElapsed) => (
            SweeperState::Running,
            SweeperAction::Wait,
        ),
    }
}

/// A sweeper bound to one backend: its single configuration parameter — the
/// inter-sweep interval — and its current state.
pub struct Sweeper {
    pub interval_secs: u64,
    pub state: SweeperState,
}

impl Sweeper {
    /// A new sweeper, idle, with the given inter-sweep interval.
    pub fn new(interval_secs: u64) -> (r: Sweeper)
        ensures
            r.state == SweeperState::Idle,
            r.interval_secs == interval_secs,
    {
        Sweeper { interval_secs, state: SweeperState::Idle }
    }

    /// One decision of the sweeper loop, exactly the transition table.
    pub fn step(&mut self, event: SweeperEvent) -> (action: SweeperAction)
        ensures
            (final(self).state, action) == spec_step(old(self).state, event),
            final(self).interval_secs == old(self).interval_secs,
    {
        let (next, action) = match (self.state, event) {
            (SweeperState::Stopped, _) => (SweeperState::Stopped, SweeperAction::Exit),
            (_, SweeperEvent::CancelRequested) => (SweeperState::Stopped, SweeperAction::Exit),
            (SweeperState::Idle, SweeperEvent::IntervalElapsed) => (
                SweeperState::Running,
                SweeperAction::BeginSweep,
            ),
            (SweeperState::Idle, _) => (SweeperState::Idle, SweeperAction::Wait),
            (SweeperState::Running, SweeperEvent::SweepSucceeded) => (
                SweeperState::Idle,
                SweeperAction::Wait,
            ),
            (SweeperState::Running, SweeperEvent::SweepFailed) => (
                SweeperState::Idle,
                SweeperAction::Wait,
            ),
            (SweeperState::Running, SweeperEvent::IntervalElapsed) => (
                SweeperState::Running,
                SweeperAction::Wait,
            ),
        };
        self.state = next;
        action
    }
}

/// Law: cancellation is cooperative and immediate — in every state it stops
/// the sweeper and exits the loop — and `Stopped` is terminal: no event
/// restarts a cancelled sweeper.
pub proof fn lemma_cancellation_terminal(s: SweeperState, e: SweeperEvent)
    ensures
        spec_step(s, SweeperEvent::CancelRequested) == (
            SweeperState::Stopped,
            SweeperAction::Exit,
        ),
        spec_step(SweeperState::Stopped, e) == (SweeperState::Stopped, SweeperAction::Exit),
{
}

/// Law: no sweep attempt can wedge the loop — a failure is handled exactly
/// like a success: the sweeper returns to idle, and the next elapsed
/// interval begins a sweep again.
pub proof fn lemma_failure_never_wedges()
    ensures
        spec_step(SweeperState::Running, SweeperEvent::SweepFailed) == spec_step(
            SweeperState::Running,
            SweeperEvent::SweepSucceeded,
        ),
        spec_step(SweeperState::Running, SweeperEvent::SweepFailed).0 == SweeperState::Idle,
        spec_step(SweeperState::Idle, SweeperEvent::IntervalElapsed) == (
            SweeperState::Running,
            SweeperAction::BeginSweep,
        ),
{
}

} // verus!
