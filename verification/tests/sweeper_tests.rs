use session_store::ids::fresh_id;
use session_store::sweeper::{Sweeper, SweeperAction, SweeperEvent, SweeperState};

#[test]
fn a_new_sweeper_is_idle_with_its_interval() {
    let s = Sweeper::new(30);
    assert_eq!(s.state, SweeperState::Idle);
    assert_eq!(s.interval_secs, 30);
}

#[test]
fn a_tick_begins_a_sweep_and_completion_returns_to_idle() {
    let mut s = Sweeper::new(30);
    assert_eq!(s.step(SweeperEvent::IntervalElapsed), SweeperAction::BeginSweep);
    assert_eq!(s.state, SweeperState::Running);
    assert_eq!(s.step(SweeperEvent::SweepSucceeded), SweeperAction::Wait);
    assert_eq!(s.state, SweeperState::Idle);
    assert_eq!(s.interval_secs, 30);
}

#[test]
fn a_failed_sweep_never_wedges_the_loop() {
    let mut s = Sweeper::new(30);
    assert_eq!(s.step(SweeperEvent::IntervalElapsed), SweeperAction::BeginSweep);
    assert_eq!(s.step(SweeperEvent::SweepFailed), SweeperAction::Wait);
    assert_eq!(s.state, SweeperState::Idle);
    // the next tick sweeps again, unconditionally
    assert_eq!(s.step(SweeperEvent::IntervalElapsed), SweeperAction::BeginSweep);
    assert_eq!(s.state, SweeperState::Running);
}

#[test]
fn cancellation_is_immediate_and_terminal() {
    let mut idle = Sweeper::new(1);
    assert_eq!(idle.step(SweeperEvent::CancelRequested), SweeperAction::Exit);
    assert_eq!(idle.state, SweeperState::Stopped);

    let mut running = Sweeper::new(1);
    running.step(SweeperEvent::IntervalElapsed);
    assert_eq!(running.step(SweeperEvent::CancelRequested), SweeperAction::Exit);
    assert_eq!(running.state, SweeperState::Stopped);

    // no event restarts a stopped sweeper
    assert_eq!(running.step(SweeperEvent::IntervalElapsed), SweeperAction::Exit);
    assert_eq!(running.step(SweeperEvent::SweepSucceeded), SweeperAction::Exit);
    assert_eq!(running.state, SweeperState::Stopped);
}

#[test]
fn fresh_identifiers_differ() {
    let a = fresh_id();
    let b = fresh_id();
    assert_ne!(a, b);
}
