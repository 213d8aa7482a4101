use memwatch::sampler::{exit_code_of, step, Action, Event, Phase};

#[test]
fn quick_exit_run() {
    let mut phase = Phase::Started;
    let mut actions = Vec::new();
    for event in [Event::Begin, Event::Sampled, Event::Exited, Event::Sampled, Event::Reaped] {
        let (next, action) = step(phase, event);
        phase = next;
        actions.push(action);
    }
    assert!(phase == Phase::Finalized);
    assert!(actions == vec![Action::Sample, Action::Poll, Action::Sample, Action::Reap, Action::Finish]);
}

#[test]
fn running_child_is_sampled_then_slept() {
    let (p, a) = step(Phase::Polling, Event::Running);
    assert!(p == Phase::LoopSample && a == Action::Sample);
    let (p, a) = step(p, Event::Sampled);
    assert!(p == Phase::Sleeping && a == Action::Sleep);
    let (p, a) = step(p, Event::Slept);
    assert!(p == Phase::Polling && a == Action::Poll);
}

#[test]
fn failed_poll_goes_to_reap() {
    let (p, a) = step(Phase::Polling, Event::PollFailed);
    assert!(p == Phase::Draining && a == Action::Reap);
}

#[test]
fn stray_event_is_ignored() {
    let (p, a) = step(Phase::Sleeping, Event::Reaped);
    assert!(p == Phase::Sleeping && a == Action::Ignore);
}

#[test]
fn exit_codes() {
    assert_eq!(exit_code_of(Some(3), None), 3);
    assert_eq!(exit_code_of(Some(0), Some(9)), 0);
    assert_eq!(exit_code_of(None, Some(9)), 137);
    assert_eq!(exit_code_of(None, None), 1);
}
