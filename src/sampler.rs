//! The sampling run as a state machine. The caller performs each action
//! (take a sample and fold it, poll the child, sleep, reap the child) and
//! reports what happened; the machine decides what comes next.

use vstd::prelude::*;

verus! {

/// Where a run stands.
#[derive(Debug, Clone, Copy, PartialEq, Eq, Structural)]
pub enum Phase {
    /// The child was just spawned; nothing was sampled yet.
    Started,
    /// A sample is under way that is followed by a liveness poll.
    FirstSample,
    /// Waiting for the result of a liveness poll.
    Polling,
    /// A sample of a running child is under way.
    LoopSample,
    /// Sleeping for one interval.
    Sleeping,
    /// The child exited; its last sample is under way.
    FinalSample,
    /// Waiting for the child to be reaped.
    Draining,
    /// The run is over; the state is to be turned into a report.
    Finalized,
}

/// What the caller reports back.
#[derive(Debug, Clone, Copy, PartialEq, Eq, Structural)]
pub enum Event {
    /// The run may begin.
    Begin,
    /// A sample was taken and folded, or failed; either way the run goes on.
    Sampled,
    /// The poll found the child still running.
    Running,
    /// The poll found the child exited.
    Exited,
    /// The poll itself failed.
    PollFailed,
    /// The interval has passed.
    Slept,
    /// The child was reaped.
    Reaped,
}

/// What the caller is to do next.
#[derive(Debug, Clone, Copy, PartialEq, Eq, Structural)]
pub enum Action {
    /// Read the process table, resolve the job and fold the snapshot.
    Sample,
    /// Check without blocking whether the child has exited.
    Poll,
    /// Suspend for the sampling interval.
    Sleep,
    /// Block until the child is reaped and take its exit code.
    Reap,
    /// Turn the state into a report.
    Finish,
    /// Nothing: the event does not belong to this phase.
    Ignore,
}

/// The transition table of a run.
pub open spec fn step_spec(phase: Phase, event: Event) -> (Phase, Action) {
    match (phase, event) {
        (Phase::Started, Event::Begin) => (Phase::FirstSample, Action::Sample),
        (Phase::FirstSample, Event::Sampled) => (Phase::Polling, Action::Poll),
        (Phase::Polling, Event::Running) => (Phase::LoopSample, Action::Sample),
        (Phase::Polling, Event::Exited) => (Phase::FinalSample, Action::Sample),
        (Phase::Polling, Event::PollFailed) => (Phase::Draining, Action::Reap),
        (Phase::LoopSample, Event::Sampled) => (Phase::Sleeping, Action::Sleep),
        (Phase::Sleeping, Event::Slept) => (Phase::Polling, Action::Poll),
        (Phase::FinalSample, Event::Sampled) => (Phase::Draining, Action::Reap),
        (Phase::Draining, Event::Reaped) => (Phase::Finalized, Action::Finish),
        _ => (phase, Action::Ignore),
    }
}

/// The next phase and action after `event` in `phase`: a sample right after
/// the spawn, then poll, sample and sleep in turn while the child runs, one
/// last sample once it has exited, then reaping and the report. A failed
/// poll ends the sampling and goes to reaping.
pub fn step(phase: Phase, event: Event) -> (r: (Phase, Action))
    ensures
        r == step_spec(phase, event),
{
    match (phase, event) {
        (Phase::Started, Event::Begin) => (Phase::FirstSample, Action::Sample),
        (Phase::FirstSample, Event::Sampled) => (Phase::Polling, Action::Poll),
        (Phase::Polling, Event::Running) => (Phase::LoopSample, Action::Sample),
        (Phase::Polling, Event::Exited) => (Phase::FinalSample, Action::Sample),
        (Phase::Polling, Event::PollFailed) => (Phase::Draining, Action::Reap),
        (Phase::LoopSample, Event::Sampled) => (Phase::Sleeping, Action::Sleep),
        (Phase::Sleeping, Event::Slept) => (Phase::Polling, Action::Poll),
        (Phase::FinalSample, Event::Sampled) => (Phase::Draining, Action::Reap),
        (Phase::Draining, Event::Reaped) => (Phase::Finalized, Action::Finish),
        _ => (phase, Action::Ignore),
    }
}

/// The phase reached from `phase` through `events`, with whether a sample
/// was asked for on the way.
pub open spec fn run_spec(phase: Phase, events: Seq<Event>) -> (Phase, bool)
    decreases events.len(),
{
    if events.len() == 0 {
        (phase, false)
    } else {
        let (p, sampled) = run_spec(phase, events.drop_last());
        let (q, a) = step_spec(p, events.last());
        (q, sampled || a == Action::Sample)
    }
}

/// Only `Draining` leads to `Finalized`, and every way from `Started` to
/// `Draining` passes through a sample.
proof fn lemma_sampled_before_drain(events: Seq<Event>)
    ensures
        run_spec(Phase::Started, events).0 == Phase::Started || run_spec(Phase::Started, events).1,
    decreases events.len(),
{
    if events.len() > 0 {
        lemma_sampled_before_drain(events.drop_last());
    }
}

/// A run never finishes without having sampled: whatever the events, once
/// `Finalized` is reached from `Started`, a sample was asked for, and the
/// first action of every run is a sample.
pub proof fn lemma_run_samples_before_report(events: Seq<Event>)
    ensures
        run_spec(Phase::Started, events).0 == Phase::Finalized ==> run_spec(Phase::Started, events).1,
        step_spec(Phase::Started, Event::Begin).1 == Action::Sample,
{
    lemma_sampled_before_drain(events);
}

/// The exit code of a child: its own code when it exited, 128 plus the
/// signal number when a signal ended it, 1 when neither is known.
pub fn exit_code_of(code: Option<i32>, signal: Option<i32>) -> (r: i32)
    ensures
        r as int == match (code, signal) {
            (Some(c), _) => c as int,
            (None, Some(s)) => if 0 <= s <= i32::MAX - 128 { 128 + s } else { 1int },
            (None, None) => 1int,
        },
{
    match code {
        Some(c) => c,
        None => match signal {
            Some(s) => if 0 <= s && s <= i32::MAX - 128 { 128 + s } else { 1 },
            None => 1,
        },
    }
}

} // verus!
