use memwatch::types::{JobSnapshot, JobState, ProcessSample};

fn snapshot(timestamp: i64, procs: &[(i32, i32, u64, &str)]) -> JobSnapshot {
    let processes: Vec<ProcessSample> = procs
        .iter()
        .map(|&(pid, ppid, rss_kib, command)| ProcessSample { pid, ppid, rss_kib, command: command.to_string() })
        .collect();
    let total_rss_kib = processes.iter().map(|p| p.rss_kib).sum();
    JobSnapshot { timestamp, total_rss_kib, processes }
}

#[test]
fn peak_of_three_folds() {
    let mut state = JobState::new(false, 0);
    state.update(snapshot(10, &[(7, 1, 500, "job")]));
    state.update(snapshot(20, &[(7, 1, 300, "job")]));
    state.update(snapshot(30, &[(7, 1, 900, "job")]));
    assert_eq!(state.process_stats.len(), 1);
    let s = &state.process_stats[0];
    assert_eq!(s.max_rss_kib, 900);
    assert_eq!(s.peak_time, 30);
    assert_eq!(s.first_seen, 10);
    assert_eq!(s.last_seen, 30);
    assert_eq!(state.samples, 3);
}

#[test]
fn peak_time_stays_on_equal_or_lower() {
    let mut state = JobState::new(false, 0);
    state.update(snapshot(10, &[(7, 1, 500, "job")]));
    state.update(snapshot(20, &[(7, 1, 500, "job")]));
    state.update(snapshot(30, &[(7, 1, 100, "job")]));
    let s = &state.process_stats[0];
    assert_eq!(s.max_rss_kib, 500);
    assert_eq!(s.peak_time, 10);
    assert_eq!(s.last_seen, 30);
}

#[test]
fn command_is_fixed_at_first_sighting() {
    let mut state = JobState::new(false, 0);
    state.update(snapshot(1, &[(9, 1, 5, "sh -c a")]));
    state.update(snapshot(2, &[(9, 1, 6, "a")]));
    assert_eq!(state.process_stats[0].command, "sh -c a");
    assert_eq!(state.process_stats[0].max_rss_kib, 6);
}

#[test]
fn job_peak_and_timeline() {
    let mut state = JobState::new(true, 1000);
    state.update(snapshot(1500, &[(1, 0, 100, "a"), (2, 1, 50, "b")]));
    state.update(snapshot(2500, &[(1, 0, 20, "a")]));
    assert_eq!(state.max_total_rss_kib, 150);
    let timeline = state.timeline.as_ref().unwrap();
    assert_eq!(timeline.len(), 2);
    assert_eq!(timeline[0].elapsed_ms, 500);
    assert_eq!(timeline[0].total_rss_kib, 150);
    assert_eq!(timeline[0].process_count, 2);
    assert_eq!(timeline[1].elapsed_ms, 1500);
    assert_eq!(timeline[1].process_count, 1);
}

#[test]
fn no_timeline_unless_asked() {
    let mut state = JobState::new(false, 0);
    state.update(snapshot(5, &[(1, 0, 1, "a")]));
    assert!(state.timeline.is_none());
}

#[test]
fn quick_exit_still_recorded() {
    // The child lived less than one interval: the sample right after the
    // spawn and the one after its exit are all there is.
    let mut state = JobState::new(false, 0);
    state.update(snapshot(1, &[(42, 1, 1200, "true")]));
    state.update(snapshot(2, &[]));
    let profile = state.into_profile(vec!["true".to_string()], 500, Some(0), None, None, 3).ok().unwrap();
    assert_eq!(profile.samples, 2);
    assert_eq!(profile.processes.len(), 1);
    assert_eq!(profile.processes[0].max_rss_kib, 1200);
    assert_eq!(profile.max_total_rss_kib, 1200);
}

#[test]
fn profile_sorted_by_peak_then_pid() {
    let mut state = JobState::new(false, 100);
    state.update(snapshot(200, &[(3, 1, 50, "c"), (1, 0, 70, "a"), (2, 1, 50, "b")]));
    let profile = state.into_profile(vec!["a".to_string()], 250, None, None, None, 1100).ok().unwrap();
    let pids: Vec<i32> = profile.processes.iter().map(|p| p.pid).collect();
    assert_eq!(pids, vec![1, 2, 3]);
    assert_eq!(profile.duration_ms, 1000);
    assert_eq!(profile.start_time, 100);
    assert_eq!(profile.end_time, 1100);
    assert_eq!(profile.interval_ms, 250);
    assert!(profile.filter.is_none());
    assert!(profile.filtered_process_count.is_none());
    assert!(profile.filtered_total_rss_kib.is_none());
}

#[test]
fn profile_with_filter_records_exclusions() {
    let mut state = JobState::new(false, 0);
    state.update(snapshot(
        1,
        &[(1, 0, 100, "worker-1"), (2, 1, 200, "worker-debug"), (3, 1, 300, "logger")],
    ));
    let profile = state
        .into_profile(vec!["run".to_string()], 500, Some(3), Some("worker-debug".to_string()), Some("worker".to_string()), 2)
        .ok()
        .unwrap();
    assert_eq!(profile.processes.len(), 1);
    assert_eq!(profile.processes[0].command, "worker-1");
    assert_eq!(profile.filtered_process_count, Some(2));
    assert_eq!(profile.filtered_total_rss_kib, Some(500));
    assert_eq!(profile.exit_code, Some(3));
    let filter = profile.filter.unwrap();
    assert_eq!(filter.exclude_pattern.as_deref(), Some("worker-debug"));
    assert_eq!(filter.include_pattern.as_deref(), Some("worker"));
}

#[test]
fn profile_with_bad_pattern_fails() {
    let state = JobState::new(false, 0);
    let r = state.into_profile(vec!["x".to_string()], 500, None, None, Some("(".to_string()), 1);
    assert!(r.is_err());
}

#[test]
fn new_state_is_empty() {
    let state = JobState::new(true, 77);
    assert_eq!(state.samples, 0);
    assert_eq!(state.max_total_rss_kib, 0);
    assert_eq!(state.start_time, 77);
    assert!(state.process_stats.is_empty());
    assert!(state.timeline.as_ref().unwrap().is_empty());
}

#[test]
fn unfiltered_profile_reports_every_process() {
    let mut state = JobState::new(false, 0);
    state.update(snapshot(1, &[(5, 1, 10, "a"), (6, 5, 0, "b")]));
    state.update(snapshot(2, &[(7, 5, 30, "c")]));
    let profile = state.into_profile(vec!["a".to_string()], 100, Some(0), None, None, 5).ok().unwrap();
    let pids: Vec<i32> = profile.processes.iter().map(|p| p.pid).collect();
    assert_eq!(pids, vec![7, 5, 6]);
    assert_eq!(profile.interval_ms, 100);
    assert_eq!(profile.duration_ms, 5);
}
