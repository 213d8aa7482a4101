use memwatch::filter::{apply_filter, keep_process, partition_processes, FilterError, Pattern};
use memwatch::types::ProcessStats;

fn stats(pid: i32, command: &str, max_rss_kib: u64) -> ProcessStats {
    ProcessStats {
        pid,
        ppid: 1,
        command: command.to_string(),
        max_rss_kib,
        first_seen: 0,
        last_seen: 0,
        peak_time: 0,
    }
}

fn commands(v: &[ProcessStats]) -> Vec<String> {
    v.iter().map(|p| p.command.clone()).collect()
}

#[test]
fn include_then_exclude_veto() {
    let procs = vec![stats(1, "worker-1", 10), stats(2, "worker-debug", 20), stats(3, "logger", 30)];
    let out = apply_filter(procs, Some("worker-debug"), Some("worker")).ok().unwrap();
    assert_eq!(commands(&out.kept), vec!["worker-1".to_string()]);
    assert_eq!(out.excluded_count, 2);
    assert_eq!(out.excluded_total_kib, 50);
}

#[test]
fn partition_counts_add_up() {
    let procs = vec![stats(1, "a", 1), stats(2, "bb", 2), stats(3, "a b", 4), stats(4, "c", 8)];
    let total = procs.len();
    let out = apply_filter(procs, Some("b"), None).ok().unwrap();
    assert_eq!(out.kept.len() + out.excluded_count, total);
    assert_eq!(commands(&out.kept), vec!["a".to_string(), "c".to_string()]);
    assert_eq!(out.excluded_total_kib, 6);
}

#[test]
fn include_only() {
    let procs = vec![stats(1, "python3 x.py", 1), stats(2, "bash", 2)];
    let out = apply_filter(procs, None, Some("^python")).ok().unwrap();
    assert_eq!(commands(&out.kept), vec!["python3 x.py".to_string()]);
    assert_eq!(out.excluded_count, 1);
    assert_eq!(out.excluded_total_kib, 2);
}

#[test]
fn no_pattern_keeps_all() {
    let procs = vec![stats(1, "a", 1), stats(2, "b", 2)];
    let out = apply_filter(procs, None, None).ok().unwrap();
    assert_eq!(out.kept.len(), 2);
    assert_eq!(out.excluded_count, 0);
    assert_eq!(out.excluded_total_kib, 0);
}

#[test]
fn invalid_exclude_pattern_is_reported_first() {
    let procs = vec![stats(1, "a", 1)];
    match apply_filter(procs, Some("("), Some("[")) {
        Err(FilterError::InvalidExclude(p)) => assert_eq!(p, "("),
        _ => panic!("expected an invalid exclude pattern"),
    }
}

#[test]
fn invalid_include_pattern() {
    let procs = vec![stats(1, "a", 1)];
    match apply_filter(procs, Some("a"), Some("[")) {
        Err(FilterError::InvalidInclude(p)) => assert_eq!(p, "["),
        _ => panic!("expected an invalid include pattern"),
    }
}

#[test]
fn error_messages() {
    assert_eq!(
        FilterError::InvalidExclude("(".to_string()).message(),
        "Invalid exclude pattern '(': must be valid regex"
    );
    assert_eq!(
        FilterError::InvalidInclude("[".to_string()).message(),
        "Invalid include pattern '[': must be valid regex"
    );
}

#[test]
fn keep_decision_table() {
    assert!(keep_process(None, None));
    assert!(keep_process(Some(true), None));
    assert!(!keep_process(Some(false), None));
    assert!(!keep_process(None, Some(true)));
    assert!(keep_process(None, Some(false)));
    assert!(!keep_process(Some(true), Some(true)));
    assert!(keep_process(Some(true), Some(false)));
    assert!(!keep_process(Some(false), Some(false)));
}

#[test]
fn partition_by_flags() {
    let procs = vec![stats(1, "a", 5), stats(2, "b", 7), stats(3, "c", 11)];
    let out = partition_processes(procs, &vec![false, true, false]);
    assert_eq!(commands(&out.kept), vec!["b".to_string()]);
    assert_eq!(out.excluded_count, 2);
    assert_eq!(out.excluded_total_kib, 16);
}

#[test]
fn partition_sum_saturates() {
    let procs = vec![stats(1, "a", u64::MAX), stats(2, "b", 3)];
    let out = partition_processes(procs, &vec![false, false]);
    assert_eq!(out.excluded_total_kib, u64::MAX);
}

#[test]
fn pattern_compile_and_match() {
    assert!(Pattern::compile("(").is_none());
    let p = Pattern::compile("wor+k").unwrap();
    assert!(p.is_match("a worrrker"));
    assert!(!p.is_match("wok"));
}
