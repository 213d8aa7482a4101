use memwatch::job_tree::{find_job_pids, sample_job_tree};
use memwatch::types::ProcessSample;
use std::collections::HashMap;

fn sample(pid: i32, ppid: i32, rss_kib: u64, command: &str) -> ProcessSample {
    ProcessSample { pid, ppid, rss_kib, command: command.to_string() }
}

#[test]
fn test_find_job_pids_simple() {
    let mut ppid_map = HashMap::new();
    ppid_map.insert(100, 1); // root process, parent is init
    ppid_map.insert(200, 100); // child of root
    ppid_map.insert(300, 100); // another child of root
    ppid_map.insert(400, 200); // grandchild
    ppid_map.insert(500, 50); // unrelated process

    let job_pids = find_job_pids(100, &ppid_map);

    assert!(job_pids.contains(&100));
    assert!(job_pids.contains(&200));
    assert!(job_pids.contains(&300));
    assert!(job_pids.contains(&400));
    assert!(!job_pids.contains(&500));
}

#[test]
fn test_find_job_pids_deep_tree() {
    let mut ppid_map = HashMap::new();
    ppid_map.insert(1, 0);
    ppid_map.insert(10, 1);
    ppid_map.insert(20, 10);
    ppid_map.insert(30, 20);
    ppid_map.insert(40, 30);

    let job_pids = find_job_pids(10, &ppid_map);

    assert!(job_pids.contains(&10));
    assert!(job_pids.contains(&20));
    assert!(job_pids.contains(&30));
    assert!(job_pids.contains(&40));
    assert!(!job_pids.contains(&1));
}

#[test]
fn resolve_scenario_gives_exact_job() {
    let mut ppid_map = HashMap::new();
    ppid_map.insert(100, 1);
    ppid_map.insert(200, 100);
    ppid_map.insert(300, 100);
    ppid_map.insert(400, 200);
    ppid_map.insert(500, 50);
    let job = find_job_pids(100, &ppid_map);
    let mut pids: Vec<i32> = job.into_iter().collect();
    pids.sort();
    assert_eq!(pids, vec![100, 200, 300, 400]);
}

#[test]
fn resolve_keeps_absent_root() {
    let mut ppid_map = HashMap::new();
    ppid_map.insert(7, 3);
    ppid_map.insert(8, 7);
    let job = find_job_pids(42, &ppid_map);
    assert_eq!(job.len(), 1);
    assert!(job.contains(&42));
}

#[test]
fn resolve_empty_table_is_root_only() {
    let ppid_map: HashMap<i32, i32> = HashMap::new();
    let job = find_job_pids(5, &ppid_map);
    assert_eq!(job.len(), 1);
    assert!(job.contains(&5));
}

#[test]
fn resolve_twice_gives_same_set() {
    let mut ppid_map = HashMap::new();
    for pid in 2..60 {
        ppid_map.insert(pid, pid / 2);
    }
    let first = find_job_pids(3, &ppid_map);
    let second = find_job_pids(3, &ppid_map);
    assert_eq!(first, second);
    let mut pids: Vec<i32> = first.into_iter().collect();
    pids.sort();
    assert_eq!(pids, vec![3, 6, 7, 12, 13, 14, 15, 24, 25, 26, 27, 28, 29, 30, 31, 48, 49, 50, 51, 52, 53, 54, 55, 56, 57, 58, 59]);
}

#[test]
fn resolve_excludes_orphaned_grandchild() {
    // 200 has exited and 400 was reparented to 1: it falls out of the job.
    let mut ppid_map = HashMap::new();
    ppid_map.insert(100, 1);
    ppid_map.insert(400, 1);
    let job = find_job_pids(100, &ppid_map);
    assert!(job.contains(&100));
    assert!(!job.contains(&400));
}

#[test]
fn snapshot_restricts_table_to_job() {
    let all = vec![
        sample(1, 0, 10, "init"),
        sample(100, 1, 1000, "make"),
        sample(200, 100, 2000, "cc"),
        sample(500, 50, 9999, "other"),
        sample(400, 200, 300, "as"),
    ];
    let snap = sample_job_tree(100, all, 1234);
    assert_eq!(snap.timestamp, 1234);
    assert_eq!(snap.total_rss_kib, 3300);
    let pids: Vec<i32> = snap.processes.iter().map(|p| p.pid).collect();
    assert_eq!(pids, vec![100, 200, 400]);
    assert_eq!(snap.processes[1].command, "cc");
}

#[test]
fn snapshot_keeps_first_record_of_repeated_pid() {
    let all = vec![sample(100, 1, 10, "first"), sample(100, 1, 20, "second")];
    let snap = sample_job_tree(100, all, 0);
    assert_eq!(snap.processes.len(), 1);
    assert_eq!(snap.processes[0].command, "first");
    assert_eq!(snap.total_rss_kib, 10);
}

#[test]
fn snapshot_total_saturates() {
    let all = vec![sample(1, 0, u64::MAX, "a"), sample(2, 1, 5, "b")];
    let snap = sample_job_tree(1, all, 0);
    assert_eq!(snap.total_rss_kib, u64::MAX);
}
