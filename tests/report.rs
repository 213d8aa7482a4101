use memwatch::cli::Cli;
use memwatch::report::{compute_process_groups, escape_csv, extract_command_name, format_duration, format_memory};
use memwatch::types::{FilterConfig, ProcessStats};

fn stats(pid: i32, command: &str, max_rss_kib: u64) -> ProcessStats {
    ProcessStats {
        pid,
        ppid: 1,
        command: command.to_string(),
        max_rss_kib,
        first_seen: 0,
        last_seen: 0,
        peak_time: 0,
    }
}

#[test]
fn test_escape_csv() {
    assert_eq!(escape_csv("hello"), "hello");
    assert_eq!(escape_csv("hello \"world\""), "hello \"\"world\"\"");
    assert_eq!(escape_csv("test"), "test");
}

#[test]
fn test_format_memory() {
    assert_eq!(format_memory(512), "512 KiB");
    assert_eq!(format_memory(1024), "1.0 MiB");
    assert_eq!(format_memory(2048), "2.0 MiB");
    assert_eq!(format_memory(1024 * 1024), "1.0 GiB");
    assert_eq!(format_memory(1024 * 1024 * 2), "2.0 GiB");
    assert_eq!(format_memory(1536 * 1024), "1.5 GiB");
}

#[test]
fn format_memory_rounds_like_float_formatting() {
    for kib in [0u64, 1, 1023, 1024, 1100, 1280, 1331, 1536, 5000, 1048575, 1048576, 3_000_000, 123_456_789] {
        let expected = if kib >= 1024 * 1024 {
            format!("{:.1} GiB", kib as f64 / (1024.0 * 1024.0))
        } else if kib >= 1024 {
            format!("{:.1} MiB", kib as f64 / 1024.0)
        } else {
            format!("{} KiB", kib)
        };
        assert_eq!(format_memory(kib), expected, "kib = {}", kib);
    }
}

#[test]
fn format_memory_edges() {
    assert_eq!(format_memory(0), "0 KiB");
    assert_eq!(format_memory(1023), "1023 KiB");
    assert_eq!(format_memory(1048575), "1024.0 MiB");
    assert_eq!(format_memory(u64::MAX), "17592186044416.0 GiB");
}

#[test]
fn command_names() {
    assert_eq!(extract_command_name("/usr/bin/python3 script.py"), "python3");
    assert_eq!(extract_command_name("  make -j4"), "make");
    assert_eq!(extract_command_name("bash"), "bash");
    assert_eq!(extract_command_name("./a/"), "");
    assert_eq!(extract_command_name(""), "");
    assert_eq!(extract_command_name("   "), "   ");
    assert_eq!(extract_command_name(" /x/y\tz/w"), "y");
}

#[test]
fn groups_by_program_name() {
    let procs = vec![
        stats(1, "/usr/bin/python3 a.py", 100),
        stats(2, "bash -c x", 10),
        stats(3, "python3 b.py", 50),
        stats(4, "idle", 0),
    ];
    let groups = compute_process_groups(&procs);
    assert_eq!(groups.len(), 2);
    assert_eq!(groups[0].name, "python3");
    assert_eq!(groups[0].count, 2);
    assert_eq!(groups[0].total_rss_kib, 150);
    assert_eq!(groups[1].name, "bash");
    assert_eq!(groups[1].count, 1);
    assert_eq!(groups[1].total_rss_kib, 10);
}

#[test]
fn filter_descriptions() {
    let both = FilterConfig { exclude_pattern: Some("dbg".to_string()), include_pattern: Some("w".to_string()) };
    assert_eq!(both.display_patterns(), vec!["Exclude pattern: 'dbg'".to_string(), "Include pattern: 'w'".to_string()]);
    assert_eq!(both.to_csv_comment(), "exclude='dbg' include='w'");
    let inc = FilterConfig { exclude_pattern: None, include_pattern: Some("w".to_string()) };
    assert_eq!(inc.display_patterns(), vec!["Include pattern: 'w'".to_string()]);
    assert_eq!(inc.to_csv_comment(), "include='w'");
    let none = FilterConfig { exclude_pattern: None, include_pattern: None };
    assert!(none.display_patterns().is_empty());
    assert_eq!(none.to_csv_comment(), "");
}

#[test]
fn long_version_text() {
    assert_eq!(
        Cli::get_long_version("0.3.1", Some("2024-01-02"), None),
        "0.3.1\nBuild date:   2024-01-02\nTarget:       unknown"
    );
}

#[test]
fn test_format_duration() {
    assert_eq!(format_duration(0.0 as u64), "00:00:00");
    assert_eq!(format_duration(59.5 as u64), "00:00:59");
    assert_eq!(format_duration(60.0 as u64), "00:01:00");
    assert_eq!(format_duration(3661.0 as u64), "01:01:01");
    assert_eq!(format_duration(7384.0 as u64), "02:03:04");
}

#[test]
fn format_duration_long_runs() {
    assert_eq!(format_duration(360000), "100:00:00");
    assert_eq!(format_duration(35999), "09:59:59");
}
