use memwatch::ps::parse_ps_output;

#[test]
fn test_parse_ps_output() {
    let output = r#"  PID  PPID  RSS COMMAND
    1     0   1234 /sbin/launchd
  123     1   5678 /usr/bin/safari
  456   123  91011 /Applications/Safari.app/Contents/MacOS/Safari --flag
"#;

    let processes = parse_ps_output(output);
    assert_eq!(processes.len(), 3);

    assert_eq!(processes[0].pid, 1);
    assert_eq!(processes[0].ppid, 0);
    assert_eq!(processes[0].rss_kib, 1234);
    assert_eq!(processes[0].command, "/sbin/launchd");

    assert_eq!(processes[1].pid, 123);
    assert_eq!(processes[1].ppid, 1);
    assert_eq!(processes[1].rss_kib, 5678);

    assert_eq!(processes[2].pid, 456);
    assert_eq!(processes[2].ppid, 123);
    assert_eq!(processes[2].rss_kib, 91011);
    assert!(processes[2].command.contains("--flag"));
}

#[test]
fn ps_skips_short_and_blank_lines() {
    let output = "PID PPID RSS COMMAND\n\n  7 1 20\n8 1\r\n9 1 30 a   b\tc\r\n10 2 +5 x";
    let processes = parse_ps_output(output);
    assert_eq!(processes.len(), 2);
    assert_eq!(processes[0].pid, 9);
    assert_eq!(processes[0].command, "a b c");
    assert_eq!(processes[1].pid, 10);
    assert_eq!(processes[1].rss_kib, 5);
}

#[test]
fn ps_header_only_or_empty() {
    assert!(parse_ps_output("").is_empty());
    assert!(parse_ps_output("PID PPID RSS COMMAND\n").is_empty());
}

#[test]
fn ps_skips_malformed_records() {
    let output = "PID PPID RSS COMMAND\n  x 1 10 bad\n  5 1 20 ok\n";
    let v = parse_ps_output(output);
    assert_eq!(v.len(), 1);
    assert_eq!(v[0].pid, 5);
    assert_eq!(v[0].command, "ok");
    assert!(parse_ps_output("h\n1 -x 2 x\n").is_empty());
    assert!(parse_ps_output("h\n1 0 -2 x\n").is_empty());
    assert!(parse_ps_output("h\n2147483648 0 2 x\n").is_empty());
    assert!(parse_ps_output("h\n1 0 18446744073709551616 x\n").is_empty());
    assert!(parse_ps_output("h\nzz\n").is_empty());
}

#[test]
fn ps_number_limits() {
    let ok = parse_ps_output("h\n-2147483648 0 18446744073709551615 x\n");
    assert_eq!(ok[0].pid, i32::MIN);
    assert_eq!(ok[0].rss_kib, u64::MAX);
}
