use memwatch::procfs::{join_args, parse_cmdline, parse_proc_stat, parse_status_rss, process_sample};

#[test]
fn stat_line_with_odd_name() {
    let r = parse_proc_stat("1234 (my (odd) name) S 77 1234 1234 0 -1").unwrap();
    assert_eq!(r.0, 77);
    assert_eq!(r.1, "my (odd) name");
}

#[test]
fn stat_line_malformed() {
    assert!(parse_proc_stat("1234 name S 77").is_none());
    assert!(parse_proc_stat("1234 (name) S").is_none());
    assert!(parse_proc_stat("1234 (name) S x").is_none());
    assert!(parse_proc_stat(") (").is_none());
}

#[test]
fn status_rss_values() {
    let status = "Name:\tcat\nVmPeak:\t 9000 kB\nVmRSS:\t    1788 kB\nThreads:\t1\n";
    assert_eq!(parse_status_rss(status), Some(1788));
    assert_eq!(parse_status_rss("Name:\tkthreadd\nState:\tS\n"), Some(0));
    assert_eq!(parse_status_rss("VmRSS:\tlots kB\n"), None);
    assert_eq!(parse_status_rss("VmRSS:\nVmRSS:\t5 kB"), Some(5));
    assert_eq!(parse_status_rss(""), Some(0));
}

#[test]
fn cmdline_arguments() {
    assert_eq!(parse_cmdline(&b"python3\0-c\0print(1)\0".to_vec()), "python3 -c print(1)");
    assert_eq!(parse_cmdline(&b"a\0\0b".to_vec()), "a b");
    assert_eq!(parse_cmdline(&Vec::new()), "");
    assert_eq!(parse_cmdline(&vec![b'x', 0xff, 0]), "x\u{FFFD}");
}

#[test]
fn join_with_spaces() {
    assert_eq!(join_args(&vec!["a".to_string(), "b c".to_string()]), "a b c");
    assert_eq!(join_args(&Vec::new()), "");
}

#[test]
fn sample_from_records() {
    let s = process_sample(42, "42 (bash) S 7 42", "VmRSS:\t 100 kB\n", &b"bash\0-l\0".to_vec()).unwrap();
    assert_eq!(s.pid, 42);
    assert_eq!(s.ppid, 7);
    assert_eq!(s.rss_kib, 100);
    assert_eq!(s.command, "bash -l");
    let k = process_sample(2, "2 (kthreadd) S 0 0", "Name:\tkthreadd\n", &Vec::new()).unwrap();
    assert_eq!(k.command, "kthreadd");
    assert_eq!(k.rss_kib, 0);
    assert!(process_sample(3, "garbage", "", &Vec::new()).is_none());
}
