//! What is read of processes.

use linux_tui_monitor::process::{
    join_arguments, parse_pid, parse_proc_stat, read_process_cmdline, read_process_sample,
    read_process_samples, split_arguments, ProcessFiles,
};

const FIELDS: &str = "S 1 2 3 4 5 6 7 8 9 10 110 120 13 14 15 16 17 18 19000 20 210 22 23";

fn stat(name: &str) -> String {
    format!("42 ({name}) {FIELDS}")
}

#[test]
fn a_stat_line_gives_name_start_ticks_and_pages() {
    let found = parse_proc_stat(&stat("bash"));
    assert_eq!(found, Some(("bash".to_string(), 19000, 230, 210)));
}

#[test]
fn a_name_is_read_back_whole() {
    for name in ["", "a b", "(sd-pam)", "x) R 1 (y", ")(", "größe", "new\nline"] {
        let found = parse_proc_stat(&stat(name)).unwrap();
        assert_eq!(found.0, name);
        assert_eq!((found.1, found.2, found.3), (19000, 230, 210));
    }
}

#[test]
fn a_broken_stat_line_gives_nothing() {
    assert_eq!(parse_proc_stat(""), None);
    assert_eq!(parse_proc_stat("42 bash S 1"), None);
    assert_eq!(parse_proc_stat("42 (bash S 1"), None);
    assert_eq!(parse_proc_stat(&format!("42 )bash( {FIELDS}")), None);
    assert_eq!(parse_proc_stat("42 (bash)"), None);
    assert_eq!(parse_proc_stat("42 (bash) "), None);
    assert_eq!(parse_proc_stat(&format!("42 (bash)ö{FIELDS}")), None);
    assert_eq!(parse_proc_stat("42 (bash) S 1 2 3 4 5 6 7 8 9 10 11 12 13 14 15 16 17 18 19 20"), None);
    assert_eq!(parse_proc_stat(&stat("bash").replace("110", "-1")), None);
    assert_eq!(parse_proc_stat(&stat("bash").replace("120", "x")), None);
    assert_eq!(parse_proc_stat(&stat("bash").replace("19000", "x")), None);
    assert_eq!(parse_proc_stat(&stat("bash").replace("210", "x")), None);
}

#[test]
fn spent_ticks_stop_at_the_largest_number() {
    let line = stat("b").replace("110", "18446744073709551615");
    assert_eq!(parse_proc_stat(&line).unwrap().2, u64::MAX);
}

#[test]
fn a_command_line_has_spaces_for_zero_bytes() {
    let line = read_process_cmdline(&b"/bin/sh\0-c\0echo hi\0".to_vec());
    assert_eq!(line, Some("/bin/sh -c echo hi".to_string()));
    assert_eq!(read_process_cmdline(&b"one".to_vec()), Some("one".to_string()));
    assert_eq!(read_process_cmdline(&b"\0\0a\0\0b".to_vec()), Some("a b".to_string()));
}

#[test]
fn an_empty_command_line_is_none() {
    assert_eq!(read_process_cmdline(&vec![]), None);
    assert_eq!(read_process_cmdline(&vec![0, 0, 0]), None);
    assert_eq!(join_arguments(&vec![]), None);
    assert_eq!(join_arguments(&vec!["".to_string()]), None);
}

#[test]
fn a_text_has_no_zero_and_is_missing_only_where_all_bytes_are_zero() {
    for text in ["", "\0", "\0\0", "vim\0\0a.txt\0", "\0ö\0日本\0\u{10ffff}", " \0 "] {
        let line = read_process_cmdline(&text.as_bytes().to_vec());
        assert_eq!(line.is_none(), text.bytes().all(|b| b == 0), "{text:?}");
        let parts: Vec<&str> = text.split('\0').filter(|p| !p.is_empty()).collect();
        assert_eq!(line.clone().unwrap_or_default(), parts.join(" "));
        assert!(!line.unwrap_or_default().contains('\0'));
    }
    assert_eq!(
        read_process_cmdline(&b"vim\0\0a.txt\0".to_vec()),
        Some("vim a.txt".to_string())
    );
}

#[test]
fn bytes_that_are_no_text_are_replaced() {
    let line = read_process_cmdline(&vec![b'a', 0xff, b'b', 0, 0xc3, 0xb6]);
    assert_eq!(line, Some("a\u{fffd}b ö".to_string()));
}

#[test]
fn arguments_are_read_back_as_they_were_packed() {
    let args = vec!["ls", "-l", "my file", "ö"];
    let mut bytes: Vec<u8> = vec![];
    for a in &args {
        bytes.extend_from_slice(a.as_bytes());
        bytes.push(0);
    }
    assert_eq!(split_arguments(&bytes), args);
}

#[test]
fn process_ids_are_digits_alone() {
    assert_eq!(parse_pid("1"), Some(1));
    assert_eq!(parse_pid("2147483647"), Some(i32::MAX));
    assert_eq!(parse_pid("2147483648"), None);
    assert_eq!(parse_pid("99999999999999999999999"), None);
    assert_eq!(parse_pid("+1"), None);
    assert_eq!(parse_pid("-1"), None);
    assert_eq!(parse_pid(""), None);
    assert_eq!(parse_pid("self"), None);
    assert_eq!(parse_pid("1a"), None);
}

#[test]
fn a_process_goes_by_its_command_line_or_its_name() {
    let mut files = ProcessFiles {
        pid: 42,
        stat: stat("bash"),
        cmdline: Some(b"/bin/bash\0-l\0".to_vec()),
    };
    let s = read_process_sample(&files).unwrap();
    assert_eq!((s.pid, s.start_time, s.total_time), (42, 19000, 230));
    assert_eq!(s.rss_bytes, 210 * 4096);
    assert_eq!(s.cmdline, "/bin/bash -l");
    files.cmdline = Some(vec![]);
    assert_eq!(read_process_sample(&files).unwrap().cmdline, "bash");
    files.cmdline = None;
    assert_eq!(read_process_sample(&files).unwrap().cmdline, "bash");
    files.stat = "gone".to_string();
    assert!(read_process_sample(&files).is_none());
}

#[test]
fn resident_memory_stops_at_the_largest_number() {
    let files = ProcessFiles {
        pid: 1,
        stat: stat("b").replace("210", "18446744073709551615"),
        cmdline: None,
    };
    assert_eq!(read_process_sample(&files).unwrap().rss_bytes, u64::MAX);
}

#[test]
fn processes_that_cannot_be_read_are_left_out() {
    let list = vec![
        ProcessFiles { pid: 3, stat: stat("c"), cmdline: None },
        ProcessFiles { pid: 1, stat: "".to_string(), cmdline: None },
        ProcessFiles { pid: 2, stat: stat("b"), cmdline: None },
    ];
    let found: Vec<(i32, String)> =
        read_process_samples(&list).into_iter().map(|s| (s.pid, s.cmdline)).collect();
    assert_eq!(found, vec![(3, "c".to_string()), (2, "b".to_string())]);
}
