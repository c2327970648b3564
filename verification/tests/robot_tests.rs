use sherlog::model::LogLevel;
use sherlog::model::LogSource;
use sherlog::model::LogSourceContents;
use sherlog::robot_log::is_robot_log;
use sherlog::robot_log::robot_line_captures;
use sherlog::robot_log::to_log_entries;

fn lines(ls: &[&str]) -> Vec<String> {
    ls.iter().map(|l| l.to_string()).collect()
}

fn leaf_entries(s: &LogSource) -> &Vec<sherlog::model::LogEntry> {
    match &s.children {
        LogSourceContents::Entries(v) => v,
        LogSourceContents::Sources(_) => panic!("expected a leaf"),
    }
}

#[test]
fn test_parse_robot_log_line() {
    let line = "2025-12-18 22:50:36.585690 - INFO - Selecting tracker 10.62.33.92";
    let caps = robot_line_captures(line).expect("Should match");
    assert_eq!(&caps.0, "2025-12-18");
    assert_eq!(&caps.1, "22:50:36.585690");
    assert_eq!(&caps.2, "INFO");
    assert_eq!(&caps.3, "Selecting tracker 10.62.33.92");
}

#[test]
fn parses_timestamp_level_and_message() {
    let src = to_log_entries(
        &lines(&["2025-12-18 22:50:36.585690 - INFO - Selecting tracker 10.62.33.92"]),
        "debug.txt".to_string(),
    );
    let es = leaf_entries(&src);
    assert_eq!(es.len(), 1);
    assert_eq!(es[0].timestamp.ticks, 17_660_982_365_856_900i64);
    assert_eq!(es[0].severity, LogLevel::Info);
    assert_eq!(es[0].message, "Selecting tracker 10.62.33.92");
}

#[test]
fn level_mapping_is_case_insensitive() {
    let src = to_log_entries(
        &lines(&[
            "2025-01-01 00:00:00.000000 - trace - a",
            "2025-01-01 00:00:00.000000 - Debug - b",
            "2025-01-01 00:00:00.000000 - WARN - c",
            "2025-01-01 00:00:00.000000 - fail - d",
            "2025-01-01 00:00:00.000000 - ERROR - e",
            "2025-01-01 00:00:00.000000 - WHATEVER - f",
        ]),
        "x".to_string(),
    );
    let es = leaf_entries(&src);
    assert_eq!(es[0].severity, LogLevel::Trace);
    assert_eq!(es[1].severity, LogLevel::Debug);
    assert_eq!(es[2].severity, LogLevel::Warning);
    assert_eq!(es[3].severity, LogLevel::Error);
    assert_eq!(es[4].severity, LogLevel::Error);
    assert_eq!(es[5].severity, LogLevel::Info);
}

#[test]
fn continuation_lines_join_message() {
    let src = to_log_entries(
        &lines(&[
            "2025-01-01 00:00:00.000000 - INFO - first",
            "and more",
            "and even more",
        ]),
        "x".to_string(),
    );
    let es = leaf_entries(&src);
    assert_eq!(es.len(), 1);
    assert_eq!(es[0].message, "first\nand more\nand even more");
}

#[test]
fn separators_take_previous_timestamp() {
    let src = to_log_entries(
        &lines(&[
            "2025-01-01 00:00:01.000000 - INFO - a",
            "=====",
            "2025-01-01 00:00:02.000000 - INFO - b",
        ]),
        "x".to_string(),
    );
    let es = leaf_entries(&src);
    assert_eq!(es.len(), 3);
    assert_eq!(es[0].message, "a");
    assert_eq!(es[1].message, "=====");
    // The separator is timestamped with the previous entry's time.
    assert_eq!(es[1].timestamp.ticks, es[0].timestamp.ticks);
    assert_eq!(es[1].severity, LogLevel::Info);
    assert_eq!(es[2].message, "b");
}

#[test]
fn leading_separators_take_first_timestamp() {
    let src = to_log_entries(
        &lines(&["-----", "2025-01-01 00:00:02.000000 - INFO - b"]),
        "x".to_string(),
    );
    let es = leaf_entries(&src);
    assert_eq!(es.len(), 2);
    assert_eq!(es[0].message, "-----");
    assert_eq!(es[0].timestamp.ticks, es[1].timestamp.ticks);
}

#[test]
fn trailing_separators_use_last_timestamp() {
    let src = to_log_entries(
        &lines(&["2025-01-01 00:00:02.000000 - INFO - b", "~~~"]),
        "x".to_string(),
    );
    let es = leaf_entries(&src);
    assert_eq!(es.len(), 2);
    assert_eq!(es[1].message, "~~~");
    assert_eq!(es[1].timestamp.ticks, es[0].timestamp.ticks);
}

#[test]
fn separators_without_any_timestamp_are_dropped() {
    let src = to_log_entries(&lines(&["===", "~~~"]), "x".to_string());
    assert_eq!(leaf_entries(&src).len(), 0);
}

#[test]
fn invalid_date_skips_line() {
    let src = to_log_entries(
        &lines(&["2025-13-01 00:00:00.000000 - INFO - bad month"]),
        "x".to_string(),
    );
    assert_eq!(leaf_entries(&src).len(), 0);
}

#[test]
fn preamble_before_first_timestamp_is_dropped() {
    let src = to_log_entries(
        &lines(&["some preamble", "2025-01-01 00:00:00.000000 - INFO - a"]),
        "x".to_string(),
    );
    let es = leaf_entries(&src);
    assert_eq!(es.len(), 1);
    assert_eq!(es[0].message, "a");
}

#[test]
fn sniffer_accepts_three_matches() {
    assert!(is_robot_log(&lines(&[
        "=====",
        "2025-01-01 00:00:00.000000 - INFO - a",
        "2025-01-01 00:00:01.000000 - INFO - b",
        "2025-01-01 00:00:02.000000 - INFO - c",
    ])));
}

#[test]
fn sniffer_rejects_foreign_line_immediately() {
    // A non-separator, non-matching, non-blank line refutes at once,
    // even though three matching lines follow.
    assert!(!is_robot_log(&lines(&[
        "this is not a robot log",
        "2025-01-01 00:00:00.000000 - INFO - a",
        "2025-01-01 00:00:01.000000 - INFO - b",
        "2025-01-01 00:00:02.000000 - INFO - c",
    ])));
}

#[test]
fn sniffer_needs_three_matches() {
    assert!(!is_robot_log(&lines(&[
        "2025-01-01 00:00:00.000000 - INFO - a",
        "2025-01-01 00:00:01.000000 - INFO - b",
    ])));
}

#[test]
fn sniffer_skips_blank_lines() {
    assert!(is_robot_log(&lines(&[
        "",
        "   ",
        "2025-01-01 00:00:00.000000 - INFO - a",
        "2025-01-01 00:00:01.000000 - INFO - b",
        "2025-01-01 00:00:02.000000 - INFO - c",
    ])));
}

#[test]
fn calendar_edge_values() {
    // The Unix epoch itself, a leap day, and an instant before the epoch.
    let src = to_log_entries(
        &lines(&[
            "1970-01-01 00:00:00.000000 - INFO - epoch",
            "2000-02-29 12:00:00.000000 - INFO - leap day",
            "1969-12-31 23:59:59.999999 - INFO - before epoch",
        ]),
        "x".to_string(),
    );
    let es = leaf_entries(&src);
    assert_eq!(es[0].timestamp.ticks, 0);
    assert_eq!(es[1].timestamp.ticks, 9_518_256_000_000_000i64);
    assert_eq!(es[2].timestamp.ticks, -10);
}

#[test]
fn nonexistent_leap_day_skips_line() {
    let src = to_log_entries(
        &lines(&["2001-02-29 00:00:00.000000 - INFO - no such day"]),
        "x".to_string(),
    );
    assert_eq!(leaf_entries(&src).len(), 0);
}
