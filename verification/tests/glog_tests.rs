use sherlog::glog::to_log_entries;
use sherlog::glog::GlogParser;
use sherlog::glog::GlogSeverity;
use sherlog::glog::normalize_glog_sev;
use sherlog::model::LogEntry;
use sherlog::model::LogLevel;
use sherlog::model::LogSource;
use sherlog::model::LogSourceContents;

fn root(name: &str) -> LogSource {
    LogSource { name: name.to_string(), children: LogSourceContents::Entries(Vec::new()) }
}

fn leaf_entries(s: &LogSource) -> &Vec<LogEntry> {
    match &s.children {
        LogSourceContents::Entries(v) => v,
        LogSourceContents::Sources(_) => panic!("expected a leaf"),
    }
}

fn children(s: &LogSource) -> &Vec<LogSource> {
    match &s.children {
        LogSourceContents::Sources(v) => v,
        LogSourceContents::Entries(_) => panic!("expected sub-sources"),
    }
}

#[test]
fn single_entry_fields() {
    let src = to_log_entries(b"[tq|1700000000000]:[s|2]:[m|hello]\n", root("f"));
    let es = leaf_entries(&src);
    assert_eq!(es.len(), 1);
    assert_eq!(es[0].severity, LogLevel::Error);
    assert_eq!(es[0].message, "hello");
    assert_eq!(es[0].timestamp.ticks, 17_000_000_000_000_000i64);
}

#[test]
fn sub_source_from_message_prefix() {
    let src = to_log_entries(b"[tq|0]:[s|4]:[i|7]:[m|Motor: starting up]\n", root("f"));
    let cs = children(&src);
    assert_eq!(cs.len(), 1);
    assert_eq!(cs[0].name, "Motor");
    let es = leaf_entries(&cs[0]);
    assert_eq!(es.len(), 1);
    assert_eq!(es[0].message, "Motor: starting up");
    assert_eq!(es[0].severity, LogLevel::Info);
}

#[test]
fn severity_none_normalizes_to_debug() {
    assert_eq!(normalize_glog_sev(GlogSeverity::Unspecified), LogLevel::Debug);
    assert_ne!(normalize_glog_sev(GlogSeverity::Unspecified), LogLevel::Critical);
    let src = to_log_entries(b"[s|5]:[m|noise]\n", root("f"));
    let es = leaf_entries(&src);
    assert_eq!(es[0].severity, LogLevel::Debug);
}

#[test]
fn severity_table() {
    assert_eq!(normalize_glog_sev(GlogSeverity::Critical), LogLevel::Critical);
    assert_eq!(normalize_glog_sev(GlogSeverity::Hardware), LogLevel::Critical);
    assert_eq!(normalize_glog_sev(GlogSeverity::Error), LogLevel::Error);
    assert_eq!(normalize_glog_sev(GlogSeverity::Warning), LogLevel::Warning);
    assert_eq!(normalize_glog_sev(GlogSeverity::Info), LogLevel::Info);
    assert!(GlogSeverity::from_u32(6).is_none());
    assert!(GlogSeverity::from_u32(2).is_some());
}

#[test]
fn byte_at_a_time_equals_all_at_once() {
    let bytes: &[u8] = b"[tq|5]:[s|1]:[m|a: b]\r\n[i|3]:[m|no prefix]\n[n|77]:[m|x]\n";
    let all = to_log_entries(bytes, root("f"));
    let mut p = GlogParser::new(root("f"));
    for b in bytes {
        p.read_byte(*b);
    }
    let one = p.finalize();
    assert_sources_equal(&all, &one);
}

fn assert_sources_equal(a: &LogSource, b: &LogSource) {
    assert_eq!(a.name, b.name);
    match (&a.children, &b.children) {
        (LogSourceContents::Entries(x), LogSourceContents::Entries(y)) => {
            assert_eq!(x.len(), y.len());
            for i in 0..x.len() {
                assert_eq!(x[i].timestamp.ticks, y[i].timestamp.ticks);
                assert_eq!(x[i].severity, y[i].severity);
                assert_eq!(x[i].message, y[i].message);
                assert_eq!(x[i].session_id, y[i].session_id);
            }
        },
        (LogSourceContents::Sources(x), LogSourceContents::Sources(y)) => {
            assert_eq!(x.len(), y.len());
            for i in 0..x.len() {
                assert_sources_equal(&x[i], &y[i]);
            }
        },
        _ => panic!("shape mismatch"),
    }
}

#[test]
fn entry_count_matches_line_count() {
    let bytes: &[u8] = b"[m|one]\n[m|two]\r\n[tq|3][m|three]\n";
    let src = to_log_entries(bytes, root("f"));
    assert_eq!(leaf_entries(&src).len(), 3);
}

#[test]
fn empty_stream_yields_empty_root() {
    let src = to_log_entries(b"", root("f"));
    assert_eq!(src.name, "f");
    assert_eq!(leaf_entries(&src).len(), 0);
}

#[test]
fn garbage_stream_yields_empty_root() {
    let src = to_log_entries(b"no brackets here at all", root("f"));
    assert_eq!(leaf_entries(&src).len(), 0);
}

#[test]
fn bracket_inside_value_is_tolerated() {
    // A `]` not followed by `:`, `\r` or `\n` belongs to the value.
    let src = to_log_entries(b"[m|a]b]\n", root("f"));
    let es = leaf_entries(&src);
    assert_eq!(es.len(), 1);
    assert_eq!(es[0].message, "a]b");
}

#[test]
fn last_entry_recovered_at_end_of_stream() {
    // No trailing newline: the pending entry still goes through.
    let src = to_log_entries(b"[m|tail]", root("f"));
    let es = leaf_entries(&src);
    assert_eq!(es.len(), 1);
    assert_eq!(es[0].message, "tail");
}

#[test]
fn cut_off_entry_is_dropped() {
    // Stream ends while the value is still open: unrecoverable.
    let src = to_log_entries(b"[m|lost", root("f"));
    assert_eq!(leaf_entries(&src).len(), 0);
}

#[test]
fn sub_sources_sorted_case_insensitively() {
    let bytes: &[u8] = b"[i|1]:[m|beta: x]\n[i|2]:[m|Alpha: y]\n[m|flat]\n";
    let src = to_log_entries(bytes, root("f"));
    let cs = children(&src);
    assert_eq!(cs.len(), 3);
    assert_eq!(cs[0].name, "Alpha");
    assert_eq!(cs[1].name, "beta");
    assert_eq!(cs[2].name, "Unknown (None)");
    assert_eq!(leaf_entries(&cs[2])[0].message, "flat");
}

#[test]
fn unknown_tag_synthesizes_name() {
    let src = to_log_entries(b"[i|-3]:[m|no prefix here]\n", root("f"));
    let cs = children(&src);
    assert_eq!(cs[0].name, "Unknown (-3)");
}

#[test]
fn session_id_custom_field() {
    let src = to_log_entries(b"[n|42]:[m|x]\n[m|y]\n", root("f"));
    let es = leaf_entries(&src);
    assert_eq!(es[0].session_id, Some(42));
    assert_eq!(es[1].session_id, None);
}

#[test]
fn malformed_values_are_ignored() {
    // Bad severity, bad timestamp, bad session id: entry still finalized.
    let src = to_log_entries(b"[s|99]:[tq|abc]:[n|-1]:[m|kept]\n", root("f"));
    let es = leaf_entries(&src);
    assert_eq!(es.len(), 1);
    assert_eq!(es[0].message, "kept");
    assert_eq!(es[0].severity, LogLevel::Debug);
    assert_eq!(es[0].timestamp.ticks, 0);
    assert_eq!(es[0].session_id, None);
}

#[test]
fn lossy_decoding_of_message_bytes() {
    // Valid UTF-8 passes through; an invalid byte becomes U+FFFD.
    let src = to_log_entries(b"[m|h\xc3\xa9llo]\n[m|a\xffb]\n", root("f"));
    let es = leaf_entries(&src);
    assert_eq!(es[0].message, "h\u{e9}llo");
    assert_eq!(es[1].message, "a\u{fffd}b");
}

#[test]
fn timestamp_100ns_section() {
    let src = to_log_entries(b"[t|123456789]:[m|x]\n", root("f"));
    let es = leaf_entries(&src);
    assert_eq!(es[0].timestamp.ticks, 123_456_789);
}

#[test]
fn invalid_bytes_are_counted() {
    let mut p = GlogParser::new(root("f"));
    for b in b"xy[m|ok]\n" {
        p.read_byte(*b);
    }
    assert_eq!(p.invalid_bytes(), 2);
    let src = p.finalize();
    let es = leaf_entries(&src);
    assert_eq!(es[0].message, "ok");
}
