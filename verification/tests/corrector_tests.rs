use sherlog::correct::adjust_sensor_timestamps;
use sherlog::correct::CORRECTION_ANCHOR_TICKS;
use sherlog::model::LogEntry;
use sherlog::model::LogLevel;
use sherlog::model::LogSource;
use sherlog::model::LogSourceContents;
use sherlog::model::Timestamp;

fn entry(ticks: i64, session: Option<u32>, message: &str) -> LogEntry {
    LogEntry {
        timestamp: Timestamp { ticks },
        severity: LogLevel::Info,
        message: message.to_string(),
        session_id: session,
        entry_id: 0,
    }
}

fn leaf(entries: Vec<LogEntry>) -> LogSource {
    LogSource { name: "sensor".to_string(), children: LogSourceContents::Entries(entries) }
}

fn ticks_of(s: &LogSource, i: usize) -> i64 {
    match &s.children {
        LogSourceContents::Entries(v) => v[i].timestamp.ticks,
        LogSourceContents::Sources(_) => panic!("expected a leaf"),
    }
}

const MARKER: &str = "Setting EtherCAT time [delta = 100000000000 ns].";

#[test]
fn marker_corrects_older_same_session_entry() {
    // Reverse-chronological list: the marker at position 5 shifts the
    // pre-anchor entry at position 2 of the same session 42 by
    // 100000000000 / 100 ticks.
    let mut src = leaf(vec![
        entry(100, Some(42), "oldest"),
        entry(200, Some(42), "older"),
        entry(500, Some(42), "target"),
        entry(CORRECTION_ANCHOR_TICKS + 1, Some(42), "already absolute"),
        entry(CORRECTION_ANCHOR_TICKS + 2, Some(42), "already absolute too"),
        entry(CORRECTION_ANCHOR_TICKS + 3, Some(42), MARKER),
    ]);
    adjust_sensor_timestamps(&mut src);
    assert_eq!(ticks_of(&src, 2), 500 + 100_000_000_000i64 / 100);
    assert_eq!(ticks_of(&src, 1), 200 + 100_000_000_000i64 / 100);
    assert_eq!(ticks_of(&src, 0), 100 + 100_000_000_000i64 / 100);
    // Post-anchor timestamps stay.
    assert_eq!(ticks_of(&src, 3), CORRECTION_ANCHOR_TICKS + 1);
    assert_eq!(ticks_of(&src, 5), CORRECTION_ANCHOR_TICKS + 3);
}

#[test]
fn session_change_clears_correction() {
    // An entry of session 43 between the marker and an older session-42
    // entry invalidates the correction: the older entry must not shift.
    let mut src = leaf(vec![
        entry(100, Some(42), "must stay"),
        entry(200, Some(43), "boundary"),
        entry(CORRECTION_ANCHOR_TICKS + 3, Some(42), MARKER),
    ]);
    adjust_sensor_timestamps(&mut src);
    assert_eq!(ticks_of(&src, 0), 100);
    assert_eq!(ticks_of(&src, 1), 200);
}

#[test]
fn missing_session_id_clears_correction() {
    let mut src = leaf(vec![
        entry(100, Some(42), "must stay"),
        entry(200, None, "untrusted"),
        entry(CORRECTION_ANCHOR_TICKS + 3, Some(42), MARKER),
    ]);
    adjust_sensor_timestamps(&mut src);
    assert_eq!(ticks_of(&src, 0), 100);
}

#[test]
fn unparsable_marker_clears_correction() {
    let mut src = leaf(vec![
        entry(100, Some(42), "must stay"),
        entry(200, Some(42), "Setting EtherCAT time [delta = bogus ns]"),
        entry(CORRECTION_ANCHOR_TICKS + 3, Some(42), MARKER),
    ]);
    adjust_sensor_timestamps(&mut src);
    assert_eq!(ticks_of(&src, 0), 100);
}

#[test]
fn marker_without_period_is_accepted() {
    let mut src = leaf(vec![
        entry(100, Some(7), "target"),
        entry(
            CORRECTION_ANCHOR_TICKS + 1,
            Some(7),
            "Setting EtherCAT time [delta = 5000 ns]",
        ),
    ]);
    adjust_sensor_timestamps(&mut src);
    assert_eq!(ticks_of(&src, 0), 100 + 50);
}

#[test]
fn negative_delta_shifts_backwards() {
    let mut src = leaf(vec![
        entry(10_000, Some(7), "target"),
        entry(
            CORRECTION_ANCHOR_TICKS + 1,
            Some(7),
            "Setting EtherCAT time [delta = -300 ns].",
        ),
    ]);
    adjust_sensor_timestamps(&mut src);
    assert_eq!(ticks_of(&src, 0), 10_000 - 3);
}

#[test]
fn no_correction_without_marker() {
    let mut src = leaf(vec![
        entry(100, Some(42), "a"),
        entry(200, Some(42), "b"),
    ]);
    adjust_sensor_timestamps(&mut src);
    assert_eq!(ticks_of(&src, 0), 100);
    assert_eq!(ticks_of(&src, 1), 200);
}

#[test]
fn corrector_recurses_into_sub_sources() {
    let inner = leaf(vec![
        entry(100, Some(1), "target"),
        entry(
            CORRECTION_ANCHOR_TICKS + 1,
            Some(1),
            "Setting EtherCAT time [delta = 200 ns]",
        ),
    ]);
    let mut src = LogSource {
        name: "root".to_string(),
        children: LogSourceContents::Sources(vec![inner]),
    };
    adjust_sensor_timestamps(&mut src);
    match &src.children {
        LogSourceContents::Sources(v) => {
            assert_eq!(ticks_of(&v[0], 0), 102);
        },
        LogSourceContents::Entries(_) => panic!("expected sub-sources"),
    }
}
