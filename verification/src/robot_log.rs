//! The Robot-log line parser and sniffer.
//!
//! The format is line oriented:
//! `YYYY-MM-DD HH:MM:SS.ssssss - LEVEL - message`, where `LEVEL` is a
//! run of word characters.  Lines made only of `=`, `-` or `~` are
//! separators; a grammar line opens a new entry, any other line continues
//! the open entry's message, and separators are deferred so they can be
//! timestamped with the preceding entry's time.  The sniffer decides from
//! the first lines whether the grammar applies at all: three grammar
//! lines settle it, one foreign non-blank line refutes it at once.

use vstd::prelude::*;
use vstd::string::StrSliceExecFns;
use vstd::string::StringExecFns;

use crate::datetime::civil_to_ticks;
use crate::datetime::ticks_of_civil;
use crate::datetime::valid_civil;
use crate::glog::entries_view;
use crate::model::EntryModel;
use crate::model::LogEntry;
use crate::model::LogLevel;
use crate::model::LogSource;
use crate::model::LogSourceContents;
use crate::model::Timestamp;
use crate::model::TreeModel;
use crate::numbers::all_digit_chars;
use crate::numbers::digits_val_chars;
use crate::numbers::is_digit_char;
use crate::numbers::lemma_digits_val_chars_bound;
use crate::numbers::lemma_pow10_values;
use crate::numbers::pow10;
use crate::text::eq_ignore_case;
use crate::text::parse_digits_u64_str;
use crate::text::str_eq_ignore_case;
use crate::text::substring_string;

verus! {

/// The view of a vector of text lines.
pub open spec fn lines_view(v: Seq<String>) -> Seq<Seq<char>> {
    v.map(|i: int, l: String| l@)
}

pub open spec fn is_sep_char(c: char) -> bool {
    c == '=' || c == '-' || c == '~'
}

/// A non-empty line consisting only of `=`, `-` and `~`.
pub open spec fn is_separator_line(s: Seq<char>) -> bool {
    s.len() > 0 && forall|i: int| 0 <= i < s.len() ==> is_sep_char(#[trigger] s[i])
}

pub open spec fn is_space_char(c: char) -> bool {
    c == ' ' || c == '\t' || c == '\r' || c == '\n' || c == '\u{b}' || c == '\u{c}'
}

/// A line that is empty after trimming whitespace.
pub open spec fn is_blank_line(s: Seq<char>) -> bool {
    forall|i: int| 0 <= i < s.len() ==> is_space_char(#[trigger] s[i])
}

/// A word character of the level token: ASCII letters, digits, `_`.
pub open spec fn is_word_char(c: char) -> bool {
    is_digit_char(c) || (65 <= c as u32 <= 90) || (97 <= c as u32 <= 122) || c == '_'
}

/// First position at or after `i` that is not a word character (the
/// line's length when the word run goes to the end).
pub open spec fn spec_find_non_word(s: Seq<char>, i: int) -> int
    decreases s.len() - i,
{
    if i >= s.len() {
        s.len() as int
    } else if !is_word_char(s[i]) {
        i
    } else {
        spec_find_non_word(s, i + 1)
    }
}

/// The grammar: a ten-character date, a space, a fifteen-character time
/// with six fractional digits, `" - "`, a non-empty level token of word
/// characters, `" - "`, and an arbitrary (possibly empty) message.
pub open spec fn robot_match(s: Seq<char>) -> bool {
    let le = spec_find_non_word(s, 29);
    &&& s.len() >= 29
    &&& all_digit_chars(s.subrange(0, 4))
    &&& s[4] == '-'
    &&& all_digit_chars(s.subrange(5, 7))
    &&& s[7] == '-'
    &&& all_digit_chars(s.subrange(8, 10))
    &&& s[10] == ' '
    &&& all_digit_chars(s.subrange(11, 13))
    &&& s[13] == ':'
    &&& all_digit_chars(s.subrange(14, 16))
    &&& s[16] == ':'
    &&& all_digit_chars(s.subrange(17, 19))
    &&& s[19] == '.'
    &&& all_digit_chars(s.subrange(20, 26))
    &&& s[26] == ' '
    &&& s[27] == '-'
    &&& s[28] == ' '
    &&& le > 29
    &&& le + 3 <= s.len()
    &&& s[le] == ' '
    &&& s[le + 1] == '-'
    &&& s[le + 2] == ' '
}

/// The level token of a matching line.
pub open spec fn level_of(s: Seq<char>) -> Seq<char> {
    s.subrange(29, spec_find_non_word(s, 29))
}

/// The message of a matching line.
pub open spec fn message_of(s: Seq<char>) -> Seq<char> {
    s.skip(spec_find_non_word(s, 29) + 3)
}

pub open spec fn year_of(s: Seq<char>) -> int {
    digits_val_chars(s.subrange(0, 4))
}

pub open spec fn month_of(s: Seq<char>) -> int {
    digits_val_chars(s.subrange(5, 7))
}

pub open spec fn day_of(s: Seq<char>) -> int {
    digits_val_chars(s.subrange(8, 10))
}

pub open spec fn hour_of(s: Seq<char>) -> int {
    digits_val_chars(s.subrange(11, 13))
}

pub open spec fn minute_of(s: Seq<char>) -> int {
    digits_val_chars(s.subrange(14, 16))
}

pub open spec fn second_of(s: Seq<char>) -> int {
    digits_val_chars(s.subrange(17, 19))
}

pub open spec fn micros_of(s: Seq<char>) -> int {
    digits_val_chars(s.subrange(20, 26))
}

/// The timestamp of a matching line; `None` when the digits do not form
/// a valid calendar date and time of day.
pub open spec fn robot_ticks(s: Seq<char>) -> Option<i64> {
    if valid_civil(
        year_of(s),
        month_of(s),
        day_of(s),
        hour_of(s),
        minute_of(s),
        second_of(s),
        micros_of(s),
    ) {
        Some(
            ticks_of_civil(
                year_of(s),
                month_of(s),
                day_of(s),
                hour_of(s),
                minute_of(s),
                second_of(s),
                micros_of(s),
            ) as i64,
        )
    } else {
        None
    }
}

/// The level token maps case-insensitively onto the model severities;
/// `FAIL` is an alias of `ERROR`, anything unrecognized defaults to
/// `Info`.
pub open spec fn level_severity(level: Seq<char>) -> LogLevel {
    if eq_ignore_case(level, "TRACE"@) {
        LogLevel::Trace
    } else if eq_ignore_case(level, "DEBUG"@) {
        LogLevel::Debug
    } else if eq_ignore_case(level, "INFO"@) {
        LogLevel::Info
    } else if eq_ignore_case(level, "WARN"@) {
        LogLevel::Warning
    } else if eq_ignore_case(level, "ERROR"@) {
        LogLevel::Error
    } else if eq_ignore_case(level, "FAIL"@) {
        LogLevel::Error
    } else {
        LogLevel::Info
    }
}

/// A separator preserved as its own entry at the given time.
pub open spec fn sep_entry(msg: Seq<char>, ticks: i64) -> EntryModel {
    EntryModel {
        ticks,
        severity: LogLevel::Info,
        message: msg,
        session_id: None,
        entry_id: 0,
    }
}

/// Separators preserved as entries at the given time.
pub open spec fn sep_entries(msgs: Seq<Seq<char>>, ticks: i64) -> Seq<EntryModel> {
    msgs.map(|i: int, m: Seq<char>| sep_entry(m, ticks))
}

/// The entry a matching line opens.
pub open spec fn opened_entry(line: Seq<char>, ticks: i64) -> EntryModel {
    EntryModel {
        ticks,
        severity: level_severity(level_of(line)),
        message: message_of(line),
        session_id: None,
        entry_id: 0,
    }
}

/// The parser's fold state: finished entries, the entry still open, the
/// last grammar timestamp seen, and separator lines awaiting a timestamp.
pub struct RobotState {
    pub entries: Seq<EntryModel>,
    pub current: Option<EntryModel>,
    pub last_ts: Option<i64>,
    pub pending: Seq<Seq<char>>,
}

pub open spec fn robot_init() -> RobotState {
    RobotState {
        entries: Seq::<EntryModel>::empty(),
        current: None,
        last_ts: None,
        pending: Seq::<Seq<char>>::empty(),
    }
}

pub open spec fn opt_entry_seq(o: Option<EntryModel>) -> Seq<EntryModel> {
    match o {
        Some(e) => seq![e],
        None => Seq::<EntryModel>::empty(),
    }
}

/// What one line does to the fold state.  A grammar line first flushes
/// the open entry; an unparsable timestamp then skips the line, a valid
/// one flushes the deferred separators (timestamped with the previous
/// grammar timestamp, or this one if it is the first) and opens a new
/// entry.  A separator is deferred.  Anything else continues the open
/// entry's message, or is dropped as preamble when none is open.
pub open spec fn robot_line_step(st: RobotState, line: Seq<char>) -> RobotState {
    if robot_match(line) {
        let st1 = RobotState { entries: st.entries + opt_entry_seq(st.current), current: None, ..st };
        match robot_ticks(line) {
            None => st1,
            Some(t) => {
                let sep_ts = match st1.last_ts {
                    Some(p) => p,
                    None => t,
                };
                RobotState {
                    entries: st1.entries + sep_entries(st1.pending, sep_ts),
                    current: Some(opened_entry(line, t)),
                    last_ts: Some(t),
                    pending: Seq::<Seq<char>>::empty(),
                }
            },
        }
    } else if is_separator_line(line) {
        RobotState { pending: st.pending.push(line), ..st }
    } else {
        match st.current {
            Some(e) => RobotState {
                current: Some(EntryModel { message: e.message + seq!['\n'] + line, ..e }),
                ..st
            },
            None => st,
        }
    }
}

pub open spec fn robot_run(st: RobotState, lines: Seq<Seq<char>>) -> RobotState
    decreases lines.len(),
{
    if lines.len() == 0 {
        st
    } else {
        robot_run(robot_line_step(st, lines[0]), lines.drop_first())
    }
}

/// End of input: the open entry is flushed, and separators still pending
/// are flushed with the last grammar timestamp, or dropped if none was
/// ever seen.
pub open spec fn robot_finish(st: RobotState) -> Seq<EntryModel> {
    let entries1 = st.entries + opt_entry_seq(st.current);
    match st.last_ts {
        Some(t) => entries1 + sep_entries(st.pending, t),
        None => entries1,
    }
}

/// What parsing a whole Robot log yields: one leaf named `name`.
pub open spec fn spec_parse_robot(lines: Seq<Seq<char>>, name: Seq<char>) -> TreeModel {
    TreeModel::Leaf { name, entries: robot_finish(robot_run(robot_init(), lines)) }
}

/// The sniffer's decision over the remaining lines, given how many
/// grammar lines have matched so far: three matches settle it, a foreign
/// non-blank line refutes it, the end of input refutes it.
pub open spec fn spec_sniff(lines: Seq<Seq<char>>, matches: int) -> bool
    decreases lines.len(),
{
    if matches >= 3 {
        true
    } else if lines.len() == 0 {
        false
    } else if is_separator_line(lines[0]) {
        spec_sniff(lines.drop_first(), matches)
    } else if robot_match(lines[0]) {
        spec_sniff(lines.drop_first(), matches + 1)
    } else if !is_blank_line(lines[0]) {
        false
    } else {
        spec_sniff(lines.drop_first(), matches)
    }
}

/// How many of the lines are grammar lines the sniffer would count.
pub open spec fn sniff_match_count(lines: Seq<Seq<char>>) -> int
    decreases lines.len(),
{
    if lines.len() == 0 {
        0
    } else {
        (if !is_separator_line(lines[0]) && robot_match(lines[0]) {
            1int
        } else {
            0int
        }) + sniff_match_count(lines.drop_first())
    }
}

/// The sniffer refutes immediately: if every line before position `k` is
/// a separator, blank, or grammar line, fewer than three grammar lines
/// stand among them, and the line at `k` is none of the three, the
/// decision is false no matter what follows `k`.
pub proof fn lemma_sniffer_short_circuit(lines: Seq<Seq<char>>, k: int, matches: int)
    requires
        0 <= k < lines.len(),
        matches + sniff_match_count(lines.take(k)) < 3,
        forall|j: int|
            0 <= j < k ==> is_separator_line(#[trigger] lines[j]) || robot_match(lines[j])
                || is_blank_line(lines[j]),
        !is_separator_line(lines[k]),
        !robot_match(lines[k]),
        !is_blank_line(lines[k]),
    ensures
        !spec_sniff(lines, matches),
    decreases k,
{
    if k == 0 {
        assert(sniff_match_count(lines.take(0)) == 0);
    } else {
        let rest = lines.drop_first();
        assert(lines.take(k)[0] == lines[0]);
        assert(lines.take(k).drop_first() =~= rest.take(k - 1));
        assert forall|j: int|
            0 <= j < k - 1 implies is_separator_line(#[trigger] rest[j]) || robot_match(rest[j])
            || is_blank_line(rest[j]) by {
            assert(rest[j] == lines[j + 1]);
        }
        assert(rest[k - 1] == lines[k]);
        if is_separator_line(lines[0]) {
            lemma_sniffer_short_circuit(rest, k - 1, matches);
        } else if robot_match(lines[0]) {
            lemma_sniffer_short_circuit(rest, k - 1, matches + 1);
        } else {
            lemma_sniffer_short_circuit(rest, k - 1, matches);
        }
    }
}

/// Checks that the range `[from, to)` holds only decimal digits.
fn check_digits(s: &str, from: usize, to: usize) -> (r: bool)
    requires
        from <= to <= s@.len(),
    ensures
        r == all_digit_chars(s@.subrange(from as int, to as int)),
{
    let ghost body = s@.subrange(from as int, to as int);
    let mut i: usize = from;
    while i < to
        invariant
            from <= i <= to <= s@.len(),
            body == s@.subrange(from as int, to as int),
            forall|j: int| 0 <= j < i - from ==> is_digit_char(#[trigger] body[j]),
        decreases to - i,
    {
        let c = s.get_char(i) as u32;
        if c < 48 || c > 57 {
            proof {
                assert(body[i - from] == s@[i as int]);
            }
            return false;
        }
        proof {
            assert(body[i - from] == s@[i as int]);
        }
        i = i + 1;
    }
    true
}

/// Finds the end of the word run starting at `from`.
fn find_non_word(s: &str, from: usize) -> (r: usize)
    requires
        from <= s@.len(),
    ensures
        r == spec_find_non_word(s@, from as int),
        from <= r <= s@.len(),
{
    let m = s.unicode_len();
    let mut i: usize = from;
    while i < m
        invariant
            from <= i <= m,
            m == s@.len(),
            spec_find_non_word(s@, from as int) == spec_find_non_word(s@, i as int),
        decreases m - i,
    {
        let c = s.get_char(i) as u32;
        let word = (48 <= c && c <= 57) || (65 <= c && c <= 90) || (97 <= c && c <= 122) || c
            == 95;
        if !word {
            return i;
        }
        i = i + 1;
    }
    m
}

/// Tests a line against the grammar.
pub fn is_robot_line(line: &str) -> (r: bool)
    ensures
        r == robot_match(line@),
{
    let n = line.unicode_len();
    if n < 33 {
        return false;
    }
    if !check_digits(line, 0, 4) || line.get_char(4) != '-' || !check_digits(line, 5, 7)
        || line.get_char(7) != '-' || !check_digits(line, 8, 10) || line.get_char(10) != ' ' {
        return false;
    }
    if !check_digits(line, 11, 13) || line.get_char(13) != ':' || !check_digits(line, 14, 16)
        || line.get_char(16) != ':' || !check_digits(line, 17, 19) || line.get_char(19) != '.'
        || !check_digits(line, 20, 26) {
        return false;
    }
    if line.get_char(26) != ' ' || line.get_char(27) != '-' || line.get_char(28) != ' ' {
        return false;
    }
    let le = find_non_word(line, 29);
    if le <= 29 {
        return false;
    }
    if le > n - 3 {
        return false;
    }
    line.get_char(le) == ' ' && line.get_char(le + 1) == '-' && line.get_char(le + 2) == ' '
}

/// Tests a line for the separator shape.
pub fn is_separator(line: &str) -> (r: bool)
    ensures
        r == is_separator_line(line@),
{
    let n = line.unicode_len();
    if n == 0 {
        return false;
    }
    let mut i: usize = 0;
    while i < n
        invariant
            0 <= i <= n,
            n == line@.len(),
            forall|j: int| 0 <= j < i ==> is_sep_char(#[trigger] line@[j]),
        decreases n - i,
    {
        let c = line.get_char(i);
        if c != '=' && c != '-' && c != '~' {
            return false;
        }
        i = i + 1;
    }
    true
}

/// Tests a line for blankness (only whitespace).
fn is_blank(line: &str) -> (r: bool)
    ensures
        r == is_blank_line(line@),
{
    let n = line.unicode_len();
    let mut i: usize = 0;
    while i < n
        invariant
            0 <= i <= n,
            n == line@.len(),
            forall|j: int| 0 <= j < i ==> is_space_char(#[trigger] line@[j]),
        decreases n - i,
    {
        let c = line.get_char(i);
        if c != ' ' && c != '\t' && c != '\r' && c != '\n' && c != '\u{b}' && c != '\u{c}' {
            return false;
        }
        i = i + 1;
    }
    true
}

/// Maps a level token onto a model severity.
fn parse_level(level: &str) -> (r: LogLevel)
    ensures
        r == level_severity(level@),
{
    if str_eq_ignore_case(level, "TRACE") {
        LogLevel::Trace
    } else if str_eq_ignore_case(level, "DEBUG") {
        LogLevel::Debug
    } else if str_eq_ignore_case(level, "INFO") {
        LogLevel::Info
    } else if str_eq_ignore_case(level, "WARN") {
        LogLevel::Warning
    } else if str_eq_ignore_case(level, "ERROR") {
        LogLevel::Error
    } else if str_eq_ignore_case(level, "FAIL") {
        LogLevel::Error
    } else {
        LogLevel::Info
    }
}

/// Reads a short all-digit field as a number.
fn fixed_digits_u32(s: &str, from: usize, to: usize) -> (r: u32)
    requires
        from < to <= s@.len(),
        to - from <= 9,
        all_digit_chars(s@.subrange(from as int, to as int)),
    ensures
        r == digits_val_chars(s@.subrange(from as int, to as int)),
{
    let ghost body = s@.subrange(from as int, to as int);
    proof {
        lemma_digits_val_chars_bound(body);
        lemma_pow10_values();
        assert(pow10(body.len() as nat) <= pow10(9)) by {
            lemma_pow10_mono(body.len() as nat, 9nat);
        }
    }
    match parse_digits_u64_str(s, from, to) {
        Some(v) => { v as u32 },
        None => {
            proof {
                assert(false);
            }
            0
        },
    }
}

proof fn lemma_pow10_mono(a: nat, b: nat)
    requires
        a <= b,
    ensures
        pow10(a) <= pow10(b),
    decreases b,
{
    if a < b {
        lemma_pow10_mono(a, (b - 1) as nat);
        assert(pow10(b) == 10 * pow10((b - 1) as nat));
        assert(pow10((b - 1) as nat) >= 1) by {
            lemma_pow10_pos((b - 1) as nat);
        }
    }
}

proof fn lemma_pow10_pos(n: nat)
    ensures
        pow10(n) >= 1,
    decreases n,
{
    if n > 0 {
        lemma_pow10_pos((n - 1) as nat);
    }
}

/// The four capture groups of a grammar line: date, time, level, message.
pub fn robot_line_captures(line: &str) -> (r: Option<(String, String, String, String)>)
    ensures
        match r {
            Some(c) => robot_match(line@) && c.0@ == line@.subrange(0, 10) && c.1@
                == line@.subrange(11, 26) && c.2@ == level_of(line@) && c.3@ == message_of(line@),
            None => !robot_match(line@),
        },
{
    if !is_robot_line(line) {
        return None;
    }
    let le = find_non_word(line, 29);
    let n = line.unicode_len();
    let date = substring_string(line, 0, 10);
    let time = substring_string(line, 11, 26);
    let level = substring_string(line, 29, le);
    let message = substring_string(line, le + 3, n);
    proof {
        assert(message@ =~= message_of(line@));
    }
    Some((date, time, level, message))
}

/// Flushes deferred separators as entries timestamped `ticks`.
fn flush_separators(entries: &mut Vec<LogEntry>, pending: &mut Vec<String>, ticks: i64)
    ensures
        entries_view(final(entries)@) == entries_view(old(entries)@) + sep_entries(
            lines_view(old(pending)@),
            ticks,
        ),
        final(pending)@.len() == 0,
{
    let ghost e0 = entries_view(entries@);
    let ghost p0 = lines_view(pending@);
    let ghost mut k: int = 0;
    proof {
        assert(entries_view(entries@) =~= e0 + sep_entries(p0.take(0), ticks));
    }
    while pending.len() > 0
        invariant
            0 <= k <= p0.len(),
            lines_view(pending@) =~= p0.skip(k),
            entries_view(entries@) == e0 + sep_entries(p0.take(k), ticks),
        decreases pending.len(),
    {
        let ghost pv = lines_view(pending@);
        let ghost praw = pending@;
        proof {
            assert(pv.len() == praw.len());
            assert(k < p0.len());
        }
        let sep = pending.remove(0);
        proof {
            assert(p0.skip(k) =~= p0.subrange(k, p0.len() as int));
            assert(p0.subrange(k, p0.len() as int)[0] == p0[k]);
            assert(pv[0] == praw[0]@);
            assert(sep@ == p0[k]);
            assert(lines_view(pending@) =~= pv.drop_first());
            assert(pv.drop_first() =~= p0.skip(k + 1));
        }
        let ghost evpre = entries_view(entries@);
        entries.push(
            LogEntry {
                timestamp: Timestamp { ticks },
                severity: LogLevel::Info,
                message: sep,
                session_id: None,
                entry_id: 0,
            },
        );
        proof {
            k = k + 1;
            assert(entries_view(entries@) =~= evpre.push(sep_entry(p0[k - 1], ticks)));
            assert(sep_entries(p0.take(k), ticks).len() == k);
            assert(p0.take(k)[k - 1] == p0[k - 1]);
            assert(sep_entries(p0.take(k), ticks)[k - 1] == sep_entry(p0[k - 1], ticks));
            assert forall|j: int| 0 <= j < k - 1 implies sep_entries(p0.take(k), ticks)[j]
                == sep_entries(p0.take(k - 1), ticks)[j] by {
                assert(p0.take(k)[j] == p0[j]);
                assert(p0.take(k - 1)[j] == p0[j]);
                assert(sep_entries(p0.take(k), ticks)[j] == sep_entry(p0.take(k)[j], ticks));
                assert(sep_entries(p0.take(k - 1), ticks)[j] == sep_entry(p0.take(k - 1)[j], ticks));
            }
            assert((e0 + sep_entries(p0.take(k - 1), ticks)).push(sep_entry(p0[k - 1], ticks)) =~= e0
                + sep_entries(p0.take(k), ticks));
            assert(entries_view(entries@) =~= e0 + sep_entries(p0.take(k), ticks));
        }
    }
    proof {
        assert(p0.take(k) =~= p0);
    }
}

/// Parses a whole Robot log, already split into lines, into a leaf
/// source named `name`.  Grammar lines open entries, other lines continue
/// them, separators are preserved with the neighbouring timestamp.
pub fn to_log_entries(lines: &Vec<String>, name: String) -> (r: LogSource)
    ensures
        r@ == spec_parse_robot(lines_view(lines@), name@),
{
    let ghost lv = lines_view(lines@);
    let mut entries: Vec<LogEntry> = Vec::new();
    let mut current: Option<LogEntry> = None;
    let mut last_ts: Option<Timestamp> = None;
    let mut pending: Vec<String> = Vec::new();
    let n = lines.len();
    let mut i: usize = 0;
    proof {
        assert(lv.take(0int).len() == 0);
        assert(robot_run(robot_init(), lv.take(0int)) == robot_init());
        assert(entries_view(entries@) =~= Seq::<EntryModel>::empty());
        assert(lines_view(pending@) =~= Seq::<Seq<char>>::empty());
    }
    while i < n
        invariant
            0 <= i <= n,
            n == lines@.len(),
            lv == lines_view(lines@),
            (RobotState {
                entries: entries_view(entries@),
                current: opt_entry_view(current),
                last_ts: opt_ticks_view(last_ts),
                pending: lines_view(pending@),
            }) == robot_run(robot_init(), lv.take(i as int)),
        decreases n - i,
    {
        let ghost st0 = RobotState {
            entries: entries_view(entries@),
            current: opt_entry_view(current),
            last_ts: opt_ticks_view(last_ts),
            pending: lines_view(pending@),
        };
        let line = &lines[i];
        proof {
            assert(lv[i as int] == lines@[i as int]@);
        }
        if is_robot_line(line.as_str()) {
            let mut tmp: Option<LogEntry> = None;
            core::mem::swap(&mut tmp, &mut current);
            match tmp {
                Some(e) => {
                    entries.push(e);
                    proof {
                        assert(entries_view(entries@) =~= st0.entries + opt_entry_seq(st0.current));
                    }
                },
                None => {
                    proof {
                        assert(entries_view(entries@) =~= st0.entries + opt_entry_seq(st0.current));
                    }
                },
            }
            let year = fixed_digits_u32(line.as_str(), 0, 4);
            let month = fixed_digits_u32(line.as_str(), 5, 7);
            let day = fixed_digits_u32(line.as_str(), 8, 10);
            let hour = fixed_digits_u32(line.as_str(), 11, 13);
            let minute = fixed_digits_u32(line.as_str(), 14, 16);
            let second = fixed_digits_u32(line.as_str(), 17, 19);
            let micros = fixed_digits_u32(line.as_str(), 20, 26);
            proof {
                lemma_digits_val_chars_bound(line@.subrange(0, 4));
                lemma_digits_val_chars_bound(line@.subrange(20, 26));
                lemma_pow10_values();
            }
            match civil_to_ticks(year, month, day, hour, minute, second, micros) {
                Some(ts) => {
                    proof {
                        assert(robot_ticks(lv[i as int]) == Some(ts.ticks));
                    }
                    let sep_ts = match last_ts {
                        Some(p) => p,
                        None => ts,
                    };
                    flush_separators(&mut entries, &mut pending, sep_ts.ticks);
                    proof {
                        assert(entries_view(entries@) == (st0.entries + opt_entry_seq(st0.current))
                            + sep_entries(st0.pending, sep_ts.ticks));
                        assert(lines_view(pending@) =~= Seq::<Seq<char>>::empty());
                    }
                    let le = find_non_word(line.as_str(), 29);
                    let nn = line.as_str().unicode_len();
                    let level = substring_string(line.as_str(), 29, le);
                    let message = substring_string(line.as_str(), le + 3, nn);
                    let severity = parse_level(level.as_str());
                    last_ts = Some(ts);
                    current = Some(
                        LogEntry {
                            timestamp: ts,
                            severity,
                            message,
                            session_id: None,
                            entry_id: 0,
                        },
                    );
                    proof {
                        assert(message@ =~= message_of(lv[i as int]));
                        assert(opt_entry_view(current) == (robot_line_step(
                            st0,
                            lv[i as int],
                        )).current);
                    }
                },
                None => {
                    proof {
                        assert(robot_ticks(lv[i as int]) is None);
                    }
                },
            }
        } else if is_separator(line.as_str()) {
            let owned = String::from_str(line.as_str());
            pending.push(owned);
            proof {
                assert(lines_view(pending@) =~= st0.pending.push(lv[i as int]));
            }
        } else {
            let mut tmp: Option<LogEntry> = None;
            core::mem::swap(&mut tmp, &mut current);
            match tmp {
                Some(e) => {
                    let mut e2 = e;
                    e2.message.append("\n");
                    e2.message.append(line.as_str());
                    proof {
                        reveal_strlit("\n");
                        assert("\n"@ =~= seq!['\n']);
                    }
                    current = Some(e2);
                },
                None => {},
            }
        }
        i = i + 1;
        proof {
            assert(lv.take(i as int).drop_last() =~= lv.take(i - 1));
            assert(lv.take(i as int).last() == lv[i - 1]);
            lemma_robot_run_push(robot_init(), lv.take(i - 1), lv[i - 1]);
            assert(lv.take(i - 1).push(lv[i - 1]) =~= lv.take(i as int));
            assert((RobotState {
                entries: entries_view(entries@),
                current: opt_entry_view(current),
                last_ts: opt_ticks_view(last_ts),
                pending: lines_view(pending@),
            }) == robot_line_step(st0, lv[i - 1]));
        }
    }
    proof {
        assert(lv.take(n as int) =~= lv);
    }
    let mut tmp: Option<LogEntry> = None;
    core::mem::swap(&mut tmp, &mut current);
    match tmp {
        Some(e) => {
            entries.push(e);
        },
        None => {},
    }
    match last_ts {
        Some(t) => {
            flush_separators(&mut entries, &mut pending, t.ticks);
        },
        None => {},
    }
    let r = LogSource { name, children: LogSourceContents::Entries(entries) };
    proof {
        assert(r@ matches TreeModel::Leaf { name: _, entries: es } ==> es =~= robot_finish(
            robot_run(robot_init(), lv),
        ));
    }
    r
}

pub open spec fn opt_entry_view(o: Option<LogEntry>) -> Option<EntryModel> {
    match o {
        Some(e) => Some(e@),
        None => None,
    }
}

pub open spec fn opt_ticks_view(o: Option<Timestamp>) -> Option<i64> {
    match o {
        Some(t) => Some(t.ticks),
        None => None,
    }
}

/// Running one more line is one more step.
pub proof fn lemma_robot_run_push(st: RobotState, lines: Seq<Seq<char>>, l: Seq<char>)
    ensures
        robot_run(st, lines.push(l)) == robot_line_step(robot_run(st, lines), l),
    decreases lines.len(),
{
    if lines.len() == 0 {
        assert(lines.push(l)[0] == l);
        assert(lines.push(l).drop_first() =~= Seq::<Seq<char>>::empty());
        assert(robot_run(st, lines.push(l)) == robot_run(
            robot_line_step(st, l),
            lines.push(l).drop_first(),
        ));
        assert(robot_run(robot_line_step(st, l), Seq::<Seq<char>>::empty()) == robot_line_step(
            st,
            l,
        ));
        assert(robot_run(st, lines) == st);
    } else {
        assert(lines.push(l)[0] == lines[0]);
        assert(lines.push(l).drop_first() =~= lines.drop_first().push(l));
        assert(robot_run(st, lines.push(l)) == robot_run(
            robot_line_step(st, lines[0]),
            lines.push(l).drop_first(),
        ));
        lemma_robot_run_push(robot_line_step(st, lines[0]), lines.drop_first(), l);
        assert(robot_run(st, lines) == robot_run(robot_line_step(st, lines[0]), lines.drop_first()));
    }
}

/// Decides, from the first lines of a stream, whether the Robot-log
/// grammar applies: true as soon as three lines match, false at once on
/// any non-blank line that is neither a separator nor a grammar line,
/// false at the end of input.
pub fn is_robot_log(lines: &Vec<String>) -> (r: bool)
    ensures
        r == spec_sniff(lines_view(lines@), 0),
{
    let ghost lv = lines_view(lines@);
    let n = lines.len();
    let mut i: usize = 0;
    let mut matches: u32 = 0;
    proof {
        assert(lv.skip(0int) =~= lv);
    }
    while i < n
        invariant
            0 <= i <= n,
            n == lines@.len(),
            lv == lines_view(lines@),
            matches < 3,
            spec_sniff(lv, 0) == spec_sniff(lv.skip(i as int), matches as int),
        decreases n - i,
    {
        let line = &lines[i];
        proof {
            assert(lv.skip(i as int)[0] == lv[i as int]);
            assert(lv[i as int] == lines@[i as int]@);
            assert(lv.skip(i as int).drop_first() =~= lv.skip(i + 1));
        }
        if is_separator(line.as_str()) {
        } else if is_robot_line(line.as_str()) {
            proof {
                assert(spec_sniff(lv.skip(i as int), matches as int) == spec_sniff(
                    lv.skip(i + 1),
                    matches as int + 1,
                ));
            }
            matches = matches + 1;
            if matches >= 3 {
                proof {
                    assert(spec_sniff(lv.skip(i + 1), matches as int));
                }
                return true;
            }
        } else if !is_blank(line.as_str()) {
            return false;
        }
        i = i + 1;
    }
    proof {
        assert(lv.skip(i as int).len() == 0);
    }
    false
}

} // verus!
