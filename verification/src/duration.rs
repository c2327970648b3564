//! Parsing and formatting of the time-shift text field.
//!
//! The field's shape is `+0D 00:00:00.000`: an optional sign, an optional
//! day count followed by `D`, up to two colon-separated one-or-two-digit
//! groups (the first is hours, the second minutes — a single group is
//! hours), a mandatory one-or-two-digit seconds group, and an optional
//! dot with one to three fractional digits read as if padded on the
//! right to milliseconds.  A string that does not fit the shape parses
//! as the zero duration; so does one whose value does not fit the
//! millisecond range (the signed 64-bit limit).

use vstd::prelude::*;
use vstd::string::StrSliceExecFns;

use crate::numbers::all_digit_chars;
use crate::numbers::digits_val_chars;
use crate::numbers::is_digit_char;
use crate::numbers::lemma_digits_val_chars_bound;
use crate::numbers::lemma_pow10_values;
use crate::numbers::pow10;
use crate::robot_log::is_space_char;
use crate::text::append_dec;
use crate::text::digit_char;
use crate::text::parse_digits_u64_str;
use crate::text::spec_dec;

verus! {

/// A signed span of time in whole milliseconds.
#[derive(PartialEq, Eq, Structural, Clone, Copy, Debug)]
pub struct Duration {
    pub millis: i64,
}

/// First position at or after `i` that is not a space.
pub open spec fn spec_skip_spaces(s: Seq<char>, i: int) -> int
    decreases s.len() - i,
{
    if i >= s.len() {
        s.len() as int
    } else if !is_space_char(s[i]) {
        i
    } else {
        spec_skip_spaces(s, i + 1)
    }
}

/// First position at or after `i` that is not a digit.
pub open spec fn spec_skip_digits(s: Seq<char>, i: int) -> int
    decreases s.len() - i,
{
    if i >= s.len() {
        s.len() as int
    } else if !is_digit_char(s[i]) {
        i
    } else {
        spec_skip_digits(s, i + 1)
    }
}

/// Both ends trimmed of whitespace.
pub open spec fn spec_trim(s: Seq<char>) -> Seq<char> {
    let a = spec_skip_spaces(s, 0);
    let b = spec_trim_end(s);
    if a >= b {
        Seq::<char>::empty()
    } else {
        s.subrange(a, b)
    }
}

/// Position after the last non-space character.
pub open spec fn spec_trim_end(s: Seq<char>) -> int
    decreases s.len(),
{
    if s.len() == 0 {
        0
    } else if !is_space_char(s.last()) {
        s.len() as int
    } else {
        spec_trim_end(s.drop_last())
    }
}

/// The sign factor of the trimmed text.
pub open spec fn sign_of(t: Seq<char>) -> int {
    if t.len() > 0 && t[0] == '-' {
        -1
    } else {
        1
    }
}

/// Where the text after the sign begins.
pub open spec fn body_start(t: Seq<char>) -> int {
    if t.len() > 0 && (t[0] == '-' || t[0] == '+') {
        1
    } else {
        0
    }
}

pub open spec fn p1_of(t: Seq<char>) -> int {
    spec_skip_spaces(t, body_start(t))
}

pub open spec fn d_end_of(t: Seq<char>) -> int {
    spec_skip_digits(t, p1_of(t))
}

/// The optional day-count group `<digits>D` is present.
pub open spec fn has_days(t: Seq<char>) -> bool {
    d_end_of(t) > p1_of(t) && d_end_of(t) < t.len() && t[d_end_of(t)] == 'D'
}

/// The day count; a value over the signed 64-bit range reads as zero.
pub open spec fn days_of(t: Seq<char>) -> int {
    if has_days(t) {
        if digits_val_chars(t.subrange(p1_of(t), d_end_of(t))) <= i64::MAX {
            digits_val_chars(t.subrange(p1_of(t), d_end_of(t)))
        } else {
            0
        }
    } else {
        0
    }
}

pub open spec fn p2_of(t: Seq<char>) -> int {
    if has_days(t) {
        spec_skip_spaces(t, d_end_of(t) + 1)
    } else {
        p1_of(t)
    }
}

pub open spec fn h_end_of(t: Seq<char>) -> int {
    spec_skip_digits(t, p2_of(t))
}

/// The first `NN:` group (hours) is present.
pub open spec fn has_hours(t: Seq<char>) -> bool {
    h_end_of(t) > p2_of(t) && h_end_of(t) - p2_of(t) <= 2 && h_end_of(t) < t.len() && t[h_end_of(
        t,
    )] == ':'
}

pub open spec fn hours_of(t: Seq<char>) -> int {
    if has_hours(t) {
        digits_val_chars(t.subrange(p2_of(t), h_end_of(t)))
    } else {
        0
    }
}

pub open spec fn p3_of(t: Seq<char>) -> int {
    if has_hours(t) {
        h_end_of(t) + 1
    } else {
        p2_of(t)
    }
}

pub open spec fn m_end_of(t: Seq<char>) -> int {
    spec_skip_digits(t, p3_of(t))
}

/// The second `NN:` group (minutes) is present.
pub open spec fn has_minutes(t: Seq<char>) -> bool {
    m_end_of(t) > p3_of(t) && m_end_of(t) - p3_of(t) <= 2 && m_end_of(t) < t.len() && t[m_end_of(
        t,
    )] == ':'
}

pub open spec fn minutes_of(t: Seq<char>) -> int {
    if has_minutes(t) {
        digits_val_chars(t.subrange(p3_of(t), m_end_of(t)))
    } else {
        0
    }
}

pub open spec fn p4_of(t: Seq<char>) -> int {
    if has_minutes(t) {
        m_end_of(t) + 1
    } else {
        p3_of(t)
    }
}

pub open spec fn s_end_of(t: Seq<char>) -> int {
    spec_skip_digits(t, p4_of(t))
}

/// The mandatory seconds group is present.
pub open spec fn has_seconds(t: Seq<char>) -> bool {
    s_end_of(t) > p4_of(t) && s_end_of(t) - p4_of(t) <= 2
}

pub open spec fn seconds_of(t: Seq<char>) -> int {
    digits_val_chars(t.subrange(p4_of(t), s_end_of(t)))
}

/// The fractional part: zero when absent, its digits padded on the right
/// to milliseconds when present and well shaped, `None` when the tail
/// fits neither.
pub open spec fn ms_of(t: Seq<char>) -> Option<int> {
    if s_end_of(t) == t.len() {
        Some(0)
    } else if t[s_end_of(t)] == '.' {
        let ms_end = spec_skip_digits(t, s_end_of(t) + 1);
        if ms_end > s_end_of(t) + 1 && ms_end - (s_end_of(t) + 1) <= 3 && ms_end == t.len() {
            Some(
                digits_val_chars(t.subrange(s_end_of(t) + 1, ms_end)) * pow10(
                    (3 - (ms_end - (s_end_of(t) + 1))) as nat,
                ),
            )
        } else {
            None
        }
    } else {
        None
    }
}

/// The field's value in milliseconds, over the trimmed text `t`; zero
/// when the shape does not fit or the value overflows.
pub open spec fn spec_duration_millis(t: Seq<char>) -> int {
    if has_seconds(t) {
        match ms_of(t) {
            Some(ms) => spec_total_millis(
                sign_of(t),
                days_of(t),
                hours_of(t),
                minutes_of(t),
                seconds_of(t),
                ms,
            ),
            None => 0,
        }
    } else {
        0
    }
}

/// The signed total, or zero when it exceeds the millisecond range.
pub open spec fn spec_total_millis(
    sgn: int,
    days: int,
    hours: int,
    minutes: int,
    secs: int,
    ms: int,
) -> int {
    let tot = (((days * 24 + hours) * 60 + minutes) * 60 + secs) * 1000 + ms;
    if tot <= i64::MAX {
        sgn * tot
    } else {
        0
    }
}

pub open spec fn spec_parse_duration(s: Seq<char>) -> Duration {
    Duration { millis: spec_duration_millis(spec_trim(s)) as i64 }
}

fn skip_spaces(s: &str, from: usize) -> (r: usize)
    requires
        from <= s@.len(),
    ensures
        r == spec_skip_spaces(s@, from as int),
        from <= r <= s@.len(),
{
    let m = s.unicode_len();
    let mut i: usize = from;
    while i < m
        invariant
            from <= i <= m,
            m == s@.len(),
            spec_skip_spaces(s@, from as int) == spec_skip_spaces(s@, i as int),
        decreases m - i,
    {
        let c = s.get_char(i);
        if c != ' ' && c != '\t' && c != '\r' && c != '\n' && c != '\u{b}' && c != '\u{c}' {
            return i;
        }
        i = i + 1;
    }
    m
}

fn skip_digits(s: &str, from: usize) -> (r: usize)
    requires
        from <= s@.len(),
    ensures
        r == spec_skip_digits(s@, from as int),
        from <= r <= s@.len(),
        all_digit_chars(s@.subrange(from as int, r as int)),
{
    let m = s.unicode_len();
    let mut i: usize = from;
    while i < m
        invariant
            from <= i <= m,
            m == s@.len(),
            spec_skip_digits(s@, from as int) == spec_skip_digits(s@, i as int),
            forall|j: int| from <= j < i ==> is_digit_char(#[trigger] s@[j]),
        decreases m - i,
    {
        let c = s.get_char(i) as u32;
        if c < 48 || c > 57 {
            proof {
                assert forall|j: int|
                    0 <= j < i - from implies is_digit_char(
                    #[trigger] s@.subrange(from as int, i as int)[j],
                ) by {
                    assert(s@.subrange(from as int, i as int)[j] == s@[from + j]);
                }
            }
            return i;
        }
        i = i + 1;
    }
    proof {
        assert forall|j: int|
            0 <= j < m - from implies is_digit_char(
            #[trigger] s@.subrange(from as int, m as int)[j],
        ) by {
            assert(s@.subrange(from as int, m as int)[j] == s@[from + j]);
        }
    }
    m
}

fn trim_bounds(s: &str) -> (r: (usize, usize))
    ensures
        r.0 as int == spec_skip_spaces(s@, 0),
        r.1 as int == spec_trim_end(s@),
        r.1 <= s@.len(),
        spec_trim(s@) == (if r.0 as int >= r.1 as int {
            Seq::<char>::empty()
        } else {
            s@.subrange(r.0 as int, r.1 as int)
        }),
{
    let m = s.unicode_len();
    let a = skip_spaces(s, 0);
    let mut b: usize = m;
    proof {
        assert(s@.take(m as int) =~= s@);
    }
    while b > 0
        invariant
            0 <= b <= m,
            m == s@.len(),
            a as int == spec_skip_spaces(s@, 0),
            a <= m,
            spec_trim_end(s@) == spec_trim_end(s@.take(b as int)),
        decreases b,
    {
        proof {
            assert(s@.take(b as int).last() == s@[b - 1]);
            assert(s@.take(b as int).drop_last() =~= s@.take(b - 1));
        }
        let c = s.get_char(b - 1);
        if c != ' ' && c != '\t' && c != '\r' && c != '\n' && c != '\u{b}' && c != '\u{c}' {
            return (a, b);
        }
        b = b - 1;
    }
    proof {
        assert(s@.take(0int).len() == 0);
    }
    (a, 0)
}

/// Parses the time-shift text.  A string that does not fit the shape, or
/// whose value exceeds the millisecond range, is the zero duration.
#[verifier::rlimit(100)]
pub fn parse_duration(s: &str) -> (r: Duration)
    ensures
        r == spec_parse_duration(s@),
{
    let (t0, t1) = trim_bounds(s);
    if t0 >= t1 {
        proof {
            assert(spec_trim(s@).len() == 0);
            assert(!has_seconds(spec_trim(s@)));
            assert(spec_duration_millis(spec_trim(s@)) == 0);
        }
        return Duration { millis: 0 };
    }
    let t = crate::text::substring_string(s, t0, t1);
    let ghost tv = spec_trim(s@);
    proof {
        assert(t@ == tv);
    }
    let n = t.as_str().unicode_len();
    let first = t.as_str().get_char(0);
    let neg = first == '-';
    let p0: usize = if first == '-' || first == '+' {
        1
    } else {
        0
    };
    proof {
        assert(p0 as int == body_start(tv));
        assert(sign_of(tv) == (if neg {
            -1int
        } else {
            1int
        }));
    }
    let p1 = skip_spaces(t.as_str(), p0);
    let d_end = skip_digits(t.as_str(), p1);
    proof {
        assert(p1 as int == p1_of(tv));
        assert(d_end as int == d_end_of(tv));
    }
    let mut days: i64 = 0;
    let mut p2: usize = p1;
    if d_end > p1 && d_end < n && t.as_str().get_char(d_end) == 'D' {
        proof {
            assert(has_days(tv));
            crate::numbers::lemma_digits_val_chars_nonneg(tv.subrange(p1 as int, d_end as int));
        }
        match parse_digits_u64_str(t.as_str(), p1, d_end) {
            Some(v) => {
                if v <= i64::MAX as u64 {
                    days = v as i64;
                }
            },
            None => {
                proof {
                    crate::numbers::lemma_digits_val_chars_nonneg(
                        tv.subrange(p1 as int, d_end as int),
                    );
                }
            },
        }
        p2 = skip_spaces(t.as_str(), d_end + 1);
    } else {
        proof {
            assert(!has_days(tv));
        }
    }
    proof {
        assert(days as int == days_of(tv));
        assert(p2 as int == p2_of(tv));
    }
    let h_end = skip_digits(t.as_str(), p2);
    let mut hours: u32 = 0;
    let mut p3: usize = p2;
    if h_end > p2 && h_end - p2 <= 2 && h_end < n && t.as_str().get_char(h_end) == ':' {
        hours = fixed_window_u32(t.as_str(), p2, h_end);
        p3 = h_end + 1;
        proof {
            assert(has_hours(tv));
        }
    } else {
        proof {
            assert(!has_hours(tv));
        }
    }
    proof {
        assert(h_end as int == h_end_of(tv));
        assert(hours as int == hours_of(tv));
        assert(p3 as int == p3_of(tv));
    }
    let m_end = skip_digits(t.as_str(), p3);
    let mut minutes: u32 = 0;
    let mut p4: usize = p3;
    if m_end > p3 && m_end - p3 <= 2 && m_end < n && t.as_str().get_char(m_end) == ':' {
        minutes = fixed_window_u32(t.as_str(), p3, m_end);
        p4 = m_end + 1;
        proof {
            assert(has_minutes(tv));
        }
    } else {
        proof {
            assert(!has_minutes(tv));
        }
    }
    proof {
        assert(m_end as int == m_end_of(tv));
        assert(minutes as int == minutes_of(tv));
        assert(p4 as int == p4_of(tv));
    }
    let s_end = skip_digits(t.as_str(), p4);
    proof {
        assert(s_end as int == s_end_of(tv));
    }
    if !(s_end > p4 && s_end - p4 <= 2) {
        proof {
            assert(!has_seconds(tv));
            assert(spec_duration_millis(tv) == 0);
        }
        return Duration { millis: 0 };
    }
    let secs = fixed_window_u32(t.as_str(), p4, s_end);
    proof {
        assert(has_seconds(tv));
        assert(secs as int == seconds_of(tv));
        lemma_digits_val_chars_bound(tv.subrange(p4 as int, s_end as int));
        lemma_pow10_values();
        assert(pow10(0) == 1);
        assert(pow10(1) == 10);
        assert(pow10(2) == 100);
        assert(pow10(3) == 1_000);
    }
    let mut ms: u32 = 0;
    if s_end == n {
        proof {
            assert(ms_of(tv) == Some(0int));
        }
    } else if t.as_str().get_char(s_end) == '.' {
        let ms_end = skip_digits(t.as_str(), s_end + 1);
        if ms_end > s_end + 1 && ms_end - (s_end + 1) <= 3 && ms_end == n {
            let raw = fixed_window_u32(t.as_str(), s_end + 1, ms_end);
            let width = ms_end - (s_end + 1);
            proof {
                lemma_digits_val_chars_bound(tv.subrange(s_end + 1, ms_end as int));
            }
            ms = if width == 1 {
                raw * 100
            } else if width == 2 {
                raw * 10
            } else {
                raw
            };
            proof {
                assert(ms_of(tv) == Some(ms as int));
            }
        } else {
            proof {
                assert(ms_of(tv) is None);
                assert(spec_duration_millis(tv) == 0);
            }
            return Duration { millis: 0 };
        }
    } else {
        proof {
            assert(ms_of(tv) is None);
            assert(spec_duration_millis(tv) == 0);
        }
        return Duration { millis: 0 };
    }
    let ghost gtot = (((days_of(tv) * 24 + hours_of(tv)) * 60 + minutes_of(tv)) * 60 + seconds_of(
        tv,
    )) * 1000 + ms as int;
    let tot: i128 = (((days as i128 * 24 + hours as i128) * 60 + minutes as i128) * 60
        + secs as i128) * 1000 + ms as i128;
    proof {
        assert(tot as int == gtot);
        assert(ms_of(tv) == Some(ms as int));
        assert(spec_duration_millis(tv) == spec_total_millis(
            sign_of(tv),
            days_of(tv),
            hours_of(tv),
            minutes_of(tv),
            seconds_of(tv),
            ms as int,
        ));
    }
    if tot > i64::MAX as i128 {
        proof {
            assert(spec_duration_millis(tv) == 0);
        }
        return Duration { millis: 0 };
    }
    let mag = tot as i64;
    if neg {
        Duration { millis: -mag }
    } else {
        Duration { millis: mag }
    }
}

/// Reads a short all-digit window as a number.
fn fixed_window_u32(s: &str, from: usize, to: usize) -> (r: u32)
    requires
        from < to <= s@.len(),
        to - from <= 9,
        all_digit_chars(s@.subrange(from as int, to as int)),
    ensures
        r == digits_val_chars(s@.subrange(from as int, to as int)),
        r >= 0,
{
    let ghost body = s@.subrange(from as int, to as int);
    proof {
        lemma_digits_val_chars_bound(body);
        lemma_pow10_values();
        crate::numbers::lemma_pow10_le(body.len() as nat, 9nat);
    }
    match parse_digits_u64_str(s, from, to) {
        Some(v) => { v as u32 },
        None => {
            proof {
                assert(false);
            }
            0
        },
    }
}

/// Zero-padded two-digit rendering.
pub open spec fn spec_pad2(n: int) -> Seq<char> {
    if n < 10 {
        seq![digit_char(0)] + spec_dec(n)
    } else {
        spec_dec(n)
    }
}

/// Zero-padded three-digit rendering.
pub open spec fn spec_pad3(n: int) -> Seq<char> {
    if n < 10 {
        seq![digit_char(0), digit_char(0)] + spec_dec(n)
    } else if n < 100 {
        seq![digit_char(0)] + spec_dec(n)
    } else {
        spec_dec(n)
    }
}

/// The rendering `<sign><days>D HH:MM:SS.mmm` of a duration.
pub open spec fn spec_format_duration(millis: int) -> Seq<char> {
    let sgn: Seq<char> = if millis < 0 {
        seq!['-']
    } else {
        seq!['+']
    };
    let a = if millis < 0 {
        -millis
    } else {
        millis
    };
    let days = a / 86_400_000;
    let r1 = a % 86_400_000;
    let hours = r1 / 3_600_000;
    let r2 = r1 % 3_600_000;
    let minutes = r2 / 60_000;
    let r3 = r2 % 60_000;
    let secs = r3 / 1000;
    let ms = r3 % 1000;
    sgn + spec_dec(days) + seq!['D', ' '] + spec_pad2(hours) + seq![':'] + spec_pad2(minutes)
        + seq![':'] + spec_pad2(secs) + seq!['.'] + spec_pad3(ms)
}

fn append_pad2(s: &mut String, n: u64)
    requires
        n < 100,
    ensures
        final(s)@ == old(s)@ + spec_pad2(n as int),
{
    if n < 10 {
        s.append("0");
        proof {
            reveal_strlit("0");
            assert("0"@ =~= seq![digit_char(0)]);
        }
    }
    append_dec(s, n);
    proof {
        assert(s@ =~= old(s)@ + spec_pad2(n as int));
    }
}

fn append_pad3(s: &mut String, n: u64)
    requires
        n < 1000,
    ensures
        final(s)@ == old(s)@ + spec_pad3(n as int),
{
    if n < 10 {
        s.append("00");
        proof {
            reveal_strlit("00");
            assert("00"@ =~= seq![digit_char(0), digit_char(0)]);
        }
    } else if n < 100 {
        s.append("0");
        proof {
            reveal_strlit("0");
            assert("0"@ =~= seq![digit_char(0)]);
        }
    }
    append_dec(s, n);
    proof {
        assert(s@ =~= old(s)@ + spec_pad3(n as int));
    }
}

/// Renders a duration as `<sign><days>D HH:MM:SS.mmm`; the sign is `-`
/// only for a negative duration.
pub fn format_duration(duration: Duration) -> (r: String)
    requires
        duration.millis != i64::MIN,
    ensures
        r@ == spec_format_duration(duration.millis as int),
{
    let mut s = String::new();
    if duration.millis < 0 {
        s.append("-");
        proof {
            reveal_strlit("-");
            assert("-"@ =~= seq!['-']);
        }
    } else {
        s.append("+");
        proof {
            reveal_strlit("+");
            assert("+"@ =~= seq!['+']);
        }
    }
    let a: u64 = if duration.millis < 0 {
        (-duration.millis) as u64
    } else {
        duration.millis as u64
    };
    let days = a / 86_400_000;
    let r1 = a % 86_400_000;
    let hours = r1 / 3_600_000;
    let r2 = r1 % 3_600_000;
    let minutes = r2 / 60_000;
    let r3 = r2 % 60_000;
    let secs = r3 / 1000;
    let ms = r3 % 1000;
    append_dec(&mut s, days);
    s.append("D ");
    proof {
        reveal_strlit("D ");
        assert("D "@ =~= seq!['D', ' ']);
    }
    append_pad2(&mut s, hours);
    s.append(":");
    proof {
        reveal_strlit(":");
        assert(":"@ =~= seq![':']);
    }
    append_pad2(&mut s, minutes);
    s.append(":");
    append_pad2(&mut s, secs);
    s.append(".");
    proof {
        reveal_strlit(".");
        assert("."@ =~= seq!['.']);
    }
    append_pad3(&mut s, ms);
    proof {
        assert(s@ =~= spec_format_duration(duration.millis as int));
    }
    s
}

} // verus!
