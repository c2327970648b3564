//! The GLOG byte-stream parser.
//!
//! GLOG is a bracketed key-value wire format: a stream of sections
//! `[tag|value]`, joined by `:` within one log line, each line ended by
//! `\n` or `\r\n`.  The parser is an explicit byte-driven state machine
//! that tolerates malformed input: a `]` inside a value only terminates
//! the value when followed by `:`, `\r` or `\n`, while the `[` opening
//! the next section is what commits the previous value (its terminator
//! bytes are trimmed off the accumulation buffer by a width recorded in
//! the state).
//!
//! The whole machine is mirrored by the spec-level transition function
//! [`glog_step`]; every method's contract says the executable state
//! refines it exactly.

use vstd::prelude::*;
use vstd::slice::slice_subrange;

use crate::datetime::spec_from_100ns;
use crate::datetime::spec_from_timestamp_ms;
use crate::model::EntryModel;
use crate::model::LogEntry;
use crate::model::LogLevel;
use crate::model::LogSource;
use crate::model::Timestamp;
use crate::numbers::spec_parse_i32_bytes;
use crate::numbers::spec_parse_u32_bytes;
use crate::numbers::spec_parse_u64_bytes;
use crate::model::LogSourceContents;
use crate::model::TreeModel;
use crate::text::lossy_of;
use crate::text::name_le;
use crate::text::spec_dec;
use crate::text::spec_find_pair;
use vstd::string::StringExecFns;

verus! {

/// The section tags the format defines; anything else is `Unknown`,
/// parsed structurally but discarded semantically.
#[derive(PartialEq, Eq, Structural, Clone, Copy, Debug)]
pub enum GlogSectionKind {
    TimestampMs,
    Severity,
    LogSource,
    Message,
    Timestamp100ns,
    ErrorCode,
    SessionId,
    Unknown,
}

/// The six-valued severity scale of the wire format.
#[derive(PartialEq, Eq, Structural, Clone, Copy, Debug)]
pub enum GlogSeverity {
    Critical,
    Hardware,
    Error,
    Warning,
    Info,
    Unspecified,
}

impl GlogSeverity {
    /// Decodes the wire value `0..=5`; anything else is invalid.
    pub fn from_u32(value: u32) -> (r: Option<GlogSeverity>)
        ensures
            r == spec_glog_severity_from_u32(value),
    {
        match value {
            0 => Some(GlogSeverity::Critical),
            1 => Some(GlogSeverity::Hardware),
            2 => Some(GlogSeverity::Error),
            3 => Some(GlogSeverity::Warning),
            4 => Some(GlogSeverity::Info),
            5 => Some(GlogSeverity::Unspecified),
            _ => None,
        }
    }
}

pub open spec fn spec_glog_severity_from_u32(value: u32) -> Option<GlogSeverity> {
    if value == 0 {
        Some(GlogSeverity::Critical)
    } else if value == 1 {
        Some(GlogSeverity::Hardware)
    } else if value == 2 {
        Some(GlogSeverity::Error)
    } else if value == 3 {
        Some(GlogSeverity::Warning)
    } else if value == 4 {
        Some(GlogSeverity::Info)
    } else if value == 5 {
        Some(GlogSeverity::Unspecified)
    } else {
        None
    }
}

/// The six wire severities fold onto the five model levels.  An
/// unspecified wire severity marks unclassified firmware output and is
/// deliberately normalized to `Debug`, never `Critical`: treating
/// unclassified noise as critical would drown real alarms.
pub open spec fn spec_normalize_glog_sev(s: GlogSeverity) -> LogLevel {
    match s {
        GlogSeverity::Critical => LogLevel::Critical,
        GlogSeverity::Hardware => LogLevel::Critical,
        GlogSeverity::Error => LogLevel::Error,
        GlogSeverity::Warning => LogLevel::Warning,
        GlogSeverity::Info => LogLevel::Info,
        GlogSeverity::Unspecified => LogLevel::Debug,
    }
}

pub fn normalize_glog_sev(glog_sev: GlogSeverity) -> (r: LogLevel)
    ensures
        r == spec_normalize_glog_sev(glog_sev),
{
    match glog_sev {
        GlogSeverity::Critical => LogLevel::Critical,
        GlogSeverity::Hardware => LogLevel::Critical,
        GlogSeverity::Error => LogLevel::Error,
        GlogSeverity::Warning => LogLevel::Warning,
        GlogSeverity::Info => LogLevel::Info,
        GlogSeverity::Unspecified => LogLevel::Debug,
    }
}

/// The machine's states.  `SectionValuePost3` carries the width of the
/// already-buffered terminator bytes to trim off the value, and whether
/// the line (and so the entry) ended here.
#[derive(PartialEq, Eq, Structural, Clone, Copy, Debug)]
pub enum GlogParserState {
    PreSection,
    SectionKind,
    SectionValue(GlogSectionKind),
    SectionValuePost1(GlogSectionKind),
    SectionValuePost2(GlogSectionKind),
    SectionValuePost3(GlogSectionKind, usize, bool),
}

/// The view of a vector of entries.
pub open spec fn entries_view(v: Seq<LogEntry>) -> Seq<EntryModel> {
    v.map(|i: int, e: LogEntry| e@)
}

/// The mathematical value of one sub-source under construction.
pub struct SubModel {
    pub name: Seq<char>,
    pub entries: Seq<EntryModel>,
}

/// The mathematical state of the parser.
pub struct GlogModel {
    pub state: GlogParserState,
    pub buf: Seq<u8>,
    pub entry: EntryModel,
    pub sub_source: Option<i32>,
    pub flat: Seq<EntryModel>,
    pub sources: Seq<SubModel>,
    pub invalid: int,
}

pub open spec fn empty_entry_model() -> EntryModel {
    EntryModel {
        ticks: 0,
        severity: LogLevel::Debug,
        message: Seq::<char>::empty(),
        session_id: None,
        entry_id: 0,
    }
}

pub open spec fn glog_init() -> GlogModel {
    GlogModel {
        state: GlogParserState::PreSection,
        buf: Seq::<u8>::empty(),
        entry: empty_entry_model(),
        sub_source: None,
        flat: Seq::<EntryModel>::empty(),
        sources: Seq::<SubModel>::empty(),
        invalid: 0,
    }
}

/// Classification of an accumulated tag.  The defined tags are ASCII, so
/// matching the raw bytes needs no UTF-8 decoding: any other byte
/// string, decodable or not, is `Unknown`.
pub open spec fn kind_of_tag(tag: Seq<u8>) -> GlogSectionKind {
    if tag == seq![116u8, 113u8] {  // "tq"
        GlogSectionKind::TimestampMs
    } else if tag == seq![115u8] {  // "s"
        GlogSectionKind::Severity
    } else if tag == seq![105u8] {  // "i"
        GlogSectionKind::LogSource
    } else if tag == seq![109u8] {  // "m"
        GlogSectionKind::Message
    } else if tag == seq![101u8] {  // "e"
        GlogSectionKind::ErrorCode
    } else if tag == seq![110u8] {  // "n"
        GlogSectionKind::SessionId
    } else if tag == seq![116u8] {  // "t"
        GlogSectionKind::Timestamp100ns
    } else {
        GlogSectionKind::Unknown
    }
}

/// The name of a synthesized sub-source for tag `tag`.
pub open spec fn unknown_name(tag: i32) -> Seq<char> {
    "Unknown ("@ + spec_i32_dec(tag as int) + ")"@
}

/// The decimal rendering of a signed value.
pub open spec fn spec_i32_dec(v: int) -> Seq<char> {
    if v < 0 {
        seq!['-'] + spec_dec(-v)
    } else {
        spec_dec(v)
    }
}

/// The sub-source name an entry lands under: the non-empty prefix before
/// the first `": "` of its message, or a synthesized `"Unknown (<tag>)"`.
pub open spec fn derive_name(message: Seq<char>, tag: i32) -> Seq<char> {
    match spec_find_pair(message, ':', ' ', 0) {
        Some(i) => if i > 0 {
            message.take(i)
        } else {
            unknown_name(tag)
        },
        None => unknown_name(tag),
    }
}

/// First index in `ss` whose name is `name`, searching from `i`;
/// `ss.len()` when there is none.
pub open spec fn find_sub_idx(ss: Seq<SubModel>, name: Seq<char>, i: int) -> int
    decreases ss.len() - i,
{
    if i < 0 || i >= ss.len() {
        ss.len() as int
    } else if ss[i].name == name {
        i
    } else {
        find_sub_idx(ss, name, i + 1)
    }
}

/// Interpreting one finished section value into the entry under
/// construction.  Malformed values leave the entry as it was.
pub open spec fn apply_section(m: GlogModel, kind: GlogSectionKind, value: Seq<u8>) -> GlogModel {
    match kind {
        GlogSectionKind::TimestampMs => match spec_parse_u64_bytes(value) {
            Some(ms) => match spec_from_timestamp_ms(ms) {
                Some(ts) => GlogModel { entry: EntryModel { ticks: ts.ticks, ..m.entry }, ..m },
                None => m,
            },
            None => m,
        },
        GlogSectionKind::Severity => match spec_parse_u32_bytes(value) {
            Some(v) => match spec_glog_severity_from_u32(v) {
                Some(gs) => GlogModel {
                    entry: EntryModel { severity: spec_normalize_glog_sev(gs), ..m.entry },
                    ..m
                },
                None => m,
            },
            None => m,
        },
        GlogSectionKind::LogSource => match spec_parse_i32_bytes(value) {
            Some(tag) => GlogModel { sub_source: Some(tag), ..m },
            None => m,
        },
        GlogSectionKind::Message => GlogModel {
            entry: EntryModel { message: lossy_of(value), ..m.entry },
            ..m
        },
        GlogSectionKind::Timestamp100ns => match spec_parse_u64_bytes(value) {
            Some(t) => match spec_from_100ns(t) {
                Some(ts) => GlogModel { entry: EntryModel { ticks: ts.ticks, ..m.entry }, ..m },
                None => m,
            },
            None => m,
        },
        GlogSectionKind::ErrorCode => m,
        GlogSectionKind::SessionId => match spec_parse_u32_bytes(value) {
            Some(sid) => GlogModel { entry: EntryModel { session_id: Some(sid), ..m.entry }, ..m },
            None => m,
        },
        GlogSectionKind::Unknown => m,
    }
}

/// Committing the finished entry: it lands in the derived sub-source's
/// list (created on first use, encounter order kept) or in the flat list,
/// and the construction state resets.
pub open spec fn commit_entry_model(m: GlogModel) -> GlogModel {
    let e = m.entry;
    let m1 = match m.sub_source {
        Some(tag) => {
            let name = derive_name(e.message, tag);
            let i = find_sub_idx(m.sources, name, 0);
            if i < m.sources.len() {
                GlogModel {
                    sources: m.sources.update(
                        i,
                        SubModel { name: m.sources[i].name, entries: m.sources[i].entries.push(e) },
                    ),
                    ..m
                }
            } else {
                GlogModel { sources: m.sources.push(SubModel { name, entries: seq![e] }), ..m }
            }
        },
        None => GlogModel { flat: m.flat.push(e), ..m },
    };
    GlogModel { entry: empty_entry_model(), sub_source: None, ..m1 }
}

/// Finishing a section once the next `[` (or end of stream) shows the
/// terminator bytes are complete: trims `cutoff` buffered terminator
/// bytes off the value, interprets it, commits the entry if the line
/// ended, and restarts at `SectionKind`.
pub open spec fn finish_section_model(
    m: GlogModel,
    kind: GlogSectionKind,
    cutoff: int,
    entry_done: bool,
) -> GlogModel {
    let value = m.buf.take(m.buf.len() - cutoff);
    let m1 = apply_section(m, kind, value);
    let m2 = if entry_done {
        commit_entry_model(m1)
    } else {
        m1
    };
    GlogModel { state: GlogParserState::SectionKind, buf: Seq::<u8>::empty(), ..m2 }
}

/// The transition function: what one input byte does to the parser.
pub open spec fn glog_step(m: GlogModel, chr: u8) -> GlogModel {
    match m.state {
        GlogParserState::PreSection => {
            if chr == 91 {  // [
                GlogModel { state: GlogParserState::SectionKind, ..m }
            } else if chr == 13 || chr == 10 {
                m
            } else {
                GlogModel {
                    invalid: if m.invalid < usize::MAX {
                        m.invalid + 1
                    } else {
                        m.invalid
                    },
                    ..m
                }
            }
        },
        GlogParserState::SectionKind => {
            if chr == 124 {  // |
                GlogModel {
                    state: GlogParserState::SectionValue(kind_of_tag(m.buf)),
                    buf: Seq::<u8>::empty(),
                    ..m
                }
            } else {
                GlogModel { buf: m.buf.push(chr), ..m }
            }
        },
        GlogParserState::SectionValue(kind) => {
            let mp = GlogModel { buf: m.buf.push(chr), ..m };
            if chr == 93 {  // ]
                GlogModel { state: GlogParserState::SectionValuePost1(kind), ..mp }
            } else {
                mp
            }
        },
        GlogParserState::SectionValuePost1(kind) => {
            let mp = GlogModel { buf: m.buf.push(chr), ..m };
            if chr == 58 {  // :
                GlogModel { state: GlogParserState::SectionValuePost3(kind, 3, false), ..mp }
            } else if chr == 13 {  // \r
                GlogModel { state: GlogParserState::SectionValuePost2(kind), ..mp }
            } else if chr == 10 {  // \n
                GlogModel { state: GlogParserState::SectionValuePost3(kind, 3, true), ..mp }
            } else if chr == 93 {  // ]
                GlogModel { state: GlogParserState::SectionValuePost1(kind), ..mp }
            } else {
                GlogModel { state: GlogParserState::SectionValue(kind), ..mp }
            }
        },
        GlogParserState::SectionValuePost2(kind) => {
            let mp = GlogModel { buf: m.buf.push(chr), ..m };
            if chr == 10 {  // \n
                GlogModel { state: GlogParserState::SectionValuePost3(kind, 4, true), ..mp }
            } else if chr == 93 {  // ]
                GlogModel { state: GlogParserState::SectionValuePost1(kind), ..mp }
            } else {
                GlogModel { state: GlogParserState::SectionValue(kind), ..mp }
            }
        },
        GlogParserState::SectionValuePost3(kind, cutoff, entry_done) => {
            let mp = GlogModel { buf: m.buf.push(chr), ..m };
            if chr == 91 {  // [
                finish_section_model(mp, kind, cutoff as int, entry_done)
            } else if chr == 93 {  // ]
                GlogModel { state: GlogParserState::SectionValuePost1(kind), ..mp }
            } else {
                GlogModel { state: GlogParserState::SectionValue(kind), ..mp }
            }
        },
    }
}

/// Well-formedness of a machine state: in `SectionValuePost3` the buffer
/// already holds at least `cutoff - 1` bytes of the value's terminator,
/// so trimming after the next pushed byte cannot underflow.
pub open spec fn wf_state(m: GlogModel) -> bool {
    match m.state {
        GlogParserState::SectionValuePost1(_) => m.buf.len() >= 1,
        GlogParserState::SectionValuePost2(_) => m.buf.len() >= 2,
        GlogParserState::SectionValuePost3(_, cutoff, _) => (cutoff == 3 || cutoff == 4)
            && m.buf.len() + 1 >= cutoff,
        _ => true,
    }
}

/// The byte-stream parser: accumulation buffer, the entry under
/// construction, its pending sub-source tag, and the entries and
/// sub-sources gathered so far.  `root` is the caller-supplied node the
/// result attaches to.
pub struct GlogParser {
    state: GlogParserState,
    buf: Vec<u8>,
    log_entry: LogEntry,
    sub_source: Option<i32>,
    log_entries: Vec<LogEntry>,
    log_sources: Vec<SubSource>,
    invalid_bytes: usize,
    root: LogSource,
}

/// One sub-source being accumulated, keyed by its derived name.
pub(crate) struct SubSource {
    pub(crate) name: String,
    pub(crate) entries: Vec<LogEntry>,
}

impl View for SubSource {
    type V = SubModel;

    closed spec fn view(&self) -> SubModel {
        SubModel { name: self.name@, entries: entries_view(self.entries@) }
    }
}

impl View for GlogParser {
    type V = GlogModel;

    closed spec fn view(&self) -> GlogModel {
        GlogModel {
            state: self.state,
            buf: self.buf@,
            entry: self.log_entry@,
            sub_source: self.sub_source,
            flat: entries_view(self.log_entries@),
            sources: subs_view(self.log_sources@),
            invalid: self.invalid_bytes as int,
        }
    }
}

/// The view of a vector of sub-sources.
pub(crate) open spec fn subs_view(v: Seq<SubSource>) -> Seq<SubModel> {
    v.map(|i: int, s: SubSource| s@)
}

/// Recognizes an accumulated tag.
fn classify_tag(buf: &Vec<u8>) -> (k: GlogSectionKind)
    ensures
        k == kind_of_tag(buf@),
{
    if buf.len() == 2 && buf[0] == 116 && buf[1] == 113 {
        proof {
            assert(buf@ =~= seq![116u8, 113u8]);
        }
        GlogSectionKind::TimestampMs
    } else if buf.len() == 1 {
        let b = buf[0];
        proof {
            assert(seq![116u8, 113u8].len() == 2);
        }
        if b == 115 {
            proof {
                assert(buf@ =~= seq![115u8]);
            }
            GlogSectionKind::Severity
        } else if b == 105 {
            proof {
                assert(buf@ =~= seq![105u8]);
            }
            GlogSectionKind::LogSource
        } else if b == 109 {
            proof {
                assert(buf@ =~= seq![109u8]);
            }
            GlogSectionKind::Message
        } else if b == 101 {
            proof {
                assert(buf@ =~= seq![101u8]);
            }
            GlogSectionKind::ErrorCode
        } else if b == 110 {
            proof {
                assert(buf@ =~= seq![110u8]);
            }
            GlogSectionKind::SessionId
        } else if b == 116 {
            proof {
                assert(buf@ =~= seq![116u8]);
            }
            GlogSectionKind::Timestamp100ns
        } else {
            proof {
                assert(buf@ != seq![115u8]) by {
                    assert(buf@[0] == b);
                }
                assert(buf@ != seq![105u8]) by {
                    assert(buf@[0] == b);
                }
                assert(buf@ != seq![109u8]) by {
                    assert(buf@[0] == b);
                }
                assert(buf@ != seq![101u8]) by {
                    assert(buf@[0] == b);
                }
                assert(buf@ != seq![110u8]) by {
                    assert(buf@[0] == b);
                }
                assert(buf@ != seq![116u8]) by {
                    assert(buf@[0] == b);
                }
            }
            GlogSectionKind::Unknown
        }
    } else {
        proof {
            assert(seq![116u8, 113u8].len() == 2);
            assert(seq![115u8].len() == 1);
            assert(seq![105u8].len() == 1);
            assert(seq![109u8].len() == 1);
            assert(seq![101u8].len() == 1);
            assert(seq![110u8].len() == 1);
            assert(seq![116u8].len() == 1);
        }
        GlogSectionKind::Unknown
    }
}

/// Builds the synthesized name `"Unknown (<tag>)"`.
fn build_unknown_name(tag: i32) -> (r: String)
    ensures
        r@ == unknown_name(tag),
{
    let mut s = String::from_str("Unknown (");
    proof {
        reveal_strlit("Unknown (");
    }
    if tag < 0 {
        s.append("-");
        proof {
            reveal_strlit("-");
            assert("-"@ =~= seq!['-']);
        }
        let mag: u64 = (-(tag as i64)) as u64;
        crate::text::append_dec(&mut s, mag);
    } else {
        crate::text::append_dec(&mut s, tag as u64);
    }
    s.append(")");
    proof {
        reveal_strlit(")");
        assert(s@ =~= unknown_name(tag));
    }
    s
}

/// Derives the sub-source name for an entry: the non-empty message prefix
/// before the first `": "`, else `"Unknown (<tag>)"`.
fn derive_source_name(message: &String, tag: i32) -> (r: String)
    ensures
        r@ == derive_name(message@, tag),
{
    match crate::text::find_pair(message.as_str(), ':', ' ') {
        Some(i) => {
            if i > 0 {
                crate::text::substring_string(message.as_str(), 0, i)
            } else {
                build_unknown_name(tag)
            }
        },
        None => build_unknown_name(tag),
    }
}

impl GlogParser {
    /// The caller-supplied root node the result will attach to.
    pub closed spec fn root_spec(&self) -> LogSource {
        self.root
    }

    /// A fresh parser that will attach its result to `root`.
    pub fn new(root: LogSource) -> (r: GlogParser)
        ensures
            r@ == glog_init(),
            r.root_spec() == root,
    {
        let r = GlogParser {
            state: GlogParserState::PreSection,
            buf: Vec::new(),
            log_entry: LogEntry::empty(),
            sub_source: None,
            log_entries: Vec::new(),
            log_sources: Vec::new(),
            invalid_bytes: 0,
            root,
        };
        proof {
            assert(r@.buf =~= glog_init().buf);
            assert(r@.flat =~= glog_init().flat);
            assert(r@.sources =~= glog_init().sources);
        }
        r
    }

    /// Interprets one finished section value (the first `end` buffered
    /// bytes) into the entry under construction.
    fn apply_value(&mut self, kind: GlogSectionKind, end: usize)
        requires
            end <= old(self).buf.len(),
        ensures
            final(self)@ == apply_section(old(self)@, kind, old(self).buf@.take(end as int)),
            final(self).root == old(self).root,
    {
        let ghost value = self.buf@.take(end as int);
        proof {
            assert(value =~= self.buf@.subrange(0, end as int));
        }
        match kind {
            GlogSectionKind::TimestampMs => {
                match crate::numbers::parse_u64_bytes(self.buf.as_slice(), 0, end) {
                    Some(ms) => match crate::datetime::from_timestamp_ms(ms) {
                        Some(ts) => {
                            self.log_entry.timestamp = ts;
                        },
                        None => {},
                    },
                    None => {},
                }
            },
            GlogSectionKind::Severity => {
                match crate::numbers::parse_u32_bytes(self.buf.as_slice(), 0, end) {
                    Some(v) => match GlogSeverity::from_u32(v) {
                        Some(gs) => {
                            self.log_entry.severity = normalize_glog_sev(gs);
                        },
                        None => {},
                    },
                    None => {},
                }
            },
            GlogSectionKind::LogSource => {
                match crate::numbers::parse_i32_bytes(self.buf.as_slice(), 0, end) {
                    Some(tag) => {
                        self.sub_source = Some(tag);
                    },
                    None => {},
                }
            },
            GlogSectionKind::Message => {
                let raw = slice_subrange(self.buf.as_slice(), 0, end);
                let msg = crate::text::lossy_decode(raw);
                self.log_entry.message = msg;
            },
            GlogSectionKind::Timestamp100ns => {
                match crate::numbers::parse_u64_bytes(self.buf.as_slice(), 0, end) {
                    Some(t) => match crate::datetime::from_100ns(t) {
                        Some(ts) => {
                            self.log_entry.timestamp = ts;
                        },
                        None => {},
                    },
                    None => {},
                }
            },
            GlogSectionKind::ErrorCode => {},
            GlogSectionKind::SessionId => {
                match crate::numbers::parse_u32_bytes(self.buf.as_slice(), 0, end) {
                    Some(sid) => {
                        self.log_entry.session_id = Some(sid);
                    },
                    None => {},
                }
            },
            GlogSectionKind::Unknown => {},
        }
    }

    /// Commits the entry under construction to its bucket and resets the
    /// construction state.
    fn commit_entry(&mut self)
        ensures
            final(self)@ == commit_entry_model(old(self)@),
            final(self).root == old(self).root,
    {
        let mut e = LogEntry::empty();
        core::mem::swap(&mut e, &mut self.log_entry);
        let ghost m = old(self)@;
        match self.sub_source {
            Some(tag) => {
                let name = derive_source_name(&e.message, tag);
                let n = self.log_sources.len();
                let mut j: usize = 0;
                let mut found: bool = false;
                while j < n && !found
                    invariant
                        0 <= j <= n,
                        n == self.log_sources.len(),
                        m.sources == subs_view(self.log_sources@),
                        found ==> j < n && self.log_sources@[j as int].name@ == name@,
                        found ==> find_sub_idx(m.sources, name@, 0) == j,
                        !found ==> find_sub_idx(m.sources, name@, 0) == find_sub_idx(
                            m.sources,
                            name@,
                            j as int,
                        ),
                    decreases n - j + (if found { 0int } else { 1int }),
                {
                    if self.log_sources[j].name == name {
                        found = true;
                        proof {
                            assert(m.sources[j as int].name == name@);
                        }
                    } else {
                        proof {
                            assert(m.sources[j as int].name == self.log_sources@[j as int].name@);
                        }
                        j = j + 1;
                    }
                }
                if found {
                    let ghost v0 = self.log_sources@;
                    let mut sub = self.log_sources.remove(j);
                    proof {
                        assert(sub == v0[j as int]);
                    }
                    sub.entries.push(e);
                    let ghost sub2 = sub;
                    self.log_sources.insert(j, sub);
                    proof {
                        assert(self.log_sources@ =~= v0.update(j as int, sub2));
                        let after = subs_view(self.log_sources@);
                        let upd = SubModel {
                            name: m.sources[j as int].name,
                            entries: m.sources[j as int].entries.push(m.entry),
                        };
                        let want = m.sources.update(j as int, upd);
                        assert(sub2@.name == upd.name);
                        assert(sub2@.entries =~= upd.entries);
                        assert forall|k: int| 0 <= k < after.len() implies after[k] == want[k] by {
                            if k == j {
                                assert(after[k] == sub2@);
                            } else {
                                assert(after[k] == v0[k]@);
                                assert(want[k] == m.sources[k]);
                            }
                        }
                        assert(after =~= want);
                    }
                } else {
                    proof {
                        assert(find_sub_idx(m.sources, name@, 0) == m.sources.len());
                    }
                    let mut entries: Vec<LogEntry> = Vec::new();
                    entries.push(e);
                    let sub = SubSource { name, entries };
                    let ghost subg = sub;
                    self.log_sources.push(sub);
                    proof {
                        let after = subs_view(self.log_sources@);
                        let newm = SubModel { name: name@, entries: seq![m.entry] };
                        let want = m.sources.push(newm);
                        assert(subg@.entries =~= newm.entries);
                        assert(subg@ == newm);
                        assert forall|k: int| 0 <= k < after.len() implies after[k] == want[k] by {
                            if k < m.sources.len() {
                                assert(after[k] == m.sources[k]);
                            } else {
                                assert(after[k] == subg@);
                            }
                        }
                        assert(after =~= want);
                    }
                }
            },
            None => {
                self.log_entries.push(e);
                proof {
                    let after = entries_view(self.log_entries@);
                    assert(after =~= m.flat.push(m.entry));
                }
            },
        }
        self.sub_source = None;
    }

    /// Finishes the current section: the buffer holds the value plus
    /// `cutoff` terminator bytes; interpret it, commit if the line ended,
    /// and restart at `SectionKind`.
    fn finish_section(&mut self, kind: GlogSectionKind, cutoff: usize, entry_done: bool)
        requires
            cutoff <= old(self).buf.len(),
        ensures
            final(self)@ == finish_section_model(old(self)@, kind, cutoff as int, entry_done),
            final(self).root == old(self).root,
    {
        let end = self.buf.len() - cutoff;
        self.apply_value(kind, end);
        if entry_done {
            self.commit_entry();
        }
        self.buf.clear();
        self.state = GlogParserState::SectionKind;
        proof {
            assert(self@.buf =~= Seq::<u8>::empty());
        }
    }

    /// How many bytes outside any bracketed section were discarded: a
    /// diagnostic of how malformed the stream was.
    pub fn invalid_bytes(&self) -> (r: usize)
        ensures
            r as int == self@.invalid,
    {
        self.invalid_bytes
    }

    /// Feeds one byte to the machine.
    pub fn read_byte(&mut self, chr: u8)
        requires
            wf_state(old(self)@),
        ensures
            final(self)@ == glog_step(old(self)@, chr),
            wf_state(final(self)@),
            final(self).root_spec() == old(self).root_spec(),
    {
        match self.state {
            GlogParserState::PreSection => {
                if chr == 91 {
                    self.state = GlogParserState::SectionKind;
                } else if chr == 13 || chr == 10 {
                } else {
                    if self.invalid_bytes < usize::MAX {
                        self.invalid_bytes = self.invalid_bytes + 1;
                    }
                }
            },
            GlogParserState::SectionKind => {
                if chr == 124 {
                    let kind = classify_tag(&self.buf);
                    self.buf.clear();
                    self.state = GlogParserState::SectionValue(kind);
                    proof {
                        assert(self@.buf =~= Seq::<u8>::empty());
                    }
                } else {
                    self.buf.push(chr);
                }
            },
            GlogParserState::SectionValue(kind) => {
                self.buf.push(chr);
                if chr == 93 {
                    self.state = GlogParserState::SectionValuePost1(kind);
                }
            },
            GlogParserState::SectionValuePost1(kind) => {
                self.buf.push(chr);
                if chr == 58 {
                    self.state = GlogParserState::SectionValuePost3(kind, 3, false);
                } else if chr == 13 {
                    self.state = GlogParserState::SectionValuePost2(kind);
                } else if chr == 10 {
                    self.state = GlogParserState::SectionValuePost3(kind, 3, true);
                } else if chr == 93 {
                    self.state = GlogParserState::SectionValuePost1(kind);
                } else {
                    self.state = GlogParserState::SectionValue(kind);
                }
            },
            GlogParserState::SectionValuePost2(kind) => {
                self.buf.push(chr);
                if chr == 10 {
                    self.state = GlogParserState::SectionValuePost3(kind, 4, true);
                } else if chr == 93 {
                    self.state = GlogParserState::SectionValuePost1(kind);
                } else {
                    self.state = GlogParserState::SectionValue(kind);
                }
            },
            GlogParserState::SectionValuePost3(kind, cutoff, entry_done) => {
                self.buf.push(chr);
                if chr == 91 {
                    self.finish_section(kind, cutoff, entry_done);
                } else if chr == 93 {
                    self.state = GlogParserState::SectionValuePost1(kind);
                } else {
                    self.state = GlogParserState::SectionValue(kind);
                }
            },
        }
    }
}

} // verus!

verus! {

/// Stable insertion of `x` into a run already sorted by case-insensitive
/// name: `x` goes after every element not above it, so elements with
/// equal names keep their encounter order.
pub open spec fn spec_insert_sub(s: Seq<SubModel>, x: SubModel) -> Seq<SubModel>
    decreases s.len(),
{
    if s.len() == 0 {
        seq![x]
    } else if name_le(s.last().name, x.name) {
        s.push(x)
    } else {
        spec_insert_sub(s.drop_last(), x).push(s.last())
    }
}

/// Stable insertion sort by case-insensitive name, ascending.
pub open spec fn spec_sort_subs(s: Seq<SubModel>) -> Seq<SubModel>
    decreases s.len(),
{
    if s.len() == 0 {
        Seq::<SubModel>::empty()
    } else {
        spec_insert_sub(spec_sort_subs(s.drop_last()), s.last())
    }
}

/// `spec_insert_sub` puts the new element exactly at the position `p`
/// that the executable right-to-left scan finds.
proof fn lemma_insert_sub_at(s: Seq<SubModel>, x: SubModel, p: int)
    requires
        0 <= p <= s.len(),
        forall|k: int| p <= k < s.len() ==> !name_le(#[trigger] s[k].name, x.name),
        p > 0 ==> name_le(s[p - 1].name, x.name),
    ensures
        spec_insert_sub(s, x) =~= s.insert(p, x),
    decreases s.len(),
{
    if s.len() == 0 {
    } else if name_le(s.last().name, x.name) {
        assert(p == s.len());
    } else {
        assert(p < s.len());
        assert forall|k: int| p <= k < s.drop_last().len() implies !name_le(
            #[trigger] s.drop_last()[k].name,
            x.name,
        ) by {
            assert(s.drop_last()[k] == s[k]);
        }
        if p > 0 {
            assert(s.drop_last()[p - 1] == s[p - 1]);
        }
        lemma_insert_sub_at(s.drop_last(), x, p);
    }
}

/// Inserts `x` into `v`, which is sorted by case-insensitive name, at the
/// last position that keeps it sorted (after any equal names).
fn insert_sub_sorted(v: &mut Vec<SubSource>, x: SubSource)
    ensures
        subs_view(final(v)@) == spec_insert_sub(subs_view(old(v)@), x@),
{
    let ghost sv = subs_view(v@);
    let ghost xv = x@;
    let mut j: usize = v.len();
    let mut go: bool = true;
    while go
        invariant
            0 <= j <= v.len(),
            sv == subs_view(v@),
            xv == x@,
            forall|k: int| j <= k < sv.len() ==> !name_le(#[trigger] sv[k].name, xv.name),
            !go ==> (j == 0 || name_le(sv[j - 1].name, xv.name)),
        decreases j + (if go { 1int } else { 0int }),
    {
        if j == 0 {
            go = false;
        } else {
            let le = crate::text::name_le_str(v[j - 1].name.as_str(), x.name.as_str());
            proof {
                assert(sv[j - 1].name == v@[j - 1].name@);
            }
            if le {
                go = false;
            } else {
                j = j - 1;
            }
        }
    }
    v.insert(j, x);
    proof {
        lemma_insert_sub_at(sv, xv, j as int);
        assert(subs_view(v@) =~~= sv.insert(j as int, xv));
    }
}

/// Sorts sub-sources by case-insensitive name, ascending and stable.
fn sort_subs(v: Vec<SubSource>) -> (r: Vec<SubSource>)
    ensures
        subs_view(r@) == spec_sort_subs(subs_view(v@)),
{
    let ghost orig = subs_view(v@);
    let mut rest = v;
    let mut out: Vec<SubSource> = Vec::new();
    let ghost mut i: int = 0;
    while rest.len() > 0
        invariant
            0 <= i <= orig.len(),
            subs_view(rest@) =~= orig.skip(i),
            subs_view(out@) == spec_sort_subs(orig.take(i)),
        decreases rest.len(),
    {
        let ghost rv = subs_view(rest@);
        let ghost rraw = rest@;
        let x = rest.remove(0);
        proof {
            assert(subs_view(rraw).len() > 0);
            assert(orig.skip(i) =~= orig.subrange(i, orig.len() as int));
            assert(orig.subrange(i, orig.len() as int)[0] == orig[i]);
            assert(orig.skip(i)[0] == orig[i]);
            assert(rv[0] == rraw[0]@);
            assert(x@ == rv[0]);
            assert(rv[0] == orig[i]);
            assert(subs_view(rest@) =~= rv.drop_first());
            assert(rv.drop_first() =~= orig.skip(i + 1));
        }
        insert_sub_sorted(&mut out, x);
        proof {
            i = i + 1;
            assert(orig.take(i).drop_last() =~= orig.take(i - 1));
            assert(orig.take(i).last() == orig[i - 1]);
        }
    }
    proof {
        assert(orig.take(i) =~= orig);
    }
    out
}

} // verus!

verus! {

/// End-of-stream handling: a pending section is pushed through the
/// normal path by synthesizing the missing terminator bytes (`\n` and/or
/// the next `[`); a stream cut off mid-tag or mid-value loses its last
/// entry; an empty or between-lines stream has nothing pending.
pub open spec fn spec_finalize_run(m: GlogModel) -> GlogModel {
    match m.state {
        GlogParserState::PreSection => m,
        GlogParserState::SectionKind => m,
        GlogParserState::SectionValue(_) => m,
        GlogParserState::SectionValuePost1(_) => glog_step(glog_step(m, 10), 91),
        GlogParserState::SectionValuePost2(_) => glog_step(glog_step(m, 10), 91),
        GlogParserState::SectionValuePost3(_, _, _) => glog_step(m, 91),
    }
}

pub open spec fn leaf_of(sub: SubModel) -> TreeModel {
    TreeModel::Leaf { name: sub.name, entries: sub.entries }
}

/// The leaves of a list of sub-sources.
pub open spec fn leaves_of(ss: Seq<SubModel>) -> Seq<TreeModel> {
    ss.map(|i: int, s: SubModel| leaf_of(s))
}

/// Tree assembly: with no sub-sources the root is a leaf holding the
/// flat entries; otherwise the root's children are the sub-sources, plus
/// a synthetic `"Unknown (None)"` leaf for flat entries if any, sorted by
/// case-insensitive name (stable).
pub open spec fn spec_assemble(m: GlogModel, root_name: Seq<char>) -> TreeModel {
    if m.sources.len() == 0 {
        TreeModel::Leaf { name: root_name, entries: m.flat }
    } else {
        let subs = if m.flat.len() > 0 {
            m.sources.push(SubModel { name: "Unknown (None)"@, entries: m.flat })
        } else {
            m.sources
        };
        TreeModel::Node { name: root_name, children: leaves_of(spec_sort_subs(subs)) }
    }
}

/// Running the machine over a whole byte string.
pub open spec fn glog_run(m: GlogModel, bytes: Seq<u8>) -> GlogModel
    decreases bytes.len(),
{
    if bytes.len() == 0 {
        m
    } else {
        glog_run(glog_step(m, bytes[0]), bytes.drop_first())
    }
}

/// What parsing a whole GLOG stream yields for a root named `root_name`.
pub open spec fn spec_glog_parse(bytes: Seq<u8>, root_name: Seq<char>) -> TreeModel {
    spec_assemble(spec_finalize_run(glog_run(glog_init(), bytes)), root_name)
}

impl GlogParser {
    /// Ends the stream: pushes any pending entry through, then assembles
    /// the result tree onto the root.
    pub fn finalize(self) -> (r: LogSource)
        requires
            wf_state(self@),
        ensures
            r@ == spec_assemble(spec_finalize_run(self@), self.root_spec().name@),
    {
        let mut p = self;
        match p.state {
            GlogParserState::PreSection => {},
            GlogParserState::SectionKind => {},
            GlogParserState::SectionValue(_) => {},
            GlogParserState::SectionValuePost1(_) => {
                p.read_byte(10);
                p.read_byte(91);
            },
            GlogParserState::SectionValuePost2(_) => {
                p.read_byte(10);
                p.read_byte(91);
            },
            GlogParserState::SectionValuePost3(_, _, _) => {
                p.read_byte(91);
            },
        }
        let ghost fm = spec_finalize_run(self@);
        let mut root = p.root;
        let flat = p.log_entries;
        let sources = p.log_sources;
        if sources.len() == 0 {
            proof {
                assert(subs_view(sources@).len() == 0);
            }
            root.children = LogSourceContents::Entries(flat);
            proof {
                assert(root@ matches TreeModel::Leaf { name, entries } ==> entries =~= fm.flat);
                assert(root@ =~= spec_assemble(fm, self.root.name@));
            }
            root
        } else {
            let mut subs = sources;
            if flat.len() > 0 {
                subs.push(SubSource { name: String::from_str("Unknown (None)"), entries: flat });
                proof {
                    assert(subs_view(subs@) =~~= fm.sources.push(
                        SubModel { name: "Unknown (None)"@, entries: fm.flat },
                    ));
                }
            } else {
                proof {
                    assert(entries_view(flat@).len() == 0);
                }
            }
            let sorted = sort_subs(subs);
            let ghost sortedv = spec_sort_subs(subs_view(subs@));
            let mut children: Vec<LogSource> = Vec::new();
            let mut restc = sorted;
            let ghost mut i: int = 0;
            while restc.len() > 0
                invariant
                    0 <= i <= sortedv.len(),
                    subs_view(restc@) =~= sortedv.skip(i),
                    children@.len() == i,
                    forall|k: int| 0 <= k < i ==> (#[trigger] children@[k])@ == leaf_of(sortedv[k]),
                decreases restc.len(),
            {
                let ghost rv = subs_view(restc@);
                let ghost rraw = restc@;
                let sub = restc.remove(0);
                proof {
                    assert(subs_view(rraw).len() > 0);
                    assert(sortedv.skip(i) =~= sortedv.subrange(i, sortedv.len() as int));
                    assert(sortedv.subrange(i, sortedv.len() as int)[0] == sortedv[i]);
                    assert(sortedv.skip(i)[0] == sortedv[i]);
                    assert(rv[0] == rraw[0]@);
                    assert(sub@ == rv[0]);
                    assert(rv[0] == sortedv[i]);
                    assert(subs_view(restc@) =~= rv.drop_first());
                    assert(rv.drop_first() =~= sortedv.skip(i + 1));
                }
                let child = LogSource {
                    name: sub.name,
                    children: LogSourceContents::Entries(sub.entries),
                };
                proof {
                    assert(child@ == leaf_of(sub@));
                }
                children.push(child);
                proof {
                    i = i + 1;
                    assert(children@.map(|k: int, c: LogSource| c@) =~= sortedv.take(i).map(
                        |k: int, sm: SubModel| leaf_of(sm),
                    ));
                }
            }
            proof {
                assert(sortedv.take(i) =~= sortedv);
            }
            root.children = LogSourceContents::Sources(children);
            proof {
                assert(root@ matches TreeModel::Node { name, children: cs } ==> cs =~= sortedv.map(
                    |k: int, sm: SubModel| leaf_of(sm),
                ));
                assert(root@ =~= spec_assemble(fm, self.root.name@));
            }
            root
        }
    }
}

/// One byte more: running a string then one byte is one more step.
pub proof fn lemma_glog_run_push(m: GlogModel, s: Seq<u8>, b: u8)
    ensures
        glog_run(m, s.push(b)) == glog_step(glog_run(m, s), b),
    decreases s.len(),
{
    if s.len() == 0 {
        assert(s.push(b)[0] == b);
        assert(s.push(b).drop_first() =~= Seq::<u8>::empty());
        assert(glog_run(m, s.push(b)) == glog_run(glog_step(m, b), s.push(b).drop_first()));
        assert(glog_run(glog_step(m, b), Seq::<u8>::empty()) == glog_step(m, b));
        assert(glog_run(m, s) == m);
    } else {
        assert(s.push(b)[0] == s[0]);
        assert(s.push(b).drop_first() =~= s.drop_first().push(b));
        assert(glog_run(m, s.push(b)) == glog_run(glog_step(m, s[0]), s.push(b).drop_first()));
        lemma_glog_run_push(glog_step(m, s[0]), s.drop_first(), b);
        assert(glog_run(m, s) == glog_run(glog_step(m, s[0]), s.drop_first()));
    }
}

/// The machine is chunk-size independent: feeding two chunks one after
/// the other is the same as feeding their concatenation, so byte-at-a-time
/// and all-at-once parses agree.
pub proof fn lemma_chunks_independent(m: GlogModel, b1: Seq<u8>, b2: Seq<u8>)
    ensures
        glog_run(m, b1 + b2) == glog_run(glog_run(m, b1), b2),
    decreases b1.len(),
{
    if b1.len() == 0 {
        assert(b1 + b2 =~= b2);
    } else {
        assert((b1 + b2)[0] == b1[0]);
        assert((b1 + b2).drop_first() =~= b1.drop_first() + b2);
        lemma_chunks_independent(glog_step(m, b1[0]), b1.drop_first(), b2);
    }
}

/// Parses a whole GLOG byte stream, attaching the result to `root`.
/// Malformed content never fails the parse: it is dropped or defaulted
/// and the rest of the stream is still interpreted.
pub fn to_log_entries(bytes: &[u8], root: LogSource) -> (r: LogSource)
    ensures
        r@ == spec_glog_parse(bytes@, root.name@),
{
    let ghost root_name = root.name@;
    let mut parser = GlogParser::new(root);
    let n = bytes.len();
    let mut i: usize = 0;
    while i < n
        invariant
            0 <= i <= n,
            n == bytes@.len(),
            parser@ == glog_run(glog_init(), bytes@.take(i as int)),
            wf_state(parser@),
            parser.root_spec().name@ == root_name,
        decreases n - i,
    {
        let ghost pre = bytes@.take(i as int);
        parser.read_byte(bytes[i]);
        proof {
            lemma_glog_run_push(glog_init(), pre, bytes@[i as int]);
            assert(pre.push(bytes@[i as int]) =~= bytes@.take(i + 1));
        }
        i = i + 1;
    }
    proof {
        assert(bytes@.take(n as int) =~= bytes@);
    }
    parser.finalize()
}

} // verus!

verus! {

/// One well-formed wire section: a tag free of `|` and a value free of
/// `]`.
pub struct WfSection {
    pub tag: Seq<u8>,
    pub value: Seq<u8>,
}

pub open spec fn wf_section(s: WfSection) -> bool {
    (forall|i: int| 0 <= i < s.tag.len() ==> #[trigger] s.tag[i] != 124) && (forall|i: int|
        0 <= i < s.value.len() ==> #[trigger] s.value[i] != 93)
}

/// The wire bytes of a section: `[tag|value]`.
pub open spec fn section_bytes(s: WfSection) -> Seq<u8> {
    seq![91u8] + s.tag + seq![124u8] + s.value + seq![93u8]
}

/// One well-formed wire line: one or more sections, ended by `\n` or
/// `\r\n`.
pub struct WfLine {
    pub sections: Seq<WfSection>,
    pub crlf: bool,
}

pub open spec fn wf_line(l: WfLine) -> bool {
    l.sections.len() >= 1 && forall|i: int|
        0 <= i < l.sections.len() ==> wf_section(#[trigger] l.sections[i])
}

/// Sections of one line joined by `:`.
pub open spec fn sections_bytes(ss: Seq<WfSection>) -> Seq<u8>
    decreases ss.len(),
{
    if ss.len() == 0 {
        Seq::<u8>::empty()
    } else if ss.len() == 1 {
        section_bytes(ss[0])
    } else {
        section_bytes(ss[0]) + seq![58u8] + sections_bytes(ss.drop_first())
    }
}

pub open spec fn termbytes(crlf: bool) -> Seq<u8> {
    if crlf {
        seq![13u8, 10u8]
    } else {
        seq![10u8]
    }
}

pub open spec fn line_bytes(l: WfLine) -> Seq<u8> {
    sections_bytes(l.sections) + termbytes(l.crlf)
}

/// A whole well-formed stream: the lines one after the other.
pub open spec fn stream_bytes(lines: Seq<WfLine>) -> Seq<u8>
    decreases lines.len(),
{
    if lines.len() == 0 {
        Seq::<u8>::empty()
    } else {
        line_bytes(lines[0]) + stream_bytes(lines.drop_first())
    }
}

/// Entries held by the accumulated sub-sources.
pub open spec fn subs_total(ss: Seq<SubModel>) -> int
    decreases ss.len(),
{
    if ss.len() == 0 {
        0
    } else {
        subs_total(ss.drop_last()) + ss.last().entries.len()
    }
}

/// Entries finalized so far, flat and under sub-sources together.
pub open spec fn total_entries(m: GlogModel) -> int {
    m.flat.len() + subs_total(m.sources)
}

/// A section's bytes after its opening `[`.
pub open spec fn section_tail(s: WfSection) -> Seq<u8> {
    s.tag + seq![124u8] + s.value + seq![93u8]
}

/// The tails of a line's sections joined by `:[`, plus the terminator.
pub open spec fn sections_tail(ss: Seq<WfSection>) -> Seq<u8>
    decreases ss.len(),
{
    if ss.len() == 0 {
        Seq::<u8>::empty()
    } else if ss.len() == 1 {
        section_tail(ss[0])
    } else {
        section_tail(ss[0]) + seq![58u8, 91u8] + sections_tail(ss.drop_first())
    }
}

/// The stream with the leading `[` stripped and each line's pending
/// section committed by the `[` of the following line; the last line
/// stays pending.
pub open spec fn pend_stream(lines: Seq<WfLine>) -> Seq<u8>
    decreases lines.len(),
{
    if lines.len() == 0 {
        Seq::<u8>::empty()
    } else if lines.len() == 1 {
        sections_tail(lines[0].sections) + termbytes(lines[0].crlf)
    } else {
        (sections_tail(lines[0].sections) + termbytes(lines[0].crlf) + seq![91u8]) + pend_stream(
            lines.drop_first(),
        )
    }
}

proof fn lemma_run_one(m: GlogModel, b: u8)
    ensures
        glog_run(m, seq![b]) == glog_step(m, b),
{
    assert(seq![b][0] == b);
    assert(seq![b].drop_first() =~= Seq::<u8>::empty());
    assert(glog_run(m, seq![b]) == glog_run(glog_step(m, b), seq![b].drop_first()));
    assert(glog_run(glog_step(m, b), seq![b].drop_first()) == glog_step(m, b));
}

proof fn lemma_run_two(m: GlogModel, b1: u8, b2: u8)
    ensures
        glog_run(m, seq![b1, b2]) == glog_step(glog_step(m, b1), b2),
{
    assert(seq![b1, b2] =~= seq![b1] + seq![b2]);
    lemma_chunks_independent(m, seq![b1], seq![b2]);
    lemma_run_one(m, b1);
    lemma_run_one(glog_step(m, b1), b2);
}

proof fn lemma_sections_regroup(ss: Seq<WfSection>)
    requires
        ss.len() >= 1,
    ensures
        sections_bytes(ss) =~= seq![91u8] + sections_tail(ss),
    decreases ss.len(),
{
    if ss.len() == 1 {
        assert(section_bytes(ss[0]) =~= seq![91u8] + section_tail(ss[0]));
    } else {
        lemma_sections_regroup(ss.drop_first());
        assert(section_bytes(ss[0]) =~= seq![91u8] + section_tail(ss[0]));
    }
}

proof fn lemma_stream_regroup(lines: Seq<WfLine>)
    requires
        lines.len() >= 1,
        forall|i: int| 0 <= i < lines.len() ==> wf_line(#[trigger] lines[i]),
    ensures
        stream_bytes(lines) =~= seq![91u8] + pend_stream(lines),
    decreases lines.len(),
{
    lemma_sections_regroup(lines[0].sections);
    if lines.len() == 1 {
        assert(stream_bytes(lines.drop_first()).len() == 0);
    } else {
        assert forall|i: int| 0 <= i < lines.drop_first().len() implies wf_line(
            #[trigger] lines.drop_first()[i],
        ) by {
            assert(lines.drop_first()[i] == lines[i + 1]);
        }
        lemma_stream_regroup(lines.drop_first());
    }
}

/// Counting is blind to what a section's value does to the entry under
/// construction.
proof fn lemma_apply_total(m: GlogModel, kind: GlogSectionKind, value: Seq<u8>)
    ensures
        total_entries(apply_section(m, kind, value)) == total_entries(m),
        (apply_section(m, kind, value)).flat == m.flat,
        (apply_section(m, kind, value)).sources == m.sources,
        (apply_section(m, kind, value)).state == m.state,
        (apply_section(m, kind, value)).buf == m.buf,
{
}

proof fn lemma_subs_total_update(ss: Seq<SubModel>, i: int, e: EntryModel)
    requires
        0 <= i < ss.len(),
    ensures
        subs_total(
            ss.update(i, SubModel { name: ss[i].name, entries: ss[i].entries.push(e) }),
        ) == subs_total(ss) + 1,
    decreases ss.len(),
{
    let upd = ss.update(i, SubModel { name: ss[i].name, entries: ss[i].entries.push(e) });
    if i == ss.len() - 1 {
        assert(upd.drop_last() =~= ss.drop_last());
        assert(upd.last() == SubModel { name: ss[i].name, entries: ss[i].entries.push(e) });
    } else {
        assert(upd.drop_last() =~= ss.drop_last().update(
            i,
            SubModel {
                name: ss.drop_last()[i].name,
                entries: ss.drop_last()[i].entries.push(e),
            },
        ));
        lemma_subs_total_update(ss.drop_last(), i, e);
        assert(upd.last() == ss.last());
    }
}

/// Committing the pending entry adds exactly one to the count, whichever
/// bucket it lands in.
proof fn lemma_commit_count(m: GlogModel)
    ensures
        total_entries(commit_entry_model(m)) == total_entries(m) + 1,
{
    match m.sub_source {
        None => {},
        Some(tag) => {
            let name = derive_name(m.entry.message, tag);
            let i = find_sub_idx(m.sources, name, 0);
            if i < m.sources.len() {
                lemma_find_sub_idx_range(m.sources, name, 0);
                lemma_subs_total_update(m.sources, i, m.entry);
            } else {
                let newsub = SubModel { name, entries: seq![m.entry] };
                assert(m.sources.push(newsub).drop_last() =~= m.sources);
                assert(m.sources.push(newsub).last() == newsub);
                assert(seq![m.entry].len() == 1);
            }
        },
    }
}

proof fn lemma_find_sub_idx_range(ss: Seq<SubModel>, name: Seq<char>, i: int)
    requires
        0 <= i <= ss.len(),
    ensures
        i <= find_sub_idx(ss, name, i) <= ss.len(),
    decreases ss.len() - i,
{
    if i < ss.len() && ss[i].name != name {
        lemma_find_sub_idx_range(ss, name, i + 1);
    }
}

/// The `[` that follows a pending line commits exactly one entry and
/// restarts the machine at `SectionKind`.
proof fn lemma_finish_total(m: GlogModel)
    requires
        m.state matches GlogParserState::SectionValuePost3(_, _, true),
    ensures
        total_entries(glog_step(m, 91)) == total_entries(m) + 1,
        (glog_step(m, 91)).state == GlogParserState::SectionKind,
        (glog_step(m, 91)).buf.len() == 0,
{
    match m.state {
        GlogParserState::SectionValuePost3(kind, cutoff, done) => {
            let mp = GlogModel { buf: m.buf.push(91), ..m };
            let value = mp.buf.take(mp.buf.len() - cutoff);
            lemma_apply_total(mp, kind, value);
            lemma_commit_count(apply_section(mp, kind, value));
        },
        _ => {},
    }
}

/// Feeding a tag (no `|`) accumulates it in the buffer.
proof fn lemma_run_tag(m: GlogModel, t: Seq<u8>)
    requires
        m.state == GlogParserState::SectionKind,
        forall|i: int| 0 <= i < t.len() ==> #[trigger] t[i] != 124,
    ensures
        glog_run(m, t) == (GlogModel { buf: m.buf + t, ..m }),
    decreases t.len(),
{
    if t.len() == 0 {
        assert(m.buf + t =~= m.buf);
    } else {
        let m1 = glog_step(m, t[0]);
        assert(m1 == (GlogModel { buf: m.buf.push(t[0]), ..m }));
        assert forall|i: int| 0 <= i < t.drop_first().len() implies #[trigger] t.drop_first()[i]
            != 124 by {
            assert(t.drop_first()[i] == t[i + 1]);
        }
        lemma_run_tag(m1, t.drop_first());
        assert(m.buf.push(t[0]) + t.drop_first() =~= m.buf + t);
    }
}

/// Feeding a value (no `]`) accumulates it in the buffer.
proof fn lemma_run_value(m: GlogModel, v: Seq<u8>, kind: GlogSectionKind)
    requires
        m.state == GlogParserState::SectionValue(kind),
        forall|i: int| 0 <= i < v.len() ==> #[trigger] v[i] != 93,
    ensures
        glog_run(m, v) == (GlogModel { buf: m.buf + v, ..m }),
    decreases v.len(),
{
    if v.len() == 0 {
        assert(m.buf + v =~= m.buf);
    } else {
        let m1 = glog_step(m, v[0]);
        assert(m1 == (GlogModel { buf: m.buf.push(v[0]), ..m }));
        assert forall|i: int| 0 <= i < v.drop_first().len() implies #[trigger] v.drop_first()[i]
            != 93 by {
            assert(v.drop_first()[i] == v[i + 1]);
        }
        lemma_run_value(m1, v.drop_first(), kind);
        assert(m.buf.push(v[0]) + v.drop_first() =~= m.buf + v);
    }
}

/// One section's tail takes the machine from `SectionKind` (empty
/// buffer) to `SectionValuePost1` with the value and its `]` buffered.
proof fn lemma_run_section_tail(m: GlogModel, s: WfSection)
    requires
        m.state == GlogParserState::SectionKind,
        m.buf.len() == 0,
        wf_section(s),
    ensures
        glog_run(m, section_tail(s)) == (GlogModel {
            state: GlogParserState::SectionValuePost1(kind_of_tag(s.tag)),
            buf: s.value.push(93),
            ..m
        }),
{
    let bytes = section_tail(s);
    lemma_chunks_independent(m, s.tag, seq![124u8] + s.value + seq![93u8]);
    lemma_run_tag(m, s.tag);
    let m1 = glog_run(m, s.tag);
    assert(m.buf + s.tag =~= s.tag);
    let m2 = glog_step(m1, 124);
    lemma_chunks_independent(m1, seq![124u8], s.value + seq![93u8]);
    lemma_run_one(m1, 124);
    assert(m2.state == GlogParserState::SectionValue(kind_of_tag(s.tag)));
    lemma_chunks_independent(m2, s.value, seq![93u8]);
    lemma_run_value(m2, s.value, kind_of_tag(s.tag));
    let m3 = glog_run(m2, s.value);
    assert(m2.buf + s.value =~= s.value);
    lemma_run_one(m3, 93);
    assert(s.tag + (seq![124u8] + s.value + seq![93u8]) =~= bytes);
    assert(seq![124u8] + (s.value + seq![93u8]) =~= seq![124u8] + s.value + seq![93u8]);
    assert(s.value + seq![93u8] =~= s.value + seq![93u8]);
    assert(glog_run(m, bytes) == glog_step(m3, 93));
    assert(glog_step(m3, 93) == (GlogModel {
        state: GlogParserState::SectionValuePost1(kind_of_tag(s.tag)),
        buf: s.value.push(93),
        ..m
    }));
}

/// A line's sections and terminator, from `SectionKind` with an empty
/// buffer, leave the machine pending in `SectionValuePost3` with the
/// entry-done flag set and the count unchanged.
proof fn lemma_run_line_pend(m: GlogModel, ss: Seq<WfSection>, crlf: bool)
    requires
        m.state == GlogParserState::SectionKind,
        m.buf.len() == 0,
        ss.len() >= 1,
        forall|i: int| 0 <= i < ss.len() ==> wf_section(#[trigger] ss[i]),
    ensures
        (glog_run(m, sections_tail(ss) + termbytes(crlf))).state matches
            GlogParserState::SectionValuePost3(_, _, true),
        total_entries(glog_run(m, sections_tail(ss) + termbytes(crlf))) == total_entries(m),
    decreases ss.len(),
{
    if ss.len() == 1 {
        lemma_chunks_independent(m, section_tail(ss[0]), termbytes(crlf));
        lemma_run_section_tail(m, ss[0]);
        let m1 = glog_run(m, section_tail(ss[0]));
        if crlf {
            let m2 = glog_step(m1, 13);
            let m3 = glog_step(m2, 10);
            assert(termbytes(true) =~= seq![13u8, 10u8]);
            lemma_run_two(m1, 13, 10);
        } else {
            let m2 = glog_step(m1, 10);
            assert(termbytes(false) =~= seq![10u8]);
            lemma_run_one(m1, 10);
        }
    } else {
        let head = section_tail(ss[0]);
        let glue = seq![58u8, 91u8];
        let rest = sections_tail(ss.drop_first()) + termbytes(crlf);
        assert(sections_tail(ss) + termbytes(crlf) =~= head + (glue + rest));
        lemma_chunks_independent(m, head, glue + rest);
        lemma_run_section_tail(m, ss[0]);
        let m1 = glog_run(m, head);
        lemma_chunks_independent(m1, glue, rest);
        let m2 = glog_step(m1, 58);
        let m3 = glog_step(m2, 91);
        lemma_run_two(m1, 58, 91);
        let kind = kind_of_tag(ss[0].tag);
        let mp = GlogModel { buf: m2.buf.push(91), ..m2 };
        let value = mp.buf.take(mp.buf.len() - 3);
        lemma_apply_total(mp, kind, value);
        assert(m3.state == GlogParserState::SectionKind);
        assert(m3.buf.len() == 0);
        assert(total_entries(m3) == total_entries(m));
        assert forall|i: int| 0 <= i < ss.drop_first().len() implies wf_section(
            #[trigger] ss.drop_first()[i],
        ) by {
            assert(ss.drop_first()[i] == ss[i + 1]);
        }
        lemma_run_line_pend(m3, ss.drop_first(), crlf);
    }
}

/// A run of pending lines: each line's entry is committed by the `[` of
/// the next, the last stays pending.
proof fn lemma_run_stream_pend(m: GlogModel, lines: Seq<WfLine>)
    requires
        m.state == GlogParserState::SectionKind,
        m.buf.len() == 0,
        lines.len() >= 1,
        forall|i: int| 0 <= i < lines.len() ==> wf_line(#[trigger] lines[i]),
    ensures
        (glog_run(m, pend_stream(lines))).state matches GlogParserState::SectionValuePost3(
            _,
            _,
            true,
        ),
        total_entries(glog_run(m, pend_stream(lines))) == total_entries(m) + lines.len() - 1,
    decreases lines.len(),
{
    if lines.len() == 1 {
        lemma_run_line_pend(m, lines[0].sections, lines[0].crlf);
    } else {
        let head = sections_tail(lines[0].sections) + termbytes(lines[0].crlf);
        let rest = pend_stream(lines.drop_first());
        assert(pend_stream(lines) =~= head + (seq![91u8] + rest));
        lemma_chunks_independent(m, head, seq![91u8] + rest);
        lemma_run_line_pend(m, lines[0].sections, lines[0].crlf);
        let m1 = glog_run(m, head);
        lemma_chunks_independent(m1, seq![91u8], rest);
        lemma_run_one(m1, 91);
        lemma_finish_total(m1);
        let m2 = glog_step(m1, 91);
        assert forall|i: int| 0 <= i < lines.drop_first().len() implies wf_line(
            #[trigger] lines.drop_first()[i],
        ) by {
            assert(lines.drop_first()[i] == lines[i + 1]);
        }
        lemma_run_stream_pend(m2, lines.drop_first());
    }
}

/// For a well-formed GLOG stream, the number of finalized entries equals
/// the number of terminated lines: parsing commits exactly one entry per
/// line, wherever each entry lands.
pub proof fn lemma_glog_entry_count(lines: Seq<WfLine>)
    requires
        forall|i: int| 0 <= i < lines.len() ==> wf_line(#[trigger] lines[i]),
    ensures
        total_entries(spec_finalize_run(glog_run(glog_init(), stream_bytes(lines))))
            == lines.len(),
{
    if lines.len() == 0 {
        assert(glog_run(glog_init(), stream_bytes(lines)) == glog_init());
        assert(subs_total(glog_init().sources) == 0);
    } else {
        lemma_stream_regroup(lines);
        assert(glog_run(glog_init(), stream_bytes(lines)) == glog_run(
            glog_init(),
            seq![91u8] + pend_stream(lines),
        ));
        lemma_chunks_independent(glog_init(), seq![91u8], pend_stream(lines));
        let m0 = glog_step(glog_init(), 91);
        lemma_run_one(glog_init(), 91);
        assert(m0.state == GlogParserState::SectionKind);
        assert(subs_total(m0.sources) == 0);
        lemma_run_stream_pend(m0, lines);
        let mp = glog_run(m0, pend_stream(lines));
        lemma_finish_total(mp);
    }
}

} // verus!

verus! {

broadcast use vstd::seq::axiom_seq_index_decreases;

/// Entries held by a list of sibling trees.
pub open spec fn trees_count(ts: Seq<TreeModel>) -> int
    decreases ts,
{
    if ts.len() == 0 {
        0
    } else {
        trees_count(ts.drop_last()) + tree_count(ts.last())
    }
}

/// Entries held by a whole tree.
pub open spec fn tree_count(t: TreeModel) -> int
    decreases t,
{
    match t {
        TreeModel::Leaf { name, entries } => entries.len() as int,
        TreeModel::Node { name, children } => trees_count(children),
    }
}

/// Stable insertion keeps the entry count.
proof fn lemma_insert_sub_total(s: Seq<SubModel>, x: SubModel)
    ensures
        subs_total(spec_insert_sub(s, x)) == subs_total(s) + x.entries.len(),
    decreases s.len(),
{
    if s.len() == 0 {
        assert(spec_insert_sub(s, x) == seq![x]);
        assert(seq![x].drop_last() =~= Seq::<SubModel>::empty());
        assert(seq![x].last() == x);
        assert(subs_total(Seq::<SubModel>::empty()) == 0);
        assert(subs_total(seq![x]) == x.entries.len());
    } else if name_le(s.last().name, x.name) {
        assert(spec_insert_sub(s, x) == s.push(x));
        assert(s.push(x).drop_last() =~= s);
        assert(s.push(x).last() == x);
        assert(subs_total(s.push(x)) == subs_total(s) + x.entries.len());
    } else {
        lemma_insert_sub_total(s.drop_last(), x);
        let inner = spec_insert_sub(s.drop_last(), x);
        assert(spec_insert_sub(s, x) == inner.push(s.last()));
        assert(inner.push(s.last()).drop_last() =~= inner);
        assert(inner.push(s.last()).last() == s.last());
        assert(subs_total(inner.push(s.last())) == subs_total(inner) + s.last().entries.len());
        assert(subs_total(s) == subs_total(s.drop_last()) + s.last().entries.len());
    }
}

/// Sorting keeps the entry count.
proof fn lemma_sort_subs_total(s: Seq<SubModel>)
    ensures
        subs_total(spec_sort_subs(s)) == subs_total(s),
    decreases s.len(),
{
    if s.len() > 0 {
        lemma_sort_subs_total(s.drop_last());
        lemma_insert_sub_total(spec_sort_subs(s.drop_last()), s.last());
    }
}

/// Turning sub-sources into leaves keeps the entry count.
proof fn lemma_leaves_count(ss: Seq<SubModel>)
    ensures
        trees_count(leaves_of(ss)) == subs_total(ss),
    decreases ss.len(),
{
    if ss.len() == 0 {
        assert(leaves_of(ss).len() == 0);
        assert(trees_count(leaves_of(ss)) == 0);
    } else {
        lemma_leaves_count(ss.drop_last());
        assert(leaves_of(ss).drop_last() =~= leaves_of(ss.drop_last()));
        assert(leaves_of(ss).last() == leaf_of(ss.last()));
        assert(trees_count(leaves_of(ss)) == trees_count(leaves_of(ss).drop_last()) + tree_count(
            leaves_of(ss).last(),
        ));
    }
}

/// Tree assembly keeps the entry count.
proof fn lemma_assemble_count(m: GlogModel, root_name: Seq<char>)
    ensures
        tree_count(spec_assemble(m, root_name)) == total_entries(m),
{
    if m.sources.len() == 0 {
        assert(subs_total(m.sources) == 0);
    } else {
        let subs = if m.flat.len() > 0 {
            m.sources.push(SubModel { name: "Unknown (None)"@, entries: m.flat })
        } else {
            m.sources
        };
        if m.flat.len() > 0 {
            assert(subs.drop_last() =~= m.sources);
            assert(subs.last() == SubModel { name: "Unknown (None)"@, entries: m.flat });
        }
        lemma_sort_subs_total(subs);
        lemma_leaves_count(spec_sort_subs(subs));
    }
}

/// For a well-formed GLOG stream, the parsed tree holds exactly one
/// entry per terminated line, whichever sub-source each entry lands in.
pub proof fn lemma_glog_tree_entry_count(lines: Seq<WfLine>, root_name: Seq<char>)
    requires
        forall|i: int| 0 <= i < lines.len() ==> wf_line(#[trigger] lines[i]),
    ensures
        tree_count(spec_glog_parse(stream_bytes(lines), root_name)) == lines.len(),
{
    lemma_glog_entry_count(lines);
    lemma_assemble_count(spec_finalize_run(glog_run(glog_init(), stream_bytes(lines))), root_name);
}

} // verus!
