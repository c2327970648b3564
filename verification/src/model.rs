//! The normalized in-memory log model shared by every parser.

use vstd::prelude::*;

verus! {

broadcast use vstd::std_specs::vec::axiom_vec_decreases_to_view, vstd::seq::axiom_seq_index_decreases;

/// An absolute UTC instant, counted in 100-nanosecond ticks since the Unix
/// epoch (1970-01-01T00:00:00Z).  The tick is the native timestamp unit of
/// the sensor firmware; negative values are instants before the epoch.
#[derive(PartialEq, Eq, Structural, Clone, Copy, Debug)]
pub struct Timestamp {
    pub ticks: i64,
}

/// The fixed five-level severity scale of the normalized model.
#[derive(PartialEq, Eq, Structural, Clone, Copy, Debug)]
pub enum LogLevel {
    Trace,
    Debug,
    Info,
    Warning,
    Error,
    Critical,
}

/// One normalized log entry.
///
/// `session_id` is the value of the "SessionId" custom field, the only
/// custom-field key the supported formats define; an absent field is `None`.
/// `entry_id` is an opaque identifier owned by consumers for selection
/// bookkeeping; parsers leave it at zero.
pub struct LogEntry {
    pub timestamp: Timestamp,
    pub severity: LogLevel,
    pub message: String,
    pub session_id: Option<u32>,
    pub entry_id: u32,
}

/// The mathematical value of a [`LogEntry`].
pub struct EntryModel {
    pub ticks: i64,
    pub severity: LogLevel,
    pub message: Seq<char>,
    pub session_id: Option<u32>,
    pub entry_id: u32,
}

impl View for LogEntry {
    type V = EntryModel;

    open spec fn view(&self) -> EntryModel {
        EntryModel {
            ticks: self.timestamp.ticks,
            severity: self.severity,
            message: self.message@,
            session_id: self.session_id,
            entry_id: self.entry_id,
        }
    }
}

impl LogEntry {
    /// The blank entry a parser starts from: epoch timestamp, lowest
    /// informative severity, empty message, no custom fields.
    pub fn empty() -> (r: LogEntry)
        ensures
            r@ == (EntryModel {
                ticks: 0,
                severity: LogLevel::Debug,
                message: Seq::<char>::empty(),
                session_id: None::<u32>,
                entry_id: 0,
            }),
    {
        LogEntry {
            timestamp: Timestamp { ticks: 0 },
            severity: LogLevel::Debug,
            message: String::new(),
            session_id: None,
            entry_id: 0,
        }
    }
}

/// What a [`LogSource`] node holds: children are homogeneous, either all
/// entries (a leaf) or all sub-sources (an internal node), never mixed.
pub enum LogSourceContents {
    Entries(Vec<LogEntry>),
    Sources(Vec<LogSource>),
}

/// A named node of the log tree.  The root of a parse carries the file
/// name; sub-sources derived during parsing hang below it.
pub struct LogSource {
    pub name: String,
    pub children: LogSourceContents,
}

/// The mathematical value of a [`LogSource`] tree.
pub enum TreeModel {
    Leaf { name: Seq<char>, entries: Seq<EntryModel> },
    Node { name: Seq<char>, children: Seq<TreeModel> },
}

impl View for LogSource {
    type V = TreeModel;

    open spec fn view(&self) -> TreeModel
        decreases self,
    {
        match self.children {
            LogSourceContents::Entries(es) => TreeModel::Leaf {
                name: self.name@,
                entries: es@.map(|i: int, e: LogEntry| e@),
            },
            LogSourceContents::Sources(ss) => TreeModel::Node {
                name: self.name@,
                children: Seq::new(
                    ss@.len(),
                    |i: int|
                        if 0 <= i < ss@.len() {
                            ss@[i]@
                        } else {
                            TreeModel::Leaf {
                                name: Seq::<char>::empty(),
                                entries: Seq::<EntryModel>::empty(),
                            }
                        },
                ),
            },
        }
    }
}

} // verus!
