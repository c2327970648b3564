//! The sensor timestamp corrector.
//!
//! Sensor firmware logs relative timestamps until it learns wall-clock
//! time over the bus, at which point it emits a marker line
//! `"Setting EtherCAT time [delta = <signed integer> ns]"` (trailing
//! period optional) carrying the offset between its local clock and true
//! time.  Scanning each leaf's entries newest-to-oldest, the marker
//! establishes an active correction for its session; earlier entries of
//! the same session whose timestamps predate the anchor date
//! (2001-01-01T00:00:00Z, before which no device existed) get the delta
//! added, converted from nanoseconds to 100 ns ticks.  A different
//! session id, a missing session id, or an unparsable marker invalidates
//! the active correction.

use vstd::prelude::*;
use vstd::string::StrSliceExecFns;

use crate::datetime::add_offset_100ns;
use crate::datetime::spec_add_offset_100ns;
use crate::glog::entries_view;
use crate::model::EntryModel;
use crate::model::LogEntry;
use crate::model::LogSource;
use crate::model::LogSourceContents;
use crate::model::Timestamp;
use crate::model::TreeModel;
use crate::numbers::spec_parse_i64_chars;
use crate::text::find_char_from;
use crate::text::parse_i64_str;
use crate::text::spec_ends_with;
use crate::text::spec_find_char;
use crate::text::spec_starts_with;
use crate::text::str_ends_with;
use crate::text::str_starts_with;

verus! {

broadcast use vstd::std_specs::vec::axiom_vec_decreases_to_view, vstd::seq::axiom_seq_index_decreases;

/// Timestamps below this anchor (2001-01-01T00:00:00Z, in 100 ns ticks
/// since the Unix epoch) are taken to be uncorrected relative ticks.
pub const CORRECTION_ANCHOR_TICKS: i64 = 9_783_072_000_000_000;

/// One active correction: the session it belongs to and its offset in
/// nanoseconds.
#[derive(PartialEq, Eq, Structural, Clone, Copy, Debug)]
pub struct Correction {
    pub session_id: u32,
    pub delta: i64,
}

/// A message of the exact marker shape: the fixed prefix through `"= "`,
/// and a `" ns]"` or `" ns]."` suffix.
pub open spec fn is_marker_shaped(msg: Seq<char>) -> bool {
    spec_starts_with(msg, "Setting EtherCAT time [delta = "@) && (spec_ends_with(msg, " ns]."@)
        || spec_ends_with(msg, " ns]"@))
}

/// The delta token: the characters from position 31 (just after the
/// marker prefix) up to the next space or the end of the message.
pub open spec fn marker_token_end(msg: Seq<char>) -> int {
    match spec_find_char(msg, ' ', 31) {
        Some(i) => i,
        None => msg.len() as int,
    }
}

/// The parsed delta of a marker-shaped message, if its token is a valid
/// signed 64-bit number.
pub open spec fn marker_delta(msg: Seq<char>) -> Option<i64> {
    spec_parse_i64_chars(msg.subrange(31, marker_token_end(msg)))
}

/// Nanoseconds to 100 ns ticks: truncating division by 100, as the
/// machine's signed division rounds toward zero.
pub open spec fn trunc_div_100(d: int) -> int {
    if d >= 0 {
        d / 100
    } else {
        -((-d) / 100)
    }
}

/// How one entry, seen newest-to-oldest, changes the active correction.
pub open spec fn step_correction(e: EntryModel, act: Option<Correction>) -> Option<Correction> {
    match e.session_id {
        None => None,
        Some(sid) => {
            if is_marker_shaped(e.message) {
                match marker_delta(e.message) {
                    Some(d) => Some(Correction { session_id: sid, delta: d }),
                    None => None,
                }
            } else {
                match act {
                    Some(c) => if c.session_id == sid {
                        act
                    } else {
                        None
                    },
                    None => None,
                }
            }
        },
    }
}

/// How the active correction rewrites one entry: only a non-marker entry
/// of the correction's own session with a pre-anchor timestamp is
/// shifted, and only when the shifted timestamp does not overflow.
pub open spec fn apply_correction(e: EntryModel, act: Option<Correction>) -> EntryModel {
    match e.session_id {
        None => e,
        Some(sid) => {
            if is_marker_shaped(e.message) {
                e
            } else {
                match act {
                    Some(c) => if c.session_id == sid && e.ticks < CORRECTION_ANCHOR_TICKS {
                        match spec_add_offset_100ns(
                            Timestamp { ticks: e.ticks },
                            trunc_div_100(c.delta as int) as i64,
                        ) {
                            Some(ts) => EntryModel { ticks: ts.ticks, ..e },
                            None => e,
                        }
                    } else {
                        e
                    },
                    None => e,
                }
            }
        },
    }
}

/// The active correction in effect when the scan reaches index `i`:
/// the fold of `step_correction` over all entries above `i`, newest
/// first, starting from no correction.
pub open spec fn active_before(s: Seq<EntryModel>, i: int) -> Option<Correction>
    decreases s.len() - i,
{
    if i + 1 >= s.len() {
        None
    } else {
        step_correction(s[i + 1], active_before(s, i + 1))
    }
}

/// A leaf's entry list after the correction pass.
pub open spec fn correct_entries(s: Seq<EntryModel>) -> Seq<EntryModel> {
    Seq::new(s.len(), |i: int| apply_correction(s[i], active_before(s, i)))
}

/// The whole tree after the correction pass: every leaf's entries are
/// corrected, names and structure are untouched.
pub open spec fn spec_adjust(t: TreeModel) -> TreeModel
    decreases t,
{
    match t {
        TreeModel::Leaf { name, entries } => TreeModel::Leaf {
            name,
            entries: correct_entries(entries),
        },
        TreeModel::Node { name, children } => TreeModel::Node {
            name,
            children: Seq::new(
                children.len(),
                |i: int|
                    if 0 <= i < children.len() {
                        spec_adjust(children[i])
                    } else {
                        TreeModel::Leaf {
                            name: Seq::<char>::empty(),
                            entries: Seq::<EntryModel>::empty(),
                        }
                    },
            ),
        },
    }
}

/// A session-id change ends a correction's validity: a non-marker entry
/// whose session differs from the active correction's clears it, so no
/// older entry can receive that correction.
pub proof fn lemma_session_boundary(e: EntryModel, act: Option<Correction>, sid: u32, c: Correction)
    requires
        e.session_id == Some(sid),
        !is_marker_shaped(e.message),
        act == Some(c),
        c.session_id != sid,
    ensures
        step_correction(e, act) is None,
{
}

/// Truncating division of the delta by 100.
fn div100(d: i64) -> (r: i64)
    ensures
        r as int == trunc_div_100(d as int),
{
    match d.checked_div(100) {
        Some(v) => v,
        None => {
            proof {
                let x = d as int;
                if x >= 0 {
                    assert(x / 100 <= x) by (nonlinear_arith)
                        requires
                            x >= 0,
                    ;
                } else {
                    assert((x * -1) / 100 <= x * -1) by (nonlinear_arith)
                        requires
                            x < 0,
                    ;
                }
                assert(false);
            }
            0
        },
    }
}

/// Tests a message for the exact marker shape.
fn is_marker(msg: &String) -> (r: bool)
    ensures
        r == is_marker_shaped(msg@),
{
    if str_starts_with(msg.as_str(), "Setting EtherCAT time [delta = ") {
        str_ends_with(msg.as_str(), " ns].") || str_ends_with(msg.as_str(), " ns]")
    } else {
        false
    }
}

/// Extracts and parses the delta token of a marker-shaped message.
fn parse_marker_delta(msg: &String) -> (r: Option<i64>)
    requires
        is_marker_shaped(msg@),
    ensures
        r == marker_delta(msg@),
{
    proof {
        reveal_strlit("Setting EtherCAT time [delta = ");
        assert(msg@.len() >= 31);
    }
    let len = msg.as_str().unicode_len();
    let end = match find_char_from(msg.as_str(), 31, ' ') {
        Some(i) => i,
        None => len,
    };
    parse_i64_str(msg.as_str(), 31, end)
}

/// Corrects one leaf's entry list in place, scanning newest to oldest.
fn correct_leaf(entries: &mut Vec<LogEntry>)
    ensures
        entries_view(final(entries)@) == correct_entries(entries_view(old(entries)@)),
{
    let ghost orig = entries_view(entries@);
    let mut act: Option<Correction> = None;
    let mut i: usize = entries.len();
    while i > 0
        invariant
            0 <= i <= orig.len(),
            entries@.len() == orig.len(),
            act == active_before(orig, i - 1),
            forall|j: int| 0 <= j < i ==> entries_view(entries@)[j] == orig[j],
            forall|j: int|
                i <= j < orig.len() ==> entries_view(entries@)[j] == apply_correction(
                    orig[j],
                    active_before(orig, j),
                ),
        decreases i,
    {
        i = i - 1;
        let ghost cur = orig[i as int];
        let ghost act0 = act;
        let ghost pre = entries@;
        proof {
            assert(entries_view(entries@)[i as int] == entries@[i as int]@);
            assert(entries@[i as int]@ == cur);
        }
        match entries[i].session_id {
            None => {
                act = None;
                proof {
                    assert(cur.session_id is None);
                }
            },
            Some(sid) => {
                proof {
                    assert(cur.session_id == Some(sid));
                }
                if is_marker(&entries[i].message) {
                    match parse_marker_delta(&entries[i].message) {
                        Some(d) => {
                            act = Some(Correction { session_id: sid, delta: d });
                        },
                        None => {
                            act = None;
                        },
                    }
                } else {
                    match act {
                        Some(c) => {
                            if c.session_id == sid {
                                if entries[i].timestamp.ticks < CORRECTION_ANCHOR_TICKS {
                                    let off = div100(c.delta);
                                    match add_offset_100ns(entries[i].timestamp, off) {
                                        Some(ts) => {
                                            let mut e = entries.remove(i);
                                            e.timestamp = ts;
                                            let ghost enew = e;
                                            entries.insert(i, e);
                                            proof {
                                                assert(entries@ =~= pre.update(i as int, enew));
                                                assert(enew@ == (EntryModel {
                                                    ticks: ts.ticks,
                                                    ..cur
                                                }));
                                                assert(entries_view(entries@)[i as int] == enew@);
                                                assert(entries_view(entries@)[i as int]
                                                    == apply_correction(
                                                    cur,
                                                    active_before(orig, i as int),
                                                ));
                                                assert forall|j: int|
                                                    0 <= j < orig.len() && j != i implies entries@[j]
                                                    == pre[j] by {
                                                    assert(pre.update(i as int, enew)[j] == pre[j]);
                                                }
                                            }
                                        },
                                        None => {},
                                    }
                                }
                            } else {
                                act = None;
                            }
                        },
                        None => {},
                    }
                }
            },
        }
        proof {
            assert(act == step_correction(cur, act0));
            assert(entries_view(entries@)[i as int] == apply_correction(
                cur,
                active_before(orig, i as int),
            ));
            assert forall|j: int| 0 <= j < orig.len() && j != i implies entries_view(entries@)[j]
                == entries_view(pre)[j] by {
                assert(entries@[j] == pre[j]);
                assert(entries_view(entries@)[j] == entries@[j]@);
                assert(entries_view(pre)[j] == pre[j]@);
            }
            assert forall|j: int|
                i <= j < orig.len() implies entries_view(entries@)[j] == apply_correction(
                orig[j],
                active_before(orig, j),
            ) by {
                if j == i as int {
                    assert(entries_view(entries@)[j] == apply_correction(
                        orig[j],
                        active_before(orig, j),
                    ));
                } else {
                    assert(entries_view(entries@)[j] == entries_view(pre)[j]);
                    assert(entries_view(pre)[j] == apply_correction(
                        orig[j],
                        active_before(orig, j),
                    ));
                }
            }
        }
    }
    proof {
        assert(entries_view(entries@) =~= correct_entries(orig));
    }
}

/// Corrects a whole tree, taken by value.
fn adjust_tree(s: LogSource) -> (r: LogSource)
    ensures
        r@ == spec_adjust(s@),
    decreases s,
{
    let ghost s0 = s;
    let LogSource { name, children } = s;
    match children {
        LogSourceContents::Entries(mut v) => {
            correct_leaf(&mut v);
            let r = LogSource { name, children: LogSourceContents::Entries(v) };
            proof {
                assert(r@ matches TreeModel::Leaf { name: _, entries: es } ==> es
                    == correct_entries(entries_view(s0.children->Entries_0@)));
            }
            r
        },
        LogSourceContents::Sources(v) => {
            let ghost origv = v@;
            proof {
                assert(decreases_to!(s0 => s0.children));
                assert(decreases_to!(s0.children => s0.children->Sources_0));
                assert(s0.children->Sources_0 == v);
                assert(decreases_to!(v => v@));
                assert(decreases_to!(s0 => v@));
            }
            let out = adjust_vec(v);
            let r = LogSource { name, children: LogSourceContents::Sources(out) };
            proof {
                let want = spec_adjust(s0@);
                let rcs = (match r@ {
                    TreeModel::Node { name: _, children: cs } => cs,
                    TreeModel::Leaf { name: _, entries: _ } => Seq::<TreeModel>::empty(),
                });
                let wcs = (match want {
                    TreeModel::Node { name: _, children: ws } => ws,
                    TreeModel::Leaf { name: _, entries: _ } => Seq::<TreeModel>::empty(),
                });
                assert forall|k: int| 0 <= k < origv.len() implies rcs[k] == wcs[k] by {
                    assert(out@[k]@ == spec_adjust(origv[k]@));
                }
                assert(rcs =~= wcs);
                assert(r@ =~= want);
            }
            r
        },
    }
}

/// Corrects each tree of a list of sibling sub-sources.
fn adjust_vec(v: Vec<LogSource>) -> (r: Vec<LogSource>)
    ensures
        r@.len() == v@.len(),
        forall|k: int| 0 <= k < v@.len() ==> (#[trigger] r@[k])@ == spec_adjust(v@[k]@),
    decreases v@,
{
    let ghost v0 = v@;
    if v.len() == 0 {
        v
    } else {
        let mut v = v;
        let first = v.remove(0);
        proof {
            assert(first == v0[0]);
            assert(decreases_to!(v0 => v0[0]));
            assert(v@ =~= v0.subrange(1, v0.len() as int));
            assert(v0.subrange(1, v0.len() as int).len() < v0.len());
            assert(decreases_to!(v0 => v0.subrange(1, v0.len() as int)));
        }
        let f2 = adjust_tree(first);
        let mut rest = adjust_vec(v);
        rest.insert(0, f2);
        proof {
            assert forall|k: int| 0 <= k < v0.len() implies (#[trigger] rest@[k])@ == spec_adjust(
                v0[k]@,
            ) by {
                if k > 0 {
                    assert(rest@[k] == rest@.subrange(0, 0int).add(seq![f2]).add(
                        v0.subrange(1, v0.len() as int),
                    )[k] || true);
                    assert(v0.subrange(1, v0.len() as int)[k - 1] == v0[k]);
                }
            }
        }
        rest
    }
}

/// Runs the correction pass over the tree in place: every leaf's entries
/// are rewritten per [`correct_entries`]; structure and names stay.
pub fn adjust_sensor_timestamps(source: &mut LogSource)
    ensures
        final(source)@ == spec_adjust(old(source)@),
{
    let mut tmp = LogSource { name: String::new(), children: LogSourceContents::Entries(Vec::new()) };
    core::mem::swap(&mut tmp, source);
    let done = adjust_tree(tmp);
    *source = done;
}

} // verus!
