//! The format dispatcher.
//!
//! Routing is by file extension, case-insensitively: `.glog` to the GLOG
//! parser, `.sfile`/`.lfile` to the external sfile parser, `.txt` to the
//! content sniffer (and the Robot-log parser when it matches).  Anything
//! else is unroutable; the closed error taxonomy is [`LogParseError`].

use vstd::prelude::*;
use vstd::string::StrSliceExecFns;

use crate::text::eq_ignore_case;
use crate::text::str_eq_ignore_case;
use crate::text::substring_string;

verus! {

/// The closed error taxonomy surfaced to callers.  In-grammar
/// malformations never surface here: parsing is best effort.  I/O
/// failures are carried as text by the caller that performed the I/O.
#[derive(Debug, PartialEq, Eq)]
pub enum LogParseError {
    IoError(String),
    UnrecognizedFileExtension(String),
    NoFileExtension,
    UnrecognizedLogFile(String),
}

/// Which parser a file routes to.  `SniffText` means: sniff the content
/// and use the Robot-log parser if it matches, else the file is not a
/// recognized log.
#[derive(PartialEq, Eq, Structural, Clone, Copy, Debug)]
pub enum ParserKind {
    Glog,
    Sfile,
    SniffText,
}

/// Position of the last `.` in a file name.
pub open spec fn spec_find_last_dot(s: Seq<char>) -> Option<int>
    decreases s.len(),
{
    if s.len() == 0 {
        None
    } else if s.last() == '.' {
        Some(s.len() - 1)
    } else {
        spec_find_last_dot(s.drop_last())
    }
}

/// The extension of a file name, as the standard path rules read it:
/// the part after the last `.`, unless there is no `.` or the name's
/// only `.` is its first character (a hidden file has no extension).
pub open spec fn spec_extension(name: Seq<char>) -> Option<Seq<char>> {
    match spec_find_last_dot(name) {
        None => None,
        Some(i) => if i == 0 {
            None
        } else {
            Some(name.skip(i + 1))
        },
    }
}

/// Where a file name routes.
pub enum RouteModel {
    Glog,
    Sfile,
    SniffText,
    UnknownExtension(Seq<char>),
    NoExtension,
}

pub open spec fn spec_route(name: Seq<char>) -> RouteModel {
    match spec_extension(name) {
        None => RouteModel::NoExtension,
        Some(ext) => if eq_ignore_case(ext, "glog"@) {
            RouteModel::Glog
        } else if eq_ignore_case(ext, "sfile"@) || eq_ignore_case(ext, "lfile"@) {
            RouteModel::Sfile
        } else if eq_ignore_case(ext, "txt"@) {
            RouteModel::SniffText
        } else {
            RouteModel::UnknownExtension(ext)
        },
    }
}

/// Finds the last `.` of a file name.
fn find_last_dot(name: &str) -> (r: Option<usize>)
    ensures
        match r {
            Some(i) => i < name@.len() && spec_find_last_dot(name@) == Some(i as int),
            None => spec_find_last_dot(name@) is None,
        },
{
    let n = name.unicode_len();
    let mut i: usize = n;
    proof {
        assert(name@.take(n as int) =~= name@);
    }
    while i > 0
        invariant
            0 <= i <= n,
            n == name@.len(),
            spec_find_last_dot(name@) == spec_find_last_dot(name@.take(i as int)),
        decreases i,
    {
        proof {
            assert(name@.take(i as int).last() == name@[i - 1]);
            assert(name@.take(i as int).drop_last() =~= name@.take(i - 1));
        }
        if name.get_char(i - 1) == '.' {
            return Some(i - 1);
        }
        i = i - 1;
    }
    proof {
        assert(name@.take(0int).len() == 0);
    }
    None
}

/// Routes a file name (the final path component) to a parser by its
/// extension, case-insensitively.  A name without an extension, or whose
/// only dot leads a hidden file, is unroutable.
pub fn route(file_name: &str) -> (r: Result<ParserKind, LogParseError>)
    ensures
        match spec_route(file_name@) {
            RouteModel::Glog => r == Ok::<ParserKind, LogParseError>(ParserKind::Glog),
            RouteModel::Sfile => r == Ok::<ParserKind, LogParseError>(ParserKind::Sfile),
            RouteModel::SniffText => r == Ok::<ParserKind, LogParseError>(ParserKind::SniffText),
            RouteModel::UnknownExtension(e) => (r matches Err(
                LogParseError::UnrecognizedFileExtension(x),
            ) && x@ == e),
            RouteModel::NoExtension => r matches Err(LogParseError::NoFileExtension),
        },
{
    let n = file_name.unicode_len();
    match find_last_dot(file_name) {
        None => Err(LogParseError::NoFileExtension),
        Some(i) => {
            if i == 0 {
                Err(LogParseError::NoFileExtension)
            } else {
                let ext = substring_string(file_name, i + 1, n);
                proof {
                    assert(ext@ =~= file_name@.skip(i + 1));
                }
                if str_eq_ignore_case(ext.as_str(), "glog") {
                    Ok(ParserKind::Glog)
                } else if str_eq_ignore_case(ext.as_str(), "sfile") || str_eq_ignore_case(
                    ext.as_str(),
                    "lfile",
                ) {
                    Ok(ParserKind::Sfile)
                } else if str_eq_ignore_case(ext.as_str(), "txt") {
                    Ok(ParserKind::SniffText)
                } else {
                    Err(LogParseError::UnrecognizedFileExtension(ext))
                }
            }
        },
    }
}

/// The text of each error.
pub open spec fn spec_describe(e: LogParseError) -> Seq<char> {
    match e {
        LogParseError::IoError(m) => "I/O error: "@ + m@,
        LogParseError::UnrecognizedFileExtension(x) => "Unrecognized file extension: "@ + x@,
        LogParseError::NoFileExtension => "No file extension"@,
        LogParseError::UnrecognizedLogFile(p) => "File '"@ + p@
            + "' is not known log file. Parsing failed."@,
    }
}

impl LogParseError {
    /// A short human-readable description of the error.
    pub fn describe(&self) -> (r: String)
        ensures
            r@ == spec_describe(*self),
    {
        let mut s = String::new();
        match self {
            LogParseError::IoError(m) => {
                s.append("I/O error: ");
                s.append(m.as_str());
            },
            LogParseError::UnrecognizedFileExtension(e) => {
                s.append("Unrecognized file extension: ");
                s.append(e.as_str());
            },
            LogParseError::NoFileExtension => {
                s.append("No file extension");
            },
            LogParseError::UnrecognizedLogFile(p) => {
                s.append("File '");
                s.append(p.as_str());
                s.append("' is not known log file. Parsing failed.");
            },
        }
        proof {
            assert(s@ =~= spec_describe(*self));
        }
        s
    }
}

} // verus!
