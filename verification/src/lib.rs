//! Ingestion and normalization of heterogeneous machine log files.
//!
//! The crate parses two wire formats into one in-memory log model:
//! a bracketed key-value byte format ("GLOG") handled by a byte-driven
//! state machine, and a timestamped plain-text format ("Robot log")
//! handled by a line grammar with a content sniffer.  A post-processing
//! pass corrects sensor timestamps from embedded time-delta markers,
//! and a dispatcher routes files to the right parser by extension.

use vstd::prelude::*;

pub mod correct;
pub mod dispatch;
pub mod duration;
pub mod datetime;
pub mod glog;
pub mod model;
pub mod numbers;
pub mod robot_log;
pub mod search;
pub mod text;

verus! {

} // verus!
