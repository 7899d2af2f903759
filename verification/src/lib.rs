//! Cross-session episodic detectors.
//!
//! A session leaves a transcript behind, one JSON object per line. This crate
//! correlates what happened across several sessions and proposes what is worth
//! remembering:
//!
//! - [`corrective`]: one session errors on a path, another fixes it soon after;
//! - [`redundant`]: two sessions write the same lines of one path close
//!   together;
//! - [`rescue`]: one session errors and falls silent, another with the same
//!   declared intent takes up its paths.
//!
//! [`transcript`] reads sessions, [`observe`] runs all detectors over them, and
//! [`proposal`] renders what they find. [`laws`] and [`permutation`] hold what
//! is true of the whole; [`reading`], [`detection`] and [`rendering`] tell the
//! results from the inputs alone.
//! Nothing here touches the file system.

pub mod clock;
pub mod corrective;
pub mod detection;
pub mod json;
pub mod laws;
pub mod model;
pub mod observe;
pub mod order;
pub mod permutation;
pub mod proposal;
pub mod reading;
pub mod redundant;
pub mod rendering;
pub mod rescue;
pub mod since;
pub mod text;
pub mod transcript;

pub use crate::clock::{now_unix, unix_time};
pub use crate::corrective::detect_corrective;
pub use crate::json::Scalar;
pub use crate::model::{CrossCandidate, CrossEvidence, CrossRecord, Session};
pub use crate::model::{
    CORRECTIVE_WINDOW_SECS, CROSS_KIND, REDUNDANT_WINDOW_SECS, RESCUE_WINDOW_SECS, STALL_SECS,
};
pub use crate::observe::observe_cross;
pub use crate::proposal::{
    confidence_for, proposal_file, proposal_stem, render_proposal, sanitize, ProposalFile,
};
pub use crate::redundant::{detect_redundant, line_ranges_overlap};
pub use crate::rescue::detect_rescue;
pub use crate::since::{parse_since, split_since};
pub use crate::transcript::{
    is_recent_transcript, line_record, log_records, log_slug, parse_cross_session,
    parse_session_slug, read_log, read_sessions, LogLine, ToolCall, Transcript,
};
