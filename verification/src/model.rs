//! The records, sessions and candidates that the detectors work on, with the
//! mathematical values that the contracts speak of.

use vstd::prelude::*;

use crate::text::text_is;

verus! {

/// Corrective window: a fix must follow its error within this many seconds
/// (exclusive on both ends).
pub const CORRECTIVE_WINDOW_SECS: i64 = 300;

/// Redundant-work window: two sessions that write one path within this many
/// seconds of each other are candidates (exclusive on both ends).
pub const REDUNDANT_WINDOW_SECS: i64 = 3600;

/// Stall threshold: a session must stay quiet for at least this many seconds
/// after an error for the error to count as a stall.
pub const STALL_SECS: i64 = 300;

/// Rescue window: the rescuing session must begin work on a shared path
/// within this many seconds after the stall.
pub const RESCUE_WINDOW_SECS: i64 = 600;

/// The `kind` stamped on every cross-session candidate.
pub const CROSS_KIND: &'static str = "episodic-cross-session";

/// One timestamped action of a session.
#[derive(Debug, Clone)]
pub struct CrossRecord {
    /// Unix timestamp (seconds) of the action.
    pub ts: i64,
    /// Filesystem path the action touched.
    pub path: String,
    /// Tool name (`Edit`, `Write`, `Bash`, ...).
    pub tool: String,
    /// Whether the action's result flagged an error or a non-zero exit.
    pub is_error: bool,
    /// First line of the edited range, when the tool call carried one.
    pub line_start: Option<i64>,
    /// Last line of the edited range, when the tool call carried one.
    pub line_end: Option<i64>,
}

/// The value of a [`CrossRecord`].
pub struct RecordView {
    pub ts: i64,
    pub path: Seq<char>,
    pub tool: Seq<char>,
    pub is_error: bool,
    pub line_start: Option<i64>,
    pub line_end: Option<i64>,
}

impl View for CrossRecord {
    type V = RecordView;

    open spec fn view(&self) -> RecordView {
        RecordView {
            ts: self.ts,
            path: self.path@,
            tool: self.tool@,
            is_error: self.is_error,
            line_start: self.line_start,
            line_end: self.line_end,
        }
    }
}

impl DeepView for CrossRecord {
    type V = RecordView;

    open spec fn deep_view(&self) -> RecordView {
        self@
    }
}

impl RecordView {
    /// A successful `Edit` or `Write` of a path.
    pub open spec fn is_write_success(self) -> bool {
        &&& !self.is_error
        &&& self.path.len() > 0
        &&& self.tool == "Edit"@ || self.tool == "Write"@
    }

    /// An error on a path.
    pub open spec fn is_path_error(self) -> bool {
        self.is_error && self.path.len() > 0
    }
}

impl CrossRecord {
    /// True when this record is a successful `Edit` or `Write` of its path.
    #[must_use]
    pub fn is_write_success(&self) -> (yes: bool)
        ensures
            yes == self@.is_write_success(),
    {
        !self.is_error && !self.path.as_str().is_empty() && (text_is(self.tool.as_str(), "Edit")
            || text_is(self.tool.as_str(), "Write"))
    }

    /// True when this record is an error on its path.
    #[must_use]
    pub fn is_path_error(&self) -> (yes: bool)
        ensures
            yes == self@.is_path_error(),
    {
        self.is_error && !self.path.as_str().is_empty()
    }
}

/// All records of one session.
#[derive(Debug, Clone)]
pub struct Session {
    /// Stable session id (the stem of the transcript's file name).
    pub sid: String,
    /// The session's records, ascending by `ts`.
    pub records: Vec<CrossRecord>,
    /// The intent the session declared, if any.
    pub slug: Option<String>,
}

/// The value of a [`Session`].
pub struct SessionView {
    pub sid: Seq<char>,
    pub records: Seq<RecordView>,
    pub slug: Option<Seq<char>>,
}

impl View for Session {
    type V = SessionView;

    open spec fn view(&self) -> SessionView {
        SessionView {
            sid: self.sid@,
            records: self.records.deep_view(),
            slug: self.slug.deep_view(),
        }
    }
}

impl DeepView for Session {
    type V = SessionView;

    open spec fn deep_view(&self) -> SessionView {
        self@
    }
}

/// One source citation in a candidate's `evidence` list.
#[derive(Debug, Clone)]
pub struct CrossEvidence {
    /// Session id the cited event came from.
    pub session: String,
    /// Unix timestamp of the cited event.
    pub ts: i64,
    /// Short human-readable excerpt.
    pub excerpt: String,
}

/// The value of a [`CrossEvidence`].
pub struct EvidenceView {
    pub session: Seq<char>,
    pub ts: i64,
    pub excerpt: Seq<char>,
}

impl View for CrossEvidence {
    type V = EvidenceView;

    open spec fn view(&self) -> EvidenceView {
        EvidenceView { session: self.session@, ts: self.ts, excerpt: self.excerpt@ }
    }
}

impl DeepView for CrossEvidence {
    type V = EvidenceView;

    open spec fn deep_view(&self) -> EvidenceView {
        self@
    }
}

/// A candidate cross-session episodic memory.
#[derive(Debug, Clone)]
pub struct CrossCandidate {
    /// Always [`CROSS_KIND`].
    pub kind: String,
    /// Whom the memory is about; `self` for agent behaviour.
    pub subject: String,
    /// The sessions involved, the one that acted first in front.
    pub participants: Vec<String>,
    /// The pattern: `corrective`, `redundant` or `rescue`.
    pub context: String,
    /// Paths the pattern centers on.
    pub paths: Vec<String>,
    /// Earliest timestamp of the evidence.
    pub t_first_unix: i64,
    /// Latest timestamp of the evidence.
    pub t_last_unix: i64,
    /// Source citations.
    pub evidence: Vec<CrossEvidence>,
}

/// The value of a [`CrossCandidate`].
pub struct CandidateView {
    pub kind: Seq<char>,
    pub subject: Seq<char>,
    pub participants: Seq<Seq<char>>,
    pub context: Seq<char>,
    pub paths: Seq<Seq<char>>,
    pub t_first_unix: i64,
    pub t_last_unix: i64,
    pub evidence: Seq<EvidenceView>,
}

impl View for CrossCandidate {
    type V = CandidateView;

    open spec fn view(&self) -> CandidateView {
        CandidateView {
            kind: self.kind@,
            subject: self.subject@,
            participants: self.participants.deep_view(),
            context: self.context@,
            paths: self.paths.deep_view(),
            t_first_unix: self.t_first_unix,
            t_last_unix: self.t_last_unix,
            evidence: self.evidence.deep_view(),
        }
    }
}

impl DeepView for CrossCandidate {
    type V = CandidateView;

    open spec fn deep_view(&self) -> CandidateView {
        self@
    }
}

/// An event that a candidate cites: where it happened, when, and what is said
/// of it.
pub open spec fn cited(session: SessionView, ts: i64, excerpt: Seq<char>) -> EvidenceView {
    EvidenceView { session: session.sid, ts, excerpt }
}

/// The candidate that links an event in one session to a later one in another
/// by a path they share.
pub open spec fn candidate_of(
    context: Seq<char>,
    path: Seq<char>,
    first: EvidenceView,
    last: EvidenceView,
) -> CandidateView {
    CandidateView {
        kind: CROSS_KIND@,
        subject: "self"@,
        participants: seq![first.session, last.session],
        context,
        paths: seq![path],
        t_first_unix: first.ts,
        t_last_unix: last.ts,
        evidence: seq![first, last],
    }
}

/// What is said of a successful write.
pub open spec fn write_excerpt(w: RecordView, note: Seq<char>) -> Seq<char> {
    w.tool + " "@ + w.path + note
}

/// What is said of a successful write.
pub(crate) fn describe_write(w: &CrossRecord, note: &str) -> (excerpt: String)
    ensures
        excerpt@ == write_excerpt(w@, note@),
{
    let mut excerpt = w.tool.clone();
    excerpt.append(" ");
    excerpt.append(w.path.as_str());
    excerpt.append(note);
    excerpt
}

/// Builds the candidate that links two cited events.
pub(crate) fn make_candidate(
    context: &str,
    path: &String,
    first: CrossEvidence,
    last: CrossEvidence,
) -> (candidate: CrossCandidate)
    ensures
        candidate@ == candidate_of(context@, path@, first@, last@),
{
    let participants = vec![first.session.clone(), last.session.clone()];
    let paths = vec![path.clone()];
    let t_first_unix: i64 = first.ts;
    let t_last_unix: i64 = last.ts;
    let evidence = vec![first, last];
    assert(participants.deep_view() =~= seq![first@.session, last@.session]);
    assert(paths.deep_view() =~= seq![path@]);
    assert(evidence.deep_view() =~= seq![first@, last@]);
    CrossCandidate {
        kind: CROSS_KIND.to_owned(),
        subject: "self".to_owned(),
        participants,
        context: context.to_owned(),
        paths,
        t_first_unix,
        t_last_unix,
        evidence,
    }
}

/// Seconds from `from` to `to`, held within the range of `i64`.
pub open spec fn elapsed(from: i64, to: i64) -> int {
    if to - from > i64::MAX {
        i64::MAX as int
    } else if to - from < i64::MIN {
        i64::MIN as int
    } else {
        to - from
    }
}

/// How long after `from` a record comes.
pub open spec fn delay(from: i64) -> spec_fn(RecordView) -> int {
    |w: RecordView| elapsed(from, w.ts)
}

/// Seconds from `from` to `to`, saturating.
pub(crate) fn seconds_between(from: i64, to: i64) -> (secs: i64)
    ensures
        secs == elapsed(from, to),
{
    match to.checked_sub(from) {
        Some(secs) => secs,
        None => if to > from {
            i64::MAX
        } else {
            i64::MIN
        },
    }
}

} // verus!
