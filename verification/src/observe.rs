//! All detectors together.

use vstd::prelude::*;

use crate::corrective;
use crate::corrective::detect_corrective;
use crate::model::{CandidateView, CrossCandidate, Session, SessionView};
use crate::model::{CORRECTIVE_WINDOW_SECS, REDUNDANT_WINDOW_SECS, RESCUE_WINDOW_SECS, STALL_SECS};
use crate::order;
use crate::order::{stable_sort, Ranked};
use crate::redundant;
use crate::redundant::detect_redundant;
use crate::rescue;
use crate::rescue::detect_rescue;
use crate::text;

verus! {

/// The order in which candidates are reported: by context, then by first
/// timestamp, then by participants.
pub open spec fn reported_before(a: CandidateView, b: CandidateView) -> bool {
    ||| text::text_lt(a.context, b.context)
    ||| {
        &&& a.context == b.context
        &&& a.t_first_unix < b.t_first_unix
    }
    ||| {
        &&& a.context == b.context
        &&& a.t_first_unix == b.t_first_unix
        &&& text::texts_lt(a.participants, b.participants)
    }
}

/// The order of the report as a relation.
pub open spec fn report_order() -> spec_fn(CandidateView, CandidateView) -> bool {
    |a: CandidateView, b: CandidateView| reported_before(a, b)
}

impl Ranked for CrossCandidate {
    open spec fn before() -> spec_fn(CandidateView, CandidateView) -> bool {
        report_order()
    }

    fn comes_before(&self, other: &Self) -> (yes: bool) {
        proof {
            text::lemma_text_lt_irreflexive(self.context@);
        }
        if self.context != other.context {
            text::text_before(self.context.as_str(), other.context.as_str())
        } else if self.t_first_unix != other.t_first_unix {
            self.t_first_unix < other.t_first_unix
        } else {
            text::texts_before(&self.participants, &other.participants)
        }
    }
}

/// What the three detectors find with the default windows, one detector after
/// the other.
pub open spec fn detected(sessions: Seq<SessionView>) -> Seq<CandidateView> {
    corrective::corrective_candidates(sessions, CORRECTIVE_WINDOW_SECS)
        + redundant::redundant_candidates(sessions, REDUNDANT_WINDOW_SECS)
        + rescue::rescue_candidates(sessions, STALL_SECS, RESCUE_WINDOW_SECS)
}

/// Everything the detectors find, in the order of the report.
pub open spec fn report(sessions: Seq<SessionView>) -> Seq<CandidateView> {
    order::sorted(detected(sessions), report_order())
}

/// Runs the three detectors over the sessions.
#[must_use]
pub fn observe_cross(sessions: &[Session]) -> (out: Vec<CrossCandidate>)
    ensures
        out.deep_view() == report(sessions.deep_view()),
{
    let mut found = detect_corrective(sessions, CORRECTIVE_WINDOW_SECS);
    let mut more = detect_redundant(sessions, REDUNDANT_WINDOW_SECS);
    let mut rest = detect_rescue(sessions, STALL_SECS, RESCUE_WINDOW_SECS);
    let ghost first = found.deep_view();
    let ghost second = more.deep_view();
    let ghost third = rest.deep_view();
    found.append(&mut more);
    assert(found.deep_view() =~= first + second);
    found.append(&mut rest);
    assert(found.deep_view() =~= first + second + third);
    stable_sort(found)
}

} // verus!
