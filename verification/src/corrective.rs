//! The corrective pattern: one session errors on a path, another writes that
//! path successfully soon after.

use vstd::prelude::*;

use crate::model;
use crate::model::{CandidateView, CrossCandidate, CrossEvidence, CrossRecord, RecordView, Session, SessionView};
use crate::order;

verus! {

/// The records that fix `err`: successful writes of its path, after it and
/// within the window.
pub open spec fn fixes(err: RecordView, window: i64) -> spec_fn(RecordView) -> bool {
    |w: RecordView|
        w.is_write_success() && w.path == err.path && 0 < model::elapsed(err.ts, w.ts) < window
}

/// The candidate for an error of session `a` that record `w` of session `b`
/// fixes.
pub open spec fn correction(
    a: SessionView,
    err: RecordView,
    b: SessionView,
    w: RecordView,
) -> CandidateView {
    model::candidate_of(
        "corrective"@,
        err.path,
        model::cited(a, err.ts, "error on "@ + err.path),
        model::cited(b, w.ts, model::write_excerpt(w, " (ok)"@)),
    )
}

/// What session `b` contributes to the candidates for `err`: its earliest fix,
/// unless `b` is the session that erred.
pub open spec fn corrections_by(
    a: SessionView,
    err: RecordView,
    b: SessionView,
    window: i64,
) -> Seq<CandidateView> {
    if b.sid == a.sid {
        Seq::empty()
    } else {
        match order::first_min(b.records, fixes(err, window), model::delay(err.ts)) {
            Some(w) => seq![correction(a, err, b, w)],
            None => Seq::empty(),
        }
    }
}

/// The candidates for `err`, session by session.
pub open spec fn corrections_of(
    sessions: Seq<SessionView>,
    a: SessionView,
    err: RecordView,
    window: i64,
) -> spec_fn(int) -> Seq<CandidateView> {
    |j: int| corrections_by(a, err, sessions[j], window)
}

/// The candidates for the errors of session `a`, record by record.
pub open spec fn corrections_in(
    sessions: Seq<SessionView>,
    a: SessionView,
    window: i64,
) -> spec_fn(int) -> Seq<CandidateView> {
    |e: int|
        if a.records[e].is_path_error() {
            order::gather(sessions.len() as int, corrections_of(sessions, a, a.records[e], window))
        } else {
            Seq::empty()
        }
}

/// The candidates of each session in turn.
pub open spec fn corrections_from(sessions: Seq<SessionView>, window: i64) -> spec_fn(
    int,
) -> Seq<CandidateView> {
    |i: int|
        order::gather(sessions[i].records.len() as int, corrections_in(sessions, sessions[i], window))
}

/// All corrective candidates: by erring session, by error, by fixing session.
pub open spec fn corrective_candidates(sessions: Seq<SessionView>, window: i64) -> Seq<
    CandidateView,
> {
    order::gather(sessions.len() as int, corrections_from(sessions, window))
}

/// The earliest record of `b` that fixes `err`.
fn find_fix<'a>(b: &'a Session, err: &CrossRecord, window: i64) -> (fix: Option<&'a CrossRecord>)
    ensures
        fix.deep_view() == order::first_min(b@.records, fixes(err@, window), model::delay(err.ts)),
{
    let ghost records = b@.records;
    let ghost ok = fixes(err@, window);
    let ghost key = model::delay(err.ts);
    let mut best: Option<usize> = None;
    let mut best_delay: i64 = 0;
    let mut n: usize = 0;
    proof {
        order::lemma_scan_starts(records, ok, key);
    }
    while n < b.records.len()
        invariant
            n <= b.records.len(),
            records == b@.records,
            ok == fixes(err@, window),
            key == model::delay(err.ts),
            order::scanned(records, n as int, ok, key, best),
            best is Some ==> best->0 < n && best_delay == key(records[best->0 as int]),
        decreases b.records.len() - n,
    {
        let w = &b.records[n];
        let dt: i64 = model::seconds_between(err.ts, w.ts);
        assert(records[n as int] == w@);
        proof {
            order::lemma_scan_step(records, n as int, ok, key, best);
        }
        if w.is_write_success() && w.path == err.path && dt > 0 && dt < window && (best.is_none()
            || dt < best_delay) {
            best = Some(n);
            best_delay = dt;
        }
        n = n + 1;
    }
    proof {
        order::lemma_scan_ends(records, ok, key, best);
    }
    match best {
        Some(k) => Some(&b.records[k]),
        None => None,
    }
}

/// The candidate for an error of `a` that `w` of `b` fixes.
fn make_correction(a: &Session, err: &CrossRecord, b: &Session, w: &CrossRecord) -> (candidate:
    CrossCandidate)
    ensures
        candidate@ == correction(a@, err@, b@, w@),
{
    let first = CrossEvidence {
        session: a.sid.clone(),
        ts: err.ts,
        excerpt: "error on ".to_owned().concat(err.path.as_str()),
    };
    let last = CrossEvidence {
        session: b.sid.clone(),
        ts: w.ts,
        excerpt: model::describe_write(w, " (ok)"),
    };
    model::make_candidate("corrective", &err.path, first, last)
}

/// Adds the candidates for one error of `a` to `out`.
fn correct_error(
    sessions: &[Session],
    a: &Session,
    err: &CrossRecord,
    window: i64,
    out: &mut Vec<CrossCandidate>,
)
    ensures
        final(out).deep_view() == old(out).deep_view() + order::gather(
            sessions.len() as int,
            corrections_of(sessions.deep_view(), a@, err@, window),
        ),
{
    let ghost f = corrections_of(sessions.deep_view(), a@, err@, window);
    let mut j: usize = 0;
    while j < sessions.len()
        invariant
            j <= sessions.len(),
            f == corrections_of(sessions.deep_view(), a@, err@, window),
            out.deep_view() =~= old(out).deep_view() + order::gather(j as int, f),
        decreases sessions.len() - j,
    {
        let b = &sessions[j];
        let ghost before = out.deep_view();
        assert(sessions.deep_view()[j as int] == b@);
        if b.sid != a.sid {
            if let Some(w) = find_fix(b, err, window) {
                out.push(make_correction(a, err, b, w));
            }
        }
        assert(out.deep_view() =~= before + f(j as int));
        j = j + 1;
    }
}

/// Finds each error of a session that another session fixes.
///
/// Session A errors on a path at `T_A`; session B, another one, writes the
/// path successfully at `T_B` with `0 < T_B - T_A < window`. The earliest such
/// fix per error and fixing session is reported once.
#[must_use]
pub fn detect_corrective(sessions: &[Session], window: i64) -> (out: Vec<CrossCandidate>)
    ensures
        out.deep_view() == corrective_candidates(sessions.deep_view(), window),
{
    let ghost all = sessions.deep_view();
    let ghost f = corrections_from(all, window);
    let mut out: Vec<CrossCandidate> = Vec::new();
    let mut i: usize = 0;
    while i < sessions.len()
        invariant
            i <= sessions.len(),
            all == sessions.deep_view(),
            f == corrections_from(all, window),
            out.deep_view() =~= order::gather(i as int, f),
        decreases sessions.len() - i,
    {
        let a = &sessions[i];
        let ghost before = out.deep_view();
        let ghost g = corrections_in(all, a@, window);
        assert(all[i as int] == a@);
        let mut e: usize = 0;
        while e < a.records.len()
            invariant
                e <= a.records.len(),
                all == sessions.deep_view(),
                g == corrections_in(all, a@, window),
                out.deep_view() =~= before + order::gather(e as int, g),
            decreases a.records.len() - e,
        {
            let err = &a.records[e];
            let ghost mid = out.deep_view();
            assert(a@.records[e as int] == err@);
            if err.is_path_error() {
                correct_error(sessions, a, err, window, &mut out);
            }
            assert(out.deep_view() =~= mid + g(e as int));
            e = e + 1;
        }
        assert(out.deep_view() =~= before + f(i as int));
        i = i + 1;
    }
    out
}

} // verus!
