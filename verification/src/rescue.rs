//! The rescue pattern: one session errors and falls silent, another with the
//! same declared intent takes up its paths.

use vstd::prelude::*;

use crate::model;
use crate::model::{CandidateView, CrossCandidate, CrossEvidence, CrossRecord, RecordView, Session, SessionView};
use crate::order;

verus! {

/// Session `a` stays quiet for at least `stall` seconds after time `t`: its next
/// record, if any, comes no sooner than that.
pub open spec fn quiet_after(a: SessionView, t: i64, stall: i64) -> bool {
    forall|k: int|
        0 <= k < a.records.len() ==> !(t < (#[trigger] a.records[k]).ts < t + stall)
}

/// Session `a` has a record of `path`.
pub open spec fn touches(a: SessionView, path: Seq<char>) -> bool {
    exists|k: int| 0 <= k < a.records.len() && (#[trigger] a.records[k]).path == path
}

/// Both sessions declare an intent, and it is the same one.
pub open spec fn same_intent(a: SessionView, b: SessionView) -> bool {
    b.slug is Some && b.slug == a.slug
}

/// The records that take up work of `a` after time `t`: on a path that `a`
/// touches, and within the stall and rescue windows together.
pub open spec fn resumes(a: SessionView, t: i64, stall: i64, rescue: i64) -> spec_fn(
    RecordView,
) -> bool {
    |r: RecordView| touches(a, r.path) && 0 < model::elapsed(t, r.ts) <= stall + rescue
}

/// The candidate for an error of session `a` that record `r` of session `b`
/// takes up, under the intent `slug`.
pub open spec fn recovery(
    a: SessionView,
    err: RecordView,
    b: SessionView,
    slug: Seq<char>,
    r: RecordView,
) -> CandidateView {
    model::candidate_of(
        "rescue"@,
        r.path,
        model::cited(a, err.ts, "error then stall on "@ + err.path),
        model::cited(b, r.ts, "intent "@ + slug + " resumed "@ + r.tool + " on "@ + r.path),
    )
}

/// What session `b` contributes to the candidates for `err`: its first
/// takeover, if it is another session of the same intent.
pub open spec fn recovery_by(
    a: SessionView,
    err: RecordView,
    b: SessionView,
    stall: i64,
    rescue: i64,
) -> Seq<CandidateView> {
    if b.sid == a.sid || !same_intent(a, b) {
        Seq::empty()
    } else {
        match order::first_min(
            b.records,
            resumes(a, err.ts, stall, rescue),
            model::delay(err.ts),
        ) {
            Some(r) => seq![recovery(a, err, b, b.slug->0, r)],
            None => Seq::empty(),
        }
    }
}

/// The candidates for `err`, session by session.
pub open spec fn recoveries_of(
    sessions: Seq<SessionView>,
    a: SessionView,
    err: RecordView,
    stall: i64,
    rescue: i64,
) -> spec_fn(int) -> Seq<CandidateView> {
    |j: int| recovery_by(a, err, sessions[j], stall, rescue)
}

/// The candidates for the stalls of session `a`, record by record.
pub open spec fn recoveries_in(
    sessions: Seq<SessionView>,
    a: SessionView,
    stall: i64,
    rescue: i64,
) -> spec_fn(int) -> Seq<CandidateView> {
    |e: int|
        if a.records[e].is_path_error() && quiet_after(a, a.records[e].ts, stall) {
            order::gather(
                sessions.len() as int,
                recoveries_of(sessions, a, a.records[e], stall, rescue),
            )
        } else {
            Seq::empty()
        }
}

/// The candidates of each session in turn.
pub open spec fn recoveries_from(sessions: Seq<SessionView>, stall: i64, rescue: i64) -> spec_fn(
    int,
) -> Seq<CandidateView> {
    |i: int|
        order::gather(
            sessions[i].records.len() as int,
            recoveries_in(sessions, sessions[i], stall, rescue),
        )
}

/// All rescue candidates: by stalled session, by error, by rescuing session.
pub open spec fn rescue_candidates(sessions: Seq<SessionView>, stall: i64, rescue: i64) -> Seq<
    CandidateView,
> {
    order::gather(sessions.len() as int, recoveries_from(sessions, stall, rescue))
}

/// Whether `a` stays quiet for at least `stall` seconds after time `t`.
fn is_quiet_after(a: &Session, t: i64, stall: i64) -> (quiet: bool)
    ensures
        quiet == quiet_after(a@, t, stall),
{
    let limit: i128 = t as i128 + stall as i128;
    let mut k: usize = 0;
    while k < a.records.len()
        invariant
            k <= a.records.len(),
            limit == t + stall,
            forall|m: int|
                0 <= m < k ==> !(t < (#[trigger] a@.records[m]).ts < t + stall),
        decreases a.records.len() - k,
    {
        let ts: i64 = a.records[k].ts;
        assert(a@.records[k as int].ts == ts);
        if ts > t && (ts as i128) < limit {
            return false;
        }
        k = k + 1;
    }
    true
}

/// Whether `a` has a record of `path`.
fn does_touch(a: &Session, path: &String) -> (yes: bool)
    ensures
        yes == touches(a@, path@),
{
    let mut k: usize = 0;
    while k < a.records.len()
        invariant
            k <= a.records.len(),
            forall|m: int| 0 <= m < k ==> (#[trigger] a@.records[m]).path != path@,
        decreases a.records.len() - k,
    {
        assert(a@.records[k as int] == a.records[k as int]@);
        if a.records[k].path == *path {
            return true;
        }
        k = k + 1;
    }
    false
}

/// The intent that two sessions share.
fn shared_intent<'a>(a: &Session, b: &'a Session) -> (slug: Option<&'a String>)
    ensures
        slug.deep_view() == (if same_intent(a@, b@) {
            b@.slug
        } else {
            None
        }),
{
    match (&a.slug, &b.slug) {
        (Some(left), Some(right)) => if *left == *right {
            Some(right)
        } else {
            None
        },
        _ => None,
    }
}

/// The first record of `b` that takes up work of `a` after time `t`.
fn find_onset<'a>(a: &Session, t: i64, b: &'a Session, stall: i64, rescue: i64) -> (onset: Option<
    &'a CrossRecord,
>)
    ensures
        onset.deep_view() == order::first_min(
            b@.records,
            resumes(a@, t, stall, rescue),
            model::delay(t),
        ),
{
    let ghost records = b@.records;
    let ghost ok = resumes(a@, t, stall, rescue);
    let ghost key = model::delay(t);
    let limit: i128 = stall as i128 + rescue as i128;
    let mut best: Option<usize> = None;
    let mut best_delay: i64 = 0;
    let mut n: usize = 0;
    proof {
        order::lemma_scan_starts(records, ok, key);
    }
    while n < b.records.len()
        invariant
            n <= b.records.len(),
            limit == stall + rescue,
            records == b@.records,
            ok == resumes(a@, t, stall, rescue),
            key == model::delay(t),
            order::scanned(records, n as int, ok, key, best),
            best is Some ==> best->0 < n && best_delay == key(records[best->0 as int]),
        decreases b.records.len() - n,
    {
        let r = &b.records[n];
        let dt: i64 = model::seconds_between(t, r.ts);
        assert(records[n as int] == r@);
        proof {
            order::lemma_scan_step(records, n as int, ok, key, best);
        }
        if dt > 0 && dt as i128 <= limit && (best.is_none() || dt < best_delay) && does_touch(
            a,
            &r.path,
        ) {
            best = Some(n);
            best_delay = dt;
        }
        n = n + 1;
    }
    proof {
        order::lemma_scan_ends(records, ok, key, best);
    }
    match best {
        Some(k) => Some(&b.records[k]),
        None => None,
    }
}

/// The candidate for an error of `a` that `r` of `b` takes up.
fn make_recovery(
    a: &Session,
    err: &CrossRecord,
    b: &Session,
    slug: &String,
    r: &CrossRecord,
) -> (candidate: CrossCandidate)
    ensures
        candidate@ == recovery(a@, err@, b@, slug@, r@),
{
    let first = CrossEvidence {
        session: a.sid.clone(),
        ts: err.ts,
        excerpt: "error then stall on ".to_owned().concat(err.path.as_str()),
    };
    let mut excerpt = "intent ".to_owned();
    excerpt.append(slug.as_str());
    excerpt.append(" resumed ");
    excerpt.append(r.tool.as_str());
    excerpt.append(" on ");
    excerpt.append(r.path.as_str());
    let last = CrossEvidence { session: b.sid.clone(), ts: r.ts, excerpt };
    model::make_candidate("rescue", &r.path, first, last)
}

/// Adds the candidates for one stall of `a` to `out`.
fn recover_error(
    sessions: &[Session],
    a: &Session,
    err: &CrossRecord,
    stall: i64,
    rescue: i64,
    out: &mut Vec<CrossCandidate>,
)
    ensures
        final(out).deep_view() == old(out).deep_view() + order::gather(
            sessions.len() as int,
            recoveries_of(sessions.deep_view(), a@, err@, stall, rescue),
        ),
{
    let ghost f = recoveries_of(sessions.deep_view(), a@, err@, stall, rescue);
    let mut j: usize = 0;
    while j < sessions.len()
        invariant
            j <= sessions.len(),
            f == recoveries_of(sessions.deep_view(), a@, err@, stall, rescue),
            out.deep_view() =~= old(out).deep_view() + order::gather(j as int, f),
        decreases sessions.len() - j,
    {
        let b = &sessions[j];
        let ghost before = out.deep_view();
        assert(sessions.deep_view()[j as int] == b@);
        if b.sid != a.sid {
            if let Some(slug) = shared_intent(a, b) {
                if let Some(r) = find_onset(a, err.ts, b, stall, rescue) {
                    out.push(make_recovery(a, err, b, slug, r));
                }
            }
        }
        assert(out.deep_view() =~= before + f(j as int));
        j = j + 1;
    }
}

/// Finds each stalled session that another one of the same intent takes over.
///
/// Session A errors on a path and then stalls: it makes no further record for
/// at least `stall` seconds. Session B, which declares the intent that A
/// declares, begins work on a path that A touched within `stall + rescue`
/// seconds of the error. Each error and rescuing session yields at most one
/// candidate. The ends of both windows are computed exactly, whatever the
/// times.
#[must_use]
pub fn detect_rescue(sessions: &[Session], stall: i64, rescue: i64) -> (out: Vec<CrossCandidate>)
    ensures
        out.deep_view() == rescue_candidates(sessions.deep_view(), stall, rescue),
{
    let ghost all = sessions.deep_view();
    let ghost f = recoveries_from(all, stall, rescue);
    let mut out: Vec<CrossCandidate> = Vec::new();
    let mut i: usize = 0;
    while i < sessions.len()
        invariant
            i <= sessions.len(),
            all == sessions.deep_view(),
            f == recoveries_from(all, stall, rescue),
            out.deep_view() =~= order::gather(i as int, f),
        decreases sessions.len() - i,
    {
        let a = &sessions[i];
        let ghost before = out.deep_view();
        let ghost g = recoveries_in(all, a@, stall, rescue);
        assert(all[i as int] == a@);
        let mut e: usize = 0;
        while e < a.records.len()
            invariant
                e <= a.records.len(),
                all == sessions.deep_view(),
                g == recoveries_in(all, a@, stall, rescue),
                out.deep_view() =~= before + order::gather(e as int, g),
            decreases a.records.len() - e,
        {
            let err = &a.records[e];
            let ghost mid = out.deep_view();
            assert(a@.records[e as int] == err@);
            if err.is_path_error() && is_quiet_after(a, err.ts, stall) {
                recover_error(sessions, a, err, stall, rescue, &mut out);
            }
            assert(out.deep_view() =~= mid + g(e as int));
            e = e + 1;
        }
        assert(out.deep_view() =~= before + f(i as int));
        i = i + 1;
    }
    out
}

} // verus!
