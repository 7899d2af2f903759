//! What the detectors report, told from the records alone.

use vstd::prelude::*;

use crate::corrective;
use crate::laws;
use crate::model;
use crate::model::{CandidateView, EvidenceView, RecordView, SessionView};
use crate::model::{CrossCandidate, CrossEvidence, CrossRecord, Session};
use crate::observe;
use crate::order;
use crate::reading;
use crate::redundant;
use crate::rescue;
use crate::text;

verus! {

/// Where a candidate comes from: four indices, the meaning of which each law
/// gives.
pub type Source = (int, int, int, int);

/// The order of sources by their first three indices.
pub open spec fn source_lt(a: Source, b: Source) -> bool {
    a.0 < b.0 || (a.0 == b.0 && (a.1 < b.1 || (a.1 == b.1 && a.2 < b.2)))
}

spec fn by_source() -> spec_fn(Source, Source) -> bool {
    |a: Source, b: Source| source_lt(a, b)
}

/// `c` says that an event in session `first` was followed by one in session
/// `last`, and that both are about `path`.
pub open spec fn tells(
    c: CandidateView,
    context: Seq<char>,
    path: Seq<char>,
    first: EvidenceView,
    last: EvidenceView,
) -> bool {
    &&& c.kind == "episodic-cross-session"@
    &&& c.subject == "self"@
    &&& c.context == context
    &&& c.participants == seq![first.session, last.session]
    &&& c.paths == seq![path]
    &&& c.t_first_unix == first.ts
    &&& c.t_last_unix == last.ts
    &&& c.evidence == seq![first, last]
}

/// A record counts as a successful write just when it is an edit or a write of
/// some path and did not fail, and as an error just when it failed on some
/// path, whatever the tool.
pub proof fn law_record_kinds(r: RecordView)
    ensures
        r.is_write_success() <==> (r.tool == "Edit"@ || r.tool == "Write"@) && r.path.len() != 0
            && !r.is_error,
        r.is_path_error() <==> r.path.len() != 0 && r.is_error,
{
}

/// Record `e` of session `i` is an error on a path, and record `m` of another
/// session `j` is an edit or write of that path which succeeded later, less
/// than `window` seconds after it.
pub open spec fn repairs(
    sessions: Seq<SessionView>,
    window: i64,
    i: int,
    e: int,
    j: int,
    m: int,
) -> bool {
    let err = sessions[i].records[e];
    let w = sessions[j].records[m];
    &&& 0 <= i < sessions.len()
    &&& 0 <= j < sessions.len()
    &&& 0 <= e < sessions[i].records.len()
    &&& 0 <= m < sessions[j].records.len()
    &&& sessions[i].sid != sessions[j].sid
    &&& err.is_error
    &&& err.path.len() > 0
    &&& !w.is_error
    &&& w.tool == "Edit"@ || w.tool == "Write"@
    &&& w.path == err.path
    &&& err.ts < w.ts
    &&& w.ts - err.ts < window
}

/// `c` is the candidate for an error, with the earliest repair that the other
/// session made, of several at one time the first.
pub open spec fn is_correction(
    sessions: Seq<SessionView>,
    window: i64,
    at: Source,
    c: CandidateView,
) -> bool {
    let (i, e, j, k) = at;
    let err = sessions[i].records[e];
    let w = sessions[j].records[k];
    &&& repairs(sessions, window, i, e, j, k)
    &&& forall|m: int| #[trigger]
        repairs(sessions, window, i, e, j, m) ==> w.ts < sessions[j].records[m].ts || (w.ts
            == sessions[j].records[m].ts && k <= m)
    &&& tells(
        c,
        "corrective"@,
        err.path,
        (EvidenceView {
            session: sessions[i].sid,
            ts: err.ts,
            excerpt: "error on "@ + err.path,
        }),
        (EvidenceView {
            session: sessions[j].sid,
            ts: w.ts,
            excerpt: w.tool + " "@ + w.path + " (ok)"@,
        }),
    )
}

spec fn correction_source(
    sessions: Seq<SessionView>,
    window: i64,
    i: int,
    e: int,
) -> spec_fn(int) -> Seq<Source> {
    |j: int|
        {
            let err = sessions[i].records[e];
            let ok = corrective::fixes(err, window);
            let key = model::delay(err.ts);
            let k = choose|k: int| order::is_first_min(sessions[j].records, ok, key, k);
            if corrective::corrections_by(sessions[i], err, sessions[j], window).len() == 0 {
                Seq::empty()
            } else {
                seq![(i, e, j, k)]
            }
        }
}

spec fn correction_sources_in(
    sessions: Seq<SessionView>,
    window: i64,
    i: int,
) -> spec_fn(int) -> Seq<Source> {
    |e: int|
        if sessions[i].records[e].is_path_error() {
            order::gather(sessions.len() as int, correction_source(sessions, window, i, e))
        } else {
            Seq::empty()
        }
}

spec fn correction_sources(sessions: Seq<SessionView>, window: i64) -> spec_fn(int) -> Seq<Source> {
    |i: int|
        order::gather(
            sessions[i].records.len() as int,
            correction_sources_in(sessions, window, i),
        )
}

proof fn lemma_correction_source(
    sessions: Seq<SessionView>,
    window: i64,
    i: int,
    e: int,
    j: int,
)
    requires
        0 <= i < sessions.len(),
        0 <= j < sessions.len(),
        0 <= e < sessions[i].records.len(),
        sessions[i].records[e].is_path_error(),
    ensures
        ({
            let at = correction_source(sessions, window, i, e)(j);
            let found = corrective::corrections_of(
                sessions,
                sessions[i],
                sessions[i].records[e],
                window,
            )(j);
            &&& at.len() == found.len() <= 1
            &&& at.len() == 1 ==> is_correction(sessions, window, at[0], found[0]) && at[0].0 == i
                && at[0].1 == e && at[0].2 == j
            &&& forall|m: int| #[trigger]
                repairs(sessions, window, i, e, j, m) ==> at.len() == 1
        }),
{
    let err = sessions[i].records[e];
    let b = sessions[j];
    let ok = corrective::fixes(err, window);
    let key = model::delay(err.ts);
    let at = correction_source(sessions, window, i, e)(j);
    assert forall|m: int| #[trigger] repairs(sessions, window, i, e, j, m) implies at.len() == 1 by {
        assert(ok(b.records[m]));
        let k = order::lemma_first_min_exists(b.records, ok, key, m);
    }
    if at.len() == 1 {
        let k = choose|k: int| order::is_first_min(b.records, ok, key, k);
        assert(order::is_first_min(b.records, ok, key, k));
        let w = b.records[k];
        assert(ok(w));
        assert(repairs(sessions, window, i, e, j, k));
        assert forall|m: int| #[trigger]
            repairs(sessions, window, i, e, j, m) implies w.ts < b.records[m].ts || (w.ts
            == b.records[m].ts && k <= m) by {
            assert(ok(b.records[m]));
        }
    }
}

proof fn lemma_correction_sources(sessions: Seq<SessionView>, window: i64)
    ensures
        order::matched(
            order::gather(sessions.len() as int, correction_sources(sessions, window)),
            corrective::corrective_candidates(sessions, window),
            |at: Source, c: CandidateView| is_correction(sessions, window, at, c),
            by_source(),
        ),
{
    let n = sessions.len() as int;
    let lt = by_source();
    let ok = |at: Source, c: CandidateView| is_correction(sessions, window, at, c);
    let at = correction_sources(sessions, window);
    let found = corrective::corrections_from(sessions, window);
    assert forall|i: int| 0 <= i < n implies order::matched(#[trigger] at(i), found(i), ok, lt) && (
    forall|x: Source| #[trigger] at(i).contains(x) ==> x.0 == i) by {
        let a = sessions[i];
        let len = a.records.len() as int;
        let at1 = correction_sources_in(sessions, window, i);
        let found1 = corrective::corrections_in(sessions, a, window);
        assert forall|e: int| 0 <= e < len implies order::matched(
            #[trigger] at1(e),
            found1(e),
            ok,
            lt,
        ) && (forall|x: Source| #[trigger] at1(e).contains(x) ==> x.0 == i && x.1 == e) by {
            if a.records[e].is_path_error() {
                let at2 = correction_source(sessions, window, i, e);
                let found2 = corrective::corrections_of(sessions, a, a.records[e], window);
                assert forall|j: int| 0 <= j < n implies order::matched(
                    #[trigger] at2(j),
                    found2(j),
                    ok,
                    lt,
                ) && (forall|x: Source| #[trigger]
                    at2(j).contains(x) ==> x.0 == i && x.1 == e && x.2 == j) by {
                    lemma_correction_source(sessions, window, i, e, j);
                }
                order::lemma_gather_matched(n, at2, found2, ok, lt);
                assert forall|x: Source| #[trigger] at1(e).contains(x) implies x.0 == i && x.1
                    == e by {
                    order::lemma_gather_contains(n, at2, x);
                }
            }
        }
        order::lemma_gather_matched(len, at1, found1, ok, lt);
        assert forall|x: Source| #[trigger] at(i).contains(x) implies x.0 == i by {
            order::lemma_gather_contains(len, at1, x);
        }
    }
    order::lemma_gather_matched(n, at, found, ok, lt);
}

/// The corrective candidates, one for one and in order. Each has a source, an
/// error and the earliest repair of it by another session. The sources ascend
/// by erring session, by error and by repairing session, so no two candidates
/// share all three; and every error that another session repairs in time is
/// the source of one.
pub proof fn law_corrective_in_full(sessions: Seq<SessionView>, window: i64) -> (at: Seq<Source>)
    ensures
        at.len() == corrective::corrective_candidates(sessions, window).len(),
        forall|p: int|
            0 <= p < at.len() ==> is_correction(
                sessions,
                window,
                #[trigger] at[p],
                corrective::corrective_candidates(sessions, window)[p],
            ),
        forall|p: int, q: int|
            #![trigger at[p], at[q]]
            0 <= p < q < at.len() ==> source_lt(at[p], at[q]),
        forall|i: int, e: int, j: int, m: int| #[trigger]
            repairs(sessions, window, i, e, j, m) ==> exists|p: int|
                0 <= p < at.len() && (#[trigger] at[p]).0 == i && at[p].1 == e && at[p].2 == j,
{
    let n = sessions.len() as int;
    let at = order::gather(n, correction_sources(sessions, window));
    lemma_correction_sources(sessions, window);
    let found = corrective::corrective_candidates(sessions, window);
    let ok = |at: Source, c: CandidateView| is_correction(sessions, window, at, c);
    assert forall|p: int| 0 <= p < at.len() implies is_correction(
        sessions,
        window,
        #[trigger] at[p],
        found[p],
    ) by {
        assert(ok(at[p], found[p]));
    }
    assert forall|p: int, q: int|
        #![trigger at[p], at[q]]
        0 <= p < q < at.len() implies source_lt(at[p], at[q]) by {
        assert(by_source()(at[p], at[q]));
    }
    assert forall|i: int, e: int, j: int, m: int| #[trigger]
        repairs(sessions, window, i, e, j, m) implies exists|p: int|
        0 <= p < at.len() && (#[trigger] at[p]).0 == i && at[p].1 == e && at[p].2 == j by {
        lemma_correction_source(sessions, window, i, e, j);
        let at2 = correction_source(sessions, window, i, e);
        let at1 = correction_sources_in(sessions, window, i);
        let x = at2(j)[0];
        assert(at2(j).contains(x));
        order::lemma_gather_contains(n, at2, x);
        assert(at1(e).contains(x));
        order::lemma_gather_contains(sessions[i].records.len() as int, at1, x);
        assert(correction_sources(sessions, window)(i).contains(x));
        order::lemma_gather_contains(n, correction_sources(sessions, window), x);
        let p = choose|p: int| 0 <= p < at.len() && at[p] == x;
        assert(at[p].0 == i);
    }
    at
}

/// Every corrective candidate cites a real error and a real fix: the session
/// in front failed on the path at the first time, and the other one edited or
/// wrote that path at the last time, without an error.
pub proof fn law_corrective_cites_a_fix(
    sessions: Seq<SessionView>,
    window: i64,
    c: CandidateView,
)
    requires
        corrective::corrective_candidates(sessions, window).contains(c),
    ensures
        exists|i: int, e: int|
            0 <= i < sessions.len() && 0 <= e < sessions[i].records.len() && sessions[i].sid
                == c.participants[0] && (#[trigger] sessions[i].records[e]).is_error
                && sessions[i].records[e].path == c.paths[0] && sessions[i].records[e].ts
                == c.t_first_unix,
        exists|j: int, k: int|
            0 <= j < sessions.len() && 0 <= k < sessions[j].records.len() && sessions[j].sid
                == c.participants[1] && !(#[trigger] sessions[j].records[k]).is_error && (
            sessions[j].records[k].tool == "Edit"@ || sessions[j].records[k].tool == "Write"@)
                && sessions[j].records[k].path == c.paths[0] && sessions[j].records[k].ts
                == c.t_last_unix,
        c.participants[0] != c.participants[1],
        c.paths[0].len() > 0,
        c.t_first_unix < c.t_last_unix < c.t_first_unix + window,
{
    let at = law_corrective_in_full(sessions, window);
    let found = corrective::corrective_candidates(sessions, window);
    let p = choose|p: int| 0 <= p < found.len() && found[p] == c;
    let (i, e, j, k) = at[p];
    assert(is_correction(sessions, window, at[p], found[p]));
    assert(sessions[i].records[e].is_error);
    assert(!sessions[j].records[k].is_error);
}

/// Seconds, held to the largest `i64`.
pub open spec fn capped(secs: int) -> int {
    if secs > i64::MAX {
        i64::MAX as int
    } else {
        secs
    }
}

/// Record `e` of session `i` is an error on a path, after which the session
/// has no record of any kind until `stall` seconds have passed; and record `m`
/// of another session `j`, which declares the same intent, comes later, at
/// most `stall + rescue` seconds after the error, on some path that session
/// `i` has a record of.
pub open spec fn takes_up(
    sessions: Seq<SessionView>,
    stall: i64,
    rescue: i64,
    i: int,
    e: int,
    j: int,
    m: int,
) -> bool {
    let err = sessions[i].records[e];
    let r = sessions[j].records[m];
    &&& 0 <= i < sessions.len()
    &&& 0 <= j < sessions.len()
    &&& 0 <= e < sessions[i].records.len()
    &&& 0 <= m < sessions[j].records.len()
    &&& sessions[i].sid != sessions[j].sid
    &&& sessions[i].slug is Some
    &&& sessions[j].slug is Some
    &&& sessions[i].slug->0 == sessions[j].slug->0
    &&& err.is_error
    &&& err.path.len() > 0
    &&& forall|q: int|
        0 <= q < sessions[i].records.len() && err.ts < (#[trigger] sessions[i].records[q]).ts
            ==> sessions[i].records[q].ts - err.ts >= stall
    &&& exists|q: int|
        0 <= q < sessions[i].records.len() && (#[trigger] sessions[i].records[q]).path == r.path
    &&& err.ts < r.ts
    &&& capped(r.ts - err.ts) <= stall + rescue
}

/// `c` is the candidate for a stall, with the first record by which the other
/// session took up its work.
pub open spec fn is_recovery(
    sessions: Seq<SessionView>,
    stall: i64,
    rescue: i64,
    at: Source,
    c: CandidateView,
) -> bool {
    let (i, e, j, k) = at;
    let err = sessions[i].records[e];
    let r = sessions[j].records[k];
    &&& takes_up(sessions, stall, rescue, i, e, j, k)
    &&& forall|m: int| #[trigger]
        takes_up(sessions, stall, rescue, i, e, j, m) ==> {
            let here = capped(r.ts - err.ts);
            let there = capped(sessions[j].records[m].ts - err.ts);
            here < there || (here == there && k <= m)
        }
    &&& tells(
        c,
        "rescue"@,
        r.path,
        (EvidenceView {
            session: sessions[i].sid,
            ts: err.ts,
            excerpt: "error then stall on "@ + err.path,
        }),
        (EvidenceView {
            session: sessions[j].sid,
            ts: r.ts,
            excerpt: "intent "@ + sessions[i].slug->0 + " resumed "@ + r.tool + " on "@ + r.path,
        }),
    )
}

spec fn recovery_source(
    sessions: Seq<SessionView>,
    stall: i64,
    rescue: i64,
    i: int,
    e: int,
) -> spec_fn(int) -> Seq<Source> {
    |j: int|
        {
            let a = sessions[i];
            let err = a.records[e];
            let ok = rescue::resumes(a, err.ts, stall, rescue);
            let key = model::delay(err.ts);
            let k = choose|k: int| order::is_first_min(sessions[j].records, ok, key, k);
            if rescue::recovery_by(a, err, sessions[j], stall, rescue).len() == 0 {
                Seq::empty()
            } else {
                seq![(i, e, j, k)]
            }
        }
}

spec fn recovery_sources_in(
    sessions: Seq<SessionView>,
    stall: i64,
    rescue: i64,
    i: int,
) -> spec_fn(int) -> Seq<Source> {
    |e: int|
        {
            let err = sessions[i].records[e];
            if err.is_path_error() && rescue::quiet_after(sessions[i], err.ts, stall) {
                order::gather(
                    sessions.len() as int,
                    recovery_source(sessions, stall, rescue, i, e),
                )
            } else {
                Seq::empty()
            }
        }
}

spec fn recovery_sources(sessions: Seq<SessionView>, stall: i64, rescue: i64) -> spec_fn(
    int,
) -> Seq<Source> {
    |i: int|
        order::gather(
            sessions[i].records.len() as int,
            recovery_sources_in(sessions, stall, rescue, i),
        )
}

proof fn lemma_recovery_source(
    sessions: Seq<SessionView>,
    stall: i64,
    rescue: i64,
    i: int,
    e: int,
    j: int,
)
    requires
        0 <= i < sessions.len(),
        0 <= j < sessions.len(),
        0 <= e < sessions[i].records.len(),
        sessions[i].records[e].is_path_error(),
        rescue::quiet_after(sessions[i], sessions[i].records[e].ts, stall),
    ensures
        ({
            let at = recovery_source(sessions, stall, rescue, i, e)(j);
            let found = rescue::recoveries_of(
                sessions,
                sessions[i],
                sessions[i].records[e],
                stall,
                rescue,
            )(j);
            &&& at.len() == found.len() <= 1
            &&& at.len() == 1 ==> is_recovery(sessions, stall, rescue, at[0], found[0]) && at[0].0
                == i && at[0].1 == e && at[0].2 == j
            &&& forall|m: int| #[trigger]
                takes_up(sessions, stall, rescue, i, e, j, m) ==> at.len() == 1
        }),
{
    let a = sessions[i];
    let err = a.records[e];
    let b = sessions[j];
    let ok = rescue::resumes(a, err.ts, stall, rescue);
    let key = model::delay(err.ts);
    let at = recovery_source(sessions, stall, rescue, i, e)(j);
    assert forall|m: int| #[trigger]
        takes_up(sessions, stall, rescue, i, e, j, m) implies at.len() == 1 by {
        assert(ok(b.records[m]));
        let k = order::lemma_first_min_exists(b.records, ok, key, m);
    }
    if at.len() == 1 {
        let k = choose|k: int| order::is_first_min(b.records, ok, key, k);
        assert(order::is_first_min(b.records, ok, key, k));
        let r = b.records[k];
        assert(ok(r));
        assert forall|q: int|
            0 <= q < a.records.len() && err.ts < (#[trigger] a.records[q]).ts implies a.records[q].ts
            - err.ts >= stall by {
            assert(!(err.ts < a.records[q].ts < err.ts + stall));
        }
        assert(takes_up(sessions, stall, rescue, i, e, j, k));
        assert forall|m: int| #[trigger] takes_up(sessions, stall, rescue, i, e, j, m) implies {
            let here = capped(r.ts - err.ts);
            let there = capped(b.records[m].ts - err.ts);
            here < there || (here == there && k <= m)
        } by {
            assert(ok(b.records[m]));
        }
    }
}

proof fn lemma_recovery_sources(sessions: Seq<SessionView>, stall: i64, rescue: i64)
    ensures
        order::matched(
            order::gather(sessions.len() as int, recovery_sources(sessions, stall, rescue)),
            rescue::rescue_candidates(sessions, stall, rescue),
            |at: Source, c: CandidateView| is_recovery(sessions, stall, rescue, at, c),
            by_source(),
        ),
{
    let n = sessions.len() as int;
    let lt = by_source();
    let ok = |at: Source, c: CandidateView| is_recovery(sessions, stall, rescue, at, c);
    let at = recovery_sources(sessions, stall, rescue);
    let found = rescue::recoveries_from(sessions, stall, rescue);
    assert forall|i: int| 0 <= i < n implies order::matched(#[trigger] at(i), found(i), ok, lt) && (
    forall|x: Source| #[trigger] at(i).contains(x) ==> x.0 == i) by {
        let a = sessions[i];
        let len = a.records.len() as int;
        let at1 = recovery_sources_in(sessions, stall, rescue, i);
        let found1 = rescue::recoveries_in(sessions, a, stall, rescue);
        assert forall|e: int| 0 <= e < len implies order::matched(
            #[trigger] at1(e),
            found1(e),
            ok,
            lt,
        ) && (forall|x: Source| #[trigger] at1(e).contains(x) ==> x.0 == i && x.1 == e) by {
            if a.records[e].is_path_error() && rescue::quiet_after(a, a.records[e].ts, stall) {
                let at2 = recovery_source(sessions, stall, rescue, i, e);
                let found2 = rescue::recoveries_of(sessions, a, a.records[e], stall, rescue);
                assert forall|j: int| 0 <= j < n implies order::matched(
                    #[trigger] at2(j),
                    found2(j),
                    ok,
                    lt,
                ) && (forall|x: Source| #[trigger]
                    at2(j).contains(x) ==> x.0 == i && x.1 == e && x.2 == j) by {
                    lemma_recovery_source(sessions, stall, rescue, i, e, j);
                }
                order::lemma_gather_matched(n, at2, found2, ok, lt);
                assert forall|x: Source| #[trigger] at1(e).contains(x) implies x.0 == i && x.1
                    == e by {
                    order::lemma_gather_contains(n, at2, x);
                }
            }
        }
        order::lemma_gather_matched(len, at1, found1, ok, lt);
        assert forall|x: Source| #[trigger] at(i).contains(x) implies x.0 == i by {
            order::lemma_gather_contains(len, at1, x);
        }
    }
    order::lemma_gather_matched(n, at, found, ok, lt);
}

/// The rescue candidates, one for one and in order. Each has a source, an
/// error followed by a stall and the first record by which another session of
/// the same intent takes up its work. The sources ascend by stalled session,
/// by error and by rescuing session, so no two candidates share all three; and
/// every stall that another session takes up in time is the source of one.
pub proof fn law_rescue_in_full(sessions: Seq<SessionView>, stall: i64, rescue: i64) -> (at: Seq<
    Source,
>)
    ensures
        at.len() == rescue::rescue_candidates(sessions, stall, rescue).len(),
        forall|p: int|
            0 <= p < at.len() ==> is_recovery(
                sessions,
                stall,
                rescue,
                #[trigger] at[p],
                rescue::rescue_candidates(sessions, stall, rescue)[p],
            ),
        forall|p: int, q: int|
            #![trigger at[p], at[q]]
            0 <= p < q < at.len() ==> source_lt(at[p], at[q]),
        forall|i: int, e: int, j: int, m: int| #[trigger]
            takes_up(sessions, stall, rescue, i, e, j, m) ==> exists|p: int|
                0 <= p < at.len() && (#[trigger] at[p]).0 == i && at[p].1 == e && at[p].2 == j,
{
    let n = sessions.len() as int;
    let at = order::gather(n, recovery_sources(sessions, stall, rescue));
    lemma_recovery_sources(sessions, stall, rescue);
    let found = rescue::rescue_candidates(sessions, stall, rescue);
    let ok = |at: Source, c: CandidateView| is_recovery(sessions, stall, rescue, at, c);
    assert forall|p: int| 0 <= p < at.len() implies is_recovery(
        sessions,
        stall,
        rescue,
        #[trigger] at[p],
        found[p],
    ) by {
        assert(ok(at[p], found[p]));
    }
    assert forall|p: int, q: int|
        #![trigger at[p], at[q]]
        0 <= p < q < at.len() implies source_lt(at[p], at[q]) by {
        assert(by_source()(at[p], at[q]));
    }
    assert forall|i: int, e: int, j: int, m: int| #[trigger]
        takes_up(sessions, stall, rescue, i, e, j, m) implies exists|p: int|
        0 <= p < at.len() && (#[trigger] at[p]).0 == i && at[p].1 == e && at[p].2 == j by {
        let err = sessions[i].records[e];
        assert forall|q: int| 0 <= q < sessions[i].records.len() implies !(err.ts < (
        #[trigger] sessions[i].records[q]).ts < err.ts + stall) by {}
        assert(rescue::quiet_after(sessions[i], err.ts, stall));
        lemma_recovery_source(sessions, stall, rescue, i, e, j);
        let at2 = recovery_source(sessions, stall, rescue, i, e);
        let at1 = recovery_sources_in(sessions, stall, rescue, i);
        let x = at2(j)[0];
        assert(at2(j).contains(x));
        order::lemma_gather_contains(n, at2, x);
        assert(at1(e).contains(x));
        order::lemma_gather_contains(sessions[i].records.len() as int, at1, x);
        assert(recovery_sources(sessions, stall, rescue)(i).contains(x));
        order::lemma_gather_contains(n, recovery_sources(sessions, stall, rescue), x);
        let p = choose|p: int| 0 <= p < at.len() && at[p] == x;
        assert(at[p].0 == i);
    }
    at
}

/// Activity of any kind ends a stall: a session with some record, failed or
/// not, after time `t` and less than `stall` seconds after it, is never
/// reported as stalled at `t`.
pub proof fn law_activity_ends_a_stall(
    sessions: Seq<SessionView>,
    stall: i64,
    rescue: i64,
    i: int,
    q: int,
    t: i64,
    c: CandidateView,
)
    requires
        forall|x: int, y: int|
            #![trigger sessions[x], sessions[y]]
            0 <= x < y < sessions.len() ==> sessions[x].sid != sessions[y].sid,
        0 <= i < sessions.len(),
        0 <= q < sessions[i].records.len(),
        t < sessions[i].records[q].ts < t + stall,
        rescue::rescue_candidates(sessions, stall, rescue).contains(c),
        c.t_first_unix == t,
    ensures
        c.participants[0] != sessions[i].sid,
{
    let at = law_rescue_in_full(sessions, stall, rescue);
    let found = rescue::rescue_candidates(sessions, stall, rescue);
    let p = choose|p: int| 0 <= p < found.len() && found[p] == c;
    let (x, e, j, k) = at[p];
    assert(is_recovery(sessions, stall, rescue, at[p], found[p]));
    if c.participants[0] == sessions[i].sid {
        if x < i {
            assert(sessions[x].sid != sessions[i].sid);
        } else if i < x {
            assert(sessions[i].sid != sessions[x].sid);
        }
        assert(sessions[x].records[q].ts - t >= stall);
    }
}

/// Line `l` lies between the lines `from` and `to`.
pub open spec fn lies_between(l: int, from: i64, to: i64) -> bool {
    from <= l <= to
}

/// Two line ranges that are known in full overlap just when some line lies in
/// both; ranges that are not known in full always count as overlapping. Where
/// a range ends before it begins, two ranges overlap unless one of them ends
/// before the other begins.
pub proof fn law_overlap_is_a_shared_line(
    a: (Option<i64>, Option<i64>),
    b: (Option<i64>, Option<i64>),
)
    ensures
        match (a.0, a.1, b.0, b.1) {
            (Some(a0), Some(a1), Some(b0), Some(b1)) => {
                &&& a0 <= a1 && b0 <= b1 ==> (redundant::ranges_overlap(a, b) <==> exists|l: int|
                    #[trigger] lies_between(l, a0, a1) && lies_between(l, b0, b1))
                &&& redundant::ranges_overlap(a, b) <==> !(a1 < b0 || b1 < a0)
            },
            _ => redundant::ranges_overlap(a, b),
        },
{
    match (a.0, a.1, b.0, b.1) {
        (Some(a0), Some(a1), Some(b0), Some(b1)) => {
            let low = if a0 <= b0 {
                b0 as int
            } else {
                a0 as int
            };
            if a0 <= a1 && b0 <= b1 && redundant::ranges_overlap(a, b) {
                assert(lies_between(low, a0, a1));
            }
        },
        _ => {},
    }
}

/// Record `k` of a session is an edit or write of `path` that succeeded.
pub open spec fn writes(s: SessionView, k: int, path: Seq<char>) -> bool {
    &&& 0 <= k < s.records.len()
    &&& !s.records[k].is_error
    &&& s.records[k].tool == "Edit"@ || s.records[k].tool == "Write"@
    &&& s.records[k].path == path
    &&& path.len() > 0
}

/// Record `k` is the earliest such write, of several at one time the first.
pub open spec fn writes_first(s: SessionView, k: int, path: Seq<char>) -> bool {
    &&& writes(s, k, path)
    &&& forall|m: int| #[trigger]
        writes(s, m, path) ==> s.records[k].ts < s.records[m].ts || (s.records[k].ts
            == s.records[m].ts && k <= m)
}

/// Neither record is known to leave alone all lines that the other changed.
pub open spec fn may_share_lines(a: RecordView, b: RecordView) -> bool {
    match (a.line_start, a.line_end, b.line_start, b.line_end) {
        (Some(a0), Some(a1), Some(b0), Some(b1)) => !(a1 < b0 || b1 < a0),
        _ => true,
    }
}

/// Sessions `i` and `j`, in this order in the list, both write one path, and
/// their first writes of it, records `k` and `l`, lie apart by some time, but
/// by less than `window` seconds, and may share lines.
pub open spec fn clash(
    sessions: Seq<SessionView>,
    window: i64,
    i: int,
    j: int,
    k: int,
    l: int,
) -> bool {
    let wa = sessions[i].records[k];
    let wb = sessions[j].records[l];
    &&& 0 <= i < j < sessions.len()
    &&& writes_first(sessions[i], k, wa.path)
    &&& writes_first(sessions[j], l, wa.path)
    &&& wa.ts != wb.ts
    &&& wa.ts - wb.ts < window
    &&& wb.ts - wa.ts < window
    &&& may_share_lines(wa, wb)
}

/// `c` is the candidate for two writes, the earlier writer in front.
pub open spec fn is_redundancy(
    sessions: Seq<SessionView>,
    window: i64,
    at: Source,
    c: CandidateView,
) -> bool {
    let (i, j, k, l) = at;
    let wa = sessions[i].records[k];
    let wb = sessions[j].records[l];
    let (first, fw, second, sw) = if wa.ts < wb.ts {
        (sessions[i].sid, wa, sessions[j].sid, wb)
    } else {
        (sessions[j].sid, wb, sessions[i].sid, wa)
    };
    &&& clash(sessions, window, i, j, k, l)
    &&& tells(
        c,
        "redundant"@,
        wa.path,
        (EvidenceView { session: first, ts: fw.ts, excerpt: fw.tool + " "@ + fw.path + " (ok)"@ }),
        (EvidenceView {
            session: second,
            ts: sw.ts,
            excerpt: sw.tool + " "@ + sw.path + " (ok, overlapping)"@,
        }),
    )
}

/// The order of sources by pair of sessions and then by path.
pub open spec fn clash_lt(sessions: Seq<SessionView>, a: Source, b: Source) -> bool {
    a.0 < b.0 || (a.0 == b.0 && (a.1 < b.1 || (a.1 == b.1 && reading::precedes(
        sessions[a.0].records[a.2].path,
        sessions[b.0].records[b.2].path,
    ))))
}

spec fn first_write(s: SessionView, path: Seq<char>) -> int {
    choose|k: int|
        order::is_first_min(s.records, redundant::writes_of(path), redundant::time(), k)
}

spec fn clash_source(sessions: Seq<SessionView>, window: i64, i: int, j: int) -> spec_fn(
    int,
) -> Seq<Source> {
    |x: int|
        {
            let path = redundant::written_paths(sessions[i])[x];
            if redundant::redundancy_on(sessions[i], sessions[j], path, window).len() == 0 {
                Seq::empty()
            } else {
                seq![(i, j, first_write(sessions[i], path), first_write(sessions[j], path))]
            }
        }
}

spec fn clash_sources_after(sessions: Seq<SessionView>, window: i64, i: int) -> spec_fn(int) -> Seq<
    Source,
> {
    |d: int|
        order::gather(
            redundant::written_paths(sessions[i]).len() as int,
            clash_source(sessions, window, i, i + 1 + d),
        )
}

spec fn clash_sources(sessions: Seq<SessionView>, window: i64) -> spec_fn(int) -> Seq<Source> {
    |i: int| order::gather(sessions.len() - i - 1, clash_sources_after(sessions, window, i))
}

proof fn lemma_first_write(s: SessionView, path: Seq<char>)
    ensures
        redundant::earliest_write(s, path) is Some ==> writes_first(s, first_write(s, path), path)
            && redundant::earliest_write(s, path) == Some(s.records[first_write(s, path)]),
        forall|k: int| #[trigger]
            writes_first(s, k, path) ==> redundant::earliest_write(s, path) is Some && first_write(
                s,
                path,
            ) == k,
{
    let ok = redundant::writes_of(path);
    let key = redundant::time();
    if redundant::earliest_write(s, path) is Some {
        let k = first_write(s, path);
        assert(order::is_first_min(s.records, ok, key, k));
        assert(ok(s.records[k]));
        assert forall|m: int| #[trigger] writes(s, m, path) implies s.records[k].ts
            < s.records[m].ts || (s.records[k].ts == s.records[m].ts && k <= m) by {
            assert(ok(s.records[m]));
        }
    }
    assert forall|k: int| #[trigger] writes_first(s, k, path) implies redundant::earliest_write(
        s,
        path,
    ) is Some && first_write(s, path) == k by {
        assert forall|m: int|
            #![trigger s.records[m]]
            0 <= m < s.records.len() && ok(s.records[m]) implies key(s.records[k]) <= key(
            s.records[m],
        ) && (m < k ==> key(s.records[k]) < key(s.records[m])) by {
            assert(writes(s, m, path));
        }
        assert(ok(s.records[k]));
        assert(order::is_first_min(s.records, ok, key, k));
        let c = first_write(s, path);
        assert(order::is_first_min(s.records, ok, key, c));
        assert(writes(s, c, path));
        assert(s.records[c] == s.records[c] && s.records[k] == s.records[k]);
    }
}

proof fn lemma_clash_source(sessions: Seq<SessionView>, window: i64, i: int, j: int, x: int)
    requires
        0 <= i < j < sessions.len(),
        0 <= x < redundant::written_paths(sessions[i]).len(),
    ensures
        ({
            let at = clash_source(sessions, window, i, j)(x);
            let found = redundant::redundancies_on(sessions[i], sessions[j], window)(x);
            let path = redundant::written_paths(sessions[i])[x];
            &&& at.len() == found.len() <= 1
            &&& at.len() == 1 ==> is_redundancy(sessions, window, at[0], found[0]) && at[0].0 == i
                && at[0].1 == j && sessions[i].records[at[0].2].path == path
            &&& forall|k: int, l: int| #[trigger]
                clash(sessions, window, i, j, k, l) && sessions[i].records[k].path == path ==> at
                    == seq![(i, j, k, l)]
        }),
{
    let path = redundant::written_paths(sessions[i])[x];
    let at = clash_source(sessions, window, i, j)(x);
    lemma_first_write(sessions[i], path);
    lemma_first_write(sessions[j], path);
    assert forall|k: int, l: int| #[trigger]
        clash(sessions, window, i, j, k, l) && sessions[i].records[k].path == path implies at
        == seq![(i, j, k, l)] by {
        assert(writes_first(sessions[i], k, path));
        assert(writes_first(sessions[j], l, path));
    }
}

spec fn by_clash(sessions: Seq<SessionView>) -> spec_fn(Source, Source) -> bool {
    |a: Source, b: Source| clash_lt(sessions, a, b)
}

proof fn lemma_clash_sources(sessions: Seq<SessionView>, window: i64)
    ensures
        order::matched(
            order::gather(sessions.len() as int, clash_sources(sessions, window)),
            redundant::redundant_candidates(sessions, window),
            |at: Source, c: CandidateView| is_redundancy(sessions, window, at, c),
            by_clash(sessions),
        ),
{
    let n = sessions.len() as int;
    let lt = by_clash(sessions);
    let ok = |at: Source, c: CandidateView| is_redundancy(sessions, window, at, c);
    let at = clash_sources(sessions, window);
    let found = redundant::redundancies_from(sessions, window);
    assert forall|i: int| 0 <= i < n implies order::matched(#[trigger] at(i), found(i), ok, lt) && (
    forall|x: Source| #[trigger] at(i).contains(x) ==> x.0 == i) by {
        let paths = redundant::written_paths(sessions[i]);
        let len = paths.len() as int;
        let at1 = clash_sources_after(sessions, window, i);
        let found1 = redundant::redundancies_after(sessions, i, window);
        redundant::lemma_lists_written(sessions[i]);
        assert forall|d: int| 0 <= d < n - i - 1 implies order::matched(
            #[trigger] at1(d),
            found1(d),
            ok,
            lt,
        ) && (forall|x: Source| #[trigger] at1(d).contains(x) ==> x.0 == i && x.1 == i + 1 + d) by {
            let j = i + 1 + d;
            let at2 = clash_source(sessions, window, i, j);
            let found2 = redundant::redundancies_on(sessions[i], sessions[j], window);
            assert forall|y: int| 0 <= y < len implies order::matched(
                #[trigger] at2(y),
                found2(y),
                ok,
                lt,
            ) && (forall|x: Source| #[trigger]
                at2(y).contains(x) ==> x.0 == i && x.1 == j && sessions[i].records[x.2].path
                    == paths[y]) by {
                lemma_clash_source(sessions, window, i, j, y);
            }
            assert forall|y: int, z: int, a: Source, b: Source|
                #![trigger at2(y).contains(a), at2(z).contains(b)]
                0 <= y < z < len && at2(y).contains(a) && at2(z).contains(b) implies lt(a, b) by {
                assert(text::text_lt(paths[y], paths[z]));
                reading::law_text_order(paths[y], paths[z]);
            }
            order::lemma_gather_matched(len, at2, found2, ok, lt);
            assert forall|x: Source| #[trigger] at1(d).contains(x) implies x.0 == i && x.1 == i + 1
                + d by {
                order::lemma_gather_contains(len, at2, x);
            }
        }
        order::lemma_gather_matched(n - i - 1, at1, found1, ok, lt);
        assert forall|x: Source| #[trigger] at(i).contains(x) implies x.0 == i by {
            order::lemma_gather_contains(n - i - 1, at1, x);
        }
    }
    order::lemma_gather_matched(n, at, found, ok, lt);
}

/// The redundant candidates, one for one and in order. Each has a source, two
/// sessions whose first writes of one path clash. The sources ascend by pair
/// of sessions and by path, so each pair yields at most one candidate per
/// path; and every clash is the source of one.
pub proof fn law_redundant_in_full(sessions: Seq<SessionView>, window: i64) -> (at: Seq<Source>)
    ensures
        at.len() == redundant::redundant_candidates(sessions, window).len(),
        forall|p: int|
            0 <= p < at.len() ==> is_redundancy(
                sessions,
                window,
                #[trigger] at[p],
                redundant::redundant_candidates(sessions, window)[p],
            ),
        forall|p: int, q: int|
            #![trigger at[p], at[q]]
            0 <= p < q < at.len() ==> clash_lt(sessions, at[p], at[q]),
        forall|i: int, j: int, k: int, l: int| #[trigger]
            clash(sessions, window, i, j, k, l) ==> at.contains((i, j, k, l)),
{
    let n = sessions.len() as int;
    let at = order::gather(n, clash_sources(sessions, window));
    lemma_clash_sources(sessions, window);
    let found = redundant::redundant_candidates(sessions, window);
    let ok = |at: Source, c: CandidateView| is_redundancy(sessions, window, at, c);
    assert forall|p: int| 0 <= p < at.len() implies is_redundancy(
        sessions,
        window,
        #[trigger] at[p],
        found[p],
    ) by {
        assert(ok(at[p], found[p]));
    }
    assert forall|p: int, q: int|
        #![trigger at[p], at[q]]
        0 <= p < q < at.len() implies clash_lt(sessions, at[p], at[q]) by {
        assert(by_clash(sessions)(at[p], at[q]));
    }
    assert forall|i: int, j: int, k: int, l: int| #[trigger]
        clash(sessions, window, i, j, k, l) implies at.contains((i, j, k, l)) by {
        let path = sessions[i].records[k].path;
        let paths = redundant::written_paths(sessions[i]);
        lemma_first_write(sessions[i], path);
        assert(writes_first(sessions[i], k, path));
        laws::lemma_earliest_write(sessions[i], path);
        let x = choose|x: int| 0 <= x < paths.len() && paths[x] == path;
        lemma_clash_source(sessions, window, i, j, x);
        let source = (i, j, k, l);
        let at2 = clash_source(sessions, window, i, j);
        let at1 = clash_sources_after(sessions, window, i);
        let d = j - i - 1;
        assert(at2(x)[0] == source);
        assert(at2(x).contains(source));
        order::lemma_gather_contains(paths.len() as int, at2, source);
        assert(at1(d).contains(source));
        order::lemma_gather_contains(n - i - 1, at1, source);
        assert(clash_sources(sessions, window)(i).contains(source));
        order::lemma_gather_contains(n, clash_sources(sessions, window), source);
    }
    at
}

/// The report with the windows of five minutes, an hour, and five and ten
/// minutes. It holds what the three detectors find, each candidate as often as
/// it was found. It is ordered by context, then by first time, then by
/// participants; what agrees in all three stays in the order in which it was
/// found, corrections before redundant work before rescues.
pub proof fn law_report_in_full(sessions: Seq<SessionView>)
    ensures
        ({
            let found = corrective::corrective_candidates(sessions, 300)
                + redundant::redundant_candidates(sessions, 3600) + rescue::rescue_candidates(
                sessions,
                300,
                600,
            );
            let report = observe::report(sessions);
            &&& report.to_multiset() == found.to_multiset()
            &&& forall|i: int, j: int|
                #![trigger report[i], report[j]]
                0 <= i < j < report.len() ==> {
                    ||| reading::precedes(report[i].context, report[j].context)
                    ||| report[i].context == report[j].context && report[i].t_first_unix
                        < report[j].t_first_unix
                    ||| report[i].context == report[j].context && report[i].t_first_unix
                        == report[j].t_first_unix && (report[i].participants
                        == report[j].participants || reading::list_precedes(
                        report[i].participants,
                        report[j].participants,
                    ))
                }
            &&& forall|context: Seq<char>, t: i64, participants: Seq<Seq<char>>|
                report.filter(#[trigger] keyed(context, t, participants)) == found.filter(
                    keyed(context, t, participants),
                )
        }),
{
    let found = observe::detected(sessions);
    let report = observe::report(sessions);
    laws::law_report_is_sorted(sessions);
    assert forall|i: int, j: int|
        #![trigger report[i], report[j]]
        0 <= i < j < report.len() implies {
        ||| reading::precedes(report[i].context, report[j].context)
        ||| report[i].context == report[j].context && report[i].t_first_unix
            < report[j].t_first_unix
        ||| report[i].context == report[j].context && report[i].t_first_unix
            == report[j].t_first_unix && (report[i].participants == report[j].participants
            || reading::list_precedes(report[i].participants, report[j].participants))
    } by {
        let a = report[i];
        let b = report[j];
        assert(!observe::report_order()(b, a));
        text::lemma_text_lt_total(a.context, b.context);
        reading::law_text_order(a.context, b.context);
        text::lemma_texts_lt_order(a.participants, b.participants, a.participants);
        reading::law_list_order(a.participants, b.participants);
    }
    assert forall|context: Seq<char>, t: i64, participants: Seq<Seq<char>>|
        report.filter(#[trigger] keyed(context, t, participants)) == found.filter(
            keyed(context, t, participants),
        ) by {
        let c = CandidateView {
            kind: Seq::empty(),
            subject: Seq::empty(),
            participants,
            context,
            paths: Seq::empty(),
            t_first_unix: t,
            t_last_unix: t,
            evidence: Seq::empty(),
        };
        let tied = order::tied(c, observe::report_order());
        let same = keyed(context, t, participants);
        assert forall|d: CandidateView| #[trigger] tied(d) == same(d) by {
            text::lemma_text_lt_total(c.context, d.context);
            text::lemma_text_lt_irreflexive(c.context);
            text::lemma_texts_lt_order(c.participants, d.participants, c.participants);
        }
        assert(tied =~= same);
        assert(report.filter(tied) == found.filter(tied));
    }
}

/// The candidates with a given context, first time and participants.
pub open spec fn keyed(context: Seq<char>, t: i64, participants: Seq<Seq<char>>) -> spec_fn(
    CandidateView,
) -> bool {
    |c: CandidateView|
        c.context == context && c.t_first_unix == t && c.participants == participants
}

/// The value of a record is what its fields hold.
pub proof fn law_record_value(r: CrossRecord)
    ensures
        r@.ts == r.ts,
        r@.path == r.path@,
        r@.tool == r.tool@,
        r@.is_error == r.is_error,
        r@.line_start == r.line_start,
        r@.line_end == r.line_end,
        r.deep_view() == r@,
{
}

/// The value of a session is what its fields hold, record by record.
pub proof fn law_session_value(s: Session)
    ensures
        s@.sid == s.sid@,
        s@.records.len() == s.records@.len(),
        forall|k: int| 0 <= k < s.records@.len() ==> #[trigger] s@.records[k] == s.records@[k]@,
        s@.slug is Some <==> s.slug is Some,
        s.slug is Some ==> s@.slug->0 == s.slug->0@,
        s.deep_view() == s@,
{
}

/// The value of a citation is what its fields hold.
pub proof fn law_evidence_value(e: CrossEvidence)
    ensures
        e@.session == e.session@,
        e@.ts == e.ts,
        e@.excerpt == e.excerpt@,
        e.deep_view() == e@,
{
}

/// The value of a candidate is what its fields hold, item by item.
pub proof fn law_candidate_value(c: CrossCandidate)
    ensures
        c@.kind == c.kind@,
        c@.subject == c.subject@,
        c@.context == c.context@,
        c@.t_first_unix == c.t_first_unix,
        c@.t_last_unix == c.t_last_unix,
        c@.participants.len() == c.participants@.len(),
        forall|k: int|
            0 <= k < c.participants@.len() ==> #[trigger] c@.participants[k]
                == c.participants@[k]@,
        c@.paths.len() == c.paths@.len(),
        forall|k: int| 0 <= k < c.paths@.len() ==> #[trigger] c@.paths[k] == c.paths@[k]@,
        c@.evidence.len() == c.evidence@.len(),
        forall|k: int| 0 <= k < c.evidence@.len() ==> #[trigger] c@.evidence[k] == c.evidence@[k]@,
        c.deep_view() == c@,
{
}

} // verus!
