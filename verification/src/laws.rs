//! What holds of the library as a whole.

use vstd::prelude::*;

use crate::corrective;
use crate::json;
use crate::model;
use crate::model::{CandidateView, RecordView, SessionView};
use crate::observe;
use crate::order;
use crate::proposal;
use crate::redundant;
use crate::rescue;
use crate::text;
use crate::transcript;

verus! {

/// The order of the report is a ranking.
pub proof fn lemma_report_order()
    ensures
        order::is_ranking(observe::report_order()),
{
    let before = observe::report_order();
    assert forall|a: CandidateView, b: CandidateView| #[trigger] before(a, b) implies !before(
        b,
        a,
    ) by {
        text::lemma_text_lt_irreflexive(a.context);
        if text::text_lt(a.context, b.context) && text::text_lt(b.context, a.context) {
            text::lemma_text_lt_transitive(a.context, b.context, a.context);
        }
        text::lemma_texts_lt_order(a.participants, b.participants, a.participants);
    }
    assert forall|a: CandidateView, b: CandidateView, c: CandidateView|
        #![trigger before(a, b), before(b, c)]
        !before(a, b) && !before(b, c) implies !before(a, c) by {
        text::lemma_text_lt_total(a.context, b.context);
        text::lemma_text_lt_total(b.context, c.context);
        text::lemma_text_lt_irreflexive(a.context);
        if text::text_lt(b.context, a.context) && text::text_lt(a.context, c.context) {
            text::lemma_text_lt_transitive(b.context, a.context, c.context);
        }
        if text::text_lt(c.context, b.context) && text::text_lt(a.context, c.context) {
            text::lemma_text_lt_transitive(a.context, c.context, b.context);
        }
        if text::text_lt(c.context, b.context) && text::text_lt(b.context, c.context) {
            text::lemma_text_lt_transitive(b.context, c.context, b.context);
            text::lemma_text_lt_irreflexive(b.context);
        }
        if text::text_lt(a.context, b.context) && text::text_lt(b.context, a.context) {
            text::lemma_text_lt_transitive(a.context, b.context, a.context);
        }
        if text::text_lt(c.context, b.context) && text::text_lt(b.context, a.context) {
            text::lemma_text_lt_transitive(c.context, b.context, a.context);
            if text::text_lt(a.context, c.context) {
                text::lemma_text_lt_transitive(a.context, c.context, a.context);
            }
        }
        text::lemma_texts_lt_order(a.participants, b.participants, c.participants);
        text::lemma_texts_lt_order(b.participants, a.participants, c.participants);
        text::lemma_texts_lt_order(c.participants, b.participants, a.participants);
        text::lemma_texts_lt_order(a.participants, c.participants, b.participants);
        text::lemma_texts_lt_order(b.participants, c.participants, a.participants);
    }
}

/// The order of sessions by id is a ranking.
pub proof fn lemma_sid_order()
    ensures
        order::is_ranking(transcript::by_sid()),
{
    let before = transcript::by_sid();
    assert forall|a: SessionView, b: SessionView| #[trigger] before(a, b) implies !before(b, a) by {
        if before(b, a) {
            text::lemma_text_lt_transitive(a.sid, b.sid, a.sid);
            text::lemma_text_lt_irreflexive(a.sid);
        }
    }
    assert forall|a: SessionView, b: SessionView, c: SessionView|
        #![trigger before(a, b), before(b, c)]
        !before(a, b) && !before(b, c) implies !before(a, c) by {
        text::lemma_text_lt_total(a.sid, b.sid);
        text::lemma_text_lt_total(b.sid, c.sid);
        if before(a, c) {
            if text::text_lt(b.sid, a.sid) {
                text::lemma_text_lt_transitive(b.sid, a.sid, c.sid);
            }
        }
    }
}

/// The report holds exactly what the three detectors find, ordered by context,
/// then first timestamp, then participants; candidates that agree in all three
/// stay in the order in which they were found.
pub proof fn law_report_is_sorted(sessions: Seq<SessionView>)
    ensures
        order::is_sorted(observe::report(sessions), observe::report_order()),
        observe::report(sessions).to_multiset() == observe::detected(sessions).to_multiset(),
        forall|c: CandidateView|
            observe::report(sessions).filter(#[trigger] order::tied(c, observe::report_order()))
                == observe::detected(sessions).filter(order::tied(c, observe::report_order())),
{
    lemma_report_order();
    order::law_sorted(observe::detected(sessions), observe::report_order());
}

/// The records of a transcript ascend by time, records of the same time stand
/// in the order of their lines, and none is lost or made up.
pub proof fn law_records_ascend(log: Seq<transcript::LogLineView>)
    ensures
        forall|i: int, j: int|
            #![trigger transcript::records_of(log)[i], transcript::records_of(log)[j]]
            0 <= i < j < transcript::records_of(log).len() ==> transcript::records_of(log)[i].ts
                <= transcript::records_of(log)[j].ts,
        transcript::records_of(log).to_multiset() == order::gather(
            log.len() as int,
            transcript::record_at(log),
        ).to_multiset(),
        forall|r: RecordView|
            transcript::records_of(log).filter(#[trigger] order::tied(r, transcript::earlier()))
                == order::gather(log.len() as int, transcript::record_at(log)).filter(
                order::tied(r, transcript::earlier()),
            ),
{
    let found = order::gather(log.len() as int, transcript::record_at(log));
    assert(order::is_ranking(transcript::earlier()));
    order::law_sorted(found, transcript::earlier());
}

/// A line yields a record just when it carries a time and a path.
pub proof fn law_line_with_record(line: transcript::LogLineView)
    ensures
        transcript::record_of(line) is Some <==> transcript::int_of(
            transcript::first_of(line.ts, line.timestamp),
        ) is Some && transcript::text_of(
            transcript::first_of(transcript::tool_call_of(line).path, line.path),
        ).len() > 0,
{
}

/// Every record of a transcript carries a path.
pub proof fn law_records_have_paths(log: Seq<transcript::LogLineView>, k: int)
    requires
        0 <= k < transcript::records_of(log).len(),
    ensures
        transcript::records_of(log)[k].path.len() > 0,
{
    broadcast use vstd::seq_lib::group_to_multiset_ensures;

    let found = order::gather(log.len() as int, transcript::record_at(log));
    let r = transcript::records_of(log)[k];
    law_records_ascend(log);
    assert(transcript::records_of(log).to_multiset().contains(r));
    assert(found.contains(r));
    order::lemma_gather_contains(log.len() as int, transcript::record_at(log), r);
}

/// Sessions come back one per transcript, ascending by id.
pub proof fn law_sessions_ascend(transcripts: Seq<transcript::TranscriptView>)
    ensures
        order::is_sorted(transcript::sessions_of(transcripts), transcript::by_sid()),
        transcript::sessions_of(transcripts).to_multiset() == transcripts.map_values(
            |t: transcript::TranscriptView| transcript::session_of(t),
        ).to_multiset(),
{
    lemma_sid_order();
    order::law_sorted(
        transcripts.map_values(|t: transcript::TranscriptView| transcript::session_of(t)),
        transcript::by_sid(),
    );
}

/// Record `k` of session `j` is the earliest fix there of the error that is
/// record `e` of session `i`, another session.
pub open spec fn corrects(
    sessions: Seq<SessionView>,
    window: i64,
    i: int,
    e: int,
    j: int,
    k: int,
) -> bool {
    let err = sessions[i].records[e];
    &&& 0 <= i < sessions.len()
    &&& 0 <= j < sessions.len()
    &&& sessions[j].sid != sessions[i].sid
    &&& 0 <= e < sessions[i].records.len()
    &&& err.is_path_error()
    &&& order::is_first_min(
        sessions[j].records,
        corrective::fixes(err, window),
        model::delay(err.ts),
        k,
    )
}

/// A candidate is corrective just when it is the correction of some error by
/// the earliest fix in some other session.
pub proof fn law_corrective_exact(sessions: Seq<SessionView>, window: i64, c: CandidateView)
    ensures
        corrective::corrective_candidates(sessions, window).contains(c) <==> exists|
            i: int,
            e: int,
            j: int,
            k: int,
        | #[trigger]
            corrects(sessions, window, i, e, j, k) && c == corrective::correction(
                sessions[i],
                sessions[i].records[e],
                sessions[j],
                sessions[j].records[k],
            ),
{
    let n = sessions.len() as int;
    let from = corrective::corrections_from(sessions, window);
    order::lemma_gather_contains(n, from, c);
    if corrective::corrective_candidates(sessions, window).contains(c) {
        let i = choose|i: int| 0 <= i < n && (#[trigger] from(i)).contains(c);
        let a = sessions[i];
        let within = corrective::corrections_in(sessions, a, window);
        order::lemma_gather_contains(a.records.len() as int, within, c);
        let e = choose|e: int| 0 <= e < a.records.len() && (#[trigger] within(e)).contains(c);
        let err = a.records[e];
        let given = corrective::corrections_of(sessions, a, err, window);
        order::lemma_gather_contains(n, given, c);
        let j = choose|j: int| 0 <= j < n && (#[trigger] given(j)).contains(c);
        let b = sessions[j];
        let ok = corrective::fixes(err, window);
        let key = model::delay(err.ts);
        let k = choose|k: int| order::is_first_min(b.records, ok, key, k);
        assert(corrects(sessions, window, i, e, j, k));
    }
    if exists|i: int, e: int, j: int, k: int| #[trigger]
        corrects(sessions, window, i, e, j, k) && c == corrective::correction(
            sessions[i],
            sessions[i].records[e],
            sessions[j],
            sessions[j].records[k],
        ) {
        let (i, e, j, k) = choose|i: int, e: int, j: int, k: int| #[trigger]
            corrects(sessions, window, i, e, j, k) && c == corrective::correction(
                sessions[i],
                sessions[i].records[e],
                sessions[j],
                sessions[j].records[k],
            );
        let a = sessions[i];
        let err = a.records[e];
        let b = sessions[j];
        order::lemma_first_min_unique(
            b.records,
            corrective::fixes(err, window),
            model::delay(err.ts),
            k,
        );
        let given = corrective::corrections_of(sessions, a, err, window);
        assert(given(j)[0] == c);
        assert(given(j).contains(c));
        order::lemma_gather_contains(n, given, c);
        let within = corrective::corrections_in(sessions, a, window);
        assert(within(e).contains(c));
        order::lemma_gather_contains(a.records.len() as int, within, c);
        assert(from(i).contains(c));
    }
}

/// A corrective candidate names two different sessions, the one that erred in
/// front, and its fix follows the error by more than no time and less than the
/// window.
pub proof fn law_corrective_window(sessions: Seq<SessionView>, window: i64, c: CandidateView)
    requires
        corrective::corrective_candidates(sessions, window).contains(c),
    ensures
        0 < c.t_last_unix - c.t_first_unix < window,
        c.participants.len() == 2,
        c.participants[0] != c.participants[1],
        c.context == "corrective"@,
        exists|i: int, e: int|
            0 <= i < sessions.len() && 0 <= e < sessions[i].records.len()
                && sessions[i].sid == c.participants[0] && (
            #[trigger] sessions[i].records[e]).is_path_error() && sessions[i].records[e].ts
                == c.t_first_unix && c.paths == seq![sessions[i].records[e].path],
{
    law_corrective_exact(sessions, window, c);
    let (i, e, j, k) = choose|i: int, e: int, j: int, k: int| #[trigger]
        corrects(sessions, window, i, e, j, k) && c == corrective::correction(
            sessions[i],
            sessions[i].records[e],
            sessions[j],
            sessions[j].records[k],
        );
    assert(sessions[i].records[e].is_path_error());
}

/// Every error that another session fixes within the window is reported, with
/// a fix by that session that is no later.
pub proof fn law_corrective_complete(
    sessions: Seq<SessionView>,
    window: i64,
    i: int,
    e: int,
    j: int,
    m: int,
)
    requires
        0 <= i < sessions.len(),
        0 <= j < sessions.len(),
        sessions[j].sid != sessions[i].sid,
        0 <= e < sessions[i].records.len(),
        0 <= m < sessions[j].records.len(),
        sessions[i].records[e].is_path_error(),
        sessions[j].records[m].is_write_success(),
        sessions[j].records[m].path == sessions[i].records[e].path,
        0 < sessions[j].records[m].ts - sessions[i].records[e].ts < window,
    ensures
        exists|c: CandidateView| #[trigger]
            corrective::corrective_candidates(sessions, window).contains(c) && c.participants
                == seq![sessions[i].sid, sessions[j].sid] && c.paths
                == seq![sessions[i].records[e].path] && c.t_first_unix
                == sessions[i].records[e].ts && c.t_last_unix <= sessions[j].records[m].ts,
{
    let err = sessions[i].records[e];
    let b = sessions[j];
    let k = order::lemma_first_min_exists(
        b.records,
        corrective::fixes(err, window),
        model::delay(err.ts),
        m,
    );
    let c = corrective::correction(sessions[i], err, b, b.records[k]);
    assert(corrects(sessions, window, i, e, j, k));
    law_corrective_exact(sessions, window, c);
    assert(corrective::corrective_candidates(sessions, window).contains(c));
    assert(b.records[m] == b.records[m]);
}

/// A wider window loses no corrective candidate.
pub proof fn law_corrective_monotone(
    sessions: Seq<SessionView>,
    narrow: i64,
    wide: i64,
    c: CandidateView,
)
    requires
        narrow <= wide,
        corrective::corrective_candidates(sessions, narrow).contains(c),
    ensures
        corrective::corrective_candidates(sessions, wide).contains(c),
{
    law_corrective_exact(sessions, narrow, c);
    law_corrective_exact(sessions, wide, c);
    let (i, e, j, k) = choose|i: int, e: int, j: int, k: int| #[trigger]
        corrects(sessions, narrow, i, e, j, k) && c == corrective::correction(
            sessions[i],
            sessions[i].records[e],
            sessions[j],
            sessions[j].records[k],
        );
    assert(corrects(sessions, wide, i, e, j, k));
}

/// One error yields at most one corrective candidate per fixing session.
pub proof fn law_corrective_once(
    a: SessionView,
    err: RecordView,
    b: SessionView,
    window: i64,
)
    ensures
        corrective::corrections_by(a, err, b, window).len() <= 1,
{
}

/// Record `k` of session `j` is the first takeover there of the stall that
/// follows record `e` of session `i`, another session of the same intent.
pub open spec fn recovers(
    sessions: Seq<SessionView>,
    stall: i64,
    rescue: i64,
    i: int,
    e: int,
    j: int,
    k: int,
) -> bool {
    let a = sessions[i];
    let err = a.records[e];
    &&& 0 <= i < sessions.len()
    &&& 0 <= j < sessions.len()
    &&& sessions[j].sid != a.sid
    &&& rescue::same_intent(a, sessions[j])
    &&& 0 <= e < a.records.len()
    &&& err.is_path_error()
    &&& rescue::quiet_after(a, err.ts, stall)
    &&& order::is_first_min(
        sessions[j].records,
        rescue::resumes(a, err.ts, stall, rescue),
        model::delay(err.ts),
        k,
    )
}

/// A candidate is a rescue just when it is the recovery of some stall by the
/// first takeover in some other session of the same intent.
pub proof fn law_rescue_exact(
    sessions: Seq<SessionView>,
    stall: i64,
    rescue: i64,
    c: CandidateView,
)
    ensures
        rescue::rescue_candidates(sessions, stall, rescue).contains(c) <==> exists|
            i: int,
            e: int,
            j: int,
            k: int,
        | #[trigger]
            recovers(sessions, stall, rescue, i, e, j, k) && c == rescue::recovery(
                sessions[i],
                sessions[i].records[e],
                sessions[j],
                sessions[j].slug->0,
                sessions[j].records[k],
            ),
{
    let n = sessions.len() as int;
    let from = rescue::recoveries_from(sessions, stall, rescue);
    order::lemma_gather_contains(n, from, c);
    if rescue::rescue_candidates(sessions, stall, rescue).contains(c) {
        let i = choose|i: int| 0 <= i < n && (#[trigger] from(i)).contains(c);
        let a = sessions[i];
        let within = rescue::recoveries_in(sessions, a, stall, rescue);
        order::lemma_gather_contains(a.records.len() as int, within, c);
        let e = choose|e: int| 0 <= e < a.records.len() && (#[trigger] within(e)).contains(c);
        let err = a.records[e];
        let given = rescue::recoveries_of(sessions, a, err, stall, rescue);
        order::lemma_gather_contains(n, given, c);
        let j = choose|j: int| 0 <= j < n && (#[trigger] given(j)).contains(c);
        let ok = rescue::resumes(a, err.ts, stall, rescue);
        let key = model::delay(err.ts);
        let k = choose|k: int| order::is_first_min(sessions[j].records, ok, key, k);
        assert(recovers(sessions, stall, rescue, i, e, j, k));
    }
    if exists|i: int, e: int, j: int, k: int| #[trigger]
        recovers(sessions, stall, rescue, i, e, j, k) && c == rescue::recovery(
            sessions[i],
            sessions[i].records[e],
            sessions[j],
            sessions[j].slug->0,
            sessions[j].records[k],
        ) {
        let (i, e, j, k) = choose|i: int, e: int, j: int, k: int| #[trigger]
            recovers(sessions, stall, rescue, i, e, j, k) && c == rescue::recovery(
                sessions[i],
                sessions[i].records[e],
                sessions[j],
                sessions[j].slug->0,
                sessions[j].records[k],
            );
        let a = sessions[i];
        let err = a.records[e];
        order::lemma_first_min_unique(
            sessions[j].records,
            rescue::resumes(a, err.ts, stall, rescue),
            model::delay(err.ts),
            k,
        );
        let given = rescue::recoveries_of(sessions, a, err, stall, rescue);
        assert(given(j)[0] == c);
        assert(given(j).contains(c));
        order::lemma_gather_contains(n, given, c);
        let within = rescue::recoveries_in(sessions, a, stall, rescue);
        assert(within(e).contains(c));
        order::lemma_gather_contains(a.records.len() as int, within, c);
        assert(from(i).contains(c));
    }
}

/// A rescue names two different sessions that declare the same intent, the
/// stalled one in front; the stalled session erred on a path and stayed quiet
/// for at least the stall time after that; and the takeover comes after the
/// error, on a path that both touched.
pub proof fn law_rescue_shape(
    sessions: Seq<SessionView>,
    stall: i64,
    rescue: i64,
    c: CandidateView,
)
    requires
        rescue::rescue_candidates(sessions, stall, rescue).contains(c),
    ensures
        c.t_first_unix < c.t_last_unix,
        model::elapsed(c.t_first_unix, c.t_last_unix) <= stall + rescue,
        c.participants.len() == 2,
        c.participants[0] != c.participants[1],
        c.context == "rescue"@,
        c.paths.len() == 1,
        exists|i: int, e: int, j: int|
            0 <= i < sessions.len() && 0 <= j < sessions.len() && 0 <= e
                < sessions[i].records.len() && c.participants == seq![
                sessions[i].sid,
                sessions[j].sid,
            ] && (#[trigger] sessions[i].records[e]).is_path_error() && sessions[i].records[e].ts
                == c.t_first_unix && #[trigger] rescue::same_intent(sessions[i], sessions[j])
                && rescue::quiet_after(sessions[i], c.t_first_unix, stall) && rescue::touches(
                sessions[i],
                c.paths[0],
            ) && rescue::touches(sessions[j], c.paths[0]),
{
    law_rescue_exact(sessions, stall, rescue, c);
    let (i, e, j, k) = choose|i: int, e: int, j: int, k: int| #[trigger]
        recovers(sessions, stall, rescue, i, e, j, k) && c == rescue::recovery(
            sessions[i],
            sessions[i].records[e],
            sessions[j],
            sessions[j].slug->0,
            sessions[j].records[k],
        );
    assert(sessions[j].records[k].path == c.paths[0]);
    assert(sessions[i].records[e].is_path_error());
    assert(rescue::same_intent(sessions[i], sessions[j]));
}

/// A wider rescue window loses no rescue.
pub proof fn law_rescue_monotone(
    sessions: Seq<SessionView>,
    stall: i64,
    narrow: i64,
    wide: i64,
    c: CandidateView,
)
    requires
        narrow <= wide,
        rescue::rescue_candidates(sessions, stall, narrow).contains(c),
    ensures
        rescue::rescue_candidates(sessions, stall, wide).contains(c),
{
    law_rescue_exact(sessions, stall, narrow, c);
    law_rescue_exact(sessions, stall, wide, c);
    let (i, e, j, k) = choose|i: int, e: int, j: int, k: int| #[trigger]
        recovers(sessions, stall, narrow, i, e, j, k) && c == rescue::recovery(
            sessions[i],
            sessions[i].records[e],
            sessions[j],
            sessions[j].slug->0,
            sessions[j].records[k],
        );
    assert(recovers(sessions, stall, wide, i, e, j, k));
}

/// Every stall that another session of the same intent takes up in time is
/// reported, with a takeover by that session that is no later.
pub proof fn law_rescue_complete(
    sessions: Seq<SessionView>,
    stall: i64,
    rescue: i64,
    i: int,
    e: int,
    j: int,
    m: int,
)
    requires
        0 <= i < sessions.len(),
        0 <= j < sessions.len(),
        sessions[j].sid != sessions[i].sid,
        rescue::same_intent(sessions[i], sessions[j]),
        0 <= e < sessions[i].records.len(),
        0 <= m < sessions[j].records.len(),
        sessions[i].records[e].is_path_error(),
        rescue::quiet_after(sessions[i], sessions[i].records[e].ts, stall),
        rescue::touches(sessions[i], sessions[j].records[m].path),
        0 < model::elapsed(sessions[i].records[e].ts, sessions[j].records[m].ts) <= stall + rescue,
    ensures
        exists|c: CandidateView| #[trigger]
            rescue::rescue_candidates(sessions, stall, rescue).contains(c) && c.participants
                == seq![sessions[i].sid, sessions[j].sid] && c.t_first_unix
                == sessions[i].records[e].ts && model::elapsed(
                sessions[i].records[e].ts,
                c.t_last_unix,
            ) <= model::elapsed(sessions[i].records[e].ts, sessions[j].records[m].ts),
{
    let a = sessions[i];
    let err = a.records[e];
    let b = sessions[j];
    let k = order::lemma_first_min_exists(
        b.records,
        rescue::resumes(a, err.ts, stall, rescue),
        model::delay(err.ts),
        m,
    );
    let c = rescue::recovery(a, err, b, b.slug->0, b.records[k]);
    assert(recovers(sessions, stall, rescue, i, e, j, k));
    law_rescue_exact(sessions, stall, rescue, c);
    assert(rescue::rescue_candidates(sessions, stall, rescue).contains(c));
    assert(b.records[m] == b.records[m]);
}

/// One stall yields at most one rescue candidate per rescuing session.
pub proof fn law_rescue_once(
    a: SessionView,
    err: RecordView,
    b: SessionView,
    stall: i64,
    rescue: i64,
)
    ensures
        rescue::recovery_by(a, err, b, stall, rescue).len() <= 1,
{
}

/// Line ranges overlap in either order, and a range that is not known in full
/// overlaps with every other.
pub proof fn law_overlap(a: (Option<i64>, Option<i64>), b: (Option<i64>, Option<i64>))
    ensures
        redundant::ranges_overlap(a, b) == redundant::ranges_overlap(b, a),
        a.0 is None || a.1 is None ==> redundant::ranges_overlap(a, b),
{
}

/// It does not matter which of two sessions is looked at first.
pub proof fn law_redundancy_symmetric(
    a: SessionView,
    b: SessionView,
    path: Seq<char>,
    window: i64,
)
    ensures
        redundant::redundancy_on(a, b, path, window) == redundant::redundancy_on(
            b,
            a,
            path,
            window,
        ),
{
}

/// The earliest write of a path is a write of that path, and the path is listed.
pub proof fn lemma_earliest_write(s: SessionView, path: Seq<char>)
    requires
        redundant::earliest_write(s, path) is Some,
    ensures
        ({
            let w = redundant::earliest_write(s, path)->0;
            w.is_write_success() && w.path == path && s.records.contains(w) && rescue::touches(
                s,
                path,
            )
        }),
        redundant::written_paths(s).contains(path),
{
    let ok = redundant::writes_of(path);
    let key = redundant::time();
    let k = choose|k: int| order::is_first_min(s.records, ok, key, k);
    assert(s.records[k].is_write_success() && s.records[k].path == path);
    redundant::lemma_lists_written(s);
    assert(redundant::is_written(s.records, s.records.len() as int, path));
}

/// A candidate is redundant just when the earliest writes of some path by two
/// sessions of the list collide.
pub proof fn law_redundant_exact(sessions: Seq<SessionView>, window: i64, c: CandidateView)
    ensures
        redundant::redundant_candidates(sessions, window).contains(c) <==> exists|
            i: int,
            j: int,
            path: Seq<char>,
        |
            0 <= i < j < sessions.len() && (#[trigger] redundant::redundancy_on(
                sessions[i],
                sessions[j],
                path,
                window,
            )).contains(c),
{
    let n = sessions.len() as int;
    let from = redundant::redundancies_from(sessions, window);
    order::lemma_gather_contains(n, from, c);
    if redundant::redundant_candidates(sessions, window).contains(c) {
        let i = choose|i: int| 0 <= i < n && (#[trigger] from(i)).contains(c);
        let after = redundant::redundancies_after(sessions, i, window);
        order::lemma_gather_contains(n - i - 1, after, c);
        let d = choose|d: int| 0 <= d < n - i - 1 && (#[trigger] after(d)).contains(c);
        let j = i + 1 + d;
        let on = redundant::redundancies_on(sessions[i], sessions[j], window);
        let paths = redundant::written_paths(sessions[i]);
        order::lemma_gather_contains(paths.len() as int, on, c);
        let k = choose|k: int| 0 <= k < paths.len() && (#[trigger] on(k)).contains(c);
        assert(redundant::redundancy_on(sessions[i], sessions[j], paths[k], window).contains(c));
    }
    if exists|i: int, j: int, path: Seq<char>|
        0 <= i < j < sessions.len() && (#[trigger] redundant::redundancy_on(
            sessions[i],
            sessions[j],
            path,
            window,
        )).contains(c) {
        let (i, j, path) = choose|i: int, j: int, path: Seq<char>|
            0 <= i < j < sessions.len() && (#[trigger] redundant::redundancy_on(
                sessions[i],
                sessions[j],
                path,
                window,
            )).contains(c);
        let on = redundant::redundancies_on(sessions[i], sessions[j], window);
        let paths = redundant::written_paths(sessions[i]);
        lemma_earliest_write(sessions[i], path);
        let k = choose|k: int| 0 <= k < paths.len() && paths[k] == path;
        assert(on(k).contains(c));
        order::lemma_gather_contains(paths.len() as int, on, c);
        let after = redundant::redundancies_after(sessions, i, window);
        let d = j - i - 1;
        assert(after(d).contains(c));
        order::lemma_gather_contains(n - i - 1, after, c);
        assert(from(i).contains(c));
    }
}

/// A redundant candidate names the earliest writes of one path by two sessions
/// of the list, the earlier one in front, with more than no time and less than
/// the window between them and overlapping line ranges.
pub proof fn law_redundant_shape(sessions: Seq<SessionView>, window: i64, c: CandidateView)
    requires
        redundant::redundant_candidates(sessions, window).contains(c),
    ensures
        0 < c.t_last_unix - c.t_first_unix < window,
        c.participants.len() == 2,
        c.context == "redundant"@,
        c.paths.len() == 1,
        exists|i: int, j: int|
            0 <= i < sessions.len() && 0 <= j < sessions.len() && i != j && c.participants
                == seq![sessions[i].sid, sessions[j].sid] && ({
                let fw = #[trigger] redundant::earliest_write(sessions[i], c.paths[0]);
                let sw = #[trigger] redundant::earliest_write(sessions[j], c.paths[0]);
                &&& fw is Some
                &&& sw is Some
                &&& fw->0.ts == c.t_first_unix
                &&& sw->0.ts == c.t_last_unix
                &&& redundant::ranges_overlap(
                    (fw->0.line_start, fw->0.line_end),
                    (sw->0.line_start, sw->0.line_end),
                )
            }),
{
    law_redundant_exact(sessions, window, c);
    let (i, j, path) = choose|i: int, j: int, path: Seq<char>|
        0 <= i < j < sessions.len() && (#[trigger] redundant::redundancy_on(
            sessions[i],
            sessions[j],
            path,
            window,
        )).contains(c);
    let wa = redundant::earliest_write(sessions[i], path);
    let wb = redundant::earliest_write(sessions[j], path);
    assert(c.paths[0] == path);
    if wa->0.ts <= wb->0.ts {
        assert(c.participants == seq![sessions[i].sid, sessions[j].sid]);
    } else {
        assert(c.participants == seq![sessions[j].sid, sessions[i].sid]);
    }
}

/// Whenever the earliest writes of a path by two sessions collide, that is
/// reported.
pub proof fn law_redundant_complete(
    sessions: Seq<SessionView>,
    window: i64,
    i: int,
    j: int,
    path: Seq<char>,
)
    requires
        0 <= i < sessions.len(),
        0 <= j < sessions.len(),
        i != j,
        redundant::earliest_write(sessions[i], path) is Some,
        redundant::earliest_write(sessions[j], path) is Some,
        redundant::earliest_write(sessions[i], path)->0.ts < redundant::earliest_write(
            sessions[j],
            path,
        )->0.ts,
        redundant::collide(
            redundant::earliest_write(sessions[i], path)->0,
            redundant::earliest_write(sessions[j], path)->0,
            window,
        ),
    ensures
        redundant::redundant_candidates(sessions, window).contains(
            redundant::redundancy(
                path,
                sessions[i],
                redundant::earliest_write(sessions[i], path)->0,
                sessions[j],
                redundant::earliest_write(sessions[j], path)->0,
            ),
        ),
{
    let c = redundant::redundancy(
        path,
        sessions[i],
        redundant::earliest_write(sessions[i], path)->0,
        sessions[j],
        redundant::earliest_write(sessions[j], path)->0,
    );
    law_redundant_exact(sessions, window, c);
    if i < j {
        let found = redundant::redundancy_on(sessions[i], sessions[j], path, window);
        assert(found[0] == c);
        assert(found.contains(c));
    } else {
        let found = redundant::redundancy_on(sessions[j], sessions[i], path, window);
        assert(found[0] == c);
        assert(found.contains(c));
    }
}

/// A wider window loses no redundant candidate.
pub proof fn law_redundant_monotone(
    sessions: Seq<SessionView>,
    narrow: i64,
    wide: i64,
    c: CandidateView,
)
    requires
        narrow <= wide,
        redundant::redundant_candidates(sessions, narrow).contains(c),
    ensures
        redundant::redundant_candidates(sessions, wide).contains(c),
{
    law_redundant_exact(sessions, narrow, c);
    law_redundant_exact(sessions, wide, c);
    let (i, j, path) = choose|i: int, j: int, path: Seq<char>|
        0 <= i < j < sessions.len() && (#[trigger] redundant::redundancy_on(
            sessions[i],
            sessions[j],
            path,
            narrow,
        )).contains(c);
    assert(redundant::redundancy_on(sessions[i], sessions[j], path, wide).contains(c));
}

/// The redundant candidates of two sessions stand in the order of their paths.
pub proof fn lemma_paths_ascend(a: SessionView, b: SessionView, window: i64, n: int)
    requires
        0 <= n <= redundant::written_paths(a).len(),
    ensures
        ({
            let found = order::gather(n, redundant::redundancies_on(a, b, window));
            &&& forall|x: int|
                0 <= x < found.len() ==> (#[trigger] found[x]).paths.len() == 1 && exists|k: int|
                    0 <= k < n && found[x].paths[0] == #[trigger] redundant::written_paths(a)[k]
            &&& forall|x: int, y: int|
                #![trigger found[x], found[y]]
                0 <= x < y < found.len() ==> text::text_lt(found[x].paths[0], found[y].paths[0])
        }),
    decreases n,
{
    if n > 0 {
        lemma_paths_ascend(a, b, window, n - 1);
        redundant::lemma_lists_written(a);
        let on = redundant::redundancies_on(a, b, window);
        let paths = redundant::written_paths(a);
        let front = order::gather(n - 1, on);
        let piece = on(n - 1);
        let found = order::gather(n, on);
        assert(found == front + piece);
        assert(piece.len() <= 1);
        assert forall|x: int| 0 <= x < found.len() implies (#[trigger] found[x]).paths.len() == 1
            && exists|k: int| 0 <= k < n && found[x].paths[0] == #[trigger] paths[k] by {
            if x < front.len() {
                assert(found[x] == front[x]);
            } else {
                assert(found[x] == piece[0]);
                assert(found[x].paths[0] == paths[n - 1]);
            }
        }
        assert forall|x: int, y: int|
            #![trigger found[x], found[y]]
            0 <= x < y < found.len() implies text::text_lt(found[x].paths[0], found[y].paths[0]) by {
            assert(found[x] == front[x]);
            if y < front.len() {
                assert(found[y] == front[y]);
            } else {
                assert(found[y].paths[0] == paths[n - 1]);
                let k = choose|k: int| 0 <= k < n - 1 && front[x].paths[0] == #[trigger] paths[k];
                assert(text::text_lt(paths[k], paths[n - 1]));
            }
        }
    }
}

/// Two sessions yield at most one redundant candidate per path.
pub proof fn law_redundant_once(sessions: Seq<SessionView>, i: int, d: int, window: i64)
    requires
        0 <= i,
        0 <= d,
        i + 1 + d < sessions.len(),
    ensures
        ({
            let found = redundant::redundancies_after(sessions, i, window)(d);
            forall|x: int, y: int|
                #![trigger found[x], found[y]]
                0 <= x < y < found.len() ==> found[x].paths != found[y].paths
        }),
{
    let found = redundant::redundancies_after(sessions, i, window)(d);
    lemma_paths_ascend(
        sessions[i],
        sessions[i + 1 + d],
        window,
        redundant::written_paths(sessions[i]).len() as int,
    );
    assert forall|x: int, y: int|
        #![trigger found[x], found[y]]
        0 <= x < y < found.len() implies found[x].paths != found[y].paths by {
        text::lemma_text_lt_irreflexive(found[x].paths[0]);
    }
}

/// The report holds a candidate just when one of the detectors finds it.
pub proof fn law_report_members(sessions: Seq<SessionView>, c: CandidateView)
    ensures
        observe::report(sessions).contains(c) <==> {
            ||| corrective::corrective_candidates(
                sessions,
                model::CORRECTIVE_WINDOW_SECS,
            ).contains(c)
            ||| redundant::redundant_candidates(sessions, model::REDUNDANT_WINDOW_SECS).contains(c)
            ||| rescue::rescue_candidates(
                sessions,
                model::STALL_SECS,
                model::RESCUE_WINDOW_SECS,
            ).contains(c)
        },
{
    broadcast use vstd::seq_lib::group_to_multiset_ensures;

    law_report_is_sorted(sessions);
    let all = observe::detected(sessions);
    let one = corrective::corrective_candidates(sessions, model::CORRECTIVE_WINDOW_SECS);
    let two = redundant::redundant_candidates(sessions, model::REDUNDANT_WINDOW_SECS);
    let three = rescue::rescue_candidates(sessions, model::STALL_SECS, model::RESCUE_WINDOW_SECS);
    assert(observe::report(sessions).contains(c) <==> observe::report(
        sessions,
    ).to_multiset().contains(c));
    assert(all.contains(c) <==> all.to_multiset().contains(c));
    if all.contains(c) {
        let k = choose|k: int| 0 <= k < all.len() && all[k] == c;
        if k < one.len() {
            assert(one[k] == c);
        } else if k < one.len() + two.len() {
            assert(two[k - one.len()] == c);
        } else {
            assert(three[k - one.len() - two.len()] == c);
        }
    }
    if one.contains(c) {
        let k = choose|k: int| 0 <= k < one.len() && one[k] == c;
        assert(all[k] == c);
    }
    if two.contains(c) {
        let k = choose|k: int| 0 <= k < two.len() && two[k] == c;
        assert(all[one.len() + k] == c);
    }
    if three.contains(c) {
        let k = choose|k: int| 0 <= k < three.len() && three[k] == c;
        assert(all[one.len() + two.len() + k] == c);
    }
}

/// Every reported candidate is of the one kind and about the agent itself. It
/// cites two events in the order of time, one of each participant, spans the
/// time between them, and centers on one path.
pub proof fn law_candidate_shape(sessions: Seq<SessionView>, c: CandidateView)
    requires
        observe::report(sessions).contains(c),
    ensures
        c.kind == model::CROSS_KIND@,
        c.subject == "self"@,
        c.context == "corrective"@ || c.context == "redundant"@ || c.context == "rescue"@,
        c.participants.len() == 2,
        c.paths.len() == 1,
        c.evidence.len() == 2,
        c.evidence[0].session == c.participants[0],
        c.evidence[1].session == c.participants[1],
        c.evidence[0].ts == c.t_first_unix,
        c.evidence[1].ts == c.t_last_unix,
        c.t_first_unix < c.t_last_unix,
{
    law_report_members(sessions, c);
    let cw = model::CORRECTIVE_WINDOW_SECS;
    let rw = model::REDUNDANT_WINDOW_SECS;
    if corrective::corrective_candidates(sessions, cw).contains(c) {
        law_corrective_exact(sessions, cw, c);
        law_corrective_window(sessions, cw, c);
    } else if redundant::redundant_candidates(sessions, rw).contains(c) {
        law_redundant_exact(sessions, rw, c);
        law_redundant_shape(sessions, rw, c);
    } else {
        law_rescue_exact(sessions, model::STALL_SECS, model::RESCUE_WINDOW_SECS, c);
        law_rescue_shape(sessions, model::STALL_SECS, model::RESCUE_WINDOW_SECS, c);
    }
}

/// Every reported candidate links two sessions of the list that both touch its
/// path.
pub proof fn law_candidate_shares_path(sessions: Seq<SessionView>, c: CandidateView)
    requires
        observe::report(sessions).contains(c),
    ensures
        exists|i: int, j: int|
            0 <= i < sessions.len() && 0 <= j < sessions.len() && i != j && c.participants
                == seq![sessions[i].sid, sessions[j].sid] && #[trigger] rescue::touches(
                sessions[i],
                c.paths[0],
            ) && #[trigger] rescue::touches(sessions[j], c.paths[0]),
{
    law_report_members(sessions, c);
    let cw = model::CORRECTIVE_WINDOW_SECS;
    let rw = model::REDUNDANT_WINDOW_SECS;
    let stall = model::STALL_SECS;
    let rescue = model::RESCUE_WINDOW_SECS;
    if corrective::corrective_candidates(sessions, cw).contains(c) {
        law_corrective_exact(sessions, cw, c);
        let (i, e, j, k) = choose|i: int, e: int, j: int, k: int| #[trigger]
            corrects(sessions, cw, i, e, j, k) && c == corrective::correction(
                sessions[i],
                sessions[i].records[e],
                sessions[j],
                sessions[j].records[k],
            );
        assert(sessions[i].records[e].path == c.paths[0]);
        assert(sessions[j].records[k].path == c.paths[0]);
        assert(rescue::touches(sessions[i], c.paths[0]));
        assert(rescue::touches(sessions[j], c.paths[0]));
    } else if redundant::redundant_candidates(sessions, rw).contains(c) {
        law_redundant_shape(sessions, rw, c);
        let path = c.paths[0];
        let (i, j) = choose|i: int, j: int|
            0 <= i < sessions.len() && 0 <= j < sessions.len() && i != j && c.participants
                == seq![sessions[i].sid, sessions[j].sid] && ({
                let fw = #[trigger] redundant::earliest_write(sessions[i], path);
                let sw = #[trigger] redundant::earliest_write(sessions[j], path);
                &&& fw is Some
                &&& sw is Some
                &&& fw->0.ts == c.t_first_unix
                &&& sw->0.ts == c.t_last_unix
                &&& redundant::ranges_overlap(
                    (fw->0.line_start, fw->0.line_end),
                    (sw->0.line_start, sw->0.line_end),
                )
            });
        lemma_earliest_write(sessions[i], path);
        lemma_earliest_write(sessions[j], path);
    } else {
        law_rescue_exact(sessions, stall, rescue, c);
        let (i, e, j, k) = choose|i: int, e: int, j: int, k: int| #[trigger]
            recovers(sessions, stall, rescue, i, e, j, k) && c == rescue::recovery(
                sessions[i],
                sessions[i].records[e],
                sessions[j],
                sessions[j].slug->0,
                sessions[j].records[k],
            );
        assert(sessions[j].records[k].path == c.paths[0]);
        assert(rescue::touches(sessions[i], c.paths[0]));
        assert(rescue::touches(sessions[j], c.paths[0]));
    }
}

/// Where no two sessions have the same id, every candidate names two different
/// ones.
pub proof fn law_participants_differ(sessions: Seq<SessionView>, c: CandidateView)
    requires
        observe::report(sessions).contains(c),
        forall|i: int, j: int|
            #![trigger sessions[i], sessions[j]]
            0 <= i < j < sessions.len() ==> sessions[i].sid != sessions[j].sid,
    ensures
        c.participants[0] != c.participants[1],
{
    law_candidate_shares_path(sessions, c);
}

/// Sessions that share no path yield no candidate. In particular fewer than
/// two sessions yield none.
pub proof fn law_unrelated_sessions(sessions: Seq<SessionView>)
    requires
        forall|i: int, j: int, path: Seq<char>|
            0 <= i < j < sessions.len() ==> !(#[trigger] rescue::touches(sessions[i], path)
                && #[trigger] rescue::touches(sessions[j], path)),
    ensures
        observe::report(sessions).len() == 0,
{
    let found = observe::report(sessions);
    if found.len() > 0 {
        let c = found[0];
        assert(found.contains(c));
        law_candidate_shares_path(sessions, c);
        let (i, j) = choose|i: int, j: int|
            0 <= i < sessions.len() && 0 <= j < sessions.len() && i != j && c.participants
                == seq![sessions[i].sid, sessions[j].sid] && #[trigger] rescue::touches(
                sessions[i],
                c.paths[0],
            ) && #[trigger] rescue::touches(sessions[j], c.paths[0]);
        if i < j {
            assert(!(rescue::touches(sessions[i], c.paths[0]) && rescue::touches(
                sessions[j],
                c.paths[0],
            )));
        } else {
            assert(!(rescue::touches(sessions[j], c.paths[0]) && rescue::touches(
                sessions[i],
                c.paths[0],
            )));
        }
    }
}

/// The report gives all corrections first, then redundant work, then rescues.
pub proof fn law_report_groups(sessions: Seq<SessionView>, i: int, j: int)
    requires
        0 <= i < j < observe::report(sessions).len(),
    ensures
        observe::report(sessions)[j].context == "corrective"@ ==> observe::report(
            sessions,
        )[i].context == "corrective"@,
        observe::report(sessions)[i].context == "rescue"@ ==> observe::report(sessions)[j].context
            == "rescue"@,
{
    let found = observe::report(sessions);
    law_report_is_sorted(sessions);
    assert(found.contains(found[i]) && found.contains(found[j]));
    law_candidate_shape(sessions, found[i]);
    law_candidate_shape(sessions, found[j]);
    reveal_strlit("corrective");
    reveal_strlit("redundant");
    reveal_strlit("rescue");
    reveal_with_fuel(text::text_lt, 4);
    assert(text::text_lt("corrective"@, "redundant"@));
    assert(text::text_lt("corrective"@, "rescue"@));
    assert(text::text_lt("redundant"@, "rescue"@));
    assert(!observe::reported_before(found[j], found[i]));
}

proof fn lemma_entries_concat(a: Seq<Seq<char>>, b: Seq<Seq<char>>)
    ensures
        order::gather((a + b).len() as int, transcript::entries_of(a + b)) == order::gather(
            a.len() as int,
            transcript::entries_of(a),
        ) + order::gather(b.len() as int, transcript::entries_of(b)),
{
    let whole = transcript::entries_of(a + b);
    let front = transcript::entries_of(a);
    let back = transcript::entries_of(b);
    assert forall|i: int| 0 <= i < a.len() implies #[trigger] whole(i) == front(i) by {
        assert((a + b)[i] == a[i]);
    }
    assert forall|i: int| 0 <= i < b.len() implies whole(a.len() + i) == #[trigger] back(i) by {
        assert((a + b)[a.len() + i] == b[i]);
    }
    order::lemma_gather_split(a.len() as int, b.len() as int, whole, front, back);
}

/// A transcript is read line by line: what is read of two pieces, the first of
/// which ends in a line feed, is what is read of each.
pub proof fn law_log_concat(a: Seq<char>, b: Seq<char>)
    ensures
        transcript::log_of(a + seq!['\n'] + b) == transcript::log_of(a + seq!['\n'])
            + transcript::log_of(b),
{
    text::lemma_lines_concat(a, b);
    lemma_entries_concat(text::lines_of(a + seq!['\n']), text::lines_of(b));
}

/// A line that is blank or no JSON changes nothing: the lines around it are
/// read as if it were not there.
pub proof fn law_bad_line_is_skipped(before: Seq<char>, bad: Seq<char>, after: Seq<char>)
    requires
        !bad.contains('\n'),
        text::is_blank(text::chomped(bad)) || json::json_document(text::chomped(bad)) is None,
    ensures
        transcript::log_of(before + seq!['\n'] + bad + seq!['\n'] + after) == transcript::log_of(
            before + seq!['\n'] + after,
        ),
{
    let nl = seq!['\n'];
    law_log_concat(before, bad + nl + after);
    law_log_concat(before, after);
    law_log_concat(bad, after);
    assert(before + nl + bad + nl + after =~= before + nl + (bad + nl + after));
    text::lemma_lines_step(bad, Seq::empty());
    assert(bad + nl + Seq::empty() =~= bad + nl);
    let lines = text::lines_of(bad + nl);
    assert(lines =~= seq![text::chomped(bad)]);
    let f = transcript::entries_of(lines);
    assert(f(0) =~= Seq::empty());
    reveal_with_fuel(order::gather, 2);
    assert(transcript::log_of(bad + nl) =~= Seq::empty());
    assert(transcript::log_of(bad + nl) + transcript::log_of(after) =~= transcript::log_of(after));
}

/// The declared intent is the last that is not empty: a line that declares one
/// settles it, a line that does not leaves it as it was.
pub proof fn law_last_slug_wins(
    log: Seq<transcript::LogLineView>,
    line: transcript::LogLineView,
)
    ensures
        transcript::last_slug(log.push(line)) == (if transcript::slug_of(line) is Some {
            transcript::slug_of(line)
        } else {
            transcript::last_slug(log)
        }),
        transcript::last_slug(log) is Some ==> transcript::last_slug(log)->0.len() > 0,
    decreases log.len(),
{
    assert(log.push(line).drop_last() =~= log);
    if log.len() > 0 {
        law_last_slug_wins(log.drop_last(), line);
    }
}

proof fn lemma_records_concat(a: Seq<transcript::LogLineView>, b: Seq<transcript::LogLineView>)
    ensures
        transcript::records_of(a + b) == order::sorted(
            transcript::records_of(a) + transcript::records_of(b),
            transcript::earlier(),
        ),
{
    let whole = transcript::record_at(a + b);
    let front = transcript::record_at(a);
    let back = transcript::record_at(b);
    assert forall|i: int| 0 <= i < a.len() implies #[trigger] whole(i) == front(i) by {
        assert((a + b)[i] == a[i]);
    }
    assert forall|i: int| 0 <= i < b.len() implies whole(a.len() + i) == #[trigger] back(i) by {
        assert((a + b)[a.len() + i] == b[i]);
    }
    order::lemma_gather_split(a.len() as int, b.len() as int, whole, front, back);
    order::lemma_sorted_parts(
        order::gather(a.len() as int, front),
        order::gather(b.len() as int, back),
        transcript::earlier(),
    );
}

/// Two texts joined by a line feed hold the records of each, merged by time:
/// records of the same time stand in the order of the texts. The first text
/// may be taken with its line feed, and, unless it ends in a carriage return,
/// without.
pub proof fn law_joined_records(x: Seq<char>, y: Seq<char>)
    ensures
        transcript::records_of(transcript::log_of(x + seq!['\n'] + y)) == order::sorted(
            transcript::records_of(transcript::log_of(x + seq!['\n'])) + transcript::records_of(
                transcript::log_of(y),
            ),
            transcript::earlier(),
        ),
        x.len() == 0 || x.last() != '\r' ==> transcript::records_of(
            transcript::log_of(x + seq!['\n'] + y),
        ) == order::sorted(
            transcript::records_of(transcript::log_of(x)) + transcript::records_of(
                transcript::log_of(y),
            ),
            transcript::earlier(),
        ),
{
    law_log_concat(x, y);
    lemma_records_concat(transcript::log_of(x + seq!['\n']), transcript::log_of(y));
    if x.len() == 0 || x.last() != '\r' {
        transcript::lemma_log_end(x);
    }
}

proof fn lemma_last_slug_concat(
    a: Seq<transcript::LogLineView>,
    b: Seq<transcript::LogLineView>,
)
    ensures
        transcript::last_slug(a + b) == (if transcript::last_slug(b) is Some {
            transcript::last_slug(b)
        } else {
            transcript::last_slug(a)
        }),
    decreases b.len(),
{
    if b.len() == 0 {
        assert(a + b =~= a);
    } else {
        assert((a + b).last() == b.last());
        assert((a + b).drop_last() =~= a + b.drop_last());
        lemma_last_slug_concat(a, b.drop_last());
    }
}

/// Two texts joined by a line feed declare the intent of the second where it
/// declares one, and else that of the first. The first text may be taken with
/// its line feed, and, unless it ends in a carriage return, without.
pub proof fn law_joined_slug(x: Seq<char>, y: Seq<char>)
    ensures
        transcript::last_slug(transcript::log_of(x + seq!['\n'] + y)) == (
        if transcript::last_slug(transcript::log_of(y)) is Some {
            transcript::last_slug(transcript::log_of(y))
        } else {
            transcript::last_slug(transcript::log_of(x + seq!['\n']))
        }),
        x.len() == 0 || x.last() != '\r' ==> transcript::last_slug(
            transcript::log_of(x + seq!['\n'] + y),
        ) == (if transcript::last_slug(transcript::log_of(y)) is Some {
            transcript::last_slug(transcript::log_of(y))
        } else {
            transcript::last_slug(transcript::log_of(x))
        }),
{
    law_log_concat(x, y);
    lemma_last_slug_concat(transcript::log_of(x + seq!['\n']), transcript::log_of(y));
    if x.len() == 0 || x.last() != '\r' {
        transcript::lemma_log_end(x);
    }
}

/// A file that is recent stays so for a longer look back and for a later
/// modification.
pub proof fn law_recent_monotone(
    extension: Option<Seq<char>>,
    mtime: i64,
    later: i64,
    now: i64,
    since: i64,
    longer: i64,
)
    requires
        transcript::is_recent(extension, mtime, now, since),
        mtime <= later,
        since <= longer,
    ensures
        transcript::is_recent(extension, later, now, longer),
{
}

/// The file name of every reported candidate is safe, whatever the session ids
/// are.
pub proof fn law_reported_names_are_safe(sessions: Seq<SessionView>, c: CandidateView)
    requires
        observe::report(sessions).contains(c),
    ensures
        proposal::is_stem_text(proposal::stem_of(c)),
{
    law_candidate_shape(sessions, c);
    reveal_strlit("corrective");
    reveal_strlit("redundant");
    reveal_strlit("rescue");
    assert(proposal::is_stem_text("corrective"@));
    assert(proposal::is_stem_text("redundant"@));
    assert(proposal::is_stem_text("rescue"@));
    proposal::law_stem_is_safe(c);
}

} // verus!
