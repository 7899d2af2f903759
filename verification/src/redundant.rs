//! The redundant pattern: two sessions write the same lines of one path close
//! together.

use vstd::prelude::*;

use crate::model;
use crate::model::{CandidateView, CrossCandidate, CrossEvidence, CrossRecord, RecordView, Session, SessionView};
use crate::order;
use crate::text;

verus! {

/// Whether two line ranges share a line, or one of them is not known in full.
pub open spec fn ranges_overlap(
    a: (Option<i64>, Option<i64>),
    b: (Option<i64>, Option<i64>),
) -> bool {
    match (a, b) {
        ((Some(a0), Some(a1)), (Some(b0), Some(b1))) => a0 <= b1 && b0 <= a1,
        _ => true,
    }
}

/// True when two optional `[start, end]` line ranges overlap.
///
/// When either range is absent the two count as overlapping, so that what is
/// left is "same file within the window".
#[must_use]
pub fn line_ranges_overlap(
    a: (Option<i64>, Option<i64>),
    b: (Option<i64>, Option<i64>),
) -> (yes: bool)
    ensures
        yes == ranges_overlap(a, b),
{
    match (a, b) {
        ((Some(a0), Some(a1)), (Some(b0), Some(b1))) => a0 <= b1 && b0 <= a1,
        _ => true,
    }
}

/// The successful writes of `path`.
pub open spec fn writes_of(path: Seq<char>) -> spec_fn(RecordView) -> bool {
    |w: RecordView| w.is_write_success() && w.path == path
}

/// When a record was made.
pub open spec fn time() -> spec_fn(RecordView) -> int {
    |w: RecordView| w.ts as int
}

/// The earliest successful write of `path` in a session.
pub open spec fn earliest_write(s: SessionView, path: Seq<char>) -> Option<RecordView> {
    order::first_min(s.records, writes_of(path), time())
}

/// `path` is among those that the first `n` records write successfully.
pub open spec fn is_written(records: Seq<RecordView>, n: int, path: Seq<char>) -> bool {
    exists|k: int|
        0 <= k < n && (#[trigger] records[k]).is_write_success() && records[k].path == path
}

/// `paths` lists what the first `n` records write successfully, each path
/// once, in ascending order.
pub open spec fn lists_written(records: Seq<RecordView>, n: int, paths: Seq<Seq<char>>) -> bool {
    &&& text::ascending(paths)
    &&& forall|p: Seq<char>| #[trigger] paths.contains(p) <==> is_written(records, n, p)
}

/// The paths that a session writes successfully, each once, in ascending
/// order.
pub open spec fn written_paths(s: SessionView) -> Seq<Seq<char>> {
    choose|paths: Seq<Seq<char>>| lists_written(s.records, s.records.len() as int, paths)
}

/// Two writes close together that touch the same lines.
pub open spec fn collide(wa: RecordView, wb: RecordView, window: i64) -> bool {
    &&& wa.ts != wb.ts
    &&& -window < wa.ts - wb.ts < window
    &&& ranges_overlap((wa.line_start, wa.line_end), (wb.line_start, wb.line_end))
}

/// The candidate for a write and a later one of the same path.
pub open spec fn redundancy(
    path: Seq<char>,
    first: SessionView,
    fw: RecordView,
    second: SessionView,
    sw: RecordView,
) -> CandidateView {
    model::candidate_of(
        "redundant"@,
        path,
        model::cited(first, fw.ts, model::write_excerpt(fw, " (ok)"@)),
        model::cited(second, sw.ts, model::write_excerpt(sw, " (ok, overlapping)"@)),
    )
}

/// What `path` contributes for two sessions: a candidate when their earliest
/// writes of it collide, the earlier writer in front.
pub open spec fn redundancy_on(
    a: SessionView,
    b: SessionView,
    path: Seq<char>,
    window: i64,
) -> Seq<CandidateView> {
    match (earliest_write(a, path), earliest_write(b, path)) {
        (Some(wa), Some(wb)) => if !collide(wa, wb, window) {
            Seq::empty()
        } else if wa.ts <= wb.ts {
            seq![redundancy(path, a, wa, b, wb)]
        } else {
            seq![redundancy(path, b, wb, a, wa)]
        },
        _ => Seq::empty(),
    }
}

/// The candidates for two sessions, path by path.
pub open spec fn redundancies_on(a: SessionView, b: SessionView, window: i64) -> spec_fn(
    int,
) -> Seq<CandidateView> {
    |k: int| redundancy_on(a, b, written_paths(a)[k], window)
}

/// The candidates of session `i` with each session after it.
pub open spec fn redundancies_after(sessions: Seq<SessionView>, i: int, window: i64) -> spec_fn(
    int,
) -> Seq<CandidateView> {
    |d: int|
        order::gather(
            written_paths(sessions[i]).len() as int,
            redundancies_on(sessions[i], sessions[i + 1 + d], window),
        )
}

/// The candidates of each session in turn.
pub open spec fn redundancies_from(sessions: Seq<SessionView>, window: i64) -> spec_fn(int) -> Seq<
    CandidateView,
> {
    |i: int| order::gather(sessions.len() - i - 1, redundancies_after(sessions, i, window))
}

/// All redundant candidates: by pair of sessions, by path.
pub open spec fn redundant_candidates(sessions: Seq<SessionView>, window: i64) -> Seq<
    CandidateView,
> {
    order::gather(sessions.len() as int, redundancies_from(sessions, window))
}

proof fn lemma_insert_text(s: Seq<Seq<char>>, t: Seq<char>) -> (r: Seq<Seq<char>>)
    requires
        text::ascending(s),
        !s.contains(t),
    ensures
        text::ascending(r),
        forall|x: Seq<char>| #[trigger] r.contains(x) <==> s.contains(x) || x == t,
    decreases s.len(),
{
    if s.len() == 0 {
        let r = seq![t];
        assert(r[0] == t);
        r
    } else {
        let last = s.last();
        let front = s.drop_last();
        assert(s.contains(last));
        assert(s =~= front.push(last));
        text::lemma_text_lt_total(t, last);
        if text::text_lt(last, t) {
            let r = s.push(t);
            assert forall|x: Seq<char>| #[trigger] r.contains(x) <==> s.contains(x) || x == t by {
                if s.contains(x) {
                    let k = choose|k: int| 0 <= k < s.len() && s[k] == x;
                    assert(r[k] == x);
                }
                assert(r[s.len() as int] == t);
            }
            assert forall|i: int, j: int|
                #![trigger r[i], r[j]]
                0 <= i < j < r.len() implies text::text_lt(r[i], r[j]) by {
                if j == s.len() && i < s.len() - 1 {
                    assert(text::text_lt(s[i], s[s.len() - 1]));
                    text::lemma_text_lt_transitive(s[i], last, t);
                } else if j < s.len() {
                    assert(text::text_lt(s[i], s[j]));
                }
            }
            r
        } else {
            assert(!front.contains(t)) by {
                if front.contains(t) {
                    let k = choose|k: int| 0 <= k < front.len() && front[k] == t;
                    assert(s[k] == t);
                }
            }
            let inner = lemma_insert_text(front, t);
            let r = inner.push(last);
            assert forall|x: Seq<char>| #[trigger] r.contains(x) <==> s.contains(x) || x == t by {
                assert(inner.contains(x) <==> front.contains(x) || x == t);
                assert(r[inner.len() as int] == last);
                if inner.contains(x) {
                    let k = choose|k: int| 0 <= k < inner.len() && inner[k] == x;
                    assert(r[k] == x);
                }
                if front.contains(x) {
                    let k = choose|k: int| 0 <= k < front.len() && front[k] == x;
                    assert(s[k] == x);
                }
                if r.contains(x) {
                    let k = choose|k: int| 0 <= k < r.len() && r[k] == x;
                    if k < inner.len() {
                        assert(inner[k] == x);
                    }
                }
                if s.contains(x) {
                    let k = choose|k: int| 0 <= k < s.len() && s[k] == x;
                    if k < front.len() {
                        assert(front[k] == x);
                    }
                }
            }
            assert forall|i: int, j: int|
                #![trigger r[i], r[j]]
                0 <= i < j < r.len() implies text::text_lt(r[i], r[j]) by {
                if j == inner.len() {
                    assert(inner[i] == r[i] && inner.contains(inner[i]));
                    if inner[i] != t {
                        let k = choose|k: int| 0 <= k < front.len() && front[k] == inner[i];
                        assert(text::text_lt(s[k], s[s.len() - 1]));
                    }
                } else {
                    assert(text::text_lt(inner[i], inner[j]));
                }
            }
            r
        }
    }
}

proof fn lemma_written_listable(records: Seq<RecordView>, n: int) -> (paths: Seq<Seq<char>>)
    requires
        0 <= n <= records.len(),
    ensures
        lists_written(records, n, paths),
    decreases n,
{
    if n == 0 {
        Seq::empty()
    } else {
        let front = lemma_written_listable(records, n - 1);
        let r = records[n - 1];
        let paths = if r.is_write_success() && !front.contains(r.path) {
            lemma_insert_text(front, r.path)
        } else {
            front
        };
        assert forall|p: Seq<char>| #[trigger] paths.contains(p) <==> is_written(records, n, p) by {
            assert(front.contains(p) <==> is_written(records, n - 1, p));
            if r.is_write_success() && p == r.path {
                assert(records[n - 1].is_write_success() && records[n - 1].path == p);
            }
        }
        paths
    }
}

/// The list of a session's written paths holds each of them once, in ascending
/// order, and nothing else.
pub proof fn lemma_lists_written(s: SessionView)
    ensures
        lists_written(s.records, s.records.len() as int, written_paths(s)),
{
    let paths = lemma_written_listable(s.records, s.records.len() as int);
}

/// A session's list of written paths is determined by its records.
pub proof fn lemma_written_paths(s: SessionView, paths: Seq<Seq<char>>)
    requires
        lists_written(s.records, s.records.len() as int, paths),
    ensures
        written_paths(s) == paths,
{
    let other = written_paths(s);
    let n = s.records.len() as int;
    assert(lists_written(s.records, n, other));
    assert forall|p: Seq<char>| paths.contains(p) <==> #[trigger] other.contains(p) by {
        assert(paths.contains(p) <==> is_written(s.records, n, p));
    }
    text::lemma_ascending_unique(paths, other);
}

/// The earliest successful write of `path` in `s`.
fn find_write<'a>(s: &'a Session, path: &String) -> (found: Option<&'a CrossRecord>)
    ensures
        found.deep_view() == earliest_write(s@, path@),
{
    let ghost records = s@.records;
    let ghost ok = writes_of(path@);
    let ghost key = time();
    let mut best: Option<usize> = None;
    let mut best_ts: i64 = 0;
    let mut n: usize = 0;
    proof {
        order::lemma_scan_starts(records, ok, key);
    }
    while n < s.records.len()
        invariant
            n <= s.records.len(),
            records == s@.records,
            ok == writes_of(path@),
            key == time(),
            order::scanned(records, n as int, ok, key, best),
            best is Some ==> best->0 < n && best_ts == key(records[best->0 as int]),
        decreases s.records.len() - n,
    {
        let w = &s.records[n];
        assert(records[n as int] == w@);
        proof {
            order::lemma_scan_step(records, n as int, ok, key, best);
        }
        if w.is_write_success() && w.path == *path && (best.is_none() || w.ts < best_ts) {
            best = Some(n);
            best_ts = w.ts;
        }
        n = n + 1;
    }
    proof {
        order::lemma_scan_ends(records, ok, key, best);
    }
    match best {
        Some(k) => Some(&s.records[k]),
        None => None,
    }
}

/// The paths that `s` writes successfully, each once, in ascending order.
fn list_written(s: &Session) -> (paths: Vec<String>)
    ensures
        paths.deep_view() == written_paths(s@),
{
    let ghost records = s@.records;
    let mut paths: Vec<String> = Vec::new();
    let mut n: usize = 0;
    while n < s.records.len()
        invariant
            n <= s.records.len(),
            records == s@.records,
            lists_written(records, n as int, paths.deep_view()),
        decreases s.records.len() - n,
    {
        let w = &s.records[n];
        let ghost before = paths.deep_view();
        assert(records[n as int] == w@);
        let wrote = w.is_write_success();
        if wrote {
            text::insert_ascending(&mut paths, &w.path);
        }
        n = n + 1;
        assert forall|p: Seq<char>|
            #[trigger] paths.deep_view().contains(p) <==> is_written(records, n as int, p) by {
            assert(before.contains(p) <==> is_written(records, n - 1, p));
            if wrote && p == w@.path {
                assert(records[n - 1].is_write_success() && records[n - 1].path == p);
            }
        }
    }
    proof {
        lemma_written_paths(s@, paths.deep_view());
    }
    paths
}

/// Whether two writes are close together and touch the same lines.
fn writes_collide(wa: &CrossRecord, wb: &CrossRecord, window: i64) -> (yes: bool)
    ensures
        yes == collide(wa@, wb@, window),
{
    let dt: i128 = wa.ts as i128 - wb.ts as i128;
    wa.ts != wb.ts && -(window as i128) < dt && dt < window as i128 && line_ranges_overlap(
        (wa.line_start, wa.line_end),
        (wb.line_start, wb.line_end),
    )
}

/// The candidate for a write and a later one of the same path.
fn make_redundancy(
    path: &String,
    first: &Session,
    fw: &CrossRecord,
    second: &Session,
    sw: &CrossRecord,
) -> (candidate: CrossCandidate)
    ensures
        candidate@ == redundancy(path@, first@, fw@, second@, sw@),
{
    let earlier = CrossEvidence {
        session: first.sid.clone(),
        ts: fw.ts,
        excerpt: model::describe_write(fw, " (ok)"),
    };
    let later = CrossEvidence {
        session: second.sid.clone(),
        ts: sw.ts,
        excerpt: model::describe_write(sw, " (ok, overlapping)"),
    };
    model::make_candidate("redundant", path, earlier, later)
}

/// Adds the candidates for two sessions to `out`; `paths` are those that `a`
/// writes.
fn compare_writes(
    a: &Session,
    b: &Session,
    paths: &Vec<String>,
    window: i64,
    out: &mut Vec<CrossCandidate>,
)
    requires
        paths.deep_view() == written_paths(a@),
    ensures
        final(out).deep_view() == old(out).deep_view() + order::gather(
            written_paths(a@).len() as int,
            redundancies_on(a@, b@, window),
        ),
{
    let ghost f = redundancies_on(a@, b@, window);
    let mut k: usize = 0;
    while k < paths.len()
        invariant
            k <= paths.len(),
            paths.deep_view() == written_paths(a@),
            f == redundancies_on(a@, b@, window),
            out.deep_view() =~= old(out).deep_view() + order::gather(k as int, f),
        decreases paths.len() - k,
    {
        let path = &paths[k];
        let ghost before = out.deep_view();
        assert(paths.deep_view()[k as int] == path@);
        if let (Some(wa), Some(wb)) = (find_write(a, path), find_write(b, path)) {
            if writes_collide(wa, wb, window) {
                if wa.ts <= wb.ts {
                    out.push(make_redundancy(path, a, wa, b, wb));
                } else {
                    out.push(make_redundancy(path, b, wb, a, wa));
                }
            }
        }
        assert(out.deep_view() =~= before + f(k as int));
        k = k + 1;
    }
}

/// Finds the paths that two sessions write close together.
///
/// Two sessions both write a path successfully with `0 < dt < window` between
/// their earliest writes of it, and the edited line ranges overlap (or one of
/// them is absent). Each pair of sessions yields at most one candidate per
/// path, the earlier writer in front. Times however far apart are compared
/// exactly.
#[must_use]
pub fn detect_redundant(sessions: &[Session], window: i64) -> (out: Vec<CrossCandidate>)
    ensures
        out.deep_view() == redundant_candidates(sessions.deep_view(), window),
{
    let ghost all = sessions.deep_view();
    let ghost f = redundancies_from(all, window);
    let mut out: Vec<CrossCandidate> = Vec::new();
    let mut i: usize = 0;
    while i < sessions.len()
        invariant
            i <= sessions.len(),
            all == sessions.deep_view(),
            f == redundancies_from(all, window),
            out.deep_view() =~= order::gather(i as int, f),
        decreases sessions.len() - i,
    {
        let a = &sessions[i];
        let ghost before = out.deep_view();
        let ghost g = redundancies_after(all, i as int, window);
        assert(all[i as int] == a@);
        let paths = list_written(a);
        let mut j: usize = i + 1;
        while j < sessions.len()
            invariant
                i < j <= sessions.len(),
                all == sessions.deep_view(),
                a@ == all[i as int],
                paths.deep_view() == written_paths(a@),
                g == redundancies_after(all, i as int, window),
                out.deep_view() =~= before + order::gather(j - i - 1, g),
            decreases sessions.len() - j,
        {
            let ghost mid = out.deep_view();
            assert(all[j as int] == sessions[j as int]@);
            compare_writes(a, &sessions[j], &paths, window, &mut out);
            assert(out.deep_view() =~= mid + g(j - i - 1));
            j = j + 1;
        }
        assert(out.deep_view() =~= before + f(i as int));
        i = i + 1;
    }
    out
}

} // verus!
