//! The order in which sessions are handed in does not matter, and a narrower
//! window only takes candidates out.

use vstd::prelude::*;

use crate::corrective;
use crate::laws;
use crate::model;
use crate::model::{CandidateView, RecordView, SessionView};
use crate::observe;
use crate::order;
use crate::redundant;
use crate::rescue;
use crate::text;

verus! {

/// No two sessions have the same id.
pub open spec fn distinct_ids(sessions: Seq<SessionView>) -> bool {
    forall|i: int, j: int|
        #![trigger sessions[i], sessions[j]]
        0 <= i < j < sessions.len() ==> sessions[i].sid != sessions[j].sid
}

/// The same sessions, perhaps in another order.
pub open spec fn same_sessions(s1: Seq<SessionView>, s2: Seq<SessionView>) -> bool {
    s1.to_multiset() == s2.to_multiset()
}

proof fn lemma_same_sessions(s1: Seq<SessionView>, s2: Seq<SessionView>)
    requires
        distinct_ids(s1),
        same_sessions(s1, s2),
    ensures
        distinct_ids(s2),
        forall|x: SessionView| s1.contains(x) <==> s2.contains(x),
{
    broadcast use vstd::seq_lib::group_to_multiset_ensures;

    assert forall|x: SessionView| s1.contains(x) <==> s2.contains(x) by {
        assert(s1.contains(x) <==> s1.to_multiset().contains(x));
        assert(s2.contains(x) <==> s2.to_multiset().contains(x));
    }
    assert(s1.no_duplicates()) by {
        assert forall|i: int, j: int|
            0 <= i < s1.len() && 0 <= j < s1.len() && i != j implies s1[i] != s1[j] by {
            if i < j {
                assert(s1[i].sid != s1[j].sid);
            } else {
                assert(s1[j].sid != s1[i].sid);
            }
        }
    }
    s1.lemma_multiset_has_no_duplicates();
    s2.lemma_multiset_has_no_duplicates_conv();
    assert forall|i: int, j: int|
        #![trigger s2[i], s2[j]]
        0 <= i < j < s2.len() implies s2[i].sid != s2[j].sid by {
        assert(s2.contains(s2[i]) && s2.contains(s2[j]));
        assert(s1.contains(s2[i]) && s1.contains(s2[j]));
        let u = choose|u: int| 0 <= u < s1.len() && s1[u] == s2[i];
        let v = choose|v: int| 0 <= v < s1.len() && s1[v] == s2[j];
        assert(s2[i] != s2[j]);
        if u < v {
            assert(s1[u].sid != s1[v].sid);
        } else {
            assert(s1[v].sid != s1[u].sid);
        }
    }
}

/// Pieces that depend on a session alone, and are empty but for the session of
/// one id, make the same whole whatever the order of the sessions.
proof fn lemma_one_session(
    s1: Seq<SessionView>,
    s2: Seq<SessionView>,
    f1: spec_fn(int) -> Seq<CandidateView>,
    f2: spec_fn(int) -> Seq<CandidateView>,
    h: spec_fn(SessionView) -> Seq<CandidateView>,
    id: Seq<char>,
)
    requires
        distinct_ids(s1),
        distinct_ids(s2),
        forall|x: SessionView| s1.contains(x) <==> s2.contains(x),
        forall|i: int| 0 <= i < s1.len() ==> #[trigger] f1(i) == h(s1[i]),
        forall|i: int| 0 <= i < s2.len() ==> #[trigger] f2(i) == h(s2[i]),
        forall|x: SessionView| (#[trigger] h(x)).len() > 0 ==> x.sid == id,
    ensures
        order::gather(s1.len() as int, f1) == order::gather(s2.len() as int, f2),
{
    if exists|i: int| 0 <= i < s1.len() && (#[trigger] s1[i]).sid == id {
        let i = choose|i: int| 0 <= i < s1.len() && (#[trigger] s1[i]).sid == id;
        assert(s1.contains(s1[i]));
        assert(s2.contains(s1[i]));
        let j = choose|j: int| 0 <= j < s2.len() && s2[j] == s1[i];
        assert forall|k: int| 0 <= k < s1.len() && k != i implies (#[trigger] f1(k)).len() == 0 by {
            assert(f1(k) == h(s1[k]));
            if k < i {
                assert(s1[k].sid != s1[i].sid);
            } else {
                assert(s1[i].sid != s1[k].sid);
            }
        }
        assert forall|k: int| 0 <= k < s2.len() && k != j implies (#[trigger] f2(k)).len() == 0 by {
            assert(f2(k) == h(s2[k]));
            if k < j {
                assert(s2[k].sid != s2[j].sid);
            } else {
                assert(s2[j].sid != s2[k].sid);
            }
        }
        order::lemma_gather_one(s1.len() as int, f1, i);
        order::lemma_gather_one(s2.len() as int, f2, j);
        assert(f1(i) == f2(j));
    } else {
        assert forall|k: int| 0 <= k < s1.len() implies (#[trigger] f1(k)).len() == 0 by {
            assert(f1(k) == h(s1[k]));
        }
        assert forall|k: int| 0 <= k < s2.len() implies (#[trigger] f2(k)).len() == 0 by {
            assert(f2(k) == h(s2[k]));
            assert(s2.contains(s2[k]));
            if s2[k].sid == id {
                let i = choose|i: int| 0 <= i < s1.len() && s1[i] == s2[k];
                assert(s1[i].sid == id);
            }
        }
        order::lemma_gather_none(s1.len() as int, f1);
        order::lemma_gather_none(s2.len() as int, f2);
    }
}

/// The candidates that the report does not tell apart from `c`.
spec fn like(c: CandidateView) -> spec_fn(CandidateView) -> bool {
    order::tied(c, observe::report_order())
}

proof fn lemma_like(c: CandidateView, d: CandidateView)
    requires
        like(c)(d),
    ensures
        d.participants == c.participants,
{
    text::lemma_text_lt_total(c.context, d.context);
    text::lemma_texts_lt_order(c.participants, d.participants, c.participants);
}

proof fn lemma_first_of_filter(s: Seq<CandidateView>, c: CandidateView) -> (d: CandidateView)
    requires
        s.filter(like(c)).len() > 0,
    ensures
        s.contains(d),
        d.participants == c.participants,
{
    let d = s.filter(like(c))[0];
    assert(s.filter(like(c)).contains(d));
    order::lemma_filter_member(s, like(c), d);
    lemma_like(c, d);
    d
}

proof fn lemma_corrections_of_error(
    s1: Seq<SessionView>,
    s2: Seq<SessionView>,
    a: SessionView,
    err: RecordView,
    window: i64,
    c: CandidateView,
)
    requires
        distinct_ids(s1),
        distinct_ids(s2),
        forall|x: SessionView| s1.contains(x) <==> s2.contains(x),
    ensures
        order::gather(s1.len() as int, corrective::corrections_of(s1, a, err, window)).filter(
            like(c),
        ) == order::gather(s2.len() as int, corrective::corrections_of(s2, a, err, window)).filter(
            like(c),
        ),
{
    let f1 = corrective::corrections_of(s1, a, err, window);
    let f2 = corrective::corrections_of(s2, a, err, window);
    let g1 = |i: int| f1(i).filter(like(c));
    let g2 = |i: int| f2(i).filter(like(c));
    let h = |b: SessionView| corrective::corrections_by(a, err, b, window).filter(like(c));
    order::lemma_gather_filter(s1.len() as int, f1, like(c));
    order::lemma_gather_filter(s2.len() as int, f2, like(c));
    assert forall|b: SessionView| (#[trigger] h(b)).len() > 0 implies b.sid
        == c.participants[1] by {
        let d = lemma_first_of_filter(corrective::corrections_by(a, err, b, window), c);
        assert(d.participants[1] == b.sid);
    }
    lemma_one_session(s1, s2, g1, g2, h, c.participants[1]);
}

proof fn lemma_corrections_in(
    s1: Seq<SessionView>,
    s2: Seq<SessionView>,
    a: SessionView,
    window: i64,
    c: CandidateView,
)
    requires
        distinct_ids(s1),
        distinct_ids(s2),
        forall|x: SessionView| s1.contains(x) <==> s2.contains(x),
    ensures
        order::gather(a.records.len() as int, corrective::corrections_in(s1, a, window)).filter(
            like(c),
        ) == order::gather(a.records.len() as int, corrective::corrections_in(s2, a, window)).filter(
            like(c),
        ),
{
    let n = a.records.len() as int;
    let f1 = corrective::corrections_in(s1, a, window);
    let f2 = corrective::corrections_in(s2, a, window);
    let g1 = |i: int| f1(i).filter(like(c));
    let g2 = |i: int| f2(i).filter(like(c));
    order::lemma_gather_filter(n, f1, like(c));
    order::lemma_gather_filter(n, f2, like(c));
    assert forall|e: int| 0 <= e < n implies #[trigger] g1(e) == g2(e) by {
        if a.records[e].is_path_error() {
            lemma_corrections_of_error(s1, s2, a, a.records[e], window, c);
        }
    }
    order::lemma_gather_same(n, g1, g2);
}

proof fn lemma_corrective_group(
    s1: Seq<SessionView>,
    s2: Seq<SessionView>,
    window: i64,
    c: CandidateView,
)
    requires
        distinct_ids(s1),
        distinct_ids(s2),
        forall|x: SessionView| s1.contains(x) <==> s2.contains(x),
    ensures
        corrective::corrective_candidates(s1, window).filter(like(c))
            == corrective::corrective_candidates(s2, window).filter(like(c)),
{
    let f1 = corrective::corrections_from(s1, window);
    let f2 = corrective::corrections_from(s2, window);
    let g1 = |i: int| f1(i).filter(like(c));
    let g2 = |i: int| f2(i).filter(like(c));
    let whole = |a: SessionView|
        order::gather(a.records.len() as int, corrective::corrections_in(s1, a, window));
    let h = |a: SessionView| whole(a).filter(like(c));
    order::lemma_gather_filter(s1.len() as int, f1, like(c));
    order::lemma_gather_filter(s2.len() as int, f2, like(c));
    assert forall|i: int| 0 <= i < s2.len() implies #[trigger] g2(i) == h(s2[i]) by {
        lemma_corrections_in(s1, s2, s2[i], window, c);
    }
    assert forall|a: SessionView| (#[trigger] h(a)).len() > 0 implies a.sid
        == c.participants[0] by {
        let d = lemma_first_of_filter(whole(a), c);
        let within = corrective::corrections_in(s1, a, window);
        order::lemma_gather_contains(a.records.len() as int, within, d);
        let e = choose|e: int| 0 <= e < a.records.len() && (#[trigger] within(e)).contains(d);
        let given = corrective::corrections_of(s1, a, a.records[e], window);
        order::lemma_gather_contains(s1.len() as int, given, d);
        let j = choose|j: int| 0 <= j < s1.len() && (#[trigger] given(j)).contains(d);
        assert(d.participants[0] == a.sid);
    }
    lemma_one_session(s1, s2, g1, g2, h, c.participants[0]);
}

proof fn lemma_recoveries_of_error(
    s1: Seq<SessionView>,
    s2: Seq<SessionView>,
    a: SessionView,
    err: RecordView,
    stall: i64,
    rescue: i64,
    c: CandidateView,
)
    requires
        distinct_ids(s1),
        distinct_ids(s2),
        forall|x: SessionView| s1.contains(x) <==> s2.contains(x),
    ensures
        order::gather(s1.len() as int, rescue::recoveries_of(s1, a, err, stall, rescue)).filter(
            like(c),
        ) == order::gather(
            s2.len() as int,
            rescue::recoveries_of(s2, a, err, stall, rescue),
        ).filter(like(c)),
{
    let f1 = rescue::recoveries_of(s1, a, err, stall, rescue);
    let f2 = rescue::recoveries_of(s2, a, err, stall, rescue);
    let g1 = |i: int| f1(i).filter(like(c));
    let g2 = |i: int| f2(i).filter(like(c));
    let h = |b: SessionView| rescue::recovery_by(a, err, b, stall, rescue).filter(like(c));
    order::lemma_gather_filter(s1.len() as int, f1, like(c));
    order::lemma_gather_filter(s2.len() as int, f2, like(c));
    assert forall|b: SessionView| (#[trigger] h(b)).len() > 0 implies b.sid
        == c.participants[1] by {
        let d = lemma_first_of_filter(rescue::recovery_by(a, err, b, stall, rescue), c);
        assert(d.participants[1] == b.sid);
    }
    lemma_one_session(s1, s2, g1, g2, h, c.participants[1]);
}

proof fn lemma_recoveries_in(
    s1: Seq<SessionView>,
    s2: Seq<SessionView>,
    a: SessionView,
    stall: i64,
    rescue: i64,
    c: CandidateView,
)
    requires
        distinct_ids(s1),
        distinct_ids(s2),
        forall|x: SessionView| s1.contains(x) <==> s2.contains(x),
    ensures
        order::gather(
            a.records.len() as int,
            rescue::recoveries_in(s1, a, stall, rescue),
        ).filter(like(c)) == order::gather(
            a.records.len() as int,
            rescue::recoveries_in(s2, a, stall, rescue),
        ).filter(like(c)),
{
    let n = a.records.len() as int;
    let f1 = rescue::recoveries_in(s1, a, stall, rescue);
    let f2 = rescue::recoveries_in(s2, a, stall, rescue);
    let g1 = |i: int| f1(i).filter(like(c));
    let g2 = |i: int| f2(i).filter(like(c));
    order::lemma_gather_filter(n, f1, like(c));
    order::lemma_gather_filter(n, f2, like(c));
    assert forall|e: int| 0 <= e < n implies #[trigger] g1(e) == g2(e) by {
        if a.records[e].is_path_error() && rescue::quiet_after(a, a.records[e].ts, stall) {
            lemma_recoveries_of_error(s1, s2, a, a.records[e], stall, rescue, c);
        }
    }
    order::lemma_gather_same(n, g1, g2);
}

proof fn lemma_rescue_group(
    s1: Seq<SessionView>,
    s2: Seq<SessionView>,
    stall: i64,
    rescue: i64,
    c: CandidateView,
)
    requires
        distinct_ids(s1),
        distinct_ids(s2),
        forall|x: SessionView| s1.contains(x) <==> s2.contains(x),
    ensures
        rescue::rescue_candidates(s1, stall, rescue).filter(like(c)) == rescue::rescue_candidates(
            s2,
            stall,
            rescue,
        ).filter(like(c)),
{
    let f1 = rescue::recoveries_from(s1, stall, rescue);
    let f2 = rescue::recoveries_from(s2, stall, rescue);
    let g1 = |i: int| f1(i).filter(like(c));
    let g2 = |i: int| f2(i).filter(like(c));
    let whole = |a: SessionView|
        order::gather(a.records.len() as int, rescue::recoveries_in(s1, a, stall, rescue));
    let h = |a: SessionView| whole(a).filter(like(c));
    order::lemma_gather_filter(s1.len() as int, f1, like(c));
    order::lemma_gather_filter(s2.len() as int, f2, like(c));
    assert forall|i: int| 0 <= i < s2.len() implies #[trigger] g2(i) == h(s2[i]) by {
        lemma_recoveries_in(s1, s2, s2[i], stall, rescue, c);
    }
    assert forall|a: SessionView| (#[trigger] h(a)).len() > 0 implies a.sid
        == c.participants[0] by {
        let d = lemma_first_of_filter(whole(a), c);
        let within = rescue::recoveries_in(s1, a, stall, rescue);
        order::lemma_gather_contains(a.records.len() as int, within, d);
        let e = choose|e: int| 0 <= e < a.records.len() && (#[trigger] within(e)).contains(d);
        let given = rescue::recoveries_of(s1, a, a.records[e], stall, rescue);
        order::lemma_gather_contains(s1.len() as int, given, d);
        let j = choose|j: int| 0 <= j < s1.len() && (#[trigger] given(j)).contains(d);
        assert(d.participants[0] == a.sid);
    }
    lemma_one_session(s1, s2, g1, g2, h, c.participants[0]);
}

/// All redundant candidates of two sessions.
spec fn between(a: SessionView, b: SessionView, window: i64) -> Seq<CandidateView> {
    order::gather(
        redundant::written_paths(a).len() as int,
        redundant::redundancies_on(a, b, window),
    )
}

proof fn lemma_between_member(a: SessionView, b: SessionView, window: i64, c: CandidateView)
    ensures
        between(a, b, window).contains(c) <==> exists|path: Seq<char>|
            (#[trigger] redundant::redundancy_on(a, b, path, window)).contains(c),
        between(a, b, window).contains(c) ==> c.participants == seq![a.sid, b.sid] || c.participants
            == seq![b.sid, a.sid],
{
    let paths = redundant::written_paths(a);
    let on = redundant::redundancies_on(a, b, window);
    order::lemma_gather_contains(paths.len() as int, on, c);
    if between(a, b, window).contains(c) {
        let k = choose|k: int| 0 <= k < paths.len() && (#[trigger] on(k)).contains(c);
        assert(redundant::redundancy_on(a, b, paths[k], window).contains(c));
    }
    if exists|path: Seq<char>|
        (#[trigger] redundant::redundancy_on(a, b, path, window)).contains(c) {
        let path = choose|path: Seq<char>|
            (#[trigger] redundant::redundancy_on(a, b, path, window)).contains(c);
        laws::lemma_earliest_write(a, path);
        let k = choose|k: int| 0 <= k < paths.len() && paths[k] == path;
        assert(on(k).contains(c));
    }
}

/// The paths of two sessions' redundant candidates.
spec fn paths_between(a: SessionView, b: SessionView, window: i64) -> Seq<Seq<char>> {
    between(a, b, window).map_values(|c: CandidateView| c.paths[0])
}

proof fn lemma_path_between(a: SessionView, b: SessionView, window: i64, x: int)
    requires
        0 <= x < between(a, b, window).len(),
    ensures
        redundant::redundancy_on(a, b, between(a, b, window)[x].paths[0], window) == seq![
            between(a, b, window)[x],
        ],
{
    let c = between(a, b, window)[x];
    assert(between(a, b, window).contains(c));
    lemma_between_member(a, b, window, c);
    let path = choose|path: Seq<char>|
        (#[trigger] redundant::redundancy_on(a, b, path, window)).contains(c);
    let found = redundant::redundancy_on(a, b, path, window);
    assert(c.paths[0] == path);
    assert(found =~= seq![c]);
}

proof fn lemma_between_symmetric(a: SessionView, b: SessionView, window: i64)
    ensures
        between(a, b, window) == between(b, a, window),
{
    let one = between(a, b, window);
    let two = between(b, a, window);
    let p1 = paths_between(a, b, window);
    let p2 = paths_between(b, a, window);
    laws::lemma_paths_ascend(a, b, window, redundant::written_paths(a).len() as int);
    laws::lemma_paths_ascend(b, a, window, redundant::written_paths(b).len() as int);
    assert(text::ascending(p1));
    assert(text::ascending(p2));
    assert forall|t: Seq<char>| p1.contains(t) <==> p2.contains(t) by {
        if p1.contains(t) {
            lemma_path_moves(a, b, window, t);
        }
        if p2.contains(t) {
            lemma_path_moves(b, a, window, t);
        }
    }
    text::lemma_ascending_unique(p1, p2);
    assert(one.len() == two.len());
    assert forall|x: int| 0 <= x < one.len() implies one[x] == two[x] by {
        assert(p1[x] == p2[x]);
        lemma_path_between(a, b, window, x);
        lemma_path_between(b, a, window, x);
        laws::law_redundancy_symmetric(a, b, p1[x], window);
        assert(seq![one[x]][0] == seq![two[x]][0]);
    }
    assert(one =~= two);
}

proof fn lemma_path_moves(a: SessionView, b: SessionView, window: i64, t: Seq<char>)
    requires
        paths_between(a, b, window).contains(t),
    ensures
        paths_between(b, a, window).contains(t),
{
    let p1 = paths_between(a, b, window);
    let p2 = paths_between(b, a, window);
    let x = choose|x: int| 0 <= x < p1.len() && p1[x] == t;
    let c = between(a, b, window)[x];
    lemma_path_between(a, b, window, x);
    laws::law_redundancy_symmetric(a, b, t, window);
    assert(redundant::redundancy_on(b, a, t, window)[0] == c);
    assert(redundant::redundancy_on(b, a, t, window).contains(c));
    lemma_between_member(b, a, window, c);
    let two = between(b, a, window);
    let y = choose|y: int| 0 <= y < two.len() && two[y] == c;
    assert(p2[y] == t);
}

proof fn lemma_after_piece(s: Seq<SessionView>, i: int, d: int, window: i64)
    requires
        0 <= i < s.len(),
    ensures
        redundant::redundancies_after(s, i, window)(d) == between(s[i], s[i + 1 + d], window),
{
}

/// What two sessions contribute to the candidates that are not told apart from
/// `c` is all of them.
proof fn lemma_redundant_pair(s: Seq<SessionView>, window: i64, c: CandidateView, u: int, v: int)
    requires
        distinct_ids(s),
        0 <= u < v < s.len(),
        c.participants == seq![s[u].sid, s[v].sid] || c.participants == seq![s[v].sid, s[u].sid],
    ensures
        redundant::redundant_candidates(s, window).filter(like(c)) == between(
            s[u],
            s[v],
            window,
        ).filter(like(c)),
{
    let n = s.len() as int;
    let t = like(c);
    let from = redundant::redundancies_from(s, window);
    let kept = |i: int| from(i).filter(t);
    order::lemma_gather_filter(n, from, t);
    assert forall|i: int, d: int|
        0 <= i < n && 0 <= d < n - i - 1 && !(i == u && i + 1 + d == v) implies (
    #[trigger] redundant::redundancies_after(s, i, window)(d)).filter(t).len() == 0 by {
        let j = i + 1 + d;
        let piece = between(s[i], s[j], window);
        lemma_after_piece(s, i, d, window);
        if piece.filter(t).len() > 0 {
            let e = lemma_first_of_filter(piece, c);
            lemma_between_member(s[i], s[j], window, e);
            assert(s[i].sid != s[j].sid);
            let p = c.participants;
            assert((p[0] == s[i].sid && p[1] == s[j].sid) || (p[0] == s[j].sid && p[1]
                == s[i].sid));
            assert((p[0] == s[u].sid && p[1] == s[v].sid) || (p[0] == s[v].sid && p[1]
                == s[u].sid));
            lemma_same_index(s, i, u);
            lemma_same_index(s, i, v);
            lemma_same_index(s, j, u);
            lemma_same_index(s, j, v);
        }
    }
    assert forall|i: int| 0 <= i < n implies #[trigger] kept(i) == order::gather(
        n - i - 1,
        |d: int| redundant::redundancies_after(s, i, window)(d).filter(t),
    ) by {
        order::lemma_gather_filter(n - i - 1, redundant::redundancies_after(s, i, window), t);
    }
    assert forall|i: int| 0 <= i < n && i != u implies (#[trigger] kept(i)).len() == 0 by {
        let g = |d: int| redundant::redundancies_after(s, i, window)(d).filter(t);
        assert forall|d: int| 0 <= d < n - i - 1 implies (#[trigger] g(d)).len() == 0 by {
            assert(redundant::redundancies_after(s, i, window)(d).filter(t).len() == 0);
        }
        order::lemma_gather_none(n - i - 1, g);
    }
    order::lemma_gather_one(n, kept, u);
    let g = |d: int| redundant::redundancies_after(s, u, window)(d).filter(t);
    let at = v - u - 1;
    assert forall|d: int| 0 <= d < n - u - 1 && d != at implies (#[trigger] g(d)).len() == 0 by {
        assert(redundant::redundancies_after(s, u, window)(d).filter(t).len() == 0);
    }
    order::lemma_gather_one(n - u - 1, g, at);
    lemma_after_piece(s, u, at, window);
}

proof fn lemma_same_index(s: Seq<SessionView>, i: int, j: int)
    requires
        distinct_ids(s),
        0 <= i < s.len(),
        0 <= j < s.len(),
    ensures
        s[i].sid == s[j].sid ==> i == j,
{
    if i < j {
        assert(s[i].sid != s[j].sid);
    } else if j < i {
        assert(s[j].sid != s[i].sid);
    }
}

proof fn lemma_redundant_group(
    s1: Seq<SessionView>,
    s2: Seq<SessionView>,
    window: i64,
    c: CandidateView,
)
    requires
        distinct_ids(s1),
        distinct_ids(s2),
        forall|x: SessionView| s1.contains(x) <==> s2.contains(x),
    ensures
        redundant::redundant_candidates(s1, window).filter(like(c))
            == redundant::redundant_candidates(s2, window).filter(like(c)),
{
    let r1 = redundant::redundant_candidates(s1, window).filter(like(c));
    let r2 = redundant::redundant_candidates(s2, window).filter(like(c));
    if r1.len() > 0 {
        lemma_redundant_group_from(s1, s2, window, c);
    } else if r2.len() > 0 {
        lemma_redundant_group_from(s2, s1, window, c);
    } else {
        assert(r1 =~= r2);
    }
}

proof fn lemma_redundant_group_from(
    s1: Seq<SessionView>,
    s2: Seq<SessionView>,
    window: i64,
    c: CandidateView,
)
    requires
        distinct_ids(s1),
        distinct_ids(s2),
        forall|x: SessionView| s1.contains(x) <==> s2.contains(x),
        redundant::redundant_candidates(s1, window).filter(like(c)).len() > 0,
    ensures
        redundant::redundant_candidates(s1, window).filter(like(c))
            == redundant::redundant_candidates(s2, window).filter(like(c)),
{
    let d = lemma_first_of_filter(redundant::redundant_candidates(s1, window), c);
    laws::law_redundant_exact(s1, window, d);
    let (i, j, path) = choose|i: int, j: int, path: Seq<char>|
        0 <= i < j < s1.len() && (#[trigger] redundant::redundancy_on(
            s1[i],
            s1[j],
            path,
            window,
        )).contains(d);
    assert(c.participants == seq![s1[i].sid, s1[j].sid] || c.participants == seq![
        s1[j].sid,
        s1[i].sid,
    ]);
    lemma_redundant_pair(s1, window, c, i, j);
    assert(s1.contains(s1[i]) && s1.contains(s1[j]));
    assert(s2.contains(s1[i]) && s2.contains(s1[j]));
    let u = choose|u: int| 0 <= u < s2.len() && s2[u] == s1[i];
    let v = choose|v: int| 0 <= v < s2.len() && s2[v] == s1[j];
    assert(s1[i].sid != s1[j].sid);
    if u < v {
        lemma_redundant_pair(s2, window, c, u, v);
    } else {
        lemma_redundant_pair(s2, window, c, v, u);
        lemma_between_symmetric(s1[i], s1[j], window);
    }
}

/// The order in which sessions are handed in changes neither which corrections
/// there are nor how often each is found.
pub proof fn law_corrective_permutation(
    s1: Seq<SessionView>,
    s2: Seq<SessionView>,
    window: i64,
)
    requires
        distinct_ids(s1),
        same_sessions(s1, s2),
    ensures
        corrective::corrective_candidates(s1, window).to_multiset()
            == corrective::corrective_candidates(s2, window).to_multiset(),
{
    lemma_same_sessions(s1, s2);
    laws::lemma_report_order();
    let a = corrective::corrective_candidates(s1, window);
    let b = corrective::corrective_candidates(s2, window);
    assert forall|c: CandidateView|
        a.filter(#[trigger] order::tied(c, observe::report_order())) == b.filter(
            order::tied(c, observe::report_order()),
        ) by {
        lemma_corrective_group(s1, s2, window, c);
    }
    order::lemma_same_ties(a, b, observe::report_order());
}

/// The order in which sessions are handed in changes neither which redundant
/// candidates there are, with their participants and evidence in order, nor
/// how often each is found.
pub proof fn law_redundant_permutation(
    s1: Seq<SessionView>,
    s2: Seq<SessionView>,
    window: i64,
)
    requires
        distinct_ids(s1),
        same_sessions(s1, s2),
    ensures
        redundant::redundant_candidates(s1, window).to_multiset()
            == redundant::redundant_candidates(s2, window).to_multiset(),
{
    lemma_same_sessions(s1, s2);
    laws::lemma_report_order();
    let a = redundant::redundant_candidates(s1, window);
    let b = redundant::redundant_candidates(s2, window);
    assert forall|c: CandidateView|
        a.filter(#[trigger] order::tied(c, observe::report_order())) == b.filter(
            order::tied(c, observe::report_order()),
        ) by {
        lemma_redundant_group(s1, s2, window, c);
    }
    order::lemma_same_ties(a, b, observe::report_order());
}

/// The order in which sessions are handed in changes neither which rescues
/// there are nor how often each is found.
pub proof fn law_rescue_permutation(
    s1: Seq<SessionView>,
    s2: Seq<SessionView>,
    stall: i64,
    rescue: i64,
)
    requires
        distinct_ids(s1),
        same_sessions(s1, s2),
    ensures
        rescue::rescue_candidates(s1, stall, rescue).to_multiset() == rescue::rescue_candidates(
            s2,
            stall,
            rescue,
        ).to_multiset(),
{
    lemma_same_sessions(s1, s2);
    laws::lemma_report_order();
    let a = rescue::rescue_candidates(s1, stall, rescue);
    let b = rescue::rescue_candidates(s2, stall, rescue);
    assert forall|c: CandidateView|
        a.filter(#[trigger] order::tied(c, observe::report_order())) == b.filter(
            order::tied(c, observe::report_order()),
        ) by {
        lemma_rescue_group(s1, s2, stall, rescue, c);
    }
    order::lemma_same_ties(a, b, observe::report_order());
}

/// The order in which sessions are handed in leaves the report as it is, down
/// to the order of its candidates.
pub proof fn law_report_permutation(s1: Seq<SessionView>, s2: Seq<SessionView>)
    requires
        distinct_ids(s1),
        same_sessions(s1, s2),
    ensures
        observe::report(s1) == observe::report(s2),
{
    lemma_same_sessions(s1, s2);
    laws::lemma_report_order();
    let cw = model::CORRECTIVE_WINDOW_SECS;
    let rw = model::REDUNDANT_WINDOW_SECS;
    let stall = model::STALL_SECS;
    let rescue = model::RESCUE_WINDOW_SECS;
    let a = observe::detected(s1);
    let b = observe::detected(s2);
    assert forall|c: CandidateView|
        a.filter(#[trigger] order::tied(c, observe::report_order())) == b.filter(
            order::tied(c, observe::report_order()),
        ) by {
        let t = like(c);
        lemma_corrective_group(s1, s2, cw, c);
        lemma_redundant_group(s1, s2, rw, c);
        lemma_rescue_group(s1, s2, stall, rescue, c);
        lemma_filter_three(
            corrective::corrective_candidates(s1, cw),
            redundant::redundant_candidates(s1, rw),
            rescue::rescue_candidates(s1, stall, rescue),
            t,
        );
        lemma_filter_three(
            corrective::corrective_candidates(s2, cw),
            redundant::redundant_candidates(s2, rw),
            rescue::rescue_candidates(s2, stall, rescue),
            t,
        );
    }
    order::lemma_same_ties(a, b, observe::report_order());
}

proof fn lemma_filter_three(
    a: Seq<CandidateView>,
    b: Seq<CandidateView>,
    c: Seq<CandidateView>,
    keep: spec_fn(CandidateView) -> bool,
)
    ensures
        (a + b + c).filter(keep) == a.filter(keep) + b.filter(keep) + c.filter(keep),
{
    Seq::filter_distributes_over_add(a + b, c, keep);
    Seq::filter_distributes_over_add(a, b, keep);
}

/// The candidates that span less than `window` seconds.
pub open spec fn spans_less(window: i64) -> spec_fn(CandidateView) -> bool {
    |c: CandidateView| c.t_last_unix - c.t_first_unix < window
}

proof fn lemma_filter_one(c: CandidateView, keep: spec_fn(CandidateView) -> bool)
    ensures
        seq![c].filter(keep) == (if keep(c) {
            seq![c]
        } else {
            Seq::empty()
        }),
        Seq::<CandidateView>::empty().filter(keep) == Seq::<CandidateView>::empty(),
{
    reveal_with_fuel(Seq::filter, 2);
    assert(seq![c].drop_last() =~= Seq::<CandidateView>::empty());
    assert(Seq::<CandidateView>::empty().push(c) =~= seq![c]);
}

proof fn lemma_narrow_between(a: SessionView, b: SessionView, narrow: i64, wide: i64)
    requires
        narrow <= wide,
    ensures
        between(a, b, narrow) == between(a, b, wide).filter(spans_less(narrow)),
{
    let n = redundant::written_paths(a).len() as int;
    let keep = spans_less(narrow);
    let f = redundant::redundancies_on(a, b, narrow);
    let g = redundant::redundancies_on(a, b, wide);
    let kept = |k: int| g(k).filter(keep);
    order::lemma_gather_filter(n, g, keep);
    assert forall|k: int| 0 <= k < n implies #[trigger] f(k) == kept(k) by {
        let path = redundant::written_paths(a)[k];
        let found = redundant::redundancy_on(a, b, path, wide);
        assert(g(k) == found && f(k) == redundant::redundancy_on(a, b, path, narrow));
        match (redundant::earliest_write(a, path), redundant::earliest_write(b, path)) {
            (Some(wa), Some(wb)) => {
                lemma_filter_one(redundant::redundancy(path, a, wa, b, wb), keep);
                lemma_filter_one(redundant::redundancy(path, b, wb, a, wa), keep);
            },
            _ => {
                assert(found =~= Seq::empty());
                reveal(Seq::filter);
            },
        }
    }
    order::lemma_gather_same(n, f, kept);
}

/// A narrower window takes out those redundant candidates that span too long
/// and leaves the others where they stand.
pub proof fn law_redundant_narrowing(sessions: Seq<SessionView>, narrow: i64, wide: i64)
    requires
        narrow <= wide,
    ensures
        redundant::redundant_candidates(sessions, narrow) == redundant::redundant_candidates(
            sessions,
            wide,
        ).filter(spans_less(narrow)),
        order::is_subsequence(
            redundant::redundant_candidates(sessions, narrow),
            redundant::redundant_candidates(sessions, wide),
        ),
{
    let n = sessions.len() as int;
    let keep = spans_less(narrow);
    let f = redundant::redundancies_from(sessions, narrow);
    let g = redundant::redundancies_from(sessions, wide);
    let kept = |i: int| g(i).filter(keep);
    order::lemma_gather_filter(n, g, keep);
    assert forall|i: int| 0 <= i < n implies #[trigger] f(i) == kept(i) by {
        let f1 = redundant::redundancies_after(sessions, i, narrow);
        let g1 = redundant::redundancies_after(sessions, i, wide);
        let kept1 = |d: int| g1(d).filter(keep);
        order::lemma_gather_filter(n - i - 1, g1, keep);
        assert forall|d: int| 0 <= d < n - i - 1 implies #[trigger] f1(d) == kept1(d) by {
            lemma_after_piece(sessions, i, d, narrow);
            lemma_after_piece(sessions, i, d, wide);
            lemma_narrow_between(sessions[i], sessions[i + 1 + d], narrow, wide);
        }
        order::lemma_gather_same(n - i - 1, f1, kept1);
    }
    order::lemma_gather_same(n, f, kept);
    order::lemma_filter_subsequence(redundant::redundant_candidates(sessions, wide), keep);
}

/// A narrower window takes out those corrections that come too late and leaves
/// the others where they stand.
pub proof fn law_corrective_narrowing(sessions: Seq<SessionView>, narrow: i64, wide: i64)
    requires
        narrow <= wide,
    ensures
        corrective::corrective_candidates(sessions, narrow) == corrective::corrective_candidates(
            sessions,
            wide,
        ).filter(spans_less(narrow)),
        order::is_subsequence(
            corrective::corrective_candidates(sessions, narrow),
            corrective::corrective_candidates(sessions, wide),
        ),
{
    let n = sessions.len() as int;
    let keep = spans_less(narrow);
    let f = corrective::corrections_from(sessions, narrow);
    let g = corrective::corrections_from(sessions, wide);
    let kept = |i: int| g(i).filter(keep);
    order::lemma_gather_filter(n, g, keep);
    assert forall|i: int| 0 <= i < n implies #[trigger] f(i) == kept(i) by {
        let a = sessions[i];
        let m = a.records.len() as int;
        let f1 = corrective::corrections_in(sessions, a, narrow);
        let g1 = corrective::corrections_in(sessions, a, wide);
        let kept1 = |e: int| g1(e).filter(keep);
        order::lemma_gather_filter(m, g1, keep);
        assert forall|e: int| 0 <= e < m implies #[trigger] f1(e) == kept1(e) by {
            lemma_narrow_corrections(sessions, a, a.records[e], narrow, wide);
            reveal(Seq::filter);
        }
        order::lemma_gather_same(m, f1, kept1);
    }
    order::lemma_gather_same(n, f, kept);
    order::lemma_filter_subsequence(corrective::corrective_candidates(sessions, wide), keep);
}

proof fn lemma_narrow_corrections(
    sessions: Seq<SessionView>,
    a: SessionView,
    err: RecordView,
    narrow: i64,
    wide: i64,
)
    requires
        narrow <= wide,
    ensures
        order::gather(sessions.len() as int, corrective::corrections_of(sessions, a, err, narrow))
            == order::gather(
            sessions.len() as int,
            corrective::corrections_of(sessions, a, err, wide),
        ).filter(spans_less(narrow)),
{
    let n = sessions.len() as int;
    let keep = spans_less(narrow);
    let f = corrective::corrections_of(sessions, a, err, narrow);
    let g = corrective::corrections_of(sessions, a, err, wide);
    let kept = |j: int| g(j).filter(keep);
    order::lemma_gather_filter(n, g, keep);
    assert forall|j: int| 0 <= j < n implies #[trigger] f(j) == kept(j) by {
        let b = sessions[j];
        let strict = corrective::fixes(err, narrow);
        let loose = corrective::fixes(err, wide);
        let key = model::delay(err.ts);
        order::lemma_first_min_narrows(b.records, strict, loose, key);
        match order::first_min(b.records, loose, key) {
            Some(w) => {
                assert(loose(w)) by {
                    let k = choose|k: int| order::is_first_min(b.records, loose, key, k);
                    assert(order::is_first_min(b.records, loose, key, k));
                }
                let c = corrective::correction(a, err, b, w);
                assert(keep(c) <==> strict(w));
                lemma_filter_one(c, keep);
            },
            None => {},
        }
        reveal(Seq::filter);
    }
    order::lemma_gather_same(n, f, kept);
}

/// The candidates whose second action comes no later than `limit` seconds
/// after the first.
pub open spec fn follows_within(limit: int) -> spec_fn(CandidateView) -> bool {
    |c: CandidateView| model::elapsed(c.t_first_unix, c.t_last_unix) <= limit
}

/// A narrower rescue window takes out those rescues that come too late and
/// leaves the others where they stand.
pub proof fn law_rescue_narrowing(
    sessions: Seq<SessionView>,
    stall: i64,
    narrow: i64,
    wide: i64,
)
    requires
        narrow <= wide,
    ensures
        rescue::rescue_candidates(sessions, stall, narrow) == rescue::rescue_candidates(
            sessions,
            stall,
            wide,
        ).filter(follows_within(stall + narrow)),
        order::is_subsequence(
            rescue::rescue_candidates(sessions, stall, narrow),
            rescue::rescue_candidates(sessions, stall, wide),
        ),
{
    let n = sessions.len() as int;
    let keep = follows_within(stall + narrow);
    let f = rescue::recoveries_from(sessions, stall, narrow);
    let g = rescue::recoveries_from(sessions, stall, wide);
    let kept = |i: int| g(i).filter(keep);
    order::lemma_gather_filter(n, g, keep);
    assert forall|i: int| 0 <= i < n implies #[trigger] f(i) == kept(i) by {
        let a = sessions[i];
        let m = a.records.len() as int;
        let f1 = rescue::recoveries_in(sessions, a, stall, narrow);
        let g1 = rescue::recoveries_in(sessions, a, stall, wide);
        let kept1 = |e: int| g1(e).filter(keep);
        order::lemma_gather_filter(m, g1, keep);
        assert forall|e: int| 0 <= e < m implies #[trigger] f1(e) == kept1(e) by {
            lemma_narrow_recoveries(sessions, a, a.records[e], stall, narrow, wide);
            reveal(Seq::filter);
        }
        order::lemma_gather_same(m, f1, kept1);
    }
    order::lemma_gather_same(n, f, kept);
    order::lemma_filter_subsequence(rescue::rescue_candidates(sessions, stall, wide), keep);
}

proof fn lemma_narrow_recoveries(
    sessions: Seq<SessionView>,
    a: SessionView,
    err: RecordView,
    stall: i64,
    narrow: i64,
    wide: i64,
)
    requires
        narrow <= wide,
    ensures
        order::gather(
            sessions.len() as int,
            rescue::recoveries_of(sessions, a, err, stall, narrow),
        ) == order::gather(
            sessions.len() as int,
            rescue::recoveries_of(sessions, a, err, stall, wide),
        ).filter(follows_within(stall + narrow)),
{
    let n = sessions.len() as int;
    let keep = follows_within(stall + narrow);
    let f = rescue::recoveries_of(sessions, a, err, stall, narrow);
    let g = rescue::recoveries_of(sessions, a, err, stall, wide);
    let kept = |j: int| g(j).filter(keep);
    order::lemma_gather_filter(n, g, keep);
    assert forall|j: int| 0 <= j < n implies #[trigger] f(j) == kept(j) by {
        let b = sessions[j];
        let strict = rescue::resumes(a, err.ts, stall, narrow);
        let loose = rescue::resumes(a, err.ts, stall, wide);
        let key = model::delay(err.ts);
        order::lemma_first_min_narrows(b.records, strict, loose, key);
        match order::first_min(b.records, loose, key) {
            Some(r) => {
                assert(loose(r)) by {
                    let k = choose|k: int| order::is_first_min(b.records, loose, key, k);
                    assert(order::is_first_min(b.records, loose, key, k));
                }
                let c = rescue::recovery(a, err, b, b.slug->0, r);
                assert(keep(c) <==> strict(r));
                lemma_filter_one(c, keep);
            },
            None => {},
        }
        reveal(Seq::filter);
    }
    order::lemma_gather_same(n, f, kept);
}

} // verus!
