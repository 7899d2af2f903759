//! The detectors on records built by hand.

use episodic_observer::{
    detect_corrective, detect_redundant, detect_rescue, line_ranges_overlap, observe_cross,
    CrossCandidate, CrossRecord, Session, CORRECTIVE_WINDOW_SECS, CROSS_KIND,
    REDUNDANT_WINDOW_SECS, RESCUE_WINDOW_SECS, STALL_SECS,
};

fn rec(ts: i64, path: &str, tool: &str, is_error: bool) -> CrossRecord {
    CrossRecord {
        ts,
        path: path.to_string(),
        tool: tool.to_string(),
        is_error,
        line_start: None,
        line_end: None,
    }
}

fn ranged(ts: i64, path: &str, from: i64, to: i64) -> CrossRecord {
    let mut r = rec(ts, path, "Edit", false);
    r.line_start = Some(from);
    r.line_end = Some(to);
    r
}

fn sess(sid: &str, slug: Option<&str>, records: Vec<CrossRecord>) -> Session {
    Session { sid: sid.to_string(), records, slug: slug.map(|s| s.to_string()) }
}

#[test]
fn constants_are_the_documented_ones() {
    assert_eq!(CORRECTIVE_WINDOW_SECS, 300);
    assert_eq!(REDUNDANT_WINDOW_SECS, 3600);
    assert_eq!(STALL_SECS, 300);
    assert_eq!(RESCUE_WINDOW_SECS, 600);
    assert_eq!(CROSS_KIND, "episodic-cross-session");
}

#[test]
fn write_success_and_path_error() {
    assert!(rec(1, "/a", "Edit", false).is_write_success());
    assert!(rec(1, "/a", "Write", false).is_write_success());
    assert!(!rec(1, "/a", "edit", false).is_write_success());
    assert!(!rec(1, "/a", "Bash", false).is_write_success());
    assert!(!rec(1, "/a", "Edit", true).is_write_success());
    assert!(!rec(1, "", "Edit", false).is_write_success());
    assert!(rec(1, "/a", "Bash", true).is_path_error());
    assert!(!rec(1, "", "Bash", true).is_path_error());
    assert!(!rec(1, "/a", "Bash", false).is_path_error());
}

#[test]
fn corrective_candidate_in_full() {
    let s = vec![
        sess("A", None, vec![rec(1000, "/f", "Bash", true)]),
        sess("B", None, vec![rec(1200, "/f", "Write", false), rec(1100, "/f", "Edit", false)]),
    ];
    let out = detect_corrective(&s, 300);
    assert_eq!(out.len(), 1);
    let c = &out[0];
    assert_eq!(c.kind, CROSS_KIND);
    assert_eq!(c.subject, "self");
    assert_eq!(c.participants, vec!["A", "B"]);
    assert_eq!(c.context, "corrective");
    assert_eq!(c.paths, vec!["/f"]);
    assert_eq!((c.t_first_unix, c.t_last_unix), (1000, 1100));
    assert_eq!(c.evidence.len(), 2);
    assert_eq!(c.evidence[0].session, "A");
    assert_eq!(c.evidence[0].ts, 1000);
    assert_eq!(c.evidence[0].excerpt, "error on /f");
    assert_eq!(c.evidence[1].session, "B");
    assert_eq!(c.evidence[1].ts, 1100);
    assert_eq!(c.evidence[1].excerpt, "Edit /f (ok)");
}

#[test]
fn corrective_takes_the_first_of_equal_fixes() {
    let s = vec![
        sess("A", None, vec![rec(0, "/f", "Bash", true)]),
        sess("B", None, vec![rec(9, "/f", "Write", false), rec(9, "/f", "Edit", false)]),
    ];
    assert_eq!(detect_corrective(&s, 300)[0].evidence[1].excerpt, "Write /f (ok)");
}

#[test]
fn corrective_window_is_exclusive() {
    let at = |t: i64| {
        let s = vec![
            sess("A", None, vec![rec(1000, "/f", "Bash", true)]),
            sess("B", None, vec![rec(t, "/f", "Edit", false)]),
        ];
        detect_corrective(&s, 300).len()
    };
    assert_eq!(at(999), 0);
    assert_eq!(at(1000), 0);
    assert_eq!(at(1001), 1);
    assert_eq!(at(1299), 1);
    assert_eq!(at(1300), 0);
}

#[test]
fn corrective_never_within_one_session() {
    let s = vec![sess("A", None, vec![rec(0, "/f", "Bash", true), rec(5, "/f", "Edit", false)])];
    assert!(detect_corrective(&s, 300).is_empty());
    // The id is what tells sessions apart.
    let twice = vec![
        sess("A", None, vec![rec(0, "/f", "Bash", true)]),
        sess("A", None, vec![rec(5, "/f", "Edit", false)]),
    ];
    assert!(detect_corrective(&twice, 300).is_empty());
}

#[test]
fn corrective_one_per_error_and_fixer() {
    let s = vec![
        sess("A", None, vec![rec(0, "/f", "Bash", true), rec(10, "/f", "Bash", true)]),
        sess("B", None, vec![rec(20, "/f", "Edit", false), rec(30, "/f", "Edit", false)]),
        sess("C", None, vec![rec(40, "/f", "Edit", false)]),
    ];
    let out = detect_corrective(&s, 300);
    let seen: Vec<(i64, String)> =
        out.iter().map(|c| (c.t_first_unix, c.participants[1].clone())).collect();
    assert_eq!(
        seen,
        vec![
            (0, "B".to_string()),
            (0, "C".to_string()),
            (10, "B".to_string()),
            (10, "C".to_string())
        ]
    );
}

#[test]
fn corrective_widens_with_the_window() {
    let s = vec![
        sess("A", None, vec![rec(0, "/f", "Bash", true)]),
        sess("B", None, vec![rec(5, "/f", "Edit", false), rec(50, "/f", "Edit", false)]),
    ];
    assert_eq!(detect_corrective(&s, 10)[0].t_last_unix, 5);
    assert_eq!(detect_corrective(&s, 100)[0].t_last_unix, 5);
    assert!(detect_corrective(&s, 5).is_empty());
    assert!(detect_corrective(&s, 0).is_empty());
    assert!(detect_corrective(&s, -7).is_empty());
}

#[test]
fn corrective_with_extreme_times() {
    let s = vec![
        sess("A", None, vec![rec(i64::MIN, "/f", "Bash", true)]),
        sess("B", None, vec![rec(i64::MAX, "/f", "Edit", false)]),
    ];
    assert!(detect_corrective(&s, i64::MAX).is_empty());
}

#[test]
fn overlap_of_line_ranges() {
    let r = |a: i64, b: i64| (Some(a), Some(b));
    assert!(line_ranges_overlap(r(10, 20), r(12, 18)));
    assert!(line_ranges_overlap(r(10, 20), r(20, 30)));
    assert!(line_ranges_overlap(r(20, 30), r(10, 20)));
    assert!(!line_ranges_overlap(r(10, 20), r(21, 30)));
    assert!(!line_ranges_overlap(r(21, 30), r(10, 20)));
    assert!(line_ranges_overlap((None, Some(1)), r(5, 9)));
    assert!(line_ranges_overlap((Some(1), None), r(5, 9)));
    assert!(line_ranges_overlap(r(5, 9), (None, None)));
}

#[test]
fn redundant_candidate_in_full() {
    let s = vec![
        sess("A", None, vec![ranged(500, "/x", 1, 9)]),
        sess("B", None, vec![ranged(100, "/x", 5, 6)]),
    ];
    let out = detect_redundant(&s, 3600);
    assert_eq!(out.len(), 1);
    let c = &out[0];
    assert_eq!(c.kind, CROSS_KIND);
    assert_eq!(c.subject, "self");
    assert_eq!(c.participants, vec!["B", "A"], "earlier writer first");
    assert_eq!(c.context, "redundant");
    assert_eq!(c.paths, vec!["/x"]);
    assert_eq!((c.t_first_unix, c.t_last_unix), (100, 500));
    assert_eq!(c.evidence[0].session, "B");
    assert_eq!(c.evidence[0].excerpt, "Edit /x (ok)");
    assert_eq!(c.evidence[1].session, "A");
    assert_eq!(c.evidence[1].excerpt, "Edit /x (ok, overlapping)");
}

#[test]
fn redundant_window_is_exclusive() {
    let at = |t: i64| {
        let s = vec![
            sess("A", None, vec![rec(1000, "/x", "Edit", false)]),
            sess("B", None, vec![rec(t, "/x", "Edit", false)]),
        ];
        detect_redundant(&s, 3600).len()
    };
    assert_eq!(at(1000), 0);
    assert_eq!(at(1001), 1);
    assert_eq!(at(4599), 1);
    assert_eq!(at(4600), 0);
    assert_eq!(at(999), 1);
    assert_eq!(at(-2599), 1);
    assert_eq!(at(-2600), 0);
}

#[test]
fn redundant_compares_earliest_writes_only() {
    let s = vec![
        sess("A", None, vec![rec(0, "/x", "Edit", false), rec(5000, "/x", "Edit", false)]),
        sess("B", None, vec![rec(5001, "/x", "Edit", false)]),
    ];
    assert!(detect_redundant(&s, 3600).is_empty());
}

#[test]
fn redundant_once_per_pair_and_path_in_path_order() {
    let s = vec![
        sess(
            "A",
            None,
            vec![
                rec(1, "/b", "Edit", false),
                rec(2, "/a", "Edit", false),
                rec(3, "/b", "Edit", false),
                rec(4, "/\u{e9}", "Write", false),
            ],
        ),
        sess(
            "B",
            None,
            vec![
                rec(10, "/\u{e9}", "Edit", false),
                rec(11, "/a", "Edit", false),
                rec(12, "/b", "Edit", false),
                rec(13, "/c", "Edit", false),
            ],
        ),
    ];
    let paths: Vec<String> =
        detect_redundant(&s, 3600).iter().map(|c| c.paths[0].clone()).collect();
    assert_eq!(paths, vec!["/a", "/b", "/\u{e9}"]);
}

#[test]
fn redundant_with_extreme_times() {
    let s = vec![
        sess("A", None, vec![rec(i64::MIN, "/x", "Edit", false)]),
        sess("B", None, vec![rec(i64::MAX, "/x", "Edit", false)]),
    ];
    assert!(detect_redundant(&s, i64::MAX).is_empty());
}

#[test]
fn rescue_candidate_in_full() {
    let s = vec![
        sess(
            "A",
            Some("ship"),
            vec![rec(500, "/q", "Bash", false), rec(1000, "/p", "Bash", true)],
        ),
        sess("B", Some("ship"), vec![rec(1500, "/q", "Read", false)]),
    ];
    let out = detect_rescue(&s, 300, 600);
    assert_eq!(out.len(), 1);
    let c = &out[0];
    assert_eq!(c.kind, CROSS_KIND);
    assert_eq!(c.subject, "self");
    assert_eq!(c.participants, vec!["A", "B"]);
    assert_eq!(c.context, "rescue");
    assert_eq!(c.paths, vec!["/q"]);
    assert_eq!((c.t_first_unix, c.t_last_unix), (1000, 1500));
    assert_eq!(c.evidence[0].excerpt, "error then stall on /p");
    assert_eq!(c.evidence[1].excerpt, "intent ship resumed Read on /q");
}

#[test]
fn rescue_needs_a_stall() {
    let with = |t: i64| {
        let s = vec![
            sess("A", Some("i"), vec![rec(1000, "/p", "Bash", true), rec(t, "/z", "Bash", false)]),
            sess("B", Some("i"), vec![rec(1400, "/p", "Bash", false)]),
        ];
        detect_rescue(&s, 300, 600).len()
    };
    assert_eq!(with(1000), 1);
    assert_eq!(with(1001), 0);
    assert_eq!(with(1299), 0);
    assert_eq!(with(1300), 1);
    assert_eq!(with(1301), 1);
}

#[test]
fn rescue_after_exactly_the_stall_time() {
    let s = vec![
        sess("A", Some("x"), vec![rec(1000, "/p", "Bash", true), rec(1300, "/p", "Bash", false)]),
        sess("B", Some("x"), vec![rec(1360, "/p", "Bash", false)]),
    ];
    let out = detect_rescue(&s, 300, 600);
    assert_eq!(out.len(), 1);
    assert_eq!(out[0].participants, vec!["A", "B"]);
    assert_eq!((out[0].t_first_unix, out[0].t_last_unix), (1000, 1360));
}

#[test]
fn rescue_window_includes_its_end() {
    let at = |t: i64| {
        let s = vec![
            sess("A", Some("i"), vec![rec(1000, "/p", "Bash", true)]),
            sess("B", Some("i"), vec![rec(t, "/p", "Bash", false)]),
        ];
        detect_rescue(&s, 300, 600).len()
    };
    assert_eq!(at(1000), 0);
    assert_eq!(at(1001), 1);
    assert_eq!(at(1900), 1);
    assert_eq!(at(1901), 0);
}

#[test]
fn rescue_needs_a_declared_and_shared_intent() {
    let with = |a: Option<&str>, b: Option<&str>| {
        let s = vec![
            sess("A", a, vec![rec(1000, "/p", "Bash", true)]),
            sess("B", b, vec![rec(1400, "/p", "Bash", false)]),
        ];
        detect_rescue(&s, 300, 600).len()
    };
    assert_eq!(with(Some("i"), Some("i")), 1);
    assert_eq!(with(Some("i"), Some("j")), 0);
    assert_eq!(with(Some("i"), None), 0);
    assert_eq!(with(None, Some("i")), 0);
    assert_eq!(with(None, None), 0);
}

#[test]
fn rescue_takes_the_first_takeover() {
    let s = vec![
        sess("A", Some("i"), vec![rec(1000, "/p", "Bash", true)]),
        sess(
            "B",
            Some("i"),
            vec![
                rec(900, "/p", "Bash", false),
                rec(1500, "/p", "Late", false),
                rec(1400, "/other", "Bash", false),
                rec(1450, "/p", "Early", true),
            ],
        ),
    ];
    let out = detect_rescue(&s, 300, 600);
    assert_eq!(out.len(), 1);
    assert_eq!(out[0].evidence[1].excerpt, "intent i resumed Early on /p");
}

#[test]
fn rescue_with_extreme_times() {
    let s = vec![
        sess(
            "A",
            Some("i"),
            vec![rec(i64::MAX - 1, "/p", "Bash", true), rec(i64::MAX, "/p", "Bash", false)],
        ),
        sess("B", Some("i"), vec![rec(i64::MAX, "/p", "Bash", false)]),
    ];
    assert!(detect_rescue(&s, i64::MAX, i64::MAX).is_empty());
}

#[test]
fn report_is_ordered_by_context_time_and_participants() {
    let s = vec![
        sess("A", Some("i"), vec![rec(1000, "/p", "Bash", true), rec(2000, "/q", "Edit", false)]),
        sess("B", Some("i"), vec![rec(1100, "/p", "Edit", false), rec(2001, "/q", "Edit", false)]),
        sess("C", Some("i"), vec![rec(1100, "/p", "Write", false)]),
    ];
    let out = observe_cross(&s);
    let keys: Vec<(String, i64, Vec<String>)> =
        out.iter().map(|c| (c.context.clone(), c.t_first_unix, c.participants.clone())).collect();
    let mut sorted = keys.clone();
    sorted.sort();
    assert_eq!(keys, sorted);
    let contexts: Vec<&str> = out.iter().map(|c| c.context.as_str()).collect();
    assert_eq!(contexts, vec!["corrective", "corrective", "redundant", "rescue", "rescue"]);
    for c in &out {
        assert_eq!(c.participants.len(), 2);
        assert_eq!(c.evidence[0].session, c.participants[0]);
        assert_eq!(c.evidence[1].session, c.participants[1]);
        assert_eq!(c.evidence[0].ts, c.t_first_unix);
        assert_eq!(c.evidence[1].ts, c.t_last_unix);
        assert!(c.t_first_unix < c.t_last_unix);
    }
}

#[test]
fn report_keeps_ties_in_the_order_found() {
    let s = vec![
        sess("A", None, vec![rec(0, "/b", "Bash", true), rec(0, "/a", "Bash", true)]),
        sess("B", None, vec![rec(7, "/a", "Edit", false), rec(8, "/b", "Edit", false)]),
    ];
    let paths: Vec<String> = observe_cross(&s).iter().map(|c| c.paths[0].clone()).collect();
    assert_eq!(paths, vec!["/b", "/a"]);
}

#[test]
fn fewer_than_two_sessions_yield_nothing() {
    assert!(observe_cross(&[]).is_empty());
    let s = vec![sess("A", Some("i"), vec![rec(0, "/f", "Bash", true), rec(1, "/f", "Edit", false)])];
    assert!(observe_cross(&s).is_empty());
}

fn pick(of: &[Session], at: &[usize]) -> Vec<Session> {
    at.iter().map(|&i| of[i].clone()).collect()
}

fn shown(of: &[CrossCandidate]) -> Vec<String> {
    of.iter().map(|c| format!("{:?}", c)).collect()
}

fn mixed() -> Vec<Session> {
    vec![
        sess(
            "A",
            Some("deploy"),
            vec![rec(900, "/y", "Edit", false), rec(1000, "/x", "Bash", true)],
        ),
        sess(
            "B",
            Some("deploy"),
            vec![
                rec(1100, "/x", "Edit", false),
                rec(1400, "/y", "Write", false),
                rec(1500, "/x", "Bash", false),
            ],
        ),
        sess("C", None, vec![rec(1020, "/y", "Edit", false), rec(1150, "/x", "Write", false)]),
    ]
}

#[test]
fn session_order_leaves_the_report_as_it_is() {
    let s = mixed();
    let out = observe_cross(&s);
    let seen: Vec<(&str, i64, &str, &str)> = out
        .iter()
        .map(|c| {
            (
                c.context.as_str(),
                c.t_first_unix,
                c.participants[0].as_str(),
                c.participants[1].as_str(),
            )
        })
        .collect();
    assert_eq!(
        seen,
        vec![
            ("corrective", 1000, "A", "B"),
            ("corrective", 1000, "A", "C"),
            ("redundant", 900, "A", "B"),
            ("redundant", 900, "A", "C"),
            ("redundant", 1020, "C", "B"),
            ("redundant", 1100, "B", "C"),
            ("rescue", 1000, "A", "B"),
        ]
    );
    for at in [[0, 2, 1], [1, 0, 2], [1, 2, 0], [2, 0, 1], [2, 1, 0]] {
        assert_eq!(shown(&observe_cross(&pick(&s, &at))), shown(&out));
    }
}

#[test]
fn session_order_keeps_each_detector_s_candidates() {
    let s = mixed();
    for at in [[0, 2, 1], [1, 0, 2], [1, 2, 0], [2, 0, 1], [2, 1, 0]] {
        let t = pick(&s, &at);
        for (one, two) in [
            (detect_corrective(&s, 300), detect_corrective(&t, 300)),
            (detect_redundant(&s, 3600), detect_redundant(&t, 3600)),
            (detect_rescue(&s, 300, 600), detect_rescue(&t, 300, 600)),
        ] {
            let mut one = shown(&one);
            let mut two = shown(&two);
            one.sort();
            two.sort();
            assert_eq!(one, two);
        }
    }
}

#[test]
fn narrower_redundant_window_leaves_the_rest_in_place() {
    let s = mixed();
    let wide = detect_redundant(&s, 3600);
    for window in [-1, 0, 50, 51, 120, 121, 381, 501] {
        let kept: Vec<_> = wide
            .iter()
            .filter(|c| c.t_last_unix - c.t_first_unix < window)
            .cloned()
            .collect();
        assert_eq!(shown(&detect_redundant(&s, window)), shown(&kept));
    }
    assert_eq!(detect_redundant(&s, 50).len(), 0);
    assert_eq!(detect_redundant(&s, 121).len(), 2);
    assert_eq!(detect_redundant(&s, 501).len(), 4);
}

#[test]
fn narrower_corrective_window_leaves_the_rest_in_place() {
    let s = mixed();
    let wide = shown(&detect_corrective(&s, 300));
    assert_eq!(wide.len(), 2);
    assert_eq!(shown(&detect_corrective(&s, 151)), wide);
    assert_eq!(shown(&detect_corrective(&s, 150)), vec![wide[0].clone()]);
    assert_eq!(detect_corrective(&s, 100).len(), 0);
}

#[test]
fn narrower_rescue_window_leaves_the_rest_in_place() {
    let s = vec![
        sess("A", Some("deploy"), vec![rec(1000, "/x", "Bash", true)]),
        sess("B", Some("deploy"), vec![rec(1500, "/x", "Read", false)]),
        sess("C", Some("deploy"), vec![rec(1400, "/x", "Edit", false)]),
    ];
    let wide = shown(&detect_rescue(&s, 300, 600));
    assert_eq!(wide.len(), 2);
    assert_eq!(shown(&detect_rescue(&s, 300, 200)), wide);
    assert_eq!(shown(&detect_rescue(&s, 300, 199)), vec![wide[1].clone()]);
    assert_eq!(detect_rescue(&s, 300, 99).len(), 0);
}
