//! Durations, texts and proposals.

use episodic_observer::text::{
    append_decimal, blank, insert_ascending, split_lines, text_before, text_is, texts_before,
    white_space,
};
use episodic_observer::{
    confidence_for, parse_since, proposal_file, proposal_stem, render_proposal, sanitize,
    split_since, CrossCandidate, CrossEvidence,
};

#[test]
fn durations() {
    assert_eq!(parse_since("90s"), Some(90));
    assert_eq!(parse_since("30m"), Some(1800));
    assert_eq!(parse_since("2h"), Some(7200));
    assert_eq!(parse_since("1d"), Some(86_400));
    assert_eq!(parse_since("45"), Some(45));
    assert_eq!(parse_since("0"), Some(0));
    assert_eq!(parse_since("0s"), Some(0));
    assert_eq!(parse_since("007m"), Some(420));
    assert_eq!(parse_since("  5 m \n"), Some(300));
    assert_eq!(parse_since("\u{a0}5\u{3000}h\u{2028}"), Some(18_000));
    assert_eq!(parse_since("+5m"), Some(300));
    assert_eq!(parse_since("+5"), Some(5));
    assert_eq!(parse_since("-0"), Some(0));
    assert_eq!(parse_since("-0d"), Some(0));
    assert_eq!(parse_since("9223372036854775807"), Some(i64::MAX));
}

#[test]
fn malformed_durations() {
    for bad in [
        "", "   ", "m", "s", " h ", "+", "-", "+m", "-5", "-5m", "5x", "x5", "5 5", "5.0", "1_000",
        "5mm", "++5", "+-5", "5M", "\u{663}", "5\u{663}", "9223372036854775808",
        "99999999999999999999s", "-9223372036854775808", "0x10", "1e3",
    ] {
        assert_eq!(parse_since(bad), None, "{bad:?}");
    }
}

#[test]
fn durations_taken_apart() {
    assert_eq!(split_since("9223372036854775807d"), Some((i64::MAX, 86_400)));
    assert_eq!(split_since("12h"), Some((12, 3600)));
    assert_eq!(split_since("12"), Some((12, 1)));
    assert_eq!(split_since("h"), None);
}

#[test]
fn white_space_is_that_of_unicode() {
    for u in 0..=0x10_ffffu32 {
        if let Some(c) = char::from_u32(u) {
            assert_eq!(white_space(c), c.is_whitespace(), "{u:x}");
        }
    }
}

#[test]
fn blank_texts() {
    for s in ["", " ", "\t\r\n", "\u{2003}\u{a0}"] {
        assert!(blank(s));
    }
    for s in ["a", " a ", "\u{200b}"] {
        assert!(!blank(s));
    }
}

#[test]
fn lines_are_those_of_std() {
    for s in [
        "", "\n", "\r\n", "a", "a\n", "a\r\n", "a\nb", "a\r\nb\r", "a\r\r\n", "\r", "\n\n", "a\n\nb\n",
        "\u{e9}\r\n\u{1f600}\n", "a\rb\n",
    ] {
        let want: Vec<String> = s.lines().map(|l| l.to_string()).collect();
        assert_eq!(split_lines(s), want, "{s:?}");
    }
}

#[test]
fn decimals_are_those_of_std() {
    for n in [0, 7, 10, 99, 100, 1_234_567_890, -1, -10, i64::MAX, i64::MIN] {
        let mut s = "n=".to_string();
        append_decimal(&mut s, n);
        assert_eq!(s, format!("n={n}"));
    }
}

#[test]
fn text_order_is_that_of_std() {
    let texts = ["", "a", "ab", "b", "B", "aB", "\u{e9}", "\u{ffff}", "\u{10000}", "ab\u{0}"];
    for a in texts {
        for b in texts {
            assert_eq!(text_before(a, b), a < b, "{a:?} {b:?}");
            assert_eq!(text_is(a, b), a == b);
            for c in ["", "x"] {
                let l = vec![a.to_string(), c.to_string()];
                let r = vec![b.to_string()];
                assert_eq!(texts_before(&l, &r), l < r);
                assert_eq!(texts_before(&r, &l), r < l);
            }
        }
    }
}

#[test]
fn ascending_lists_hold_each_text_once() {
    let mut list: Vec<String> = Vec::new();
    for t in ["m", "c", "z", "m", "a", "c"] {
        insert_ascending(&mut list, &t.to_string());
    }
    assert_eq!(list, vec!["a", "c", "m", "z"]);
}

fn candidate(context: &str, participants: &[&str]) -> CrossCandidate {
    CrossCandidate {
        kind: "episodic-cross-session".to_string(),
        subject: "self".to_string(),
        participants: participants.iter().map(|p| p.to_string()).collect(),
        context: context.to_string(),
        paths: vec!["/f".to_string(), "/g".to_string()],
        t_first_unix: -5,
        t_last_unix: 1030,
        evidence: vec![
            CrossEvidence { session: "A".to_string(), ts: -5, excerpt: "error on /f".to_string() },
            CrossEvidence { session: "B".to_string(), ts: 1030, excerpt: "Edit /f (ok)".to_string() },
        ],
    }
}

#[test]
fn sanitized_ids() {
    assert_eq!(sanitize("aZ09-_"), "aZ09-_");
    assert_eq!(sanitize("a/b c.\u{e9}+"), "a_b_c___");
    assert_eq!(sanitize(""), "");
    assert_eq!(sanitize(&sanitize("x:y")), sanitize("x:y"));
}

#[test]
fn stems() {
    assert_eq!(proposal_stem(&candidate("redundant", &["s/1", "s 2"])), "cross-redundant--5-1030-s_1+s_2");
    assert_eq!(proposal_stem(&candidate("rescue", &[])), "cross-rescue--5-1030-");
    assert_eq!(proposal_stem(&candidate("rescue", &["a", "b", "c"])), "cross-rescue--5-1030-a+b+c");
}

#[test]
fn rerun_names_the_same_file() {
    let c = candidate("corrective", &["A", "B"]);
    let mut d = c.clone();
    d.evidence.clear();
    let one = proposal_file(&c, 1);
    let two = proposal_file(&d, 2);
    assert_eq!(one.name, two.name);
    assert_eq!(one.name, "cross-corrective--5-1030-A+B.md");
    assert!(one.text != two.text);
    assert_eq!(one.text, render_proposal(&c, 1));
}

#[test]
fn confidences() {
    for (context, value) in [("corrective", 0.6f64), ("redundant", 0.5), ("rescue", 0.3), ("other", 0.3)] {
        assert_eq!(format!("0.{}", confidence_for(context)), format!("{value}"));
    }
    assert!(confidence_for("corrective") > confidence_for("redundant"));
    assert!(confidence_for("redundant") > confidence_for("rescue"));
}

#[test]
fn proposal_in_full() {
    let text = render_proposal(&candidate("corrective", &["A", "B"]), 42);
    let want = "---\nid: cross-corrective--5-1030-A+B\nkind: episodic-cross-session\nsubject: self\ncontext: corrective\nparticipants:\n  - A\n  - B\npaths:\n  - /f\n  - /g\nt_first_unix: -5\nt_last_unix: 1030\ncreated_unix: 42\nconfidence: 0.6\nrecall_count: 0\n---\n\nCross-session corrective pattern across sessions A, B.\n\n- `A` @ -5: error on /f\n- `B` @ 1030: Edit /f (ok)\n\n<!-- episode observe-cross: detector=corrective -->\n";
    assert_eq!(text, want);
}

#[test]
fn leading_zeros_of_a_count_do_not_matter() {
    assert_eq!(split_since("00012 h"), Some((12, 3600)));
    assert_eq!(split_since("000"), Some((0, 1)));
    assert_eq!(split_since("0000000000000000000000000000007d"), Some((7, 86_400)));
    assert_eq!(split_since("09223372036854775807m"), Some((i64::MAX, 60)));
    assert_eq!(split_since("09223372036854775808m"), None);
    assert_eq!(split_since("9223372036854775808"), None);
}

#[test]
fn stems_tell_content_apart() {
    let base = candidate("redundant", &["a b", "c"]);
    let stem = proposal_stem(&base);
    // What is sanitized alike, and what the name leaves out, changes nothing.
    let mut same = candidate("redundant", &["a/b", "c"]);
    same.kind = "other".to_string();
    same.subject = "other".to_string();
    same.paths = vec![];
    same.evidence = vec![];
    assert_eq!(proposal_stem(&same), stem);
    // Everything else changes the name.
    let mut others = vec![
        candidate("corrective", &["a b", "c"]),
        candidate("rescue", &["a b", "c"]),
        candidate("redundant", &["c", "a b"]),
        candidate("redundant", &["a b"]),
        candidate("redundant", &["a b", "c", ""]),
        candidate("redundant", &["a b+c"]),
        candidate("redundant", &["a", "b", "c"]),
    ];
    for (first, last) in [(5, 1030), (-5, 103), (-5, -1030), (-51, 30)] {
        let mut c = base.clone();
        c.t_first_unix = first;
        c.t_last_unix = last;
        others.push(c);
    }
    let mut names: Vec<String> = others.iter().map(|c| proposal_stem(c)).collect();
    names.push(stem);
    for (i, a) in names.iter().enumerate() {
        assert!(!a.contains('/'));
        assert!(names[..i].iter().all(|b| a != b));
    }
}
