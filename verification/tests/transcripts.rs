//! Reading transcripts.

use episodic_observer::{
    is_recent_transcript, line_record, log_records, log_slug, now_unix, parse_cross_session,
    parse_session_slug, read_log, read_sessions, unix_time, LogLine, Scalar, ToolCall, Transcript,
};

#[test]
fn record_under_tool_use() {
    let rs = parse_cross_session(
        r#"{"ts":7,"tool_use":{"name":"Edit","input":{"path":"/p","line_start":3,"line_end":9}},"is_error":false,"exit_code":0}"#,
    );
    assert_eq!(rs.len(), 1);
    let r = &rs[0];
    assert_eq!(r.ts, 7);
    assert_eq!(r.path, "/p");
    assert_eq!(r.tool, "Edit");
    assert!(!r.is_error);
    assert_eq!((r.line_start, r.line_end), (Some(3), Some(9)));
}

#[test]
fn record_at_the_top_level() {
    let rs = parse_cross_session(r#"{"timestamp":-4,"name":"Write","input":{"path":"/in"},"path":"/top"}"#);
    assert_eq!(rs.len(), 1);
    assert_eq!((rs[0].ts, rs[0].path.as_str(), rs[0].tool.as_str()), (-4, "/in", "Write"));
    assert_eq!((rs[0].line_start, rs[0].line_end), (None, None));
    let rs = parse_cross_session(r#"{"ts":1,"tool_use":{"name":"Bash"},"name":"Write","path":"/top"}"#);
    assert_eq!((rs[0].path.as_str(), rs[0].tool.as_str()), ("/top", "Bash"));
    let rs = parse_cross_session(r#"{"ts":1,"path":"/only"}"#);
    assert_eq!((rs[0].path.as_str(), rs[0].tool.as_str()), ("/only", ""));
}

#[test]
fn first_field_present_decides() {
    // `ts` hides `timestamp` even where it is no integer.
    assert!(parse_cross_session(r#"{"ts":"x","timestamp":5,"path":"/p"}"#).is_empty());
    assert!(parse_cross_session(r#"{"ts":null,"timestamp":5,"path":"/p"}"#).is_empty());
    assert!(parse_cross_session(r#"{"ts":5.0,"path":"/p"}"#).is_empty());
    assert!(parse_cross_session(r#"{"ts":9223372036854775808,"path":"/p"}"#).is_empty());
    assert_eq!(parse_cross_session(r#"{"ts":9223372036854775807,"path":"/p"}"#)[0].ts, i64::MAX);
    assert_eq!(parse_cross_session(r#"{"ts":-9223372036854775808,"path":"/p"}"#)[0].ts, i64::MIN);
    // So does the path of the tool call.
    assert!(parse_cross_session(r#"{"ts":5,"tool_use":{"input":{"path":1}},"path":"/p"}"#).is_empty());
    assert!(parse_cross_session(r#"{"ts":5,"tool_use":{"input":{"path":""}},"path":"/p"}"#).is_empty());
    // And a `tool_use` that is no object.
    let rs = parse_cross_session(r#"{"ts":5,"tool_use":null,"name":"Edit","path":"/p"}"#);
    assert_eq!(rs[0].tool, "");
    // A repeated key counts as its last value.
    assert_eq!(parse_cross_session(r#"{"ts":5,"ts":6,"path":"/p"}"#)[0].ts, 6);
}

#[test]
fn errors_by_flag_or_exit_code() {
    let is_error = |rest: &str| {
        parse_cross_session(&format!(r#"{{"ts":1,"path":"/p"{rest}}}"#))[0].is_error
    };
    assert!(!is_error(""));
    assert!(is_error(r#","is_error":true"#));
    assert!(!is_error(r#","is_error":false"#));
    assert!(!is_error(r#","is_error":"true""#));
    assert!(!is_error(r#","is_error":1"#));
    assert!(is_error(r#","exit_code":1"#));
    assert!(is_error(r#","exit_code":-1"#));
    assert!(!is_error(r#","exit_code":0"#));
    assert!(!is_error(r#","exit_code":"1""#));
    assert!(is_error(r#","exit_code":2,"is_error":false"#));
}

#[test]
fn bad_lines_are_skipped() {
    let good = r#"{"ts":1,"path":"/a"}"#;
    let more = r#"{"ts":2,"path":"/b"}"#;
    for bad in ["", "   ", "\t\u{2003}", "not json", "{\"ts\":1", "[1,2]", "5", "null", "{}", "\r"] {
        let text = format!("{good}\n{bad}\n{more}\n");
        let rs = parse_cross_session(&text);
        assert_eq!(rs.len(), 2, "{bad:?}");
        assert_eq!((rs[0].path.as_str(), rs[1].path.as_str()), ("/a", "/b"));
    }
}

#[test]
fn records_sorted_by_time_and_stable() {
    let text = r#"{"ts":3,"path":"/c"}
{"ts":1,"path":"/x"}
{"ts":2,"path":"/b"}
{"ts":1,"path":"/y"}
{"ts":1,"path":"/a"}"#;
    let seen: Vec<(i64, String)> =
        parse_cross_session(text).iter().map(|r| (r.ts, r.path.clone())).collect();
    let want: Vec<(i64, String)> = [(1, "/x"), (1, "/y"), (1, "/a"), (2, "/b"), (3, "/c")]
        .iter()
        .map(|p| (p.0, p.1.to_string()))
        .collect();
    assert_eq!(seen, want);
}

#[test]
fn carriage_returns_end_lines_too() {
    let rs = parse_cross_session("{\"ts\":1,\"path\":\"/a\"}\r\n{\"ts\":2,\"path\":\"/b\"}\r\n");
    assert_eq!(rs.len(), 2);
}

#[test]
fn last_slug_that_is_not_empty_wins() {
    assert_eq!(parse_session_slug(""), None);
    assert_eq!(parse_session_slug("{\"intent_slug\":\"\"}\n"), None);
    assert_eq!(parse_session_slug("{\"intent_slug\":7}\n"), None);
    let text = "{\"intent_slug\":\"one\"}\nbroken\n{\"intent_slug\":\"two\",\"ts\":0}\n{\"intent_slug\":\"\"}\n{\"ts\":1}\n";
    assert_eq!(parse_session_slug(text), Some("two".to_string()));
}

#[test]
fn log_is_read_line_by_line() {
    let a = "{\"ts\":1,\"path\":\"/a\",\"intent_slug\":\"s\"}\n";
    let b = "{\"ts\":0,\"path\":\"/b\"}";
    let whole = read_log(&format!("{a}{b}"));
    assert_eq!(whole.len(), read_log(a).len() + read_log(b).len());
    assert_eq!(log_records(&whole)[0].path, "/b");
    assert_eq!(log_slug(&whole), Some("s".to_string()));
}

fn no_call() -> ToolCall {
    ToolCall { name: None, path: None, line_start: None, line_end: None }
}

fn plain_line() -> LogLine {
    LogLine {
        ts: Some(Scalar::Int(4)),
        timestamp: None,
        path: Some(Scalar::Text("/p".to_string())),
        exit_code: None,
        is_error: None,
        intent_slug: None,
        inline_call: no_call(),
        tool_use: None,
    }
}

#[test]
fn record_of_a_given_line() {
    let mut line = plain_line();
    line.inline_call.name = Some(Scalar::Text("Edit".to_string()));
    let r = line_record(&line).unwrap();
    assert_eq!((r.ts, r.path.as_str(), r.tool.as_str()), (4, "/p", "Edit"));
    line.tool_use = Some(no_call());
    assert_eq!(line_record(&line).unwrap().tool, "");
    line.tool_use = Some(ToolCall { path: Some(Scalar::Other), ..no_call() });
    assert!(line_record(&line).is_none());
    let mut late = plain_line();
    late.ts = None;
    assert!(line_record(&late).is_none());
    late.timestamp = Some(Scalar::Int(9));
    assert_eq!(line_record(&late).unwrap().ts, 9);
    late.ts = Some(Scalar::Flag(true));
    assert!(line_record(&late).is_none());
}

#[test]
fn sessions_sorted_by_id() {
    let t = |stem: Option<&str>, content: &str| Transcript {
        stem: stem.map(|s| s.to_string()),
        content: content.to_string(),
    };
    let ss = read_sessions(&vec![
        t(Some("b"), "{\"ts\":1,\"path\":\"/b\",\"intent_slug\":\"i\"}"),
        t(None, ""),
        t(Some("B"), ""),
        t(Some("a"), "junk"),
        t(Some("ab"), ""),
    ]);
    let ids: Vec<&str> = ss.iter().map(|s| s.sid.as_str()).collect();
    assert_eq!(ids, vec!["B", "a", "ab", "b", "unknown"]);
    assert_eq!(ss[3].records.len(), 1);
    assert_eq!(ss[3].slug, Some("i".to_string()));
    assert_eq!(ss[1].records.len(), 0);
    assert_eq!(ss[1].slug, None);
}

#[test]
fn recent_transcripts() {
    assert!(is_recent_transcript(Some("jsonl"), 900, 1000, 100));
    assert!(!is_recent_transcript(Some("jsonl"), 899, 1000, 100));
    assert!(!is_recent_transcript(Some("json"), 900, 1000, 100));
    assert!(!is_recent_transcript(Some("JSONL"), 900, 1000, 100));
    assert!(!is_recent_transcript(None, 900, 1000, 100));
    assert!(is_recent_transcript(Some("jsonl"), i64::MIN, -2, i64::MAX));
    assert!(is_recent_transcript(Some("jsonl"), i64::MAX, 1, i64::MIN));
}

#[test]
fn unix_times() {
    assert_eq!(unix_time(None), 0);
    assert_eq!(unix_time(Some(0)), 0);
    assert_eq!(unix_time(Some(1_700_000_000)), 1_700_000_000);
    assert_eq!(unix_time(Some(i64::MAX as u64)), i64::MAX);
    assert_eq!(unix_time(Some(u64::MAX)), i64::MAX);
    let before = now_unix();
    let after = now_unix();
    assert!(before > 1_000_000_000);
    assert!(after - before < 20);
}

#[test]
fn carriage_return_behind_a_text_makes_no_difference() {
    let lines = [
        r#"{"ts":1,"path":"/p","intent_slug":"i"}"#,
        r#"{"ts":1,"path":"/p"} "#,
        r#"{"ts":1,"path":"/p""#,
        r#"{"ts":1,"path":"/p"#,
        r#"{"ts":1,"path":"/p\"#,
        r#"{"ts":1,"path":"/p\u00"#,
        r#"{"ts":1,"path":"/p"},"#,
        r#"{"ts":1,"#,
        r#"{"ts":1"#,
        r#"{"ts"#,
        "[1,",
        "[1",
        "12",
        "-",
        "-0",
        "1.",
        "1.5",
        "1e",
        "1e5",
        "tru",
        "true",
        "null",
        "\"a",
        "\"a\"",
        "",
        " ",
        "\r",
    ];
    for line in lines {
        let fed = format!("{}\r", line);
        assert_eq!(format!("{:?}", read_log(&fed)), format!("{:?}", read_log(line)));
        assert_eq!(
            format!("{:?}", parse_cross_session(&fed)),
            format!("{:?}", parse_cross_session(line))
        );
        assert_eq!(parse_session_slug(&fed), parse_session_slug(line));
    }
    assert_eq!(parse_cross_session("{\"ts\":1,\"path\":\"/p\"}\r").len(), 1);
}

#[test]
fn joined_texts_merge_their_records_by_time() {
    let x = "{\"ts\":5,\"path\":\"/a\"}\n{\"ts\":9,\"path\":\"/b\"}";
    let y = "{\"ts\":9,\"path\":\"/c\"}\nnot json\n{\"ts\":1,\"path\":\"/d\"}";
    for (x, y, paths) in [
        (x.to_string(), y.to_string(), vec!["/d", "/a", "/b", "/c"]),
        (y.to_string(), x.to_string(), vec!["/d", "/a", "/c", "/b"]),
        (format!("{}\r", x), y.to_string(), vec!["/d", "/a", "/b", "/c"]),
        (format!("{}\n", x), y.to_string(), vec!["/d", "/a", "/b", "/c"]),
        (String::new(), x.to_string(), vec!["/a", "/b"]),
        (x.to_string(), String::new(), vec!["/a", "/b"]),
        ("{\"ts\":".to_string(), x.to_string(), vec!["/a", "/b"]),
    ] {
        let whole = parse_cross_session(&format!("{}\n{}", x, y));
        let seen: Vec<&str> = whole.iter().map(|r| r.path.as_str()).collect();
        assert_eq!(seen, paths);
        let mut parts = parse_cross_session(&x);
        parts.extend(parse_cross_session(&y));
        parts.sort_by_key(|r| r.ts);
        assert_eq!(format!("{:?}", whole), format!("{:?}", parts));
    }
}

#[test]
fn joined_texts_declare_the_later_intent() {
    let texts = [
        "",
        "not json",
        "{\"intent_slug\":\"\"}",
        "{\"intent_slug\":\"one\"}",
        "{\"intent_slug\":\"two\"}\n{\"intent_slug\":\"\"}",
        "{\"intent_slug\":\"three\"}\r",
        "{\"intent_slug\":\"four\"}\n",
    ];
    for x in texts {
        for y in texts {
            let whole = parse_session_slug(&format!("{}\n{}", x, y));
            assert_eq!(whole, parse_session_slug(y).or(parse_session_slug(x)));
            assert_ne!(whole, Some(String::new()));
        }
    }
    assert_eq!(
        parse_session_slug("{\"intent_slug\":\"one\"}\n{\"intent_slug\":\"\"}"),
        Some("one".to_string())
    );
    assert_eq!(
        parse_session_slug("{\"intent_slug\":\"one\"}\r\n{\"intent_slug\":\"two\"}"),
        Some("two".to_string())
    );
}
