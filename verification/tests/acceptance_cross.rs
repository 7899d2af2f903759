//! The three patterns end to end: transcripts in, candidates out.

use episodic_observer::{observe_cross, proposal_file, read_sessions, CrossCandidate, Transcript};

/// The transcript `<stem>.jsonl` with the given content.
fn session(stem: &str, content: &str) -> Transcript {
    Transcript { stem: Some(stem.to_string()), content: content.to_string() }
}

fn run_cross(transcripts: Vec<Transcript>) -> Vec<CrossCandidate> {
    observe_cross(&read_sessions(&transcripts))
}

fn err_line(ts: i64, path: &str) -> String {
    format!(r#"{{"type":"tool_use","ts":{ts},"tool_use":{{"name":"Bash","input":{{"path":"{path}"}}}},"is_error":true}}"#)
}

fn write_line(ts: i64, path: &str) -> String {
    format!(r#"{{"type":"tool_use","ts":{ts},"tool_use":{{"name":"Edit","input":{{"path":"{path}"}}}},"is_error":false}}"#)
}

#[test]
fn ac1_corrective_fires_on_synthetic_data() {
    let arr = run_cross(vec![
        session("A", &format!("{}\n", err_line(1000, "/tmp/foo"))),
        session("B", &format!("{}\n", write_line(1030, "/tmp/foo"))),
    ]);
    assert_eq!(arr.len(), 1, "exactly one cross-session candidate");
    let c = &arr[0];
    assert_eq!(c.kind, "episodic-cross-session");
    assert_eq!(c.context, "corrective");
    assert_eq!(c.participants, vec!["A", "B"]);
    assert_eq!(c.paths, vec!["/tmp/foo"]);
}

#[test]
fn ac2_no_false_positive_on_unrelated_paths() {
    let arr = run_cross(vec![
        session("A", &format!("{}\n", err_line(1000, "/tmp/foo"))),
        session("B", &format!("{}\n", write_line(1030, "/tmp/bar"))),
    ]);
    assert_eq!(arr.len(), 0, "unrelated paths must not correlate");
}

#[test]
fn ac3_window_enforced() {
    // 400s apart (> 300): no candidate.
    let far = run_cross(vec![
        session("A", &format!("{}\n", err_line(1000, "/tmp/foo"))),
        session("B", &format!("{}\n", write_line(1400, "/tmp/foo"))),
    ]);
    assert_eq!(far.len(), 0, "400s > window");

    // 290s apart (< 300): one candidate.
    let near = run_cross(vec![
        session("A", &format!("{}\n", err_line(1000, "/tmp/foo"))),
        session("B", &format!("{}\n", write_line(1290, "/tmp/foo"))),
    ]);
    assert_eq!(near.len(), 1, "290s < window");
}

/// Successful Edit carrying an explicit `[line_start, line_end]` range.
fn write_line_lr(ts: i64, path: &str, ls: i64, le: i64) -> String {
    format!(
        r#"{{"type":"tool_use","ts":{ts},"tool_use":{{"name":"Edit","input":{{"path":"{path}","line_start":{ls},"line_end":{le}}}}},"is_error":false}}"#
    )
}

/// Non-error, non-write activity (a Bash read) touching `path`.
fn act_line(ts: i64, path: &str) -> String {
    format!(r#"{{"type":"tool_use","ts":{ts},"tool_use":{{"name":"Bash","input":{{"path":"{path}"}}}},"is_error":false}}"#)
}

/// A session-intent declaration line (no path; sets the session slug).
fn intent_line(ts: i64, slug: &str) -> String {
    format!(r#"{{"type":"intent","ts":{ts},"intent_slug":"{slug}"}}"#)
}

#[test]
fn ac4_redundant_fires_on_overlapping_diffs() {
    // Two sessions edit the same file's same line range 20 min apart:
    // exactly one `redundant` candidate.
    let arr = run_cross(vec![
        session("A", &format!("{}\n", write_line_lr(1000, "/tmp/x", 10, 20))),
        session("B", &format!("{}\n", write_line_lr(2200, "/tmp/x", 12, 18))),
    ]);
    assert_eq!(arr.len(), 1, "exactly one redundant candidate");
    let c = &arr[0];
    assert_eq!(c.kind, "episodic-cross-session");
    assert_eq!(c.context, "redundant");
    assert_eq!(c.participants, vec!["A", "B"]);
    assert_eq!(c.paths, vec!["/tmp/x"]);
}

#[test]
fn ac4_redundant_respects_window_and_overlap() {
    // Non-overlapping line ranges, same file, in window: no candidate.
    let arr = run_cross(vec![
        session("A", &format!("{}\n", write_line_lr(1000, "/tmp/x", 1, 5))),
        session("B", &format!("{}\n", write_line_lr(1600, "/tmp/x", 40, 50))),
    ]);
    assert_eq!(arr.len(), 0, "disjoint line ranges must not be redundant");
}

#[test]
fn ac6_rescue_fires_on_intent_named_rescue() {
    // A errors on /tmp/p then stalls (6 min of silence). B, whose intent
    // slug matches A's, resumes activity on /tmp/p within 10 min of the
    // stall: exactly one `rescue` candidate.
    let arr = run_cross(vec![
        session(
            "A",
            &format!("{}\n{}\n", intent_line(1000, "chord-x"), err_line(1000, "/tmp/p")),
        ),
        session(
            "B",
            &format!("{}\n{}\n", intent_line(1360, "chord-x"), act_line(1360, "/tmp/p")),
        ),
    ]);
    assert_eq!(arr.len(), 1, "exactly one rescue candidate");
    let c = &arr[0];
    assert_eq!(c.context, "rescue");
    assert_eq!(c.participants, vec!["A", "B"]);
    assert_eq!(c.paths, vec!["/tmp/p"]);
}

#[test]
fn ac6_rescue_requires_matching_intent() {
    // Same shape as above but B's intent slug differs: no candidate.
    let arr = run_cross(vec![
        session(
            "A",
            &format!("{}\n{}\n", intent_line(1000, "chord-x"), err_line(1000, "/tmp/p")),
        ),
        session(
            "B",
            &format!("{}\n{}\n", intent_line(1360, "other-slug"), act_line(1360, "/tmp/p")),
        ),
    ]);
    assert_eq!(arr.len(), 0, "non-matching intent must not rescue");
}

#[test]
fn one_proposal_file_per_candidate() {
    let arr = run_cross(vec![
        session("A", &format!("{}\n", err_line(1000, "/tmp/foo"))),
        session("B", &format!("{}\n", write_line(1030, "/tmp/foo"))),
    ]);
    let written: Vec<_> = arr.iter().map(|c| proposal_file(c, 5)).collect();
    assert_eq!(written.len(), 1, "exactly one proposal file written");
    assert_eq!(written[0].name, "cross-corrective-1000-1030-A+B.md");
    let body = &written[0].text;
    assert!(body.starts_with("---\n"), "proposal has YAML frontmatter");
    assert!(body.contains("kind: episodic-cross-session"), "kind stamped");
    assert!(body.contains("context: corrective"), "context stamped");
}
