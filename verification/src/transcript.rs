//! Session transcripts: one JSON object per line, read into timestamped
//! records and a declared intent.

use vstd::prelude::*;

use crate::json;
use crate::json::{Leaf, Scalar};
use crate::model;
use crate::model::{CrossRecord, RecordView, Session, SessionView};
use crate::order;
use crate::order::{stable_sort, Ranked};
use crate::text;

verus! {

/// What a line says of a tool call.
#[derive(Debug, Clone)]
pub struct ToolCall {
    /// The tool's name.
    pub name: Option<Scalar>,
    /// `path` of the call's input.
    pub path: Option<Scalar>,
    /// `line_start` of the call's input.
    pub line_start: Option<Scalar>,
    /// `line_end` of the call's input.
    pub line_end: Option<Scalar>,
}

/// The value of a [`ToolCall`].
pub struct ToolCallView {
    pub name: Option<Leaf>,
    pub path: Option<Leaf>,
    pub line_start: Option<Leaf>,
    pub line_end: Option<Leaf>,
}

impl View for ToolCall {
    type V = ToolCallView;

    open spec fn view(&self) -> ToolCallView {
        ToolCallView {
            name: self.name.deep_view(),
            path: self.path.deep_view(),
            line_start: self.line_start.deep_view(),
            line_end: self.line_end.deep_view(),
        }
    }
}

impl DeepView for ToolCall {
    type V = ToolCallView;

    open spec fn deep_view(&self) -> ToolCallView {
        self@
    }
}

/// What is read of one line of a transcript.
#[derive(Debug, Clone)]
pub struct LogLine {
    /// The action's time.
    pub ts: Option<Scalar>,
    /// The action's time under its other name.
    pub timestamp: Option<Scalar>,
    /// A path outside the tool call.
    pub path: Option<Scalar>,
    /// Exit code of the action.
    pub exit_code: Option<Scalar>,
    /// Whether the action failed.
    pub is_error: Option<Scalar>,
    /// The intent the session declares.
    pub intent_slug: Option<Scalar>,
    /// A tool call spelled out in the line itself.
    pub inline_call: ToolCall,
    /// The tool call under `tool_use`.
    pub tool_use: Option<ToolCall>,
}

/// The value of a [`LogLine`].
pub struct LogLineView {
    pub ts: Option<Leaf>,
    pub timestamp: Option<Leaf>,
    pub path: Option<Leaf>,
    pub exit_code: Option<Leaf>,
    pub is_error: Option<Leaf>,
    pub intent_slug: Option<Leaf>,
    pub inline_call: ToolCallView,
    pub tool_use: Option<ToolCallView>,
}

impl View for LogLine {
    type V = LogLineView;

    open spec fn view(&self) -> LogLineView {
        LogLineView {
            ts: self.ts.deep_view(),
            timestamp: self.timestamp.deep_view(),
            path: self.path.deep_view(),
            exit_code: self.exit_code.deep_view(),
            is_error: self.is_error.deep_view(),
            intent_slug: self.intent_slug.deep_view(),
            inline_call: self.inline_call@,
            tool_use: self.tool_use.deep_view(),
        }
    }
}

impl DeepView for LogLine {
    type V = LogLineView;

    open spec fn deep_view(&self) -> LogLineView {
        self@
    }
}

/// The tool call that a JSON value spells out.
pub open spec fn call_of(fields: Map<Seq<Seq<char>>, Leaf>) -> ToolCallView {
    let input = json::member_of(fields, "input"@);
    ToolCallView {
        name: json::leaf_of(fields, "name"@),
        path: match input {
            Some(i) => json::leaf_of(i, "path"@),
            None => None,
        },
        line_start: match input {
            Some(i) => json::leaf_of(i, "line_start"@),
            None => None,
        },
        line_end: match input {
            Some(i) => json::leaf_of(i, "line_end"@),
            None => None,
        },
    }
}

/// What is read of a line that holds these fields.
pub open spec fn line_of(fields: Map<Seq<Seq<char>>, Leaf>) -> LogLineView {
    LogLineView {
        ts: json::leaf_of(fields, "ts"@),
        timestamp: json::leaf_of(fields, "timestamp"@),
        path: json::leaf_of(fields, "path"@),
        exit_code: json::leaf_of(fields, "exit_code"@),
        is_error: json::leaf_of(fields, "is_error"@),
        intent_slug: json::leaf_of(fields, "intent_slug"@),
        inline_call: call_of(fields),
        tool_use: match json::member_of(fields, "tool_use"@) {
            Some(inner) => Some(call_of(inner)),
            None => None,
        },
    }
}

/// What is read of one line of text: nothing if it is blank or no JSON.
pub open spec fn entry_of(line: Seq<char>) -> Seq<LogLineView> {
    if text::is_blank(line) {
        Seq::empty()
    } else {
        match json::json_document(line) {
            Some(fields) => seq![line_of(fields)],
            None => Seq::empty(),
        }
    }
}

/// What is read of each of several lines.
pub open spec fn entries_of(lines: Seq<Seq<char>>) -> spec_fn(int) -> Seq<LogLineView> {
    |k: int| entry_of(lines[k])
}

/// What is read of a transcript, line by line.
pub open spec fn log_of(jsonl: Seq<char>) -> Seq<LogLineView> {
    let lines = text::lines_of(jsonl);
    order::gather(lines.len() as int, entries_of(lines))
}

/// A line feed at the end of a text changes nothing, unless the text ends in a
/// carriage return and its last line reads otherwise without it.
pub proof fn lemma_log_end(jsonl: Seq<char>)
    requires
        jsonl.len() > 0 && jsonl.last() == '\r' ==> entry_of(
            text::chomped(text::lines_of(jsonl).last()),
        ) == entry_of(text::lines_of(jsonl).last()),
    ensures
        log_of(jsonl + seq!['\n']) == log_of(jsonl),
{
    let open_lines = text::lines_of(jsonl);
    let lines = text::lines_of(jsonl + seq!['\n']);
    let n = open_lines.len() as int;
    let f = entries_of(open_lines);
    let g = entries_of(lines);
    text::lemma_lines_end(jsonl);
    assert forall|k: int| 0 <= k < n implies #[trigger] f(k) == g(k) by {
        if k < n - 1 {
            assert(lines[k] == open_lines[k]);
        }
    }
    order::lemma_gather_same(n, f, g);
    if lines.len() > n {
        assert(lines[n] == Seq::<char>::empty());
        assert(g(n) =~= Seq::empty());
        assert(order::gather(n + 1, g) =~= order::gather(n, g));
    }
}

/// The first of two values that is there.
pub open spec fn first_of(a: Option<Leaf>, b: Option<Leaf>) -> Option<Leaf> {
    match a {
        Some(leaf) => Some(leaf),
        None => b,
    }
}

/// The number of a field, if it is there and an integer.
pub open spec fn int_of(field: Option<Leaf>) -> Option<i64> {
    match field {
        Some(Leaf::Int(n)) => Some(n),
        _ => None,
    }
}

/// The text of a field; empty if it is not there or no string.
pub open spec fn text_of(field: Option<Leaf>) -> Seq<char> {
    match field {
        Some(Leaf::Text(t)) => t,
        _ => Seq::empty(),
    }
}

/// The tool call of a line: the one under `tool_use` where that is there.
pub open spec fn tool_call_of(line: LogLineView) -> ToolCallView {
    match line.tool_use {
        Some(call) => call,
        None => line.inline_call,
    }
}

/// The record of a line, if the line carries a time and a path.
pub open spec fn record_of(line: LogLineView) -> Option<RecordView> {
    let call = tool_call_of(line);
    let path = text_of(first_of(call.path, line.path));
    match int_of(first_of(line.ts, line.timestamp)) {
        Some(ts) => if path.len() == 0 {
            None
        } else {
            Some(
                RecordView {
                    ts,
                    path,
                    tool: text_of(call.name),
                    is_error: (int_of(line.exit_code) is Some && int_of(line.exit_code)->0 != 0)
                        || line.is_error == Some(Leaf::Flag(true)),
                    line_start: int_of(call.line_start),
                    line_end: int_of(call.line_end),
                },
            )
        },
        None => None,
    }
}

/// The record of each line.
pub open spec fn record_at(log: Seq<LogLineView>) -> spec_fn(int) -> Seq<RecordView> {
    |k: int|
        match record_of(log[k]) {
            Some(r) => seq![r],
            None => Seq::empty(),
        }
}

/// The order of records by time.
pub open spec fn earlier() -> spec_fn(RecordView, RecordView) -> bool {
    |a: RecordView, b: RecordView| a.ts < b.ts
}

/// The records of a log, in the order of time.
pub open spec fn records_of(log: Seq<LogLineView>) -> Seq<RecordView> {
    order::sorted(order::gather(log.len() as int, record_at(log)), earlier())
}

/// The intent that a line declares, if any.
pub open spec fn slug_of(line: LogLineView) -> Option<Seq<char>> {
    if text_of(line.intent_slug).len() > 0 {
        Some(text_of(line.intent_slug))
    } else {
        None
    }
}

/// The intent that a log declares last.
pub open spec fn last_slug(log: Seq<LogLineView>) -> Option<Seq<char>>
    decreases log.len(),
{
    if log.len() == 0 {
        None
    } else if slug_of(log.last()) is Some {
        slug_of(log.last())
    } else {
        last_slug(log.drop_last())
    }
}

impl Ranked for CrossRecord {
    open spec fn before() -> spec_fn(RecordView, RecordView) -> bool {
        earlier()
    }

    fn comes_before(&self, other: &Self) -> (yes: bool) {
        self.ts < other.ts
    }
}

/// Reads the tool call that a value spells out.
fn read_call(value: &serde_json::Value) -> (call: ToolCall)
    ensures
        call@ == call_of(json::json_fields(*value)),
{
    let name = json::member_scalar(value, "name");
    match json::member(value, "input") {
        Some(input) => ToolCall {
            name,
            path: json::member_scalar(input, "path"),
            line_start: json::member_scalar(input, "line_start"),
            line_end: json::member_scalar(input, "line_end"),
        },
        None => ToolCall { name, path: None, line_start: None, line_end: None },
    }
}

/// Reads what a line's value says.
fn read_line(value: &serde_json::Value) -> (line: LogLine)
    ensures
        line@ == line_of(json::json_fields(*value)),
{
    LogLine {
        ts: json::member_scalar(value, "ts"),
        timestamp: json::member_scalar(value, "timestamp"),
        path: json::member_scalar(value, "path"),
        exit_code: json::member_scalar(value, "exit_code"),
        is_error: json::member_scalar(value, "is_error"),
        intent_slug: json::member_scalar(value, "intent_slug"),
        inline_call: read_call(value),
        tool_use: match json::member(value, "tool_use") {
            Some(inner) => Some(read_call(inner)),
            None => None,
        },
    }
}

/// Reads a transcript line by line. Blank lines and lines that are not JSON
/// are skipped. Whether the last line ends in a line feed does not matter.
#[must_use]
pub fn read_log(jsonl: &str) -> (log: Vec<LogLine>)
    ensures
        log.deep_view() == log_of(jsonl@),
        log.deep_view() == log_of(jsonl@ + seq!['\n']),
{
    let lines = text::split_lines(jsonl);
    let ghost f = entries_of(lines.deep_view());
    let mut log: Vec<LogLine> = Vec::new();
    let mut k: usize = 0;
    while k < lines.len()
        invariant
            k <= lines.len(),
            f == entries_of(lines.deep_view()),
            log.deep_view() =~= order::gather(k as int, f),
            forall|m: int|
                0 <= m < k ==> #[trigger] entry_of(text::chomped(lines.deep_view()[m])) == f(m),
        decreases lines.len() - k,
    {
        let line = &lines[k];
        let ghost before = log.deep_view();
        assert(lines.deep_view()[k as int] == line@);
        if !text::blank(line.as_str()) {
            if let Some(value) = json::parse(line.as_str()) {
                log.push(read_line(&value));
            }
        }
        assert(log.deep_view() =~= before + f(k as int));
        assert(entry_of(text::chomped(line@)) == f(k as int)) by {
            text::lemma_chomped_blank(line@);
        }
        k = k + 1;
    }
    proof {
        text::lemma_lines_end(jsonl@);
        if jsonl@.len() > 0 && jsonl@.last() == '\r' {
            let last = lines.deep_view().len() - 1;
            assert(entry_of(text::chomped(lines.deep_view()[last])) == f(last));
        }
        lemma_log_end(jsonl@);
    }
    log
}

/// The first of two fields that is there.
fn first_field<'a>(a: &'a Option<Scalar>, b: &'a Option<Scalar>) -> (field: &'a Option<Scalar>)
    ensures
        field.deep_view() == first_of(a.deep_view(), b.deep_view()),
{
    if a.is_some() {
        a
    } else {
        b
    }
}

/// The number of a field, if it is there and an integer.
fn field_int(field: &Option<Scalar>) -> (n: Option<i64>)
    ensures
        n == int_of(field.deep_view()),
{
    match field {
        Some(Scalar::Int(n)) => Some(*n),
        _ => None,
    }
}

/// The text of a field; empty if it is not there or no string.
fn field_text(field: &Option<Scalar>) -> (t: String)
    ensures
        t@ == text_of(field.deep_view()),
{
    match field {
        Some(Scalar::Text(t)) => t.clone(),
        _ => String::new(),
    }
}

/// Whether a field is there and true.
fn field_flag(field: &Option<Scalar>) -> (yes: bool)
    ensures
        yes == (field.deep_view() == Some(Leaf::Flag(true))),
{
    match field {
        Some(Scalar::Flag(b)) => *b,
        _ => false,
    }
}

/// The record of a line, if the line carries a time and a path.
#[must_use]
pub fn line_record(line: &LogLine) -> (record: Option<CrossRecord>)
    ensures
        record.deep_view() == record_of(line@),
{
    let call = match &line.tool_use {
        Some(call) => call,
        None => &line.inline_call,
    };
    let ts: i64 = match field_int(first_field(&line.ts, &line.timestamp)) {
        Some(ts) => ts,
        None => {
            return None;
        },
    };
    let path = field_text(first_field(&call.path, &line.path));
    if path.as_str().is_empty() {
        return None;
    }
    let failed = match field_int(&line.exit_code) {
        Some(code) => code != 0,
        None => false,
    };
    Some(
        CrossRecord {
            ts,
            path,
            tool: field_text(&call.name),
            is_error: failed || field_flag(&line.is_error),
            line_start: field_int(&call.line_start),
            line_end: field_int(&call.line_end),
        },
    )
}

/// The records of a log, in the order of time.
#[must_use]
pub fn log_records(log: &Vec<LogLine>) -> (records: Vec<CrossRecord>)
    ensures
        records.deep_view() == records_of(log.deep_view()),
{
    let ghost f = record_at(log.deep_view());
    let mut records: Vec<CrossRecord> = Vec::new();
    let mut k: usize = 0;
    while k < log.len()
        invariant
            k <= log.len(),
            f == record_at(log.deep_view()),
            records.deep_view() =~= order::gather(k as int, f),
        decreases log.len() - k,
    {
        let ghost before = records.deep_view();
        assert(log.deep_view()[k as int] == log[k as int]@);
        if let Some(record) = line_record(&log[k]) {
            records.push(record);
        }
        assert(records.deep_view() =~= before + f(k as int));
        k = k + 1;
    }
    stable_sort(records)
}

/// The intent that a log declares last.
#[must_use]
pub fn log_slug(log: &Vec<LogLine>) -> (slug: Option<String>)
    ensures
        slug.deep_view() == last_slug(log.deep_view()),
        slug is Some ==> slug->0@.len() > 0,
{
    let ghost all = log.deep_view();
    let mut k: usize = log.len();
    assert(all.take(k as int) =~= all);
    while k > 0
        invariant
            k <= log.len(),
            all == log.deep_view(),
            last_slug(all) == last_slug(all.take(k as int)),
        decreases k,
    {
        let ghost front = all.take(k as int);
        assert(front.last() == log[k - 1]@);
        assert(front.drop_last() =~= all.take(k - 1));
        let slug = field_text(&log[k - 1].intent_slug);
        if !slug.as_str().is_empty() {
            return Some(slug);
        }
        k = k - 1;
    }
    None
}

/// Reads a session transcript into timestamped records.
///
/// Best effort: lines that are not JSON objects, or carry no path or time, are
/// skipped. The records come back ascending by `ts`. Whether the last line
/// ends in a line feed does not matter.
#[must_use]
pub fn parse_cross_session(jsonl: &str) -> (records: Vec<CrossRecord>)
    ensures
        records.deep_view() == records_of(log_of(jsonl@)),
        records.deep_view() == records_of(log_of(jsonl@ + seq!['\n'])),
{
    log_records(&read_log(jsonl))
}

/// The intent that a session declares, if any.
///
/// Any line may carry an `intent_slug`; the last one that is not empty wins.
/// Whether the last line ends in a line feed does not matter.
#[must_use]
pub fn parse_session_slug(jsonl: &str) -> (slug: Option<String>)
    ensures
        slug.deep_view() == last_slug(log_of(jsonl@)),
        slug.deep_view() == last_slug(log_of(jsonl@ + seq!['\n'])),
        slug is Some ==> slug->0@.len() > 0,
{
    log_slug(&read_log(jsonl))
}

/// A transcript that was found and read.
#[derive(Debug, Clone)]
pub struct Transcript {
    /// The stem of the file's name, if it is text.
    pub stem: Option<String>,
    /// The file's content.
    pub content: String,
}

/// The value of a [`Transcript`].
pub struct TranscriptView {
    pub stem: Option<Seq<char>>,
    pub content: Seq<char>,
}

impl View for Transcript {
    type V = TranscriptView;

    open spec fn view(&self) -> TranscriptView {
        TranscriptView { stem: self.stem.deep_view(), content: self.content@ }
    }
}

impl DeepView for Transcript {
    type V = TranscriptView;

    open spec fn deep_view(&self) -> TranscriptView {
        self@
    }
}

/// A transcript is looked at if its file is a `jsonl` file that was modified
/// at the cutoff, `since_secs` before `now`, or later.
pub open spec fn is_recent(
    extension: Option<Seq<char>>,
    mtime: i64,
    now: i64,
    since_secs: i64,
) -> bool {
    extension == Some("jsonl"@) && model::elapsed(since_secs, now) <= mtime
}

/// Whether a file is a transcript that was modified within `since_secs` of
/// `now`.
#[must_use]
pub fn is_recent_transcript(
    extension: Option<&str>,
    mtime: i64,
    now: i64,
    since_secs: i64,
) -> (yes: bool)
    ensures
        yes == is_recent(extension.deep_view(), mtime, now, since_secs),
{
    match extension {
        Some(e) => text::text_is(e, "jsonl") && model::seconds_between(since_secs, now) <= mtime,
        None => false,
    }
}

/// The session of a transcript.
pub open spec fn session_of(t: TranscriptView) -> SessionView {
    SessionView {
        sid: match t.stem {
            Some(stem) => stem,
            None => "unknown"@,
        },
        records: records_of(log_of(t.content)),
        slug: last_slug(log_of(t.content)),
    }
}

/// The order of sessions by id.
pub open spec fn by_sid() -> spec_fn(SessionView, SessionView) -> bool {
    |a: SessionView, b: SessionView| text::text_lt(a.sid, b.sid)
}

impl Ranked for Session {
    open spec fn before() -> spec_fn(SessionView, SessionView) -> bool {
        by_sid()
    }

    fn comes_before(&self, other: &Self) -> (yes: bool) {
        text::text_before(self.sid.as_str(), other.sid.as_str())
    }
}

/// The sessions of several transcripts, in the order of their ids.
pub open spec fn sessions_of(transcripts: Seq<TranscriptView>) -> Seq<SessionView> {
    order::sorted(transcripts.map_values(|t: TranscriptView| session_of(t)), by_sid())
}

/// Reads transcripts into sessions, one per transcript, sorted by session id.
#[must_use]
pub fn read_sessions(transcripts: &Vec<Transcript>) -> (sessions: Vec<Session>)
    ensures
        sessions.deep_view() == sessions_of(transcripts.deep_view()),
{
    let ghost views = transcripts.deep_view().map_values(|t: TranscriptView| session_of(t));
    let mut sessions: Vec<Session> = Vec::new();
    let mut k: usize = 0;
    while k < transcripts.len()
        invariant
            k <= transcripts.len(),
            views == transcripts.deep_view().map_values(|t: TranscriptView| session_of(t)),
            sessions.deep_view() =~= views.take(k as int),
        decreases transcripts.len() - k,
    {
        let t = &transcripts[k];
        let ghost before = sessions.deep_view();
        let sid = match &t.stem {
            Some(stem) => stem.clone(),
            None => "unknown".to_owned(),
        };
        let log = read_log(t.content.as_str());
        let records = log_records(&log);
        let slug = log_slug(&log);
        sessions.push(Session { sid, records, slug });
        assert(sessions.deep_view() =~= before.push(session_of(t@)));
        k = k + 1;
    }
    assert(views.take(k as int) =~= views);
    stable_sort(sessions)
}

} // verus!
