//! What is read, told from the texts alone.

use vstd::prelude::*;

use crate::clock;
use crate::json;
use crate::json::{Leaf, Scalar};
use crate::laws;
use crate::model::{RecordView, SessionView};
use crate::order;
use crate::since;
use crate::text;
use crate::transcript;
use crate::transcript::{LogLine, LogLineView, ToolCall, ToolCallView};
use crate::transcript::{Transcript, TranscriptView};

verus! {

/// Text `a` stands before `b` in a dictionary: it is where `b` goes on, or it
/// has the smaller character at the first place where they differ.
pub open spec fn precedes(a: Seq<char>, b: Seq<char>) -> bool {
    exists|n: int|
        0 <= n <= a.len() && n < b.len() && #[trigger] a.take(n) == b.take(n) && (n == a.len()
            || a[n] < b[n])
}

/// Texts are ordered as in a dictionary.
pub proof fn law_text_order(a: Seq<char>, b: Seq<char>)
    ensures
        text::text_lt(a, b) <==> precedes(a, b),
    decreases a.len(),
{
    if b.len() > 0 {
        if a.len() == 0 || a[0] != b[0] {
            assert(a.take(0) =~= b.take(0));
            if precedes(a, b) {
                let n = choose|n: int|
                    0 <= n <= a.len() && n < b.len() && #[trigger] a.take(n) == b.take(n) && (n
                        == a.len() || a[n] < b[n]);
                if n > 0 {
                    assert(a.take(n)[0] == b.take(n)[0]);
                }
            }
        } else {
            let a1 = a.drop_first();
            let b1 = b.drop_first();
            law_text_order(a1, b1);
            if precedes(a, b) {
                let n = choose|n: int|
                    0 <= n <= a.len() && n < b.len() && #[trigger] a.take(n) == b.take(n) && (n
                        == a.len() || a[n] < b[n]);
                assert(a1.take(n - 1) =~= a.take(n).drop_first());
                assert(b1.take(n - 1) =~= b.take(n).drop_first());
            }
            if precedes(a1, b1) {
                let n = choose|n: int|
                    0 <= n <= a1.len() && n < b1.len() && #[trigger] a1.take(n) == b1.take(n) && (n
                        == a1.len() || a1[n] < b1[n]);
                assert(a.take(n + 1) =~= seq![a[0]] + a1.take(n));
                assert(b.take(n + 1) =~= seq![b[0]] + b1.take(n));
            }
        }
    }
}

/// List `a` of texts stands before `b`: it is where `b` goes on, or it has the
/// text that stands first at the first place where they differ.
pub open spec fn list_precedes(a: Seq<Seq<char>>, b: Seq<Seq<char>>) -> bool {
    exists|n: int|
        0 <= n <= a.len() && n < b.len() && #[trigger] a.take(n) == b.take(n) && (n == a.len()
            || precedes(a[n], b[n]))
}

/// Lists of texts are ordered text by text.
pub proof fn law_list_order(a: Seq<Seq<char>>, b: Seq<Seq<char>>)
    ensures
        text::texts_lt(a, b) <==> list_precedes(a, b),
    decreases a.len(),
{
    if b.len() > 0 {
        if a.len() > 0 {
            law_text_order(a[0], b[0]);
            text::lemma_text_lt_irreflexive(a[0]);
        }
        if a.len() == 0 || a[0] != b[0] {
            assert(a.take(0) =~= b.take(0));
            if list_precedes(a, b) {
                let n = choose|n: int|
                    0 <= n <= a.len() && n < b.len() && #[trigger] a.take(n) == b.take(n) && (n
                        == a.len() || precedes(a[n], b[n]));
                if n > 0 {
                    assert(a.take(n)[0] == b.take(n)[0]);
                }
            }
        } else {
            let a1 = a.drop_first();
            let b1 = b.drop_first();
            law_list_order(a1, b1);
            if list_precedes(a, b) {
                let n = choose|n: int|
                    0 <= n <= a.len() && n < b.len() && #[trigger] a.take(n) == b.take(n) && (n
                        == a.len() || precedes(a[n], b[n]));
                assert(a1.take(n - 1) =~= a.take(n).drop_first());
                assert(b1.take(n - 1) =~= b.take(n).drop_first());
            }
            if list_precedes(a1, b1) {
                let n = choose|n: int|
                    0 <= n <= a1.len() && n < b1.len() && #[trigger] a1.take(n) == b1.take(n) && (n
                        == a1.len() || precedes(a1[n], b1[n]));
                assert(a.take(n + 1) =~= seq![a[0]] + a1.take(n));
                assert(b.take(n + 1) =~= seq![b[0]] + b1.take(n));
            }
        }
    }
}

/// The characters that Unicode calls white space.
pub open spec fn is_space(c: char) -> bool {
    ||| c == '\t' || c == '\n' || c == '\u{b}' || c == '\u{c}' || c == '\r' || c == ' '
    ||| c == '\u{85}' || c == '\u{a0}' || c == '\u{1680}'
    ||| '\u{2000}' <= c <= '\u{200a}'
    ||| c == '\u{2028}' || c == '\u{2029}' || c == '\u{202f}' || c == '\u{205f}'
    ||| c == '\u{3000}'
}

/// White space and nothing else.
pub open spec fn all_space(s: Seq<char>) -> bool {
    forall|i: int| 0 <= i < s.len() ==> is_space(#[trigger] s[i])
}

/// White space is what Unicode calls so.
pub proof fn law_white_space(c: char)
    ensures
        text::is_white_space(c) <==> is_space(c),
{
}

/// Trimming takes the white space at both ends off and nothing else, and a
/// text is blank just when it is white space throughout.
pub proof fn law_trimmed(s: Seq<char>) -> (ends: (Seq<char>, Seq<char>))
    ensures
        s == ends.0 + text::trimmed(s) + ends.1,
        all_space(ends.0),
        all_space(ends.1),
        text::trimmed(s).len() > 0 ==> !is_space(text::trimmed(s)[0]) && !is_space(
            text::trimmed(s).last(),
        ),
        text::is_blank(s) <==> all_space(s),
    decreases s.len(),
{
    if s.len() > 0 {
        law_white_space(s[0]);
        law_white_space(s.last());
    }
    if s.len() > 0 && text::is_white_space(s[0]) {
        let (front, back) = law_trimmed(s.drop_first());
        let ends = (seq![s[0]] + front, back);
        assert(s =~= seq![s[0]] + s.drop_first());
        assert(s =~= ends.0 + text::trimmed(s) + ends.1);
        assert forall|i: int| 0 <= i < ends.0.len() implies is_space(#[trigger] ends.0[i]) by {
            if i > 0 {
                assert(ends.0[i] == front[i - 1]);
            }
        }
        assert(all_space(s) ==> all_space(s.drop_first()));
        if all_space(s.drop_first()) {
            assert forall|i: int| 0 <= i < s.len() implies is_space(#[trigger] s[i]) by {
                if i > 0 {
                    assert(s[i] == s.drop_first()[i - 1]);
                }
            }
        }
        ends
    } else if s.len() > 0 && text::is_white_space(s.last()) {
        let (front, back) = law_trimmed(s.drop_last());
        let ends = (front, back.push(s.last()));
        assert(s =~= s.drop_last().push(s.last()));
        assert(s =~= ends.0 + text::trimmed(s) + ends.1);
        if all_space(s) {
            assert(is_space(s[0]));
        }
        assert(s.drop_last()[0] == s[0]);
        assert(!all_space(s.drop_last()));
        ends
    } else {
        let ends = (Seq::<char>::empty(), Seq::<char>::empty());
        assert(s =~= ends.0 + s + ends.1);
        if s.len() > 0 && all_space(s) {
            assert(is_space(s[0]));
        }
        ends
    }
}

/// One or more of the digits from zero to nine.
pub open spec fn all_digits(s: Seq<char>) -> bool {
    s.len() > 0 && forall|i: int| 0 <= i < s.len() ==> '0' <= #[trigger] s[i] <= '9'
}

/// A number is written with digits, and the place of a digit gives it its
/// power of ten.
pub proof fn law_numbers(s: Seq<char>, t: Seq<char>, c: char)
    ensures
        text::is_number(s) <==> all_digits(s),
        text::digits_value(Seq::empty()) == 0,
        '0' <= c <= '9' ==> text::digits_value(seq![c]) == c as int - '0' as int,
        text::digits_value(s + t) == text::digits_value(s) * vstd::arithmetic::power::pow(
            10,
            t.len(),
        ) + text::digits_value(t),
    decreases t.len(),
{
    reveal(vstd::arithmetic::power::pow);
    reveal_with_fuel(text::digits_value, 2);
    assert(seq![c].drop_last() =~= Seq::empty());
    if text::is_number(s) {
        assert forall|i: int| 0 <= i < s.len() implies '0' <= #[trigger] s[i] <= '9' by {
            assert(text::is_digit(s[i]));
        }
    }
    if all_digits(s) {
        assert forall|i: int| 0 <= i < s.len() implies text::is_digit(#[trigger] s[i]) by {
            assert('0' <= s[i] <= '9');
        }
    }
    if t.len() == 0 {
        let v = text::digits_value(s);
        let one = vstd::arithmetic::power::pow(10, t.len());
        assert(s + t =~= s);
        assert(one == 1);
        assert(v * one == v) by (nonlinear_arith)
            requires
                one == 1,
        ;
    } else {
        let t1 = t.drop_last();
        law_numbers(s, t1, c);
        assert((s + t).drop_last() =~= s + t1);
        assert((s + t).last() == t.last());
        let v = text::digits_value(s);
        let p = vstd::arithmetic::power::pow(10, t1.len());
        let w = text::digits_value(t1);
        assert(vstd::arithmetic::power::pow(10, t.len()) == 10 * p);
        assert((v * p + w) * 10 == v * (10 * p) + w * 10) by (nonlinear_arith);
    }
}

/// A number in base ten: the digits stand for it, none of them is a leading
/// zero, and a negative one has a minus sign in front.
pub proof fn law_decimal(n: int)
    ensures
        n >= 0 ==> all_digits(text::decimal(n)) && text::digits_value(text::decimal(n)) == n && (
        text::decimal(n)[0] == '0' ==> text::decimal(n).len() == 1),
        n < 0 ==> text::decimal(n) == seq!['-'] + text::decimal(-n),
{
    if n >= 0 {
        text::lemma_digits_read_back(n);
        law_numbers(text::decimal(n), Seq::empty(), '0');
        lemma_no_leading_zero(n);
    }
}

proof fn lemma_no_leading_zero(n: int)
    requires
        0 <= n,
    ensures
        text::digits_of(n).len() > 0,
        text::digits_of(n)[0] == '0' ==> text::digits_of(n).len() == 1 && n == 0,
    decreases n,
{
    if n >= 10 {
        lemma_no_leading_zero(n / 10);
        assert(text::digits_of(n)[0] == text::digits_of(n / 10)[0]);
    } else {
        assert(text::digits_of(n)[0] == ('0' as int + n) as char);
    }
}

/// How a text falls into lines: a line feed ends the first one, and takes one
/// carriage return right before it along; a text without a line feed is one
/// line, and no text is no line.
pub proof fn law_lines(line: Seq<char>, rest: Seq<char>)
    requires
        !line.contains('\n'),
    ensures
        text::lines_of(Seq::empty()) == Seq::<Seq<char>>::empty(),
        line.len() > 0 ==> text::lines_of(line) == seq![line],
        line.len() == 0 || line.last() != '\r' ==> text::lines_of(line + seq!['\n'] + rest)
            == seq![line] + text::lines_of(rest),
        text::lines_of(line + seq!['\r', '\n'] + rest) == seq![line] + text::lines_of(rest),
{
    text::lemma_lines_step(line, rest);
    let fed = line.push('\r');
    assert(!fed.contains('\n')) by {
        if fed.contains('\n') {
            let k = choose|k: int| 0 <= k < fed.len() && fed[k] == '\n';
            assert(line[k] == '\n');
        }
    }
    text::lemma_lines_step(fed, rest);
    assert(line + seq!['\r', '\n'] + rest =~= fed + seq!['\n'] + rest);
    assert(fed.drop_last() =~= line);
}

/// What stands at the end of a path of keys, if each key leads somewhere.
pub open spec fn looked_up(fields: Map<Seq<Seq<char>>, Leaf>, keys: Seq<Seq<char>>) -> Option<
    Leaf,
> {
    if forall|n: int| 1 <= n <= keys.len() ==> fields.contains_key(#[trigger] keys.take(n)) {
        Some(fields[keys])
    } else {
        None
    }
}

proof fn lemma_looked_up_one(fields: Map<Seq<Seq<char>>, Leaf>, key: Seq<char>)
    ensures
        json::leaf_of(fields, key) == looked_up(fields, seq![key]),
{
    let keys = seq![key];
    assert(keys.take(1) =~= keys);
    assert(keys + Seq::<Seq<char>>::empty() =~= keys);
    if fields.contains_key(keys) {
        assert forall|n: int| 1 <= n <= keys.len() implies fields.contains_key(
            #[trigger] keys.take(n),
        ) by {
            assert(keys.take(n) =~= keys);
        }
    } else {
        assert(!fields.contains_key(keys.take(1)));
    }
}

proof fn lemma_looked_up_below(
    fields: Map<Seq<Seq<char>>, Leaf>,
    key: Seq<char>,
    keys: Seq<Seq<char>>,
)
    requires
        keys.len() > 0,
    ensures
        looked_up(fields, seq![key] + keys) == (match json::member_of(fields, key) {
            Some(inner) => looked_up(inner, keys),
            None => None,
        }),
{
    let all = seq![key] + keys;
    let inner = json::below(fields, key);
    assert(all.take(1) =~= seq![key]);
    assert forall|n: int| 1 <= n <= keys.len() implies all.take(n + 1) == seq![key]
        + #[trigger] keys.take(n) by {
        assert(all.take(n + 1) =~= seq![key] + keys.take(n));
    }
    assert(keys.take(keys.len() as int) =~= keys);
    if !fields.contains_key(seq![key]) {
        assert(!fields.contains_key(all.take(1)));
    } else if looked_up(fields, all) is Some {
        assert forall|n: int| 1 <= n <= keys.len() implies inner.contains_key(
            #[trigger] keys.take(n),
        ) by {
            assert(fields.contains_key(all.take(n + 1)));
        }
    } else if looked_up(inner, keys) is Some {
        assert forall|n: int| 1 <= n <= all.len() implies fields.contains_key(
            #[trigger] all.take(n),
        ) by {
            if n > 1 {
                assert(inner.contains_key(keys.take(n - 1)));
                assert(all.take(n) == seq![key] + keys.take(n - 1));
            }
        }
    }
}

/// What is read of a tool call that stands at `place` in a JSON value.
pub open spec fn reads_call(
    fields: Map<Seq<Seq<char>>, Leaf>,
    place: Seq<Seq<char>>,
    call: ToolCallView,
) -> bool {
    &&& call.name == looked_up(fields, place + seq!["name"@])
    &&& call.path == looked_up(fields, place + seq!["input"@, "path"@])
    &&& call.line_start == looked_up(fields, place + seq!["input"@, "line_start"@])
    &&& call.line_end == looked_up(fields, place + seq!["input"@, "line_end"@])
}

/// What is read of a line's JSON value.
pub open spec fn reads_line(fields: Map<Seq<Seq<char>>, Leaf>, line: LogLineView) -> bool {
    &&& line.ts == looked_up(fields, seq!["ts"@])
    &&& line.timestamp == looked_up(fields, seq!["timestamp"@])
    &&& line.path == looked_up(fields, seq!["path"@])
    &&& line.exit_code == looked_up(fields, seq!["exit_code"@])
    &&& line.is_error == looked_up(fields, seq!["is_error"@])
    &&& line.intent_slug == looked_up(fields, seq!["intent_slug"@])
    &&& reads_call(fields, Seq::empty(), line.inline_call)
    &&& line.tool_use is Some <==> fields.contains_key(seq!["tool_use"@])
    &&& line.tool_use is Some ==> reads_call(fields, seq!["tool_use"@], line.tool_use->0)
}

proof fn lemma_call_read(fields: Map<Seq<Seq<char>>, Leaf>)
    ensures
        ({
            let call = transcript::call_of(fields);
            &&& call.name == looked_up(fields, seq!["name"@])
            &&& call.path == looked_up(fields, seq!["input"@, "path"@])
            &&& call.line_start == looked_up(fields, seq!["input"@, "line_start"@])
            &&& call.line_end == looked_up(fields, seq!["input"@, "line_end"@])
        }),
{
    lemma_looked_up_one(fields, "name"@);
    let inner = json::below(fields, "input"@);
    lemma_looked_up_one(inner, "path"@);
    lemma_looked_up_one(inner, "line_start"@);
    lemma_looked_up_one(inner, "line_end"@);
    lemma_looked_up_below(fields, "input"@, seq!["path"@]);
    lemma_looked_up_below(fields, "input"@, seq!["line_start"@]);
    lemma_looked_up_below(fields, "input"@, seq!["line_end"@]);
    assert(seq!["input"@] + seq!["path"@] =~= seq!["input"@, "path"@]);
    assert(seq!["input"@] + seq!["line_start"@] =~= seq!["input"@, "line_start"@]);
    assert(seq!["input"@] + seq!["line_end"@] =~= seq!["input"@, "line_end"@]);
}

proof fn lemma_line_read(fields: Map<Seq<Seq<char>>, Leaf>)
    ensures
        reads_line(fields, transcript::line_of(fields)),
{
    let name = seq!["name"@];
    let path = seq!["input"@, "path"@];
    let start = seq!["input"@, "line_start"@];
    let end = seq!["input"@, "line_end"@];
    let none = Seq::<Seq<char>>::empty();
    let tool = seq!["tool_use"@];
    let inner = json::below(fields, "tool_use"@);
    lemma_looked_up_one(fields, "ts"@);
    lemma_looked_up_one(fields, "timestamp"@);
    lemma_looked_up_one(fields, "path"@);
    lemma_looked_up_one(fields, "exit_code"@);
    lemma_looked_up_one(fields, "is_error"@);
    lemma_looked_up_one(fields, "intent_slug"@);
    lemma_call_read(fields);
    assert(none + name =~= name && none + path =~= path && none + start =~= start && none + end
        =~= end);
    lemma_call_read(inner);
    lemma_looked_up_below(fields, "tool_use"@, name);
    lemma_looked_up_below(fields, "tool_use"@, path);
    lemma_looked_up_below(fields, "tool_use"@, start);
    lemma_looked_up_below(fields, "tool_use"@, end);
}

/// What is read of one line: nothing where it is white space or no JSON, and
/// else what its JSON value holds under the known keys.
pub proof fn law_one_line(line: Seq<char>)
    requires
        !line.contains('\n'),
    ensures
        all_space(line) || json::json_document(line) is None ==> transcript::log_of(line).len()
            == 0,
        !all_space(line) && json::json_document(line) is Some ==> transcript::log_of(line).len()
            == 1 && reads_line(json::json_document(line)->0, transcript::log_of(line)[0]),
{
    law_trimmed(line);
    let lines = text::lines_of(line);
    let f = transcript::entries_of(lines);
    reveal_with_fuel(order::gather, 2);
    if line.len() > 0 {
        assert(lines == seq![line]);
        assert(f(0) == transcript::entry_of(line));
        assert(transcript::log_of(line) =~= transcript::entry_of(line));
        if json::json_document(line) is Some {
            lemma_line_read(json::json_document(line)->0);
        }
    }
}

/// A transcript is read line by line. A line ends at a line feed, with or
/// without a carriage return before it, and the last one may go without.
pub proof fn law_many_lines(x: Seq<char>, y: Seq<char>)
    ensures
        x.len() == 0 || x.last() != '\r' ==> transcript::log_of(x + seq!['\n'] + y)
            == transcript::log_of(x) + transcript::log_of(y),
        transcript::log_of(x + seq!['\r', '\n'] + y) == transcript::log_of(x)
            + transcript::log_of(y),
        x.len() == 0 || x.last() != '\r' ==> transcript::log_of(x + seq!['\n'])
            == transcript::log_of(x),
        transcript::log_of(x + seq!['\r', '\n']) == transcript::log_of(x),
{
    laws::law_log_concat(x, y);
    if x.len() == 0 || x.last() != '\r' {
        transcript::lemma_log_end(x);
    }
    let fed = x.push('\r');
    assert(x + seq!['\r', '\n'] + y =~= fed + seq!['\n'] + y);
    assert(x + seq!['\r', '\n'] =~= fed + seq!['\n']);
    laws::law_log_concat(fed, y);
    lemma_carriage_return(x);
    let open_lines = text::lines_of(x);
    let lines = text::lines_of(fed + seq!['\n']);
    let n = open_lines.len() as int;
    let f = transcript::entries_of(open_lines);
    let g = transcript::entries_of(lines);
    assert forall|k: int| 0 <= k < n implies #[trigger] f(k) == g(k) by {
        assert(lines[k] == open_lines[k]);
    }
    order::lemma_gather_same(n, f, g);
    if lines.len() > n {
        assert(lines[n] == Seq::<char>::empty());
        assert(g(n) =~= Seq::empty());
        assert(order::gather(n + 1, g) =~= order::gather(n, g));
    }
}

proof fn lemma_carriage_return(x: Seq<char>)
    ensures
        text::lines_of(x.push('\r') + seq!['\n']) == (if x.len() == 0 || x.last() == '\n' {
            text::lines_of(x).push(Seq::empty())
        } else {
            text::lines_of(x)
        }),
    decreases x.len(),
{
    let none = Seq::<char>::empty();
    let nl = seq!['\n'];
    let fed = x.push('\r');
    if !x.contains('\n') {
        law_lines(x, none);
        assert(fed + nl =~= x + seq!['\r', '\n'] + none);
        assert(text::lines_of(fed + nl) =~= seq![x]);
        if x.len() > 0 {
            assert(x[x.len() - 1] != '\n');
        } else {
            assert(x =~= none);
            assert(text::lines_of(x).push(none) =~= seq![x]);
        }
    } else {
        x.index_of_first_ensures('\n');
        let end = x.index_of_first('\n')->0;
        let line = x.take(end);
        let rest = x.skip(end + 1);
        assert(!line.contains('\n')) by {
            if line.contains('\n') {
                let k = choose|k: int| 0 <= k < line.len() && line[k] == '\n';
                assert(x[k] == '\n');
            }
        }
        if rest.len() > 0 {
            assert(rest.last() == x.last());
        } else {
            assert(x.last() == x[end]);
        }
        lemma_carriage_return(rest);
        text::lemma_lines_step(line, rest);
        text::lemma_lines_step(line, rest.push('\r') + nl);
        assert(x =~= line + nl + rest);
        assert(fed + nl =~= line + nl + (rest.push('\r') + nl));
        let head = seq![text::chomped(line)];
        assert(head + text::lines_of(rest).push(none) =~= (head + text::lines_of(rest)).push(none));
    }
}

/// A field is there and holds the integer `n`.
pub open spec fn holds_int(field: Option<Leaf>, n: i64) -> bool {
    field == Some(Leaf::Int(n))
}

/// A field is there and holds the text `t`.
pub open spec fn holds_text(field: Option<Leaf>, t: Seq<char>) -> bool {
    field == Some(Leaf::Text(t))
}

/// One field where it is there, else the other.
pub open spec fn one_or_other(one: Option<Leaf>, other: Option<Leaf>) -> Option<Leaf> {
    if one is Some {
        one
    } else {
        other
    }
}

/// The tool call of a line, which may stand under a key of its own.
pub open spec fn call_in(line: LogLineView) -> ToolCallView {
    if line.tool_use is Some {
        line.tool_use->0
    } else {
        line.inline_call
    }
}

/// The record of a line, told field by field. There is one just when the line
/// carries an integer time, under `ts` or else under `timestamp`, and a path
/// that is not empty, in its tool call or else outside. It is an error just
/// when the exit code is an integer other than zero, whichever it is, or the
/// error flag is set.
pub proof fn law_record_of_a_line(line: LogLineView)
    ensures
        ({
            let call = call_in(line);
            let when = one_or_other(line.ts, line.timestamp);
            let place = one_or_other(call.path, line.path);
            let record = transcript::record_of(line);
            &&& record is Some <==> {
                &&& exists|t: i64| #[trigger] holds_int(when, t)
                &&& exists|p: Seq<char>| p.len() > 0 && #[trigger] holds_text(place, p)
            }
            &&& record is Some ==> {
                let r = record->0;
                &&& when == Some(Leaf::Int(r.ts))
                &&& place == Some(Leaf::Text(r.path))
                &&& r.is_error <==> (exists|n: i64|
                    n != 0 && #[trigger] holds_int(line.exit_code, n)) || line.is_error
                    == Some(Leaf::Flag(true))
                &&& forall|t: Seq<char>|
                    #[trigger] holds_text(call.name, t) ==> r.tool == t
                &&& !(exists|t: Seq<char>| #[trigger] holds_text(call.name, t))
                    ==> r.tool.len() == 0
                &&& forall|n: i64|
                    r.line_start == Some(n) <==> #[trigger] holds_int(call.line_start, n)
                &&& forall|n: i64|
                    r.line_end == Some(n) <==> #[trigger] holds_int(call.line_end, n)
            }
        }),
{
    let call = call_in(line);
    let when = one_or_other(line.ts, line.timestamp);
    let place = one_or_other(call.path, line.path);
    assert(call == transcript::tool_call_of(line));
    assert(when == transcript::first_of(line.ts, line.timestamp));
    assert(place == transcript::first_of(call.path, line.path));
    if when is Some && when->0 is Int {
        assert(holds_int(when, when->0->Int_0));
    }
    if place is Some && place->0 is Text {
        assert(holds_text(place, place->0->Text_0));
    }
    if line.exit_code is Some && line.exit_code->0 is Int {
        assert(holds_int(line.exit_code, line.exit_code->0->Int_0));
    }
    if call.name is Some && call.name->0 is Text {
        assert(holds_text(call.name, call.name->0->Text_0));
    }
}

/// The records made at time `t`.
pub open spec fn made_at(t: i64) -> spec_fn(RecordView) -> bool {
    |r: RecordView| r.ts == t
}

/// The records of a log ascend by time, and each further line adds its record,
/// if it has one, behind those of the same time.
pub proof fn law_records_line_by_line(log: Seq<LogLineView>, line: LogLineView, t: i64)
    ensures
        transcript::records_of(Seq::empty()).len() == 0,
        transcript::records_of(log.push(line)).filter(made_at(t)) == transcript::records_of(
            log,
        ).filter(made_at(t)) + (match transcript::record_of(line) {
            Some(r) => if r.ts == t {
                seq![r]
            } else {
                Seq::empty()
            },
            None => Seq::empty(),
        }),
        forall|i: int, j: int|
            #![trigger transcript::records_of(log)[i], transcript::records_of(log)[j]]
            0 <= i < j < transcript::records_of(log).len() ==> transcript::records_of(log)[i].ts
                <= transcript::records_of(log)[j].ts,
        forall|r: RecordView| #[trigger]
            transcript::records_of(log).contains(r) <==> exists|k: int|
                0 <= k < log.len() && transcript::record_of(#[trigger] log[k]) == Some(r),
{
    broadcast use vstd::seq_lib::group_to_multiset_ensures;

    let longer = log.push(line);
    let n = log.len() as int;
    let f = transcript::record_at(log);
    let g = transcript::record_at(longer);
    let keep = made_at(t);
    let any = RecordView {
        ts: t,
        path: Seq::empty(),
        tool: Seq::empty(),
        is_error: false,
        line_start: None,
        line_end: None,
    };
    let tied = order::tied(any, transcript::earlier());
    laws::law_records_ascend(log);
    laws::law_records_ascend(longer);
    assert(tied =~= keep);
    assert(transcript::records_of(log).filter(tied) == order::gather(n, f).filter(tied));
    assert(transcript::records_of(longer).filter(tied) == order::gather(n + 1, g).filter(tied));
    assert forall|k: int| 0 <= k < n implies #[trigger] f(k) == g(k) by {
        assert(longer[k] == log[k]);
    }
    order::lemma_gather_same(n, f, g);
    let piece = g(n);
    assert(longer[n] == line);
    assert(order::gather(n + 1, g) == order::gather(n, f) + piece);
    Seq::filter_distributes_over_add(order::gather(n, f), piece, keep);
    reveal_with_fuel(Seq::filter, 2);
    match transcript::record_of(line) {
        Some(r) => {
            assert(piece =~= seq![r]);
            assert(piece.drop_last() =~= Seq::empty());
            assert(Seq::<RecordView>::empty().push(r) =~= seq![r]);
        },
        None => {
            assert(piece =~= Seq::empty());
        },
    }
    assert forall|r: RecordView| #[trigger]
        transcript::records_of(log).contains(r) <==> exists|k: int|
        0 <= k < log.len() && transcript::record_of(#[trigger] log[k]) == Some(r) by {
        assert(transcript::records_of(log).contains(r) <==> transcript::records_of(
            log,
        ).to_multiset().contains(r));
        assert(order::gather(n, f).contains(r) <==> order::gather(n, f).to_multiset().contains(r));
        order::lemma_gather_contains(n, f, r);
        if transcript::records_of(log).contains(r) {
            let k = choose|k: int| 0 <= k < n && (#[trigger] f(k)).contains(r);
            assert(transcript::record_of(log[k]) == Some(r));
        }
        if exists|k: int| 0 <= k < log.len() && transcript::record_of(#[trigger] log[k]) == Some(r) {
            let k = choose|k: int|
                0 <= k < log.len() && transcript::record_of(#[trigger] log[k]) == Some(r);
            assert(f(k)[0] == r);
            assert(f(k).contains(r));
        }
    }
}

/// The declared intent, line by line: a line whose `intent_slug` is a text
/// that is not empty settles it, any other line leaves it as it was.
pub proof fn law_intent_line_by_line(log: Seq<LogLineView>, line: LogLineView)
    ensures
        transcript::last_slug(Seq::empty()) is None,
        forall|t: Seq<char>|
            t.len() > 0 && #[trigger] holds_text(line.intent_slug, t)
                ==> transcript::last_slug(log.push(line)) == Some(t),
        !(exists|t: Seq<char>| t.len() > 0 && #[trigger] holds_text(line.intent_slug, t))
            ==> transcript::last_slug(log.push(line)) == transcript::last_slug(log),
{
    assert(log.push(line).drop_last() =~= log);
    if line.intent_slug is Some && line.intent_slug->0 is Text {
        assert(holds_text(line.intent_slug, line.intent_slug->0->Text_0));
    }
}

/// The sessions with a given id.
pub open spec fn named(sid: Seq<char>) -> spec_fn(SessionView) -> bool {
    |s: SessionView| s.sid == sid
}

/// There is one session per transcript, under the stem of its file or, where
/// that is no text, as `unknown`, with the records and the intent of its
/// content. Sessions stand in the order of their ids, those of one id in the
/// order of the transcripts.
pub proof fn law_sessions_in_full(transcripts: Seq<TranscriptView>)
    ensures
        ({
            let sessions = transcript::sessions_of(transcripts);
            let given = transcripts.map_values(
                |t: TranscriptView|
                    SessionView {
                        sid: if t.stem is Some {
                            t.stem->0
                        } else {
                            "unknown"@
                        },
                        records: transcript::records_of(transcript::log_of(t.content)),
                        slug: transcript::last_slug(transcript::log_of(t.content)),
                    },
            );
            &&& sessions.to_multiset() == given.to_multiset()
            &&& forall|i: int, j: int|
                #![trigger sessions[i], sessions[j]]
                0 <= i < j < sessions.len() ==> sessions[i].sid == sessions[j].sid || precedes(
                    sessions[i].sid,
                    sessions[j].sid,
                )
            &&& forall|sid: Seq<char>|
                sessions.filter(#[trigger] named(sid)) == given.filter(named(sid))
        }),
{
    let sessions = transcript::sessions_of(transcripts);
    let given = transcripts.map_values(
        |t: TranscriptView|
            SessionView {
                sid: if t.stem is Some {
                    t.stem->0
                } else {
                    "unknown"@
                },
                records: transcript::records_of(transcript::log_of(t.content)),
                slug: transcript::last_slug(transcript::log_of(t.content)),
            },
    );
    let views = transcripts.map_values(|t: TranscriptView| transcript::session_of(t));
    assert(given =~= views);
    laws::law_sessions_ascend(transcripts);
    laws::lemma_sid_order();
    order::law_sorted(views, transcript::by_sid());
    assert forall|i: int, j: int|
        #![trigger sessions[i], sessions[j]]
        0 <= i < j < sessions.len() implies sessions[i].sid == sessions[j].sid || precedes(
        sessions[i].sid,
        sessions[j].sid,
    ) by {
        assert(!transcript::by_sid()(sessions[j], sessions[i]));
        text::lemma_text_lt_total(sessions[i].sid, sessions[j].sid);
        law_text_order(sessions[i].sid, sessions[j].sid);
    }
    assert forall|sid: Seq<char>|
        sessions.filter(#[trigger] named(sid)) == given.filter(named(sid)) by {
        let any = SessionView { sid, records: Seq::empty(), slug: None };
        let tied = order::tied(any, transcript::by_sid());
        let same = named(sid);
        assert forall|s: SessionView| #[trigger] tied(s) == same(s) by {
            text::lemma_text_lt_total(sid, s.sid);
            text::lemma_text_lt_irreflexive(sid);
        }
        assert(tied =~= same);
        assert(sessions.filter(tied) == views.filter(tied));
    }
}

/// A file is looked at just when it is a `jsonl` file that is no older than
/// the look back; the latest time there is counts as new enough for any.
pub proof fn law_recent_in_full(
    extension: Option<Seq<char>>,
    mtime: i64,
    now: i64,
    since_secs: i64,
)
    ensures
        transcript::is_recent(extension, mtime, now, since_secs) <==> extension == Some("jsonl"@)
            && (now - mtime <= since_secs || mtime == i64::MAX),
{
}

/// Unix time is the number of seconds since the epoch, as far as `i64` goes,
/// and zero before it.
pub proof fn law_unix_time(elapsed: Option<u64>)
    ensures
        elapsed is None ==> clock::unix_secs(elapsed) == 0,
        elapsed is Some && elapsed->0 <= i64::MAX ==> clock::unix_secs(elapsed) == elapsed->0,
        elapsed is Some && elapsed->0 > i64::MAX ==> clock::unix_secs(elapsed) == i64::MAX,
{
}

/// The ways to spell a duration of `n` times `unit` seconds: digits, perhaps
/// behind a sign, and then a letter for the unit, perhaps behind white space;
/// or no letter, for seconds. White space may surround it all. A minus sign
/// goes with zero only.
pub open spec fn spells(
    s: Seq<char>,
    front: Seq<char>,
    sign: Seq<char>,
    digits: Seq<char>,
    gap: Seq<char>,
    letter: Seq<char>,
    back: Seq<char>,
    n: i64,
    unit: i64,
) -> bool {
    &&& s == front + (sign + digits + gap + letter) + back
    &&& all_space(front)
    &&& all_space(gap)
    &&& all_space(back)
    &&& all_digits(digits)
    &&& text::digits_value(digits) == n
    &&& sign == Seq::<char>::empty() || sign == seq!['+'] || (sign == seq!['-'] && n == 0)
    &&& {
        ||| letter == seq!['s'] && unit == 1
        ||| letter == seq!['m'] && unit == 60
        ||| letter == seq!['h'] && unit == 60 * 60
        ||| letter == seq!['d'] && unit == 24 * 60 * 60
        ||| letter == Seq::<char>::empty() && gap == Seq::<char>::empty() && unit == 1
    }
}

proof fn lemma_already_trimmed(s: Seq<char>)
    requires
        s.len() > 0,
        !is_space(s[0]),
        !is_space(s.last()),
    ensures
        text::trimmed(s) == s,
{
    law_white_space(s[0]);
    law_white_space(s.last());
}

proof fn lemma_signed_count(sign: Seq<char>, digits: Seq<char>, n: i64)
    requires
        all_digits(digits),
        text::digits_value(digits) == n,
        sign == Seq::<char>::empty() || sign == seq!['+'] || (sign == seq!['-'] && n == 0),
    ensures
        since::count_of(sign + digits) == Some(n),
        !is_space((sign + digits)[0]),
        '0' <= (sign + digits).last() <= '9',
{
    law_numbers(digits, Seq::empty(), '0');
    assert('0' <= digits[0] <= '9');
    assert('0' <= digits[digits.len() - 1] <= '9');
    if sign.len() == 0 {
        assert(sign + digits =~= digits);
    } else {
        assert((sign + digits).drop_first() =~= digits);
        assert((sign + digits)[0] == sign[0]);
    }
}

proof fn lemma_count_spelled(s: Seq<char>) -> (parts: (Seq<char>, Seq<char>))
    requires
        since::count_of(s) is Some,
    ensures
        s == parts.0 + parts.1,
        all_digits(parts.1),
        text::digits_value(parts.1) == since::count_of(s)->0,
        parts.0 == Seq::<char>::empty() || parts.0 == seq!['+'] || (parts.0 == seq!['-']
            && since::count_of(s)->0 == 0),
{
    let signed = s.len() > 0 && (s[0] == '+' || s[0] == '-');
    let parts = if signed {
        (seq![s[0]], s.drop_first())
    } else {
        (Seq::empty(), s)
    };
    assert(s =~= parts.0 + parts.1);
    law_numbers(parts.1, Seq::empty(), '0');
    since::lemma_value_not_negative(parts.1);
    parts
}

/// A text is a duration just when it is spelled as one, and then it stands for
/// what is spelled; in seconds, that is the count times the unit.
pub proof fn law_durations_in_full(s: Seq<char>, n: i64, unit: i64)
    ensures
        since::duration_of(s) == Some((n, unit)) <==> exists|
            front: Seq<char>,
            sign: Seq<char>,
            digits: Seq<char>,
            gap: Seq<char>,
            letter: Seq<char>,
            back: Seq<char>,
        | #[trigger]
            spells(s, front, sign, digits, gap, letter, back, n, unit),
        since::duration_of(s) == Some((n, unit)) ==> since::seconds_of(s) == Some(n * unit),
        since::duration_of(s) is None ==> since::seconds_of(s) is None,
{
    let none = Seq::<char>::empty();
    if exists|
        front: Seq<char>,
        sign: Seq<char>,
        digits: Seq<char>,
        gap: Seq<char>,
        letter: Seq<char>,
        back: Seq<char>,
    | #[trigger]
        spells(s, front, sign, digits, gap, letter, back, n, unit) {
        let (front, sign, digits, gap, letter, back) = choose|
            front: Seq<char>,
            sign: Seq<char>,
            digits: Seq<char>,
            gap: Seq<char>,
            letter: Seq<char>,
            back: Seq<char>,
        | #[trigger]
            spells(s, front, sign, digits, gap, letter, back, n, unit);
        let count = sign + digits;
        let core = sign + digits + gap + letter;
        lemma_signed_count(sign, digits, n);
        lemma_already_trimmed(count);
        text::lemma_trim_padding(front, core, back);
        assert(core[0] == count[0]);
        if letter.len() == 0 {
            assert(core =~= count);
        } else {
            assert(core.last() == letter[0]);
            lemma_already_trimmed(core);
            text::lemma_trim_padding(none, count, gap);
            assert(core.drop_last() =~= none + count + gap);
        }
    }
    if since::duration_of(s) == Some((n, unit)) {
        let t = text::trimmed(s);
        let (front, back) = law_trimmed(s);
        if since::unit_secs(t.last()) is Some {
            let rest = t.drop_last();
            let letter = seq![t.last()];
            let (lead, gap) = law_trimmed(rest);
            let count = text::trimmed(rest);
            let (sign, digits) = lemma_count_spelled(count);
            if lead.len() > 0 {
                assert(rest[0] == lead[0]);
                assert(rest[0] == t[0]);
            }
            assert(rest =~= count + gap);
            assert(t =~= rest + letter);
            assert(t =~= sign + digits + gap + letter);
            assert(spells(s, front, sign, digits, gap, letter, back, n, unit));
        } else {
            let (sign, digits) = lemma_count_spelled(t);
            assert(t =~= sign + digits + none + none);
            assert(spells(s, front, sign, digits, none, none, back, n, unit));
        }
    }
}

/// The value of a scalar is what it holds.
pub proof fn law_scalar_value(s: Scalar)
    ensures
        s matches Scalar::Int(n) ==> s@ == Leaf::Int(n),
        s matches Scalar::Flag(b) ==> s@ == Leaf::Flag(b),
        s matches Scalar::Text(t) ==> s@ == Leaf::Text(t@),
        s is Other ==> s@ == Leaf::Other,
        s.deep_view() == s@,
{
}

/// The value of a field: that of its scalar, where it is there.
pub open spec fn field_value(field: Option<Scalar>) -> Option<Leaf> {
    match field {
        Some(s) => Some(s@),
        None => None,
    }
}

/// The value of a tool call is what its fields hold.
pub proof fn law_call_value(call: ToolCall)
    ensures
        call@.name == field_value(call.name),
        call@.path == field_value(call.path),
        call@.line_start == field_value(call.line_start),
        call@.line_end == field_value(call.line_end),
        call.deep_view() == call@,
{
}

/// The value of a line is what its fields hold.
pub proof fn law_line_value(line: LogLine)
    ensures
        line@.ts == field_value(line.ts),
        line@.timestamp == field_value(line.timestamp),
        line@.path == field_value(line.path),
        line@.exit_code == field_value(line.exit_code),
        line@.is_error == field_value(line.is_error),
        line@.intent_slug == field_value(line.intent_slug),
        line@.inline_call == line.inline_call@,
        line@.tool_use is Some <==> line.tool_use is Some,
        line.tool_use is Some ==> line@.tool_use->0 == line.tool_use->0@,
        line.deep_view() == line@,
{
}

/// The value of a transcript is what its fields hold.
pub proof fn law_transcript_value(t: Transcript)
    ensures
        t@.content == t.content@,
        t@.stem is Some <==> t.stem is Some,
        t.stem is Some ==> t@.stem->0 == t.stem->0@,
        t.deep_view() == t@,
{
}

} // verus!
