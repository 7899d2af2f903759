//! Proposal files: what a candidate looks like on disk.

use vstd::prelude::*;

use crate::model::{CandidateView, CrossCandidate, CrossEvidence, EvidenceView};
use crate::text;

verus! {

/// How sure a detector is, in tenths.
pub open spec fn confidence(context: Seq<char>) -> int {
    if context == "corrective"@ {
        6
    } else if context == "redundant"@ {
        5
    } else {
        3
    }
}

/// The confidence stamped on a proposal, in tenths. The rescue detector is the
/// least precise one.
#[must_use]
pub fn confidence_for(context: &str) -> (tenths: u8)
    ensures
        tenths == confidence(context@),
{
    if text::text_is(context, "corrective") {
        6
    } else if text::text_is(context, "redundant") {
        5
    } else {
        3
    }
}

/// A character that a file name keeps: an ASCII letter or digit, `-` or `_`.
pub open spec fn is_name_char(c: char) -> bool {
    ||| 'a' <= c <= 'z'
    ||| 'A' <= c <= 'Z'
    ||| '0' <= c <= '9'
    ||| c == '-'
    ||| c == '_'
}

/// A text made safe for a file name: what a name does not keep becomes `_`.
pub open spec fn sanitized(s: Seq<char>) -> Seq<char> {
    s.map_values(
        |c: char|
            if is_name_char(c) {
                c
            } else {
                '_'
            },
    )
}

/// Makes a session id safe for a file name (ASCII letters and digits, `-` and
/// `_` are kept; anything else becomes `_`).
#[must_use]
pub fn sanitize(s: &str) -> (safe: String)
    ensures
        safe@ == sanitized(s@),
{
    let mut safe = String::new();
    for c in it: s.chars()
        invariant
            it.seq() == s@,
            safe@ =~= sanitized(s@).take(it.index()),
    {
        let keep = ('a' <= c && c <= 'z') || ('A' <= c && c <= 'Z') || ('0' <= c && c <= '9') || c
            == '-' || c == '_';
        safe.push(
            if keep {
                c
            } else {
                '_'
            },
        );
    }
    assert(sanitized(s@).take(s@.len() as int) =~= sanitized(s@));
    safe
}

/// Texts one after the other with `sep` between them.
pub open spec fn joined(texts: Seq<Seq<char>>, sep: Seq<char>) -> Seq<char>
    decreases texts.len(),
{
    if texts.len() == 0 {
        Seq::empty()
    } else if texts.len() == 1 {
        texts[0]
    } else {
        joined(texts.drop_last(), sep) + sep + texts.last()
    }
}

/// Joins texts with `sep` between them.
fn join(texts: &Vec<String>, sep: &str) -> (whole: String)
    ensures
        whole@ == joined(texts.deep_view(), sep@),
{
    let ghost all = texts.deep_view();
    let mut whole = String::new();
    let mut k: usize = 0;
    while k < texts.len()
        invariant
            k <= texts.len(),
            all == texts.deep_view(),
            whole@ =~= joined(all.take(k as int), sep@),
        decreases texts.len() - k,
    {
        assert(all.take(k + 1).drop_last() =~= all.take(k as int));
        assert(all.take(k + 1).last() == texts[k as int]@);
        if k > 0 {
            whole.append(sep);
        }
        whole.append(texts[k].as_str());
        k = k + 1;
    }
    assert(all.take(k as int) =~= all);
    whole
}

/// The texts of a list made safe for a file name.
pub open spec fn all_sanitized(texts: Seq<Seq<char>>) -> Seq<Seq<char>> {
    texts.map_values(|t: Seq<char>| sanitized(t))
}

/// The stem of a candidate's proposal file: its context, its window and its
/// participants.
pub open spec fn stem_of(c: CandidateView) -> Seq<char> {
    "cross-"@ + c.context + "-"@ + text::decimal(c.t_first_unix as int) + "-"@ + text::decimal(
        c.t_last_unix as int,
    ) + "-"@ + joined(all_sanitized(c.participants), "+"@)
}

/// The stem of a candidate's proposal file.
///
/// It follows from the candidate's content (context, window, participants), so
/// that a candidate found again names the same file.
#[must_use]
pub fn proposal_stem(c: &CrossCandidate) -> (stem: String)
    ensures
        stem@ == stem_of(c@),
{
    let mut parts: Vec<String> = Vec::new();
    let mut k: usize = 0;
    while k < c.participants.len()
        invariant
            k <= c.participants.len(),
            parts.deep_view() =~= all_sanitized(c@.participants).take(k as int),
        decreases c.participants.len() - k,
    {
        let ghost before = parts.deep_view();
        parts.push(sanitize(c.participants[k].as_str()));
        assert(parts.deep_view() =~= before.push(sanitized(c@.participants[k as int])));
        k = k + 1;
    }
    assert(all_sanitized(c@.participants).take(k as int) =~= all_sanitized(c@.participants));
    let mut stem = "cross-".to_owned();
    stem.append(c.context.as_str());
    stem.append("-");
    text::append_decimal(&mut stem, c.t_first_unix);
    stem.append("-");
    text::append_decimal(&mut stem, c.t_last_unix);
    stem.append("-");
    stem.append(join(&parts, "+").as_str());
    stem
}

/// The items of a YAML list, one per line.
pub open spec fn yaml_items(texts: Seq<Seq<char>>) -> Seq<char> {
    joined(texts.map_values(|t: Seq<char>| "  - "@ + t), "\n"@)
}

/// Writes the items of a YAML list.
fn yaml_list(texts: &Vec<String>) -> (list: String)
    ensures
        list@ == yaml_items(texts.deep_view()),
{
    let ghost items = texts.deep_view().map_values(|t: Seq<char>| "  - "@ + t);
    let mut lines: Vec<String> = Vec::new();
    let mut k: usize = 0;
    while k < texts.len()
        invariant
            k <= texts.len(),
            items == texts.deep_view().map_values(|t: Seq<char>| "  - "@ + t),
            lines.deep_view() =~= items.take(k as int),
        decreases texts.len() - k,
    {
        let ghost before = lines.deep_view();
        lines.push("  - ".to_owned().concat(texts[k].as_str()));
        assert(lines.deep_view() =~= before.push("  - "@ + texts[k as int]@));
        k = k + 1;
    }
    assert(items.take(k as int) =~= items);
    join(&lines, "\n")
}

/// One citation as an item of a markdown list.
pub open spec fn citation_of(e: EvidenceView) -> Seq<char> {
    "- `"@ + e.session + "` @ "@ + text::decimal(e.ts as int) + ": "@ + e.excerpt
}

/// The citations of a candidate, one per line.
pub open spec fn citations_of(evidence: Seq<EvidenceView>) -> Seq<char> {
    joined(evidence.map_values(|e: EvidenceView| citation_of(e)), "\n"@)
}

/// Writes one citation.
fn citation(e: &CrossEvidence) -> (line: String)
    ensures
        line@ == citation_of(e@),
{
    let mut line = "- `".to_owned();
    line.append(e.session.as_str());
    line.append("` @ ");
    text::append_decimal(&mut line, e.ts);
    line.append(": ");
    line.append(e.excerpt.as_str());
    line
}

/// Writes the citations of a candidate.
fn citations(evidence: &Vec<CrossEvidence>) -> (list: String)
    ensures
        list@ == citations_of(evidence.deep_view()),
{
    let ghost items = evidence.deep_view().map_values(|e: EvidenceView| citation_of(e));
    let mut lines: Vec<String> = Vec::new();
    let mut k: usize = 0;
    while k < evidence.len()
        invariant
            k <= evidence.len(),
            items == evidence.deep_view().map_values(|e: EvidenceView| citation_of(e)),
            lines.deep_view() =~= items.take(k as int),
        decreases evidence.len() - k,
    {
        let ghost before = lines.deep_view();
        lines.push(citation(&evidence[k]));
        assert(lines.deep_view() =~= before.push(citation_of(evidence[k as int]@)));
        k = k + 1;
    }
    assert(items.take(k as int) =~= items);
    join(&lines, "\n")
}

/// The frontmatter of a proposal up to its lists: what the proposal is.
pub open spec fn heading_of(c: CandidateView) -> Seq<char> {
    "---\nid: "@ + stem_of(c) + "\nkind: "@ + c.kind + "\nsubject: "@ + c.subject + "\ncontext: "@
        + c.context + "\nparticipants:\n"@
}

/// The rest of the frontmatter: who took part, where and when.
pub open spec fn listing_of(c: CandidateView, created_unix: i64) -> Seq<char> {
    yaml_items(c.participants) + "\npaths:\n"@ + yaml_items(c.paths) + "\nt_first_unix: "@
        + text::decimal(c.t_first_unix as int) + "\nt_last_unix: "@ + text::decimal(
        c.t_last_unix as int,
    ) + "\ncreated_unix: "@ + text::decimal(created_unix as int) + "\nconfidence: 0."@
        + text::decimal(confidence(c.context)) + "\nrecall_count: 0\n---\n"@
}

/// The body of a proposal, below the frontmatter.
pub open spec fn body_of(c: CandidateView) -> Seq<char> {
    "\nCross-session "@ + c.context + " pattern across sessions "@ + joined(
        c.participants,
        ", "@,
    ) + ".\n\n"@ + citations_of(c.evidence) + "\n\n<!-- episode observe-cross: detector="@
        + c.context + " -->\n"@
}

/// The text of a candidate's proposal file.
pub open spec fn proposal_of(c: CandidateView, created_unix: i64) -> Seq<char> {
    heading_of(c) + listing_of(c, created_unix) + body_of(c)
}

/// Writes the frontmatter of a proposal up to its lists.
fn heading(c: &CrossCandidate) -> (out: String)
    ensures
        out@ == heading_of(c@),
{
    let mut out = "---\nid: ".to_owned();
    out.append(proposal_stem(c).as_str());
    out.append("\nkind: ");
    out.append(c.kind.as_str());
    out.append("\nsubject: ");
    out.append(c.subject.as_str());
    out.append("\ncontext: ");
    out.append(c.context.as_str());
    out.append("\nparticipants:\n");
    out
}

/// Writes the rest of the frontmatter.
fn listing(c: &CrossCandidate, created_unix: i64) -> (out: String)
    ensures
        out@ == listing_of(c@, created_unix),
{
    let mut out = yaml_list(&c.participants);
    out.append("\npaths:\n");
    out.append(yaml_list(&c.paths).as_str());
    out.append("\nt_first_unix: ");
    text::append_decimal(&mut out, c.t_first_unix);
    out.append("\nt_last_unix: ");
    text::append_decimal(&mut out, c.t_last_unix);
    out.append("\ncreated_unix: ");
    text::append_decimal(&mut out, created_unix);
    out.append("\nconfidence: 0.");
    text::append_decimal(&mut out, confidence_for(c.context.as_str()) as i64);
    out.append("\nrecall_count: 0\n---\n");
    out
}

/// Writes the body of a proposal.
fn body(c: &CrossCandidate) -> (out: String)
    ensures
        out@ == body_of(c@),
{
    let mut out = "\nCross-session ".to_owned();
    out.append(c.context.as_str());
    out.append(" pattern across sessions ");
    out.append(join(&c.participants, ", ").as_str());
    out.append(".\n\n");
    out.append(citations(&c.evidence).as_str());
    out.append("\n\n<!-- episode observe-cross: detector=");
    out.append(c.context.as_str());
    out.append(" -->\n");
    out
}

/// Renders a candidate as a proposal file: YAML frontmatter and a markdown
/// body.
#[must_use]
pub fn render_proposal(c: &CrossCandidate, created_unix: i64) -> (out: String)
    ensures
        out@ == proposal_of(c@, created_unix),
{
    heading(c).concat(listing(c, created_unix).as_str()).concat(body(c).as_str())
}

/// A proposal file that is to be written.
#[derive(Debug, Clone)]
pub struct ProposalFile {
    /// The file's name.
    pub name: String,
    /// The file's text.
    pub text: String,
}

/// The value of a [`ProposalFile`].
pub struct ProposalFileView {
    pub name: Seq<char>,
    pub text: Seq<char>,
}

impl View for ProposalFile {
    type V = ProposalFileView;

    open spec fn view(&self) -> ProposalFileView {
        ProposalFileView { name: self.name@, text: self.text@ }
    }
}

impl DeepView for ProposalFile {
    type V = ProposalFileView;

    open spec fn deep_view(&self) -> ProposalFileView {
        self@
    }
}

/// The proposal file of a candidate.
pub open spec fn file_of(c: CandidateView, created_unix: i64) -> ProposalFileView {
    ProposalFileView { name: stem_of(c) + ".md"@, text: proposal_of(c, created_unix) }
}

/// The proposal file of a candidate: its name and its text.
#[must_use]
pub fn proposal_file(c: &CrossCandidate, created_unix: i64) -> (file: ProposalFile)
    ensures
        file@ == file_of(c@, created_unix),
{
    ProposalFile {
        name: proposal_stem(c).concat(".md"),
        text: render_proposal(c, created_unix),
    }
}

/// The detectors in the order of their precision: corrections before redundant
/// work before rescues.
pub proof fn law_confidence_order()
    ensures
        confidence("corrective"@) > confidence("redundant"@) > confidence("rescue"@),
{
    reveal_strlit("corrective");
    reveal_strlit("redundant");
    reveal_strlit("rescue");
    assert("corrective"@.len() == 10);
    assert("redundant"@.len() == 9);
    assert("rescue"@.len() == 6);
}

/// A sanitized text is as long as it was and holds only what a file name
/// keeps. What a name keeps stays as it is, so sanitizing twice changes
/// nothing more.
pub proof fn law_sanitized(s: Seq<char>)
    ensures
        sanitized(s).len() == s.len(),
        forall|i: int| 0 <= i < s.len() ==> is_name_char(#[trigger] sanitized(s)[i]),
        forall|i: int| 0 <= i < s.len() && is_name_char(s[i]) ==> #[trigger] sanitized(s)[i] == s[i],
        sanitized(sanitized(s)) == sanitized(s),
{
    assert(sanitized(sanitized(s)) =~= sanitized(s));
}

/// What a proposal's stem tells of two candidates: the same context, the same
/// window and, once sanitized, the same participants.
pub open spec fn same_content(c: CandidateView, d: CandidateView) -> bool {
    &&& c.context == d.context
    &&& c.t_first_unix == d.t_first_unix
    &&& c.t_last_unix == d.t_last_unix
    &&& all_sanitized(c.participants) == all_sanitized(d.participants)
}

/// A proposal's file name follows from the candidate's context, window and
/// sanitized participants. When it was written does not matter, so a candidate
/// that is found again overwrites its file.
pub proof fn law_name_from_content(c: CandidateView, d: CandidateView, now: i64, later: i64)
    requires
        same_content(c, d),
    ensures
        stem_of(c) == stem_of(d),
        file_of(c, now).name == file_of(d, later).name,
{
}

proof fn lemma_joined_has_sep(texts: Seq<Seq<char>>)
    requires
        texts.len() > 1,
    ensures
        joined(texts, "+"@).contains('+'),
{
    reveal_strlit("+");
    let front = joined(texts.drop_last(), "+"@);
    assert(joined(texts, "+"@)[front.len() as int] == '+');
}

/// Texts without a plus sign, joined by plus signs, can be told apart again.
proof fn lemma_joined_splits(a: Seq<Seq<char>>, b: Seq<Seq<char>>)
    requires
        a.len() > 0,
        b.len() > 0,
        forall|i: int| 0 <= i < a.len() ==> !(#[trigger] a[i]).contains('+'),
        forall|i: int| 0 <= i < b.len() ==> !(#[trigger] b[i]).contains('+'),
        joined(a, "+"@) == joined(b, "+"@),
    ensures
        a == b,
    decreases a.len(),
{
    reveal_strlit("+");
    assert("+"@ =~= seq!['+']);
    assert(!a[0].contains('+') && !b[0].contains('+'));
    if a.len() > 1 {
        lemma_joined_has_sep(a);
    }
    if b.len() > 1 {
        lemma_joined_has_sep(b);
    }
    if a.len() > 1 && b.len() > 1 {
        let a1 = a.drop_last();
        let b1 = b.drop_last();
        assert(!a[a.len() - 1].contains('+') && !b[b.len() - 1].contains('+'));
        text::lemma_split_last(joined(a1, "+"@), a.last(), joined(b1, "+"@), b.last(), '+');
        assert forall|i: int| 0 <= i < a1.len() implies !(#[trigger] a1[i]).contains('+') by {
            assert(a1[i] == a[i]);
        }
        assert forall|i: int| 0 <= i < b1.len() implies !(#[trigger] b1[i]).contains('+') by {
            assert(b1[i] == b[i]);
        }
        lemma_joined_splits(a1, b1);
        assert(a =~= a1.push(a.last()));
        assert(b =~= b1.push(b.last()));
    } else {
        assert(a =~= b);
    }
}

proof fn lemma_sanitized_has_no_sep(texts: Seq<Seq<char>>)
    ensures
        forall|i: int|
            0 <= i < texts.len() ==> !(#[trigger] all_sanitized(texts)[i]).contains('+'),
{
    assert forall|i: int| 0 <= i < texts.len() implies !(#[trigger] all_sanitized(
        texts,
    )[i]).contains('+') by {
        let t = all_sanitized(texts)[i];
        assert(t == sanitized(texts[i]));
        law_sanitized(texts[i]);
        if t.contains('+') {
            let k = choose|k: int| 0 <= k < t.len() && t[k] == '+';
            assert(is_name_char(sanitized(texts[i])[k]));
        }
    }
}

/// The stem of a candidate, piece behind piece.
proof fn lemma_stem_pieces(c: CandidateView)
    ensures
        stem_of(c) == "cross-"@ + (c.context + seq!['-'] + (text::decimal(c.t_first_unix as int)
            + seq!['-'] + (text::decimal(c.t_last_unix as int) + seq!['-'] + joined(
            all_sanitized(c.participants),
            "+"@,
        )))),
{
    reveal_strlit("-");
    assert("-"@ =~= seq!['-']);
    assert(stem_of(c) =~= "cross-"@ + (c.context + seq!['-'] + (text::decimal(
        c.t_first_unix as int,
    ) + seq!['-'] + (text::decimal(c.t_last_unix as int) + seq!['-'] + joined(
        all_sanitized(c.participants),
        "+"@,
    )))));
}

/// Candidates that have participants, and a context without a hyphen, have the
/// same stem just when they have the same context, the same window and the
/// same sanitized participants. Nothing else of them plays a part.
pub proof fn law_stem_tells_content(c: CandidateView, d: CandidateView)
    requires
        !c.context.contains('-'),
        !d.context.contains('-'),
        c.participants.len() > 0,
        d.participants.len() > 0,
    ensures
        stem_of(c) == stem_of(d) <==> same_content(c, d),
{
    if stem_of(c) == stem_of(d) {
        let x = joined(all_sanitized(c.participants), "+"@);
        let y = joined(all_sanitized(d.participants), "+"@);
        let x2 = text::decimal(c.t_last_unix as int) + seq!['-'] + x;
        let y2 = text::decimal(d.t_last_unix as int) + seq!['-'] + y;
        let x1 = text::decimal(c.t_first_unix as int) + seq!['-'] + x2;
        let y1 = text::decimal(d.t_first_unix as int) + seq!['-'] + y2;
        let x0 = c.context + seq!['-'] + x1;
        let y0 = d.context + seq!['-'] + y1;
        let n = "cross-"@.len() as int;
        lemma_stem_pieces(c);
        lemma_stem_pieces(d);
        assert(x0 =~= stem_of(c).skip(n));
        assert(y0 =~= stem_of(d).skip(n));
        text::lemma_split_first(c.context, x1, d.context, y1, '-');
        text::lemma_decimal_split(c.t_first_unix as int, x2, d.t_first_unix as int, y2);
        text::lemma_decimal_split(c.t_last_unix as int, x, d.t_last_unix as int, y);
        lemma_sanitized_has_no_sep(c.participants);
        lemma_sanitized_has_no_sep(d.participants);
        lemma_joined_splits(all_sanitized(c.participants), all_sanitized(d.participants));
    }
}

/// The context of one of the detectors.
pub open spec fn is_detector(context: Seq<char>) -> bool {
    context == "corrective"@ || context == "redundant"@ || context == "rescue"@
}

/// Two candidates of the detectors name the same file just when they have the
/// same context, the same window and the same sanitized participants, in
/// order. The name holds no slash.
pub proof fn law_detector_stems(c: CandidateView, d: CandidateView)
    requires
        is_detector(c.context),
        is_detector(d.context),
        c.participants.len() > 0,
        d.participants.len() > 0,
    ensures
        stem_of(c) == stem_of(d) <==> same_content(c, d),
        !stem_of(c).contains('/'),
{
    reveal_strlit("corrective");
    reveal_strlit("redundant");
    reveal_strlit("rescue");
    law_stem_tells_content(c, d);
    law_stem_is_safe(c);
}

/// A character that a proposal's stem may hold.
pub open spec fn is_stem_char(c: char) -> bool {
    is_name_char(c) || c == '+'
}

/// A text of which a stem may hold every character.
pub open spec fn is_stem_text(s: Seq<char>) -> bool {
    forall|i: int| 0 <= i < s.len() ==> is_stem_char(#[trigger] s[i])
}

proof fn lemma_stem_concat(a: Seq<char>, b: Seq<char>)
    requires
        is_stem_text(a),
        is_stem_text(b),
    ensures
        is_stem_text(a + b),
{
    assert forall|i: int| 0 <= i < (a + b).len() implies is_stem_char(#[trigger] (a + b)[i]) by {
        if i < a.len() {
            assert((a + b)[i] == a[i]);
        } else {
            assert((a + b)[i] == b[i - a.len()]);
        }
    }
}

proof fn lemma_stem_decimal(n: int)
    ensures
        is_stem_text(text::decimal(n)),
{
    let digits = text::digits_of(
        if n < 0 {
            -n
        } else {
            n
        },
    );
    text::lemma_digits_read_back(
        if n < 0 {
            -n
        } else {
            n
        },
    );
    assert forall|i: int| 0 <= i < digits.len() implies is_stem_char(#[trigger] digits[i]) by {
        assert(text::is_digit(digits[i]));
    }
    if n < 0 {
        lemma_stem_concat(seq!['-'], digits);
    }
}

proof fn lemma_stem_joined(texts: Seq<Seq<char>>)
    requires
        forall|i: int| 0 <= i < texts.len() ==> is_stem_text(#[trigger] texts[i]),
    ensures
        is_stem_text(joined(texts, "+"@)),
    decreases texts.len(),
{
    if texts.len() > 1 {
        let front = texts.drop_last();
        assert forall|i: int| 0 <= i < front.len() implies is_stem_text(#[trigger] front[i]) by {
            assert(front[i] == texts[i]);
        }
        lemma_stem_joined(front);
        reveal_strlit("+");
        assert(is_stem_text("+"@));
        lemma_stem_concat(joined(front, "+"@), "+"@);
        assert(is_stem_text(texts[texts.len() - 1]));
        lemma_stem_concat(joined(front, "+"@) + "+"@, texts.last());
    } else if texts.len() == 1 {
        assert(is_stem_text(texts[0]));
    }
}

/// Whatever the session ids are, a stem is safe for a file name if the
/// candidate's context is.
pub proof fn law_stem_is_safe(c: CandidateView)
    requires
        is_stem_text(c.context),
    ensures
        is_stem_text(stem_of(c)),
        !stem_of(c).contains('/'),
{
    let parts = all_sanitized(c.participants);
    assert forall|i: int| 0 <= i < parts.len() implies is_stem_text(#[trigger] parts[i]) by {
        assert(parts[i] == sanitized(c.participants[i]));
        law_sanitized(c.participants[i]);
        assert forall|m: int| 0 <= m < parts[i].len() implies is_stem_char(
            #[trigger] parts[i][m],
        ) by {
            assert(is_name_char(sanitized(c.participants[i])[m]));
        }
    }
    lemma_stem_joined(parts);
    lemma_stem_decimal(c.t_first_unix as int);
    lemma_stem_decimal(c.t_last_unix as int);
    reveal_strlit("cross-");
    reveal_strlit("-");
    assert(is_stem_text("cross-"@));
    assert(is_stem_text("-"@));
    let a = "cross-"@ + c.context;
    lemma_stem_concat("cross-"@, c.context);
    lemma_stem_concat(a, "-"@);
    let b = a + "-"@ + text::decimal(c.t_first_unix as int);
    lemma_stem_concat(a + "-"@, text::decimal(c.t_first_unix as int));
    lemma_stem_concat(b, "-"@);
    let d = b + "-"@ + text::decimal(c.t_last_unix as int);
    lemma_stem_concat(b + "-"@, text::decimal(c.t_last_unix as int));
    lemma_stem_concat(d, "-"@);
    lemma_stem_concat(d + "-"@, joined(parts, "+"@));
}

/// `part` stands somewhere in `s`.
pub open spec fn has_text(s: Seq<char>, part: Seq<char>) -> bool {
    exists|a: Seq<char>, b: Seq<char>| s == #[trigger] (a + part + b)
}

proof fn lemma_three_fields(
    head: Seq<char>,
    k: Seq<char>,
    kind: Seq<char>,
    s: Seq<char>,
    subject: Seq<char>,
    x: Seq<char>,
    context: Seq<char>,
    end: Seq<char>,
    rest: Seq<char>,
)
    ensures
        ({
            let all = head + k + kind + s + subject + x + context + end + rest;
            &&& has_text(all, k + kind + s)
            &&& has_text(all, s + subject + x)
            &&& has_text(all, x + context + end)
        }),
{
    let all = head + k + kind + s + subject + x + context + end + rest;
    let one = k + kind + s;
    let two = s + subject + x;
    let three = x + context + end;
    assert(all =~= head + one + (subject + x + context + end + rest));
    assert(all =~= (head + k + kind) + two + (context + end + rest));
    assert(all =~= (head + k + kind + s + subject) + three + rest);
}

/// A proposal opens with frontmatter that gives its id, and carries the
/// candidate's kind, subject and context, each in a line of its own.
pub proof fn law_frontmatter(c: CandidateView, created_unix: i64)
    ensures
        ("---\nid: "@ + stem_of(c)).is_prefix_of(proposal_of(c, created_unix)),
        has_text(proposal_of(c, created_unix), "\nkind: "@ + c.kind + "\nsubject: "@),
        has_text(proposal_of(c, created_unix), "\nsubject: "@ + c.subject + "\ncontext: "@),
        has_text(proposal_of(c, created_unix), "\ncontext: "@ + c.context + "\nparticipants:\n"@),
{
    let head = "---\nid: "@ + stem_of(c);
    let rest = listing_of(c, created_unix) + body_of(c);
    let all = proposal_of(c, created_unix);
    assert(all =~= heading_of(c) + rest);
    lemma_three_fields(
        head,
        "\nkind: "@,
        c.kind,
        "\nsubject: "@,
        c.subject,
        "\ncontext: "@,
        c.context,
        "\nparticipants:\n"@,
        rest,
    );
    assert(head =~= all.take(head.len() as int));
}

} // verus!
