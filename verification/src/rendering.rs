//! What a proposal file says, told from the candidate alone.

use vstd::prelude::*;

use crate::model::{CandidateView, EvidenceView};
use crate::proposal;
use crate::proposal::ProposalFile;
use crate::text;

verus! {

/// The characters that a file name keeps.
pub open spec fn is_kept(c: char) -> bool {
    'a' <= c <= 'z' || 'A' <= c <= 'Z' || '0' <= c <= '9' || c == '-' || c == '_'
}

/// A text with an underscore in place of each character that a file name does
/// not keep.
pub open spec fn made_safe(s: Seq<char>) -> Seq<char> {
    Seq::new(
        s.len(),
        |i: int|
            if is_kept(s[i]) {
                s[i]
            } else {
                '_'
            },
    )
}

/// Sanitizing keeps letters, digits, hyphens and underscores of ASCII, and
/// puts one underscore in place of each other character.
pub proof fn law_made_safe(s: Seq<char>)
    ensures
        proposal::sanitized(s) == made_safe(s),
{
    assert(proposal::sanitized(s) =~= made_safe(s));
}

/// Every text of a list behind a separator, one after the other.
pub open spec fn each_behind(texts: Seq<Seq<char>>, sep: Seq<char>) -> Seq<char> {
    texts.map_values(|t: Seq<char>| sep + t).flatten()
}

/// Joining puts every text of a list, in order, and a separator before each
/// but the first.
pub proof fn law_joined(texts: Seq<Seq<char>>, sep: Seq<char>)
    ensures
        texts.len() == 0 ==> proposal::joined(texts, sep).len() == 0,
        texts.len() > 0 ==> sep + proposal::joined(texts, sep) == each_behind(texts, sep),
    decreases texts.len(),
{
    let parts = texts.map_values(|t: Seq<char>| sep + t);
    if texts.len() == 1 {
        parts.lemma_flatten_one_element();
    } else if texts.len() > 1 {
        let front = texts.drop_last();
        law_joined(front, sep);
        let parts1 = front.map_values(|t: Seq<char>| sep + t);
        assert(parts =~= parts1.push(sep + texts.last()));
        parts1.lemma_flatten_push(sep + texts.last());
        assert(sep + proposal::joined(texts, sep) =~= sep + proposal::joined(front, sep) + (sep
            + texts.last()));
    }
}

/// The stem of a proposal's file: context, window and sanitized participants,
/// with a plus sign between participants.
pub proof fn law_stem_in_full(c: CandidateView)
    ensures
        proposal::stem_of(c) == "cross-"@ + c.context + "-"@ + text::decimal(c.t_first_unix as int)
            + "-"@ + text::decimal(c.t_last_unix as int) + "-"@ + proposal::joined(
            c.participants.map_values(|p: Seq<char>| made_safe(p)),
            "+"@,
        ),
{
    let safe = c.participants.map_values(|p: Seq<char>| made_safe(p));
    let parts = proposal::all_sanitized(c.participants);
    assert forall|i: int| 0 <= i < safe.len() implies safe[i] == parts[i] by {
        law_made_safe(c.participants[i]);
    }
    assert(safe =~= parts);
}

/// The confidence is six tenths for a correction, five for redundant work and
/// three for a rescue or anything else.
pub proof fn law_confidence_in_full(context: Seq<char>)
    ensures
        context == "corrective"@ ==> proposal::confidence(context) == 6,
        context == "redundant"@ ==> proposal::confidence(context) == 5,
        context != "corrective"@ && context != "redundant"@ ==> proposal::confidence(context) == 3,
{
    reveal_strlit("corrective");
    reveal_strlit("redundant");
    assert("corrective"@.len() == 10 && "redundant"@.len() == 9);
}

/// The confidence as it is written.
pub open spec fn confidence_text(context: Seq<char>) -> Seq<char> {
    if context == "corrective"@ {
        "0.6"@
    } else if context == "redundant"@ {
        "0.5"@
    } else {
        "0.3"@
    }
}

proof fn lemma_confidence_text(context: Seq<char>)
    ensures
        "\nconfidence: 0."@ + text::decimal(proposal::confidence(context)) == "\nconfidence: "@
            + confidence_text(context),
{
    reveal_strlit("\nconfidence: 0.");
    reveal_strlit("\nconfidence: ");
    reveal_strlit("0.6");
    reveal_strlit("0.5");
    reveal_strlit("0.3");
    law_confidence_in_full(context);
    let d = text::decimal(proposal::confidence(context));
    assert(d == seq![text::digit_char(proposal::confidence(context))]);
    assert("\nconfidence: 0."@ + d =~= "\nconfidence: "@ + confidence_text(context));
}

/// The lines of a list: one per text, behind two blanks and a hyphen. A list
/// without texts is an empty line.
pub open spec fn list_lines(texts: Seq<Seq<char>>) -> Seq<char> {
    if texts.len() == 0 {
        "\n"@
    } else {
        each_behind(texts, "\n  - "@)
    }
}

/// The line for one citation.
pub open spec fn citation_line(e: EvidenceView) -> Seq<char> {
    "\n- `"@ + e.session + "` @ "@ + text::decimal(e.ts as int) + ": "@ + e.excerpt
}

/// The lines for all citations. Without any it is an empty line.
pub open spec fn citation_lines(evidence: Seq<EvidenceView>) -> Seq<char> {
    if evidence.len() == 0 {
        "\n"@
    } else {
        evidence.map_values(|e: EvidenceView| citation_line(e)).flatten()
    }
}

proof fn lemma_list_lines(texts: Seq<Seq<char>>)
    ensures
        "\n"@ + proposal::yaml_items(texts) == list_lines(texts),
{
    let items = texts.map_values(|t: Seq<char>| "  - "@ + t);
    law_joined(items, "\n"@);
    reveal_strlit("\n");
    reveal_strlit("  - ");
    reveal_strlit("\n  - ");
    if texts.len() == 0 {
        assert("\n"@ + proposal::yaml_items(texts) =~= "\n"@);
    } else {
        let one = items.map_values(|t: Seq<char>| "\n"@ + t);
        let two = texts.map_values(|t: Seq<char>| "\n  - "@ + t);
        assert forall|i: int| 0 <= i < texts.len() implies one[i] == two[i] by {
            assert("\n"@ + ("  - "@ + texts[i]) =~= "\n  - "@ + texts[i]);
        }
        assert(one =~= two);
    }
}

proof fn lemma_citation_lines(evidence: Seq<EvidenceView>)
    ensures
        "\n"@ + proposal::citations_of(evidence) == citation_lines(evidence),
{
    let items = evidence.map_values(|e: EvidenceView| proposal::citation_of(e));
    law_joined(items, "\n"@);
    reveal_strlit("\n");
    reveal_strlit("- `");
    reveal_strlit("\n- `");
    if evidence.len() == 0 {
        assert("\n"@ + proposal::citations_of(evidence) =~= "\n"@);
    } else {
        let one = items.map_values(|t: Seq<char>| "\n"@ + t);
        let two = evidence.map_values(|e: EvidenceView| citation_line(e));
        assert forall|i: int| 0 <= i < evidence.len() implies one[i] == two[i] by {
            assert("\n"@ + proposal::citation_of(evidence[i]) =~= citation_line(evidence[i]));
        }
        assert(one =~= two);
    }
}

/// The frontmatter above the list of paths.
pub open spec fn upper_part(c: CandidateView) -> Seq<char> {
    "---\nid: "@ + proposal::stem_of(c) + "\nkind: "@ + c.kind + "\nsubject: "@ + c.subject
        + "\ncontext: "@ + c.context + "\nparticipants:"@ + list_lines(c.participants)
}

/// The frontmatter below the list of paths, from the line of the first time
/// on.
pub open spec fn middle_part(c: CandidateView, created_unix: i64) -> Seq<char> {
    "t_first_unix: "@ + text::decimal(c.t_first_unix as int) + "\nt_last_unix: "@ + text::decimal(
        c.t_last_unix as int,
    ) + "\ncreated_unix: "@ + text::decimal(created_unix as int) + "\nconfidence: "@
        + confidence_text(c.context) + "\nrecall_count: 0\n---\n\n"@
}

/// What stands below the frontmatter.
pub open spec fn lower_part(c: CandidateView) -> Seq<char> {
    "Cross-session "@ + c.context + " pattern across sessions "@ + proposal::joined(
        c.participants,
        ", "@,
    ) + ".\n"@ + citation_lines(c.evidence) + "\n\n<!-- episode observe-cross: detector="@
        + c.context + " -->\n"@
}

/// A line feed between two pieces goes with the one or the other.
proof fn lemma_regroup_three(a: Seq<char>, b: Seq<char>, c: Seq<char>, d: Seq<char>)
    ensures
        a + (b + c) + d == a + b + (c + d),
        a + b + c + d == a + (b + c) + d,
        a + b + c == a + (b + c),
{
    assert(a + (b + c) + d =~= a + b + (c + d));
    assert(a + b + c + d =~= a + (b + c) + d);
    assert(a + b + c =~= a + (b + c));
}

proof fn lemma_upper_part(c: CandidateView)
    ensures
        proposal::heading_of(c) + proposal::yaml_items(c.participants) == upper_part(c),
{
    reveal_strlit("\nparticipants:\n");
    reveal_strlit("\nparticipants:");
    reveal_strlit("\n");
    lemma_list_lines(c.participants);
    assert("\nparticipants:\n"@ =~= "\nparticipants:"@ + "\n"@);
    let head = "---\nid: "@ + proposal::stem_of(c) + "\nkind: "@ + c.kind + "\nsubject: "@
        + c.subject + "\ncontext: "@ + c.context;
    lemma_regroup_three(
        head,
        "\nparticipants:"@,
        "\n"@,
        proposal::yaml_items(c.participants),
    );
}

proof fn lemma_body_pieces(
    nl: Seq<char>,
    title: Seq<char>,
    x: Seq<char>,
    over: Seq<char>,
    who: Seq<char>,
    dot: Seq<char>,
    items: Seq<char>,
    mark: Seq<char>,
    end: Seq<char>,
)
    ensures
        (nl + title) + x + over + who + (dot + nl) + items + mark + x + end == nl + (title + x
            + over + who + dot + (nl + items) + mark + x + end),
{
    assert((nl + title) + x + over + who + (dot + nl) + items + mark + x + end =~= nl + (title + x
        + over + who + dot + (nl + items) + mark + x + end));
}

proof fn lemma_lower_part(c: CandidateView)
    ensures
        proposal::body_of(c) == "\n"@ + lower_part(c),
{
    reveal_strlit("\nCross-session ");
    reveal_strlit("Cross-session ");
    reveal_strlit(".\n\n");
    reveal_strlit(".\n");
    reveal_strlit("\n");
    lemma_citation_lines(c.evidence);
    assert("\nCross-session "@ =~= "\n"@ + "Cross-session "@);
    assert(".\n\n"@ =~= ".\n"@ + "\n"@);
    lemma_body_pieces(
        "\n"@,
        "Cross-session "@,
        c.context,
        " pattern across sessions "@,
        proposal::joined(c.participants, ", "@),
        ".\n"@,
        proposal::citations_of(c.evidence),
        "\n\n<!-- episode observe-cross: detector="@,
        " -->\n"@,
    );
}

proof fn lemma_listing_pieces(
    front: Seq<char>,
    nl: Seq<char>,
    a: Seq<char>,
    first: Seq<char>,
    b: Seq<char>,
    last: Seq<char>,
    c: Seq<char>,
    created: Seq<char>,
    d: Seq<char>,
    sure: Seq<char>,
    e: Seq<char>,
)
    ensures
        (front + (nl + a) + first + b + last + c + created + d + sure + e) + nl == front + nl + (a
            + first + b + last + c + created + (d + sure) + (e + nl)),
{
    assert((front + (nl + a) + first + b + last + c + created + d + sure + e) + nl =~= front + nl
        + (a + first + b + last + c + created + (d + sure) + (e + nl)));
}

proof fn lemma_middle_pieces(
    a: Seq<char>,
    first: Seq<char>,
    b: Seq<char>,
    last: Seq<char>,
    c: Seq<char>,
    created: Seq<char>,
    d: Seq<char>,
    sure: Seq<char>,
    e: Seq<char>,
)
    ensures
        a + first + b + last + c + created + (d + sure) + e == a + first + b + last + c + created
            + d + sure + e,
{
    assert(a + first + b + last + c + created + (d + sure) + e =~= a + first + b + last + c
        + created + d + sure + e);
}

proof fn lemma_middle_part(c: CandidateView, created_unix: i64)
    ensures
        proposal::listing_of(c, created_unix) + "\n"@ == proposal::yaml_items(c.participants)
            + "\npaths:\n"@ + proposal::yaml_items(c.paths) + "\n"@ + middle_part(
            c,
            created_unix,
        ),
{
    reveal_strlit("\nt_first_unix: ");
    reveal_strlit("t_first_unix: ");
    reveal_strlit("\nrecall_count: 0\n---\n");
    reveal_strlit("\nrecall_count: 0\n---\n\n");
    reveal_strlit("\n");
    lemma_confidence_text(c.context);
    assert("\nt_first_unix: "@ =~= "\n"@ + "t_first_unix: "@);
    assert("\nrecall_count: 0\n---\n\n"@ =~= "\nrecall_count: 0\n---\n"@ + "\n"@);
    let front = proposal::yaml_items(c.participants) + "\npaths:\n"@ + proposal::yaml_items(
        c.paths,
    );
    let first = text::decimal(c.t_first_unix as int);
    let last = text::decimal(c.t_last_unix as int);
    let created = text::decimal(created_unix as int);
    lemma_listing_pieces(
        front,
        "\n"@,
        "t_first_unix: "@,
        first,
        "\nt_last_unix: "@,
        last,
        "\ncreated_unix: "@,
        created,
        "\nconfidence: 0."@,
        text::decimal(proposal::confidence(c.context)),
        "\nrecall_count: 0\n---\n"@,
    );
    lemma_middle_pieces(
        "t_first_unix: "@,
        first,
        "\nt_last_unix: "@,
        last,
        "\ncreated_unix: "@,
        created,
        "\nconfidence: "@,
        confidence_text(c.context),
        "\nrecall_count: 0\n---\n\n"@,
    );
}

proof fn lemma_whole(
    head: Seq<char>,
    who: Seq<char>,
    title: Seq<char>,
    nl: Seq<char>,
    paths: Seq<char>,
    listing: Seq<char>,
    middle: Seq<char>,
    lower: Seq<char>,
)
    requires
        listing + nl == who + (title + nl) + paths + nl + middle,
    ensures
        head + listing + (nl + lower) == (head + who) + title + (nl + paths) + nl + middle + lower,
{
    assert(head + listing + (nl + lower) =~= head + (listing + nl) + lower);
    assert(head + (who + (title + nl) + paths + nl + middle) + lower =~= (head + who) + title + (nl
        + paths) + nl + middle + lower);
}

/// The text of a proposal, line for line: what it is, who took part, which
/// paths it centers on, when it happened and was written down, how sure it is,
/// and what it rests on.
pub proof fn law_proposal_in_full(c: CandidateView, created_unix: i64)
    ensures
        proposal::proposal_of(c, created_unix) == upper_part(c) + "\npaths:"@ + list_lines(c.paths)
            + "\n"@ + middle_part(c, created_unix) + lower_part(c),
{
    assert("\npaths:\n"@ == "\npaths:"@ + "\n"@) by {
        reveal_strlit("\npaths:\n");
        reveal_strlit("\npaths:");
        reveal_strlit("\n");
        assert("\npaths:\n"@ =~= "\npaths:"@ + "\n"@);
    }
    lemma_upper_part(c);
    lemma_list_lines(c.paths);
    lemma_middle_part(c, created_unix);
    lemma_lower_part(c);
    lemma_whole(
        proposal::heading_of(c),
        proposal::yaml_items(c.participants),
        "\npaths:"@,
        "\n"@,
        proposal::yaml_items(c.paths),
        proposal::listing_of(c, created_unix),
        middle_part(c, created_unix),
        lower_part(c),
    );
}

proof fn lemma_list_item(texts: Seq<Seq<char>>, k: int)
    requires
        0 <= k < texts.len(),
    ensures
        list_lines(texts) == each_behind(texts.take(k), "\n  - "@) + ("\n  - "@ + texts[k])
            + each_behind(texts.skip(k + 1), "\n  - "@),
{
    let mark = "\n  - "@;
    let parts = texts.map_values(|t: Seq<char>| mark + t);
    let front = texts.take(k).map_values(|t: Seq<char>| mark + t);
    let back = texts.skip(k + 1).map_values(|t: Seq<char>| mark + t);
    assert(parts =~= front.push(mark + texts[k]) + back);
    vstd::seq_lib::lemma_flatten_concat(front.push(mark + texts[k]), back);
    front.lemma_flatten_push(mark + texts[k]);
}

proof fn lemma_line_ends(texts: Seq<Seq<char>>, k: int, next: Seq<char>)
    requires
        0 <= k < texts.len(),
        next.len() > 0,
        next[0] == '\n',
    ensures
        ({
            let rest = each_behind(texts.skip(k + 1), "\n  - "@) + next;
            rest == "\n"@ + rest.drop_first()
        }),
{
    let back = texts.skip(k + 1);
    let rest = each_behind(back, "\n  - "@) + next;
    reveal_strlit("\n");
    reveal_strlit("\n  - ");
    if back.len() > 0 {
        let parts = back.map_values(|t: Seq<char>| "\n  - "@ + t);
        assert(parts.first() == "\n  - "@ + back[0]);
        assert(parts.flatten()[0] == parts.first()[0]);
    }
    assert(rest[0] == '\n');
    assert(rest =~= "\n"@ + rest.drop_first());
}

/// `texts[k]` has a line of its own in `whole`, between `title` and `next`.
/// Before it stand the texts before it, and behind it those behind it.
pub open spec fn lists(
    whole: Seq<char>,
    title: Seq<char>,
    texts: Seq<Seq<char>>,
    k: int,
    next: Seq<char>,
) -> bool {
    let mark = "\n  - "@;
    let before = each_behind(texts.take(k), mark);
    let after = each_behind(texts.skip(k + 1), mark);
    &&& exists|head: Seq<char>, tail: Seq<char>|
        whole == #[trigger] (head + (title + before + (mark + texts[k]) + after + next) + tail)
    &&& proposal::has_text(whole, mark + texts[k] + "\n"@)
}

proof fn lemma_lists(
    head: Seq<char>,
    title: Seq<char>,
    texts: Seq<Seq<char>>,
    k: int,
    next: Seq<char>,
    tail: Seq<char>,
)
    requires
        0 <= k < texts.len(),
        next.len() > 0,
        next[0] == '\n',
    ensures
        lists(head + title + list_lines(texts) + next + tail, title, texts, k, next),
{
    let mark = "\n  - "@;
    let item = mark + texts[k];
    let before = each_behind(texts.take(k), mark);
    let after = each_behind(texts.skip(k + 1), mark);
    let whole = head + title + list_lines(texts) + next + tail;
    lemma_list_item(texts, k);
    assert(whole =~= head + (title + before + item + after + next) + tail);
    lemma_line_ends(texts, k, next);
    let rest = after + next;
    assert(whole =~= (head + title + before) + (item + "\n"@) + (rest.drop_first() + tail)) by {
        assert(whole =~= (head + title + before) + item + rest + tail);
        assert(rest == "\n"@ + rest.drop_first());
    }
}

proof fn lemma_regrouped(
    a: Seq<char>,
    b: Seq<char>,
    c: Seq<char>,
    d: Seq<char>,
    e: Seq<char>,
    f: Seq<char>,
)
    ensures
        a + b + c + d + e + f == a + b + (c + d + (e + f)),
{
    assert(a + b + c + d + e + f =~= a + b + (c + d + (e + f)));
}

/// The frontmatter lists every participant between the line `participants:`
/// and the line `paths:`.
pub proof fn law_every_participant_is_listed(c: CandidateView, created_unix: i64, k: int)
    requires
        0 <= k < c.participants.len(),
    ensures
        lists(
            proposal::proposal_of(c, created_unix),
            "\nparticipants:"@,
            c.participants,
            k,
            "\npaths:"@,
        ),
{
    law_proposal_in_full(c, created_unix);
    reveal_strlit("\npaths:");
    let head = "---\nid: "@ + proposal::stem_of(c) + "\nkind: "@ + c.kind + "\nsubject: "@
        + c.subject + "\ncontext: "@ + c.context;
    let end = middle_part(c, created_unix) + lower_part(c);
    let tail = list_lines(c.paths) + "\n"@ + end;
    lemma_lists(head, "\nparticipants:"@, c.participants, k, "\npaths:"@, tail);
    lemma_regrouped(
        upper_part(c),
        "\npaths:"@,
        list_lines(c.paths),
        "\n"@,
        middle_part(c, created_unix),
        lower_part(c),
    );
}

/// The frontmatter lists every path between the line `paths:` and the line of
/// the first time.
pub proof fn law_every_path_is_listed(c: CandidateView, created_unix: i64, k: int)
    requires
        0 <= k < c.paths.len(),
    ensures
        lists(
            proposal::proposal_of(c, created_unix),
            "\npaths:"@,
            c.paths,
            k,
            "\nt_first_unix: "@ + text::decimal(c.t_first_unix as int) + "\nt_last_unix: "@,
        ),
{
    law_proposal_in_full(c, created_unix);
    let first = text::decimal(c.t_first_unix as int);
    let next = "\nt_first_unix: "@ + first + "\nt_last_unix: "@;
    assert("\nt_first_unix: "@ == "\n"@ + "t_first_unix: "@ && next[0] == '\n') by {
        reveal_strlit("\n");
        reveal_strlit("\nt_first_unix: ");
        reveal_strlit("t_first_unix: ");
        assert("\nt_first_unix: "@ =~= "\n"@ + "t_first_unix: "@);
    }
    let rest = text::decimal(c.t_last_unix as int) + "\ncreated_unix: "@ + text::decimal(
        created_unix as int,
    ) + "\nconfidence: "@ + confidence_text(c.context) + "\nrecall_count: 0\n---\n\n"@;
    lemma_times(
        upper_part(c) + "\npaths:"@ + list_lines(c.paths),
        "\n"@,
        "t_first_unix: "@,
        first,
        "\nt_last_unix: "@,
        text::decimal(c.t_last_unix as int),
        "\ncreated_unix: "@,
        text::decimal(created_unix as int),
        "\nconfidence: "@,
        confidence_text(c.context),
        "\nrecall_count: 0\n---\n\n"@,
        lower_part(c),
    );
    lemma_lists(upper_part(c), "\npaths:"@, c.paths, k, next, rest + lower_part(c));
}

proof fn lemma_times(
    front: Seq<char>,
    nl: Seq<char>,
    a: Seq<char>,
    first: Seq<char>,
    b: Seq<char>,
    last: Seq<char>,
    c: Seq<char>,
    created: Seq<char>,
    d: Seq<char>,
    sure: Seq<char>,
    e: Seq<char>,
    lower: Seq<char>,
)
    ensures
        front + nl + (a + first + b + last + c + created + d + sure + e) + lower == front + ((nl
            + a) + first + b) + ((last + c + created + d + sure + e) + lower),
{
    assert(front + nl + (a + first + b + last + c + created + d + sure + e) + lower =~= front + ((nl
        + a) + first + b) + ((last + c + created + d + sure + e) + lower));
}

/// The file of a proposal: its stem with the suffix `.md`, and its text.
pub proof fn law_file_in_full(c: CandidateView, created_unix: i64)
    ensures
        proposal::file_of(c, created_unix).name == proposal::stem_of(c) + ".md"@,
        proposal::file_of(c, created_unix).text == proposal::proposal_of(c, created_unix),
{
}

/// The value of a proposal file is what its fields hold.
pub proof fn law_file_value(file: ProposalFile)
    ensures
        file@.name == file.name@,
        file@.text == file.text@,
        file.deep_view() == file@,
{
}

} // verus!
