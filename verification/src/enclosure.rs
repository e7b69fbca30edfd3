//! The closing delimiters of untrusted content, counted in whole prompts.

use crate::binary64::{fraction, product, quotient, Binary64};
use crate::contest::{
    bands_text, criterion_text, default_band_texts, lemma_default_bands, rubric_text, section_text,
    sections_text, weights_sum, Criterion, Section, Spec,
};
use crate::generate::{
    block, draft_head, draft_prompt, draft_tail, format_block, lemma_fixed_parts, revision_head,
    revision_prompt, revision_start, revision_tail, DRAFT_HEADING, DRAFT_RULES, DRAFT_TASK,
    IDEA_HEADING, REVISION_RULES, REVISION_TASK,
};
use crate::llm::{closing, inert_closing, law_wrapped_closes_once, wrapped};
use crate::render::{decimals, fixed, last_digits, ten_to};
use crate::score::{judge_head, judge_prompt, lemma_judge_parts, JUDGE_PROCEDURE, JUDGE_TASK};
use crate::text::{contains, decimal, digit, join, occurs_at, replace, starts_with, views};
use vstd::prelude::*;
use vstd::string::*;

verus! {

/// Whether a character can stand in a tag of the prompts.
pub open spec fn in_tag(c: char) -> bool {
    c == '<' || c == '/' || c == '>' || c == '_' || 'a' <= c <= 'z'
}

/// Whether a text is a closing tag: `</`, and behind it no other opening angle bracket.
pub open spec fn is_tag(q: Seq<char>) -> bool {
    &&& q.len() >= 3
    &&& q[0] == '<'
    &&& q[1] == '/'
    &&& forall|i: int| 0 <= i < q.len() ==> in_tag(#[trigger] q[i])
    &&& forall|i: int| 1 <= i < q.len() ==> #[trigger] q[i] != '<'
}

/// Whether no tag can arise where one text is put behind another.
spec fn apart(a: Seq<char>, b: Seq<char>) -> bool {
    a.len() == 0 || b.len() == 0 || !in_tag(a.last()) || !in_tag(b[0])
}

proof fn lemma_occurs_apart(a: Seq<char>, b: Seq<char>, q: Seq<char>, i: int)
    requires
        is_tag(q),
        apart(a, b),
    ensures
        occurs_at(a + b, q, i) == (occurs_at(a, q, i) || occurs_at(b, q, i - a.len())),
{
    let s = a + b;
    if i >= 0 && i + q.len() <= a.len() {
        assert(s.subrange(i, i + q.len()) =~= a.subrange(i, i + q.len()));
    } else if i >= a.len() && i + q.len() <= s.len() {
        let j = i - a.len();
        assert(s.subrange(i, i + q.len()) =~= b.subrange(j, j + q.len()));
    } else if occurs_at(s, q, i) {
        let k = a.len() - i;
        assert(s.subrange(i, i + q.len())[k] == s[a.len() as int]);
        assert(s.subrange(i, i + q.len())[k - 1] == s[a.len() - 1]);
        assert(in_tag(q[k]) && in_tag(q[k - 1]));
        assert(false);
    }
}

proof fn lemma_lacks_apart(a: Seq<char>, b: Seq<char>, q: Seq<char>)
    requires
        is_tag(q),
        apart(a, b),
        !contains(a, q),
        !contains(b, q),
    ensures
        !contains(a + b, q),
{
    if contains(a + b, q) {
        let i = choose|i: int| occurs_at(a + b, q, i);
        lemma_occurs_apart(a, b, q, i);
    }
}

/// A text without an opening angle bracket lacks every tag.
proof fn lemma_lacks_plain(s: Seq<char>, q: Seq<char>)
    requires
        is_tag(q),
        !s.contains('<'),
    ensures
        !contains(s, q),
{
    if contains(s, q) {
        let i = choose|i: int| occurs_at(s, q, i);
        assert(s.subrange(i, i + q.len())[0] == s[i]);
    }
}

proof fn lemma_prefix_kept(s: Seq<char>, p: Seq<char>, r: Seq<char>, q: Seq<char>)
    requires
        p.len() > 0,
        r.len() > 0,
        r[0] == '<',
        forall|k: int| 0 <= k < q.len() ==> #[trigger] q[k] != '<',
        starts_with(replace(s, p, r), q),
    ensures
        starts_with(s, q),
    decreases s.len(),
{
    let w = replace(s, p, r);
    if q.len() == 0 {
        assert(s.subrange(0, 0) =~= q);
    } else if s.len() > 0 {
        assert(w.subrange(0, q.len() as int)[0] == w[0]);
        if starts_with(s, p) {
            assert(w[0] == r[0]);
            assert(false);
        } else {
            let rest = s.drop_first();
            let x = replace(rest, p, r);
            let y = q.drop_first();
            assert(w =~= seq![s[0]] + x);
            assert(x.subrange(0, y.len() as int) =~= y) by {
                assert forall|k: int| 0 <= k < y.len() implies x[k] == y[k] by {
                    assert(w.subrange(0, q.len() as int)[k + 1] == w[k + 1]);
                }
            }
            lemma_prefix_kept(rest, p, r, y);
            assert(s.subrange(0, q.len() as int) =~= q) by {
                assert forall|k: int| 0 <= k < q.len() implies s[k] == q[k] by {
                    if k > 0 {
                        assert(rest.subrange(0, y.len() as int)[k - 1] == y[k - 1]);
                    }
                }
            }
        }
    }
}

/// Making delimiters inert makes no other tag.
proof fn lemma_replace_lacks(s: Seq<char>, p: Seq<char>, r: Seq<char>, q: Seq<char>, i: int)
    requires
        is_tag(q),
        p.len() > 0,
        r.len() >= 2,
        r[0] == '<',
        r[1] != '/',
        forall|k: int| 1 <= k < r.len() ==> #[trigger] r[k] != '<',
        occurs_at(replace(s, p, r), q, i),
    ensures
        contains(s, q),
    decreases s.len(),
{
    let w = replace(s, p, r);
    assert forall|k: int| 0 <= k < q.len() implies w[i + k] == q[k] by {
        assert(w.subrange(i, i + q.len())[k] == w[i + k]);
    }
    assert(w[i + 0] == q[0] && w[i + 1] == q[1]);
    if s.len() == 0 {
        assert(occurs_at(s, q, i));
    } else if starts_with(s, p) {
        let rest = s.skip(p.len() as int);
        let x = replace(rest, p, r);
        assert(w == r + x);
        if i < r.len() {
            assert(w[i] == r[i]);
            if i == 0 {
                assert(w[1] == r[1]);
            }
            assert(false);
        } else {
            let j = i - r.len();
            assert(x.subrange(j, j + q.len()) =~= q) by {
                assert forall|k: int| 0 <= k < q.len() implies x[j + k] == q[k] by {
                    assert(w[i + k] == q[k]);
                }
            }
            lemma_replace_lacks(rest, p, r, q, j);
            let m = choose|m: int| occurs_at(rest, q, m);
            assert(s.subrange(m + p.len(), m + p.len() + q.len()) =~= rest.subrange(
                m,
                m + q.len(),
            ));
            assert(occurs_at(s, q, m + p.len()));
        }
    } else {
        let rest = s.drop_first();
        let x = replace(rest, p, r);
        assert(w =~= seq![s[0]] + x);
        if i > 0 {
            let j = i - 1;
            assert(x.subrange(j, j + q.len()) =~= q) by {
                assert forall|k: int| 0 <= k < q.len() implies x[j + k] == q[k] by {
                    assert(w[i + k] == q[k]);
                }
            }
            lemma_replace_lacks(rest, p, r, q, j);
            let m = choose|m: int| occurs_at(rest, q, m);
            assert(s.subrange(m + 1, m + 1 + q.len()) =~= rest.subrange(m, m + q.len()));
            assert(occurs_at(s, q, m + 1));
        } else {
            let y = q.drop_first();
            assert(x.subrange(0, y.len() as int) =~= y) by {
                assert forall|k: int| 0 <= k < y.len() implies x[k] == y[k] by {
                    assert(w[0 + (k + 1)] == q[k + 1]);
                }
            }
            lemma_prefix_kept(rest, p, r, y);
            assert(s.subrange(0, q.len() as int) =~= q) by {
                assert forall|k: int| 0 <= k < q.len() implies s[k] == q[k] by {
                    if k > 0 {
                        assert(rest.subrange(0, y.len() as int)[k - 1] == y[k - 1]);
                    }
                }
            }
            assert(occurs_at(s, q, 0));
        }
    }
}

/// A block lacks every tag that its content lacks, but for its own.
proof fn lemma_wrapped_lacks(tag: Seq<char>, content: Seq<char>, q: Seq<char>)
    requires
        is_tag(q),
        tag.len() > 0,
        tag[0] != '/',
        tag[0] != q[2],
        !tag.contains('<'),
        !contains(content, q),
    ensures
        !contains(wrapped(tag, content), q),
{
    reveal_strlit("<");
    reveal_strlit(">");
    reveal_strlit(">\n");
    reveal_strlit("</");
    reveal_strlit("\n</");
    reveal_strlit("<\u{200B}/");
    let p = closing(tag);
    let r = inert_closing(tag);
    let head = "<"@ + tag + ">\n"@;
    let body = replace(content, p, r);
    let tail = "\n</"@ + tag + ">"@;
    assert forall|k: int| 1 <= k < r.len() implies #[trigger] r[k] != '<' by {
        if 3 <= k < 3 + tag.len() {
            assert(r[k] == tag[k - 3]);
        }
    }
    if contains(body, q) {
        let i = choose|i: int| occurs_at(body, q, i);
        lemma_replace_lacks(content, p, r, q, i);
    }
    if contains(head, q) {
        let i = choose|i: int| occurs_at(head, q, i);
        assert(head.subrange(i, i + q.len())[0] == head[i]);
        assert(head.subrange(i, i + q.len())[1] == head[i + 1]);
        if 1 <= i <= tag.len() {
            assert(head[i] == tag[i - 1]);
        }
        assert(i == 0);
        assert(head[1] == tag[0]);
    }
    if contains(tail, q) {
        let i = choose|i: int| occurs_at(tail, q, i);
        assert(tail.subrange(i, i + q.len())[0] == tail[i]);
        assert(tail.subrange(i, i + q.len())[2] == tail[i + 2]);
        if 3 <= i < 3 + tag.len() {
            assert(tail[i] == tag[i - 3]);
        }
        assert(i == 1);
        assert(tail[3] == tag[0]);
    }
    lemma_lacks_apart(head, body, q);
    lemma_lacks_apart(head + body, tail, q);
    assert(wrapped(tag, content) =~= head + body + tail);
}

proof fn lemma_decimal(n: nat)
    ensures
        !decimal(n).contains('<'),
        decimal(n).len() > 0,
    decreases n,
{
    assert(digit(n % 10) != '<');
    if n >= 10 {
        lemma_decimal(n / 10);
    } else {
        assert(n % 10 == n);
    }
}

proof fn lemma_last_digits(n: nat, k: nat)
    ensures
        !last_digits(n, k).contains('<'),
    decreases k,
{
    if k > 0 {
        lemma_last_digits(n / 10, (k - 1) as nat);
        assert(digit(n % 10) != '<');
    }
}

proof fn lemma_fixed(a: Binary64, k: nat)
    ensures
        !fixed(a, k).contains('<'),
{
    reveal_strlit("-");
    reveal_strlit("NaN");
    reveal_strlit("inf");
    assert forall|n: nat| !(#[trigger] decimals(n, k)).contains('<') by {
        lemma_decimal(n);
        lemma_decimal(n / ten_to(k));
        lemma_last_digits(n, k);
    }
}

/// Whether no text of a section holds the given tag.
pub open spec fn section_lacks(s: Section, q: Seq<char>) -> bool {
    !contains(s.title@, q) && !contains(s.guide@, q)
}

/// Whether no text of a criterion holds the given tag.
pub open spec fn criterion_lacks(c: Criterion, q: Seq<char>) -> bool {
    !contains(c.id@, q) && !contains(c.name@, q) && !contains(c.guide@, q)
}

/// Whether no text of a contest that a writer sees holds the given tag.
pub open spec fn contest_lacks(sp: Spec, q: Seq<char>) -> bool {
    &&& !contains(sp.name@, q)
    &&& !contains(sp.context@, q)
    &&& forall|i: int| 0 <= i < sp.sections@.len() ==> section_lacks(#[trigger] sp.sections@[i], q)
    &&& forall|i: int|
        0 <= i < sp.criteria@.len() ==> criterion_lacks(#[trigger] sp.criteria@[i], q)
}

proof fn lemma_section_text(s: Section, q: Seq<char>)
    requires
        is_tag(q),
        section_lacks(s, q),
    ensures
        !contains(section_text(s), q),
{
    reveal_strlit("## ");
    reveal_strlit("\n- Writing guide: ");
    reveal_strlit("\n- Recommended length: approx. ");
    reveal_strlit(" chars");
    reveal_strlit("\n- Required section");
    let a = "## "@;
    let b = "\n- Writing guide: "@;
    lemma_lacks_plain(a, q);
    lemma_lacks_plain(b, q);
    lemma_lacks_apart(a, s.title@, q);
    lemma_lacks_apart(a + s.title@, b, q);
    lemma_lacks_apart(a + s.title@ + b, s.guide@, q);
    let head = a + s.title@ + b + s.guide@;
    let size = "\n- Recommended length: approx. "@ + decimal(s.chars as nat) + " chars"@;
    lemma_decimal(s.chars as nat);
    lemma_lacks_plain(size, q);
    lemma_lacks_apart(head, size, q);
    assert(head + "\n- Recommended length: approx. "@ + decimal(s.chars as nat) + " chars"@
        =~= head + size);
    let sized = if s.chars > 0 {
        head + size
    } else {
        head
    };
    let end = "\n- Required section"@;
    lemma_lacks_plain(end, q);
    lemma_lacks_apart(sized, end, q);
}

proof fn lemma_criterion_text(c: Criterion, total: Binary64, q: Seq<char>)
    requires
        is_tag(q),
        criterion_lacks(c, q),
    ensures
        !contains(criterion_text(c, total), q),
{
    reveal_strlit("- id=\"");
    reveal_strlit("\" | ");
    reveal_strlit(" (weight ");
    reveal_strlit("%) : ");
    let t0 = "- id=\""@;
    let t1 = "\" | "@;
    let share = product(quotient(c.weight, total), fraction(100, 1));
    let t2 = " (weight "@ + fixed(share, 0) + "%) : "@;
    lemma_fixed(share, 0);
    lemma_lacks_plain(t0, q);
    lemma_lacks_plain(t1, q);
    lemma_lacks_plain(t2, q);
    let a = t0 + c.id@;
    lemma_lacks_apart(t0, c.id@, q);
    lemma_lacks_apart(a, t1, q);
    lemma_lacks_apart(a + t1, c.name@, q);
    let b = a + t1 + c.name@;
    lemma_lacks_apart(b, t2, q);
    lemma_lacks_apart(b + t2, c.guide@, q);
    assert(criterion_text(c, total) =~= b + t2 + c.guide@);
}

proof fn lemma_join_lacks(parts: Seq<Seq<char>>, sep: Seq<char>, q: Seq<char>)
    requires
        is_tag(q),
        sep.len() > 0,
        !sep.contains('<'),
        !in_tag(sep[0]),
        !in_tag(sep.last()),
        forall|i: int| 0 <= i < parts.len() ==> !contains(#[trigger] parts[i], q),
    ensures
        !contains(join(parts, sep), q),
    decreases parts.len(),
{
    if parts.len() == 0 {
        lemma_lacks_plain(join(parts, sep), q);
    } else if parts.len() > 1 {
        let s = parts.drop_last();
        assert forall|i: int| 0 <= i < s.len() implies !contains(#[trigger] s[i], q) by {
            assert(s[i] == parts[i]);
        }
        lemma_join_lacks(s, sep, q);
        lemma_lacks_plain(sep, q);
        lemma_lacks_apart(join(s, sep), sep, q);
        assert(!contains(parts[parts.len() - 1], q));
        lemma_lacks_apart(join(s, sep) + sep, parts.last(), q);
    }
}

proof fn lemma_contest_texts(sp: Spec, q: Seq<char>)
    requires
        is_tag(q),
        contest_lacks(sp, q),
    ensures
        !contains(sections_text(sp.sections@), q),
        !contains(rubric_text(sp.criteria@), q),
{
    reveal_strlit("\n\n");
    reveal_strlit("\n");
    let a = sp.sections@.map_values(|s: Section| section_text(s));
    assert forall|i: int| 0 <= i < a.len() implies !contains(#[trigger] a[i], q) by {
        assert(section_lacks(sp.sections@[i], q));
        lemma_section_text(sp.sections@[i], q);
    }
    lemma_join_lacks(a, "\n\n"@, q);
    lemma_rubric(sp.criteria@, q);
}

/// Whether a text lacks a tag and ends a line, or is empty.
spec fn clean_lines(s: Seq<char>, q: Seq<char>) -> bool {
    !contains(s, q) && (s.len() == 0 || s.last() == '\n')
}

proof fn lemma_clean_append(a: Seq<char>, b: Seq<char>, q: Seq<char>)
    requires
        is_tag(q),
        clean_lines(a, q),
        clean_lines(b, q),
    ensures
        clean_lines(a + b, q),
{
    lemma_lacks_apart(a, b, q);
    if b.len() == 0 {
        assert(a + b =~= a);
    }
}

proof fn lemma_clean_block(title: Seq<char>, body: Seq<char>, q: Seq<char>)
    requires
        is_tag(q),
        !title.contains('<'),
        !contains(body, q),
    ensures
        clean_lines(block(title, body), q),
{
    reveal_strlit("## ");
    reveal_strlit("\n");
    reveal_strlit("\n\n");
    let a = "## "@ + title + "\n"@;
    lemma_lacks_plain(a, q);
    lemma_lacks_apart(a, body, q);
    lemma_lacks_plain("\n\n"@, q);
    lemma_lacks_apart(a + body, "\n\n"@, q);
}

proof fn lemma_clean_format(sp: Spec, q: Seq<char>)
    requires
        is_tag(q),
        contest_lacks(sp, q),
    ensures
        clean_lines(format_block(sp), q),
{
    reveal_strlit("## Format: ");
    reveal_strlit("\n");
    reveal_strlit("\n\n");
    let a = "## Format: "@;
    lemma_lacks_plain(a, q);
    lemma_lacks_apart(a, sp.name@, q);
    lemma_lacks_plain("\n"@, q);
    lemma_lacks_apart(a + sp.name@, "\n"@, q);
    lemma_lacks_apart(a + sp.name@ + "\n"@, sp.context@, q);
    lemma_lacks_plain("\n\n"@, q);
    lemma_lacks_apart(a + sp.name@ + "\n"@ + sp.context@, "\n\n"@, q);
}

proof fn lemma_clean_empty(q: Seq<char>)
    requires
        is_tag(q),
    ensures
        clean_lines(Seq::empty(), q),
{
    lemma_lacks_plain(Seq::empty(), q);
}

proof fn lemma_clean_revision(sp: Spec, feedback: Seq<char>, weak: Seq<char>, q: Seq<char>)
    requires
        is_tag(q),
        contest_lacks(sp, q),
        !contains(feedback, q),
        !contains(weak, q),
    ensures
        clean_lines(revision_head(sp), q),
        !contains("\n\n"@ + revision_tail(sp, feedback, weak), q),
{
    reveal_strlit("\n\n");
    reveal_strlit("Review feedback (must be incorporated)");
    reveal_strlit("Items with especially low scores");
    reveal_strlit("Evaluation criteria");
    reveal_strlit("Section structure to preserve");
    lemma_fixed_parts();
    lemma_contest_texts(sp, q);
    lemma_clean_format(sp, q);
    lemma_lacks_plain(REVISION_TASK@, q);
    lemma_lacks_plain(IDEA_HEADING@, q);
    lemma_clean_append(REVISION_TASK@, format_block(sp), q);
    lemma_clean_append(REVISION_TASK@ + format_block(sp), IDEA_HEADING@, q);
    let a = block("Review feedback (must be incorporated)"@, feedback);
    let b = if weak.len() > 0 {
        block("Items with especially low scores"@, weak)
    } else {
        Seq::empty()
    };
    let c = block("Evaluation criteria"@, rubric_text(sp.criteria@));
    let d = block("Section structure to preserve"@, sections_text(sp.sections@));
    lemma_clean_block("Review feedback (must be incorporated)"@, feedback, q);
    lemma_clean_block("Items with especially low scores"@, weak, q);
    lemma_clean_empty(q);
    lemma_clean_block("Evaluation criteria"@, rubric_text(sp.criteria@), q);
    lemma_clean_block("Section structure to preserve"@, sections_text(sp.sections@), q);
    lemma_clean_append(a, b, q);
    lemma_clean_append(a + b, c, q);
    lemma_clean_append(a + b + c, d, q);
    lemma_lacks_plain(REVISION_RULES@, q);
    lemma_lacks_apart(a + b + c + d, REVISION_RULES@, q);
    lemma_lacks_plain("\n\n"@, q);
    lemma_lacks_apart("\n\n"@, revision_tail(sp, feedback, weak), q);
}

proof fn lemma_clean_draft(sp: Spec, angle: Seq<char>, q: Seq<char>)
    requires
        is_tag(q),
        contest_lacks(sp, q),
        !contains(angle, q),
    ensures
        clean_lines(draft_head(sp, angle), q),
        !contains("\n\n"@ + draft_tail(sp), q),
{
    reveal_strlit("\n\n");
    reveal_strlit("Differentiating angle for this draft");
    reveal_strlit("Sections to write");
    reveal_strlit("Evaluation criteria (must keep in mind while writing)");
    reveal_strlit("Overall length");
    reveal_strlit("Approx. ");
    reveal_strlit(" characters including spaces");
    lemma_fixed_parts();
    lemma_contest_texts(sp, q);
    lemma_clean_format(sp, q);
    lemma_lacks_plain(DRAFT_TASK@, q);
    lemma_lacks_plain(IDEA_HEADING@, q);
    lemma_clean_append(DRAFT_TASK@, format_block(sp), q);
    let g = if angle.len() > 0 {
        block("Differentiating angle for this draft"@, angle)
    } else {
        Seq::empty()
    };
    lemma_clean_block("Differentiating angle for this draft"@, angle, q);
    lemma_clean_empty(q);
    lemma_clean_append(DRAFT_TASK@ + format_block(sp), g, q);
    lemma_clean_append(DRAFT_TASK@ + format_block(sp) + g, IDEA_HEADING@, q);
    let a = block("Sections to write"@, sections_text(sp.sections@));
    let b = block(
        "Evaluation criteria (must keep in mind while writing)"@,
        rubric_text(sp.criteria@),
    );
    let size = "Approx. "@ + decimal(sp.total_chars as nat) + " characters including spaces"@;
    let c = if sp.total_chars > 0 {
        block("Overall length"@, size)
    } else {
        Seq::empty()
    };
    lemma_clean_block("Sections to write"@, sections_text(sp.sections@), q);
    lemma_clean_block(
        "Evaluation criteria (must keep in mind while writing)"@,
        rubric_text(sp.criteria@),
        q,
    );
    lemma_decimal(sp.total_chars as nat);
    lemma_lacks_plain(size, q);
    lemma_clean_block("Overall length"@, size, q);
    lemma_clean_append(a, b, q);
    lemma_clean_append(a + b, c, q);
    lemma_lacks_plain(DRAFT_RULES@, q);
    lemma_lacks_apart(a + b + c, DRAFT_RULES@, q);
    lemma_lacks_plain("\n\n"@, q);
    lemma_lacks_apart("\n\n"@, draft_tail(sp), q);
}

proof fn lemma_closings()
    ensures
        is_tag(closing("idea_material"@)),
        is_tag(closing("current_draft"@)),
        !"idea_material"@.contains('<'),
        !"current_draft"@.contains('<'),
        "idea_material"@.len() > 0,
        "current_draft"@.len() > 0,
        "idea_material"@[0] == 'i',
        "current_draft"@[0] == 'c',
        closing("idea_material"@)[2] == 'i',
        closing("current_draft"@)[2] == 'c',
{
    reveal_strlit("idea_material");
    reveal_strlit("current_draft");
    reveal_strlit("</");
    reveal_strlit(">");
}

/// Where the texts of the contest and the angle do not hold it, the closing delimiter of the idea
/// occurs exactly once in the whole prompt for a first draft, whatever the idea is: at the end of
/// the block.
pub proof fn law_draft_prompt_closes_once(sp: Spec, idea: Seq<char>, angle: Seq<char>, i: int)
    requires
        contest_lacks(sp, closing("idea_material"@)),
        !contains(angle, closing("idea_material"@)),
    ensures
        occurs_at(draft_prompt(sp, idea, angle), closing("idea_material"@), i) <==> i == draft_head(
            sp,
            angle,
        ).len() + wrapped("idea_material"@, idea).len() - closing("idea_material"@).len(),
{
    lemma_closings();
    lemma_fixed_parts();
    reveal_strlit("\n\n");
    let q = closing("idea_material"@);
    let head = draft_head(sp, angle);
    let w = wrapped("idea_material"@, idea);
    let tail = "\n\n"@ + draft_tail(sp);
    lemma_clean_draft(sp, angle, q);
    lemma_occurs_apart(head + w, tail, q, i);
    lemma_occurs_apart(head, w, q, i);
    law_wrapped_closes_once("idea_material"@, idea, i - head.len());
}

/// Where the other texts do not hold them, each of the two closing delimiters occurs exactly once in
/// the whole prompt for a revision: at the end of its block.
pub proof fn law_revision_prompt_closes_once(
    sp: Spec,
    idea: Seq<char>,
    draft: Seq<char>,
    feedback: Seq<char>,
    weak: Seq<char>,
    i: int,
)
    requires
        contest_lacks(sp, closing("idea_material"@)),
        contest_lacks(sp, closing("current_draft"@)),
        !contains(idea, closing("current_draft"@)),
        !contains(draft, closing("idea_material"@)),
        !contains(feedback, closing("idea_material"@)),
        !contains(feedback, closing("current_draft"@)),
        !contains(weak, closing("idea_material"@)),
        !contains(weak, closing("current_draft"@)),
    ensures
        occurs_at(
            revision_prompt(sp, idea, draft, feedback, weak),
            closing("idea_material"@),
            i,
        ) <==> i == revision_head(sp).len() + wrapped("idea_material"@, idea).len() - closing(
            "idea_material"@,
        ).len(),
        occurs_at(
            revision_prompt(sp, idea, draft, feedback, weak),
            closing("current_draft"@),
            i,
        ) <==> i == revision_start(sp, idea).len() + wrapped("current_draft"@, draft).len()
            - closing("current_draft"@).len(),
{
    lemma_closings();
    lemma_revision_parts(sp, idea, draft, feedback, weak, closing("idea_material"@), i);
    lemma_revision_parts(sp, idea, draft, feedback, weak, closing("current_draft"@), i);
    let v = wrapped("idea_material"@, idea);
    let w = wrapped("current_draft"@, draft);
    law_wrapped_closes_once("idea_material"@, idea, i - revision_head(sp).len());
    law_wrapped_closes_once("current_draft"@, draft, i - revision_start(sp, idea).len());
    lemma_wrapped_lacks("current_draft"@, draft, closing("idea_material"@));
    lemma_wrapped_lacks("idea_material"@, idea, closing("current_draft"@));
    assert(!occurs_at(w, closing("idea_material"@), i - revision_start(sp, idea).len()));
    assert(!occurs_at(v, closing("current_draft"@), i - revision_head(sp).len()));
}

proof fn lemma_revision_parts(
    sp: Spec,
    idea: Seq<char>,
    draft: Seq<char>,
    feedback: Seq<char>,
    weak: Seq<char>,
    q: Seq<char>,
    i: int,
)
    requires
        is_tag(q),
        contest_lacks(sp, q),
        !contains(feedback, q),
        !contains(weak, q),
    ensures
        occurs_at(revision_prompt(sp, idea, draft, feedback, weak), q, i) == (occurs_at(
            wrapped("idea_material"@, idea),
            q,
            i - revision_head(sp).len(),
        ) || occurs_at(wrapped("current_draft"@, draft), q, i - revision_start(sp, idea).len())),
{
    lemma_fixed_parts();
    reveal_strlit("\n\n");
    let head = revision_head(sp);
    let v = wrapped("idea_material"@, idea);
    let start = revision_start(sp, idea);
    let w = wrapped("current_draft"@, draft);
    let tail = "\n\n"@ + revision_tail(sp, feedback, weak);
    lemma_clean_revision(sp, feedback, weak, q);
    lemma_lacks_plain(DRAFT_HEADING@, q);
    lemma_occurs_apart(start + w, tail, q, i);
    lemma_occurs_apart(start, w, q, i);
    lemma_occurs_apart(head + v, DRAFT_HEADING@, q, i);
    lemma_occurs_apart(head, v, q, i);
    assert(!occurs_at(tail, q, i - (start + w).len()));
    assert(!occurs_at(head, q, i));
    assert(!occurs_at(DRAFT_HEADING@, q, i - (head + v).len()));
}

/// Whether no text of a contest that a judge sees holds the given tag.
pub open spec fn judged_contest_lacks(sp: Spec, q: Seq<char>) -> bool {
    &&& !contains(sp.name@, q)
    &&& !contains(sp.context@, q)
    &&& forall|i: int| 0 <= i < sp.bands@.len() ==> !contains((#[trigger] sp.bands@[i])@, q)
    &&& forall|i: int|
        0 <= i < sp.criteria@.len() ==> criterion_lacks(#[trigger] sp.criteria@[i], q)
}

proof fn lemma_rubric(c: Seq<Criterion>, q: Seq<char>)
    requires
        is_tag(q),
        forall|i: int| 0 <= i < c.len() ==> criterion_lacks(#[trigger] c[i], q),
    ensures
        !contains(rubric_text(c), q),
{
    reveal_strlit("\n");
    let total = weights_sum(c);
    let b = c.map_values(|c: Criterion| criterion_text(c, total));
    assert forall|i: int| 0 <= i < b.len() implies !contains(#[trigger] b[i], q) by {
        assert(criterion_lacks(c[i], q));
        lemma_criterion_text(c[i], total, q);
    }
    lemma_join_lacks(b, "\n"@, q);
}

proof fn lemma_bands(bands: Seq<String>, q: Seq<char>)
    requires
        is_tag(q),
        forall|i: int| 0 <= i < bands.len() ==> !contains((#[trigger] bands[i])@, q),
    ensures
        !contains(bands_text(bands), q),
{
    reveal_strlit("\n");
    let b = if bands.len() == 0 {
        default_band_texts()
    } else {
        views(bands)
    };
    assert forall|i: int| 0 <= i < b.len() implies !contains(#[trigger] b[i], q) by {
        if bands.len() == 0 {
            lemma_default_bands(i);
            lemma_lacks_plain(b[i], q);
        } else {
            assert(b[i] == bands[i]@);
        }
    }
    lemma_join_lacks(b, "\n"@, q);
}

/// A text behind a part without an opening angle bracket that begins and ends a line.
proof fn lemma_between(a: Seq<char>, part: Seq<char>, b: Seq<char>, q: Seq<char>)
    requires
        is_tag(q),
        !contains(a, q),
        !contains(b, q),
        !part.contains('<'),
        part.len() > 0,
        part[0] == '\n',
        part.last() == '\n',
    ensures
        !contains(a + part + b, q),
{
    lemma_lacks_plain(part, q);
    lemma_lacks_apart(a, part, q);
    lemma_lacks_apart(a + part, b, q);
}

proof fn lemma_judge_head(sp: Spec, lens: Seq<char>, q: Seq<char>)
    requires
        is_tag(q),
        judged_contest_lacks(sp, q),
        !contains(lens, q),
    ensures
        clean_lines(judge_head(sp, lens), q),
{
    reveal_strlit("\n");
    reveal_strlit("\n\n## This judge's lens\n");
    reveal_strlit("\n\n## Evaluation criteria (integer 0-100 per item)\n");
    reveal_strlit("\n\n## Score band guide\n");
    lemma_judge_parts();
    lemma_rubric(sp.criteria@, q);
    lemma_bands(sp.bands@, q);
    lemma_lacks_plain(JUDGE_TASK@, q);
    let a = JUDGE_TASK@ + sp.name@;
    lemma_lacks_apart(JUDGE_TASK@, sp.name@, q);
    let b = a + "\n"@ + sp.context@;
    lemma_between(a, "\n"@, sp.context@, q);
    let c = b + "\n\n## This judge's lens\n"@ + lens;
    lemma_between(b, "\n\n## This judge's lens\n"@, lens, q);
    let rubric = rubric_text(sp.criteria@);
    let d = c + "\n\n## Evaluation criteria (integer 0-100 per item)\n"@ + rubric;
    lemma_between(c, "\n\n## Evaluation criteria (integer 0-100 per item)\n"@, rubric, q);
    let bands = bands_text(sp.bands@);
    let e = d + "\n\n## Score band guide\n"@ + bands;
    lemma_between(d, "\n\n## Score band guide\n"@, bands, q);
    lemma_lacks_plain(JUDGE_PROCEDURE@, q);
    lemma_lacks_apart(e, JUDGE_PROCEDURE@, q);
}

/// Where the texts of the contest and the lens do not hold it, the closing delimiter of the document
/// occurs exactly once in the whole prompt for a judge, whatever the document is: at the end of the
/// block.
pub proof fn law_judge_prompt_closes_once(sp: Spec, doc: Seq<char>, lens: Seq<char>, i: int)
    requires
        judged_contest_lacks(sp, closing("document"@)),
        !contains(lens, closing("document"@)),
    ensures
        occurs_at(judge_prompt(sp, doc, lens), closing("document"@), i) <==> i == judge_prompt(
            sp,
            doc,
            lens,
        ).len() - 1 - closing("document"@).len(),
{
    reveal_strlit("document");
    reveal_strlit("</");
    reveal_strlit(">");
    reveal_strlit("\n");
    let q = closing("document"@);
    let head = judge_head(sp, lens);
    let w = wrapped("document"@, doc);
    assert(is_tag(q));
    lemma_judge_head(sp, lens, q);
    lemma_lacks_plain("\n"@, q);
    lemma_occurs_apart(head + w, "\n"@, q, i);
    lemma_occurs_apart(head, w, q, i);
    law_wrapped_closes_once("document"@, doc, i - head.len());
    assert(!occurs_at(head, q, i));
    assert(!occurs_at("\n"@, q, i - (head + w).len()));
}

/// What stands in the prompt for a revision up to and with the feedback.
pub open spec fn before_weak(
    sp: Spec,
    idea: Seq<char>,
    draft: Seq<char>,
    feedback: Seq<char>,
) -> Seq<char> {
    revision_start(sp, idea) + wrapped("current_draft"@, draft) + "\n\n"@ + block(
        "Review feedback (must be incorporated)"@,
        feedback,
    )
}

/// What stands in the prompt for a revision behind the weak items.
pub open spec fn after_weak(sp: Spec) -> Seq<char> {
    block("Evaluation criteria"@, rubric_text(sp.criteria@)) + block(
        "Section structure to preserve"@,
        sections_text(sp.sections@),
    ) + REVISION_RULES@
}

/// The weak items are inserted into the prompt for a revision right behind the feedback, and change
/// nothing else of it.
pub proof fn law_weak_items_are_inserted(
    sp: Spec,
    idea: Seq<char>,
    draft: Seq<char>,
    feedback: Seq<char>,
    weak: Seq<char>,
)
    requires
        weak.len() > 0,
    ensures
        revision_prompt(sp, idea, draft, feedback, Seq::empty()) == before_weak(
            sp,
            idea,
            draft,
            feedback,
        ) + after_weak(sp),
        revision_prompt(sp, idea, draft, feedback, weak) == before_weak(sp, idea, draft, feedback)
            + block("Items with especially low scores"@, weak) + after_weak(sp),
{
    let s = revision_start(sp, idea) + wrapped("current_draft"@, draft);
    let n = "\n\n"@;
    let a = block("Review feedback (must be incorporated)"@, feedback);
    let b = block("Items with especially low scores"@, weak);
    let c = block("Evaluation criteria"@, rubric_text(sp.criteria@));
    let d = block("Section structure to preserve"@, sections_text(sp.sections@));
    let r = REVISION_RULES@;
    let e = Seq::<char>::empty();
    lemma_regroup(s, n, a, e, c, d, r);
    lemma_regroup(s, n, a, b, c, d, r);
    assert(s + n + a + e =~= s + n + a);
}

proof fn lemma_regroup(
    s: Seq<char>,
    n: Seq<char>,
    a: Seq<char>,
    b: Seq<char>,
    c: Seq<char>,
    d: Seq<char>,
    r: Seq<char>,
)
    ensures
        s + (n + (a + b + c + d + r)) == s + n + a + b + (c + d + r),
{
    assert(a + b + c + d + r =~= a + b + (c + d + r));
    let x = c + d + r;
    assert(n + (a + b + x) =~= n + a + b + x);
    assert(s + (n + a + b + x) =~= s + n + a + b + x);
}

} // verus!
