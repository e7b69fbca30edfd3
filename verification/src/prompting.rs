//! What the prompts tell: the contest, the task and what is to be judged or revised.

use crate::binary64::{fraction, product, quotient};
use crate::contest::{
    bands_text, criterion_text, default_band_texts, rubric_text, section_text, sections_text,
    weights_sum, Criterion, Section, Spec,
};
use crate::generate::{
    block, draft_head, draft_prompt, draft_tail, format_block, revision_head, revision_prompt,
    revision_start, revision_tail, DRAFT_HEADING, DRAFT_RULES, DRAFT_TASK, IDEA_HEADING,
    REVISION_RULES, REVISION_TASK,
};
use crate::llm::wrapped;
use crate::render::fixed;
use crate::score::{judge_prompt, JUDGE_PROCEDURE, JUDGE_TASK};
use crate::tallying::{added_unsigned, lemma_weights_sum_added, weights_of};
use crate::text::{contains, decimal, join, occurs_at, views};
use crate::words::lemma_occurs_between;
use vstd::prelude::*;
use vstd::string::*;

verus! {

/// What a part of a text contains, the text contains.
pub proof fn law_contained_in_part(a: Seq<char>, s: Seq<char>, b: Seq<char>, w: Seq<char>)
    requires
        contains(s, w),
    ensures
        contains(a + s + b, w),
{
    let i = choose|i: int| occurs_at(s, w, i);
    let t = a + s + b;
    let k = a.len() + i;
    assert(t.subrange(k, k + w.len()) =~= s.subrange(i, i + w.len()));
    assert(occurs_at(t, w, k));
}

pub(crate) proof fn lemma_all(s: Seq<char>)
    ensures
        contains(s, s),
{
    let e = Seq::<char>::empty();
    lemma_occurs_between(e, s, e);
    assert(e + s + e =~= s);
}

pub(crate) proof fn lemma_left(a: Seq<char>, b: Seq<char>, w: Seq<char>)
    requires
        contains(a, w),
    ensures
        contains(a + b, w),
{
    let e = Seq::<char>::empty();
    law_contained_in_part(e, a, b, w);
    assert(e + a + b =~= a + b);
}

pub(crate) proof fn lemma_right(a: Seq<char>, b: Seq<char>, w: Seq<char>)
    requires
        contains(b, w),
    ensures
        contains(a + b, w),
{
    let e = Seq::<char>::empty();
    law_contained_in_part(a, b, e, w);
    assert(a + b + e =~= a + b);
}

/// A joined text contains each of its parts.
pub proof fn law_joined_contains(parts: Seq<Seq<char>>, sep: Seq<char>, i: int)
    requires
        0 <= i < parts.len(),
    ensures
        contains(join(parts, sep), parts[i]),
    decreases parts.len(),
{
    if parts.len() == 1 {
        lemma_all(parts[0]);
    } else {
        let s = parts.drop_last();
        if i < s.len() {
            law_joined_contains(s, sep, i);
            lemma_left(join(s, sep), sep, parts[i]);
            lemma_left(join(s, sep) + sep, parts.last(), parts[i]);
        } else {
            lemma_all(parts[i]);
            lemma_right(join(s, sep) + sep, parts.last(), parts[i]);
        }
    }
}

/// What is told of a criterion: its id, its name, its share in the sum of the weights in percent,
/// and its guide.
pub open spec fn about_criterion(criteria: Seq<Criterion>, i: int) -> Seq<char> {
    let c = criteria[i];
    let share = quotient(c.weight, added_unsigned(weights_of(criteria)));
    "- id=\""@ + c.id@ + "\" | "@ + c.name@ + " (weight "@ + fixed(
        product(share, fraction(100, 1)),
        0,
    ) + "%) : "@ + c.guide@
}

/// The rubric tells of each criterion, in order, one line each.
pub proof fn law_rubric(criteria: Seq<Criterion>, i: int)
    requires
        0 <= i < criteria.len(),
    ensures
        contains(rubric_text(criteria), about_criterion(criteria, i)),
        rubric_text(criteria) == join(
            Seq::new(criteria.len(), |k: int| about_criterion(criteria, k)),
            seq!['\n'],
        ),
{
    reveal_strlit("\n");
    lemma_weights_sum_added(criteria);
    let total = weights_sum(criteria);
    let parts = criteria.map_values(|c: Criterion| criterion_text(c, total));
    law_joined_contains(parts, "\n"@, i);
    assert("\n"@ =~= seq!['\n']);
    assert(parts =~= Seq::new(criteria.len(), |k: int| about_criterion(criteria, k)));
}

/// What is told of a section: its title, its guide, its length where one is recommended, and whether
/// it is required.
pub open spec fn about_section(s: Section) -> Seq<char> {
    "## "@ + s.title@ + "\n- Writing guide: "@ + s.guide@ + (if s.chars > 0 {
        "\n- Recommended length: approx. "@ + decimal(s.chars as nat) + " chars"@
    } else {
        Seq::empty()
    }) + (if s.required {
        "\n- Required section"@
    } else {
        Seq::empty()
    })
}

/// The sections are told of in order, with an empty line between them.
pub proof fn law_sections(sections: Seq<Section>, i: int)
    requires
        0 <= i < sections.len(),
    ensures
        contains(sections_text(sections), about_section(sections[i])),
        sections_text(sections) == join(
            sections.map_values(|s: Section| about_section(s)),
            seq!['\n', '\n'],
        ),
{
    reveal_strlit("\n\n");
    let parts = sections.map_values(|s: Section| section_text(s));
    assert forall|s: Section| #[trigger] section_text(s) == about_section(s) by {
        let head = "## "@ + s.title@ + "\n- Writing guide: "@ + s.guide@;
        assert(section_text(s) =~= about_section(s));
    }
    assert("\n\n"@ =~= seq!['\n', '\n']);
    law_joined_contains(parts, "\n\n"@, i);
    assert(parts[i] == section_text(sections[i]));
    assert(parts =~= sections.map_values(|s: Section| about_section(s)));
}

/// The score bands are those of the contest, or the default ones where it states none, one line
/// each.
pub proof fn law_bands(bands: Seq<String>, i: int)
    ensures
        0 <= i < bands.len() ==> contains(bands_text(bands), bands[i]@),
        bands.len() == 0 && 0 <= i < 5 ==> contains(bands_text(bands), default_band_texts()[i]),
        bands.len() > 0 ==> bands_text(bands) == join(views(bands), seq!['\n']),
{
    reveal_strlit("\n");
    assert("\n"@ =~= seq!['\n']);
    if 0 <= i < bands.len() {
        law_joined_contains(views(bands), "\n"@, i);
        assert(views(bands)[i] == bands[i]@);
    } else if bands.len() == 0 && 0 <= i < 5 {
        law_joined_contains(default_band_texts(), "\n"@, i);
    }
}

/// The task of a judge up to the name of the contest, and the procedure up to the document.
proof fn lemma_judge_ends() -> (r: (Seq<char>, Seq<char>))
    ensures
        JUDGE_TASK@ == r.0 + "## Format: "@,
        JUDGE_PROCEDURE@ == "\n\n"@ + r.1 + "## Document to score\n"@,
{
    reveal_strlit("\n\n");
    reveal_strlit("## Format: ");
    reveal_strlit("## Document to score\n");
    reveal_strlit(
        "# Task\nScore the submitted document according to the evaluation criteria.\n\n## Format: ",
    );
    reveal_strlit(
        "\n\n## Procedure\n\
1. Before scoring the document, first write down 3-6 'conditions a winning entry in this contest should have' in winning_conditions.\n\
2. Then score each criterion. For each item, directly quote the document's original text in evidence, and state in why_not_higher why you did not give a higher score.\n\
3. If you cannot find a quote to cite, that item cannot score above 60.\n\
4. Format, length, and missing required items are handled by a separate automated check — do not factor them into scoring, evaluate content only.\n\n\
## Document to score\n",
    );
    let t = JUDGE_TASK@;
    let p = JUDGE_PROCEDURE@;
    let a = t.take(t.len() - 11);
    let b = p.subrange(2, p.len() - 21);
    assert(t =~= a + "## Format: "@);
    assert(p =~= "\n\n"@ + b + "## Document to score\n"@);
    (a, b)
}

/// The prompt for a judge begins with the task, names the contest, its context and the lens, gives
/// the criteria and the bands, and ends with the document.
pub proof fn law_judge_prompt(sp: Spec, doc: Seq<char>, lens: Seq<char>)
    ensures
        ({
            let p = judge_prompt(sp, doc, lens);
            &&& contains(p, "## Format: "@ + sp.name@ + "\n"@ + sp.context@ + "\n\n"@)
            &&& contains(p, "## This judge's lens\n"@ + lens + "\n\n"@)
            &&& contains(
                p,
                "## Evaluation criteria (integer 0-100 per item)\n"@ + rubric_text(sp.criteria@)
                    + "\n\n"@,
            )
            &&& contains(p, "## Score band guide\n"@ + bands_text(sp.bands@) + "\n\n"@)
            &&& contains(p, "## Document to score\n"@ + wrapped("document"@, doc))
        }),
{
    reveal_strlit("\n\n");
    reveal_strlit("## Format: ");
    reveal_strlit("## This judge's lens\n");
    reveal_strlit("\n\n## This judge's lens\n");
    reveal_strlit("## Evaluation criteria (integer 0-100 per item)\n");
    reveal_strlit("\n\n## Evaluation criteria (integer 0-100 per item)\n");
    reveal_strlit("## Score band guide\n");
    reveal_strlit("\n\n## Score band guide\n");
    reveal_strlit("## Document to score\n");
    let n = "\n\n"@;
    let task = JUDGE_TASK@;
    let procedure = JUDGE_PROCEDURE@;
    let (t, s) = lemma_judge_ends();
    let t1 = "\n\n## This judge's lens\n"@;
    let t2 = "\n\n## Evaluation criteria (integer 0-100 per item)\n"@;
    let t3 = "\n\n## Score band guide\n"@;
    assert(t1 =~= n + "## This judge's lens\n"@);
    assert(t2 =~= n + "## Evaluation criteria (integer 0-100 per item)\n"@);
    assert(t3 =~= n + "## Score band guide\n"@);
    let rubric = rubric_text(sp.criteria@);
    let bands = bands_text(sp.bands@);
    let w = wrapped("document"@, doc);
    let h1 = task + sp.name@ + "\n"@ + sp.context@;
    let h2 = h1 + t1 + lens;
    let h3 = h2 + t2 + rubric;
    let h4 = h3 + t3 + bands;
    let h5 = h4 + procedure;
    let p = judge_prompt(sp, doc, lens);
    assert(p == h5 + w + "\n"@);
    let x1 = "## Format: "@ + sp.name@ + "\n"@ + sp.context@ + n;
    let x2 = "## This judge's lens\n"@ + lens + n;
    let x3 = "## Evaluation criteria (integer 0-100 per item)\n"@ + rubric + n;
    let x4 = "## Score band guide\n"@ + bands + n;
    let x5 = "## Document to score\n"@ + w;
    lemma_all(x1);
    lemma_all(x2);
    lemma_all(x3);
    lemma_all(x4);
    lemma_all(x5);
    // each block ends where the next one begins
    let r1 = "## This judge's lens\n"@ + lens;
    assert(h2 =~= t + x1 + r1);
    law_contained_in_part(t, x1, r1, x1);
    lemma_left(h2, t2 + rubric, x1);
    assert(h2 + (t2 + rubric) =~= h3);
    lemma_left(h3, t3 + bands, x1);
    assert(h3 + (t3 + bands) =~= h4);
    lemma_left(h4, procedure, x1);
    let r2 = "## Evaluation criteria (integer 0-100 per item)\n"@ + rubric;
    assert(h3 =~= (h1 + n) + x2 + r2);
    law_contained_in_part(h1 + n, x2, r2, x2);
    lemma_left(h3, t3 + bands, x2);
    lemma_left(h4, procedure, x2);
    let r3 = "## Score band guide\n"@ + bands;
    assert(h4 =~= (h2 + n) + x3 + r3);
    law_contained_in_part(h2 + n, x3, r3, x3);
    lemma_left(h4, procedure, x3);
    assert(h5 =~= (h3 + n) + x4 + (s + "## Document to score\n"@));
    law_contained_in_part(h3 + n, x4, s + "## Document to score\n"@, x4);
    lemma_left(h5, w, x1);
    lemma_left(h5, w, x2);
    lemma_left(h5, w, x3);
    lemma_left(h5, w, x4);
    assert(h5 + w =~= (h4 + n + s) + x5);
    lemma_right(h4 + n + s, x5, x5);
    lemma_left(h5 + w, "\n"@, x1);
    lemma_left(h5 + w, "\n"@, x2);
    lemma_left(h5 + w, "\n"@, x3);
    lemma_left(h5 + w, "\n"@, x4);
    lemma_left(h5 + w, "\n"@, x5);
}

/// The prompt for a first draft names the contest and its context, the angle where there is one, the
/// idea, the sections, the criteria and the length, where one is asked for.
pub proof fn law_draft_prompt(sp: Spec, idea: Seq<char>, angle: Seq<char>)
    ensures
        ({
            let p = draft_prompt(sp, idea, angle);
            &&& contains(p, "## Format: "@ + sp.name@ + "\n"@ + sp.context@ + "\n\n"@)
            &&& angle.len() > 0 ==> contains(
                p,
                "## "@ + "Differentiating angle for this draft"@ + "\n"@ + angle + "\n\n"@,
            )
            &&& contains(p, "## Original idea material\n"@ + wrapped("idea_material"@, idea))
            &&& contains(
                p,
                "## "@ + "Sections to write"@ + "\n"@ + sections_text(sp.sections@) + "\n\n"@,
            )
            &&& contains(
                p,
                "## "@ + "Evaluation criteria (must keep in mind while writing)"@ + "\n"@
                    + rubric_text(sp.criteria@) + "\n\n"@,
            )
            &&& sp.total_chars > 0 ==> contains(
                p,
                "## "@ + "Overall length"@ + "\n"@ + ("Approx. "@ + decimal(
                    sp.total_chars as nat,
                ) + " characters including spaces"@) + "\n\n"@,
            )
            &&& contains(p, DRAFT_RULES@)
        }),
{
    let p = draft_prompt(sp, idea, angle);
    let w = wrapped("idea_material"@, idea);
    let f = format_block(sp);
    let g = if angle.len() > 0 {
        block("Differentiating angle for this draft"@, angle)
    } else {
        Seq::empty()
    };
    let head = draft_head(sp, angle);
    let tail = draft_tail(sp);
    let a = block("Sections to write"@, sections_text(sp.sections@));
    let b = block(
        "Evaluation criteria (must keep in mind while writing)"@,
        rubric_text(sp.criteria@),
    );
    let size = "Approx. "@ + decimal(sp.total_chars as nat) + " characters including spaces"@;
    let c = if sp.total_chars > 0 {
        block("Overall length"@, size)
    } else {
        Seq::empty()
    };
    lemma_all(f);
    lemma_all(g);
    lemma_all(a);
    lemma_all(b);
    lemma_all(c);
    lemma_all(DRAFT_RULES@);
    lemma_right(DRAFT_TASK@, f, f);
    lemma_left(DRAFT_TASK@ + f, g, f);
    lemma_left(DRAFT_TASK@ + f + g, IDEA_HEADING@, f);
    lemma_right(DRAFT_TASK@ + f, g, g);
    lemma_left(DRAFT_TASK@ + f + g, IDEA_HEADING@, g);
    lemma_left(head, w, f);
    lemma_left(head, w, g);
    lemma_left(head + w, "\n\n"@ + tail, f);
    lemma_left(head + w, "\n\n"@ + tail, g);
    let x = IDEA_HEADING@ + w;
    lemma_all(x);
    assert(head + w =~= (DRAFT_TASK@ + f + g) + x);
    lemma_right(DRAFT_TASK@ + f + g, x, x);
    lemma_left(head + w, "\n\n"@ + tail, x);
    lemma_left(a, b, a);
    lemma_left(a + b, c, a);
    lemma_left(a + b + c, DRAFT_RULES@, a);
    lemma_right(a, b, b);
    lemma_left(a + b, c, b);
    lemma_left(a + b + c, DRAFT_RULES@, b);
    lemma_right(a + b, c, c);
    lemma_left(a + b + c, DRAFT_RULES@, c);
    lemma_right(a + b + c, DRAFT_RULES@, DRAFT_RULES@);
    lemma_tail(head + w, tail, a);
    lemma_tail(head + w, tail, b);
    lemma_tail(head + w, tail, c);
    lemma_tail(head + w, tail, DRAFT_RULES@);
}

proof fn lemma_tail(a: Seq<char>, tail: Seq<char>, x: Seq<char>)
    requires
        contains(tail, x),
    ensures
        contains(a + ("\n\n"@ + tail), x),
{
    lemma_right("\n\n"@, tail, x);
    lemma_right(a, "\n\n"@ + tail, x);
}

/// The prompt for a revision names the contest and its context, the idea, the draft, the feedback,
/// the weak items where there are some, the criteria and the sections.
pub proof fn law_revision_prompt(
    sp: Spec,
    idea: Seq<char>,
    draft: Seq<char>,
    feedback: Seq<char>,
    weak: Seq<char>,
)
    ensures
        ({
            let p = revision_prompt(sp, idea, draft, feedback, weak);
            &&& contains(p, "## Format: "@ + sp.name@ + "\n"@ + sp.context@ + "\n\n"@)
            &&& contains(p, "## Original idea material\n"@ + wrapped("idea_material"@, idea))
            &&& contains(p, "\n\n## Current draft\n"@ + wrapped("current_draft"@, draft))
            &&& contains(
                p,
                "## "@ + "Review feedback (must be incorporated)"@ + "\n"@ + feedback + "\n\n"@,
            )
            &&& weak.len() > 0 ==> contains(
                p,
                "## "@ + "Items with especially low scores"@ + "\n"@ + weak + "\n\n"@,
            )
            &&& contains(
                p,
                "## "@ + "Evaluation criteria"@ + "\n"@ + rubric_text(sp.criteria@) + "\n\n"@,
            )
            &&& contains(
                p,
                "## "@ + "Section structure to preserve"@ + "\n"@ + sections_text(sp.sections@)
                    + "\n\n"@,
            )
            &&& contains(p, REVISION_RULES@)
        }),
{
    let v = wrapped("idea_material"@, idea);
    let w = wrapped("current_draft"@, draft);
    let f = format_block(sp);
    let head = revision_head(sp);
    let start = revision_start(sp, idea);
    let tail = revision_tail(sp, feedback, weak);
    let a = block("Review feedback (must be incorporated)"@, feedback);
    let b = if weak.len() > 0 {
        block("Items with especially low scores"@, weak)
    } else {
        Seq::empty()
    };
    let c = block("Evaluation criteria"@, rubric_text(sp.criteria@));
    let d = block("Section structure to preserve"@, sections_text(sp.sections@));
    let r = REVISION_RULES@;
    lemma_all(f);
    lemma_all(a);
    lemma_all(b);
    lemma_all(c);
    lemma_all(d);
    lemma_all(r);
    lemma_right(REVISION_TASK@, f, f);
    lemma_left(REVISION_TASK@ + f, IDEA_HEADING@, f);
    lemma_left(head, v, f);
    let x = IDEA_HEADING@ + v;
    lemma_all(x);
    assert(head + v =~= (REVISION_TASK@ + f) + x);
    lemma_right(REVISION_TASK@ + f, x, x);
    lemma_left(head + v, DRAFT_HEADING@, f);
    lemma_left(head + v, DRAFT_HEADING@, x);
    lemma_left(start, w, f);
    lemma_left(start, w, x);
    let y = DRAFT_HEADING@ + w;
    lemma_all(y);
    assert(start + w =~= (head + v) + y);
    lemma_right(head + v, y, y);
    lemma_left(start + w, "\n\n"@ + tail, f);
    lemma_left(start + w, "\n\n"@ + tail, x);
    lemma_left(start + w, "\n\n"@ + tail, y);
    lemma_left(a, b, a);
    lemma_left(a + b, c, a);
    lemma_left(a + b + c, d, a);
    lemma_left(a + b + c + d, r, a);
    lemma_right(a, b, b);
    lemma_left(a + b, c, b);
    lemma_left(a + b + c, d, b);
    lemma_left(a + b + c + d, r, b);
    lemma_right(a + b, c, c);
    lemma_left(a + b + c, d, c);
    lemma_left(a + b + c + d, r, c);
    lemma_right(a + b + c, d, d);
    lemma_left(a + b + c + d, r, d);
    lemma_right(a + b + c + d, r, r);
    lemma_tail(start + w, tail, a);
    lemma_tail(start + w, tail, b);
    lemma_tail(start + w, tail, c);
    lemma_tail(start + w, tail, d);
    lemma_tail(start + w, tail, r);
}

} // verus!
